use vstd::prelude::*;

verus! {

/// A named patch: the bytes expected at `offset` of the image, and those to write there.
/// The replacement may be longer than the baseline only when `widens` is set.
#[derive(Debug)]
pub struct Command {
    pub name: String,
    pub offset: usize,
    pub replacement: Vec<u8>,
    pub expected_existing_bytes: Vec<u8>,
    pub widens: bool,
}

/// Where a command ended.
#[derive(Clone, Copy, Debug, PartialEq, Eq, Structural)]
pub enum Outcome {
    /// Its feature flag is off; nothing was read or written.
    Skipped,
    /// The baseline holds but the replacement reaches past the end of the image.
    OutOfRange,
    /// The image differs from the baseline; `index` is the first differing byte, and
    /// `found` is `None` where that byte lies past the end of the image.
    Rejected { index: usize, expected: u8, found: Option<u8> },
    /// The baseline holds but the replacement is longer than it, and the command does
    /// not widen.
    TooLong,
    /// The baseline holds and the replacement may be written.
    Verified,
    /// The baseline held and the replacement was written.
    Applied,
}

/// `buf` holds `exp` from offset `off` on.
pub open spec fn baseline_holds(buf: Seq<u8>, off: int, exp: Seq<u8>) -> bool {
    &&& 0 <= off
    &&& off + exp.len() <= buf.len()
    &&& forall|j: int| 0 <= j < exp.len() ==> buf[off + j] == #[trigger] exp[j]
}

/// `buf` with `rep` written from offset `off` on.
pub open spec fn patched(buf: Seq<u8>, off: int, rep: Seq<u8>) -> Seq<u8> {
    buf.subrange(0, off) + rep + buf.subrange(off + rep.len(), buf.len() as int)
}

/// Both the baseline and the replacement of `c` lie inside an image of `len` bytes.
pub open spec fn fits(len: int, c: Command) -> bool {
    &&& c.offset + c.expected_existing_bytes@.len() <= len
    &&& c.offset + c.replacement@.len() <= len
}

/// The first index from `j` on at which `buf` (from `off` on) differs from `exp`,
/// a byte past the end of `buf` differing from every value; `exp.len()` when there is
/// none.
pub open spec fn mismatch_from(buf: Seq<u8>, off: int, exp: Seq<u8>, j: int) -> int
    decreases exp.len() - j,
{
    if j >= exp.len() || j < 0 {
        exp.len() as int
    } else if off + j >= buf.len() || buf[off + j] != exp[j] {
        j
    } else {
        mismatch_from(buf, off, exp, j + 1)
    }
}

/// Where checking `c` against `buf` ends, when its flag is `enabled`: the baseline is
/// compared first, and only a baseline that holds has its replacement checked for
/// length and for room.
pub open spec fn outcome_of(buf: Seq<u8>, c: Command, enabled: bool) -> Outcome {
    let exp = c.expected_existing_bytes@;
    let m = mismatch_from(buf, c.offset as int, exp, 0);
    if !enabled {
        Outcome::Skipped
    } else if m < exp.len() {
        Outcome::Rejected {
            index: m as usize,
            expected: exp[m],
            found: if c.offset + m < buf.len() {
                Some(buf[c.offset + m])
            } else {
                None
            },
        }
    } else if c.replacement@.len() > exp.len() && !c.widens {
        Outcome::TooLong
    } else if c.offset + c.replacement@.len() > buf.len() {
        Outcome::OutOfRange
    } else {
        Outcome::Verified
    }
}

/// The image after running `c` on `buf`: patched when the check verified, else unchanged.
pub open spec fn effect(buf: Seq<u8>, c: Command, enabled: bool) -> Seq<u8> {
    if outcome_of(buf, c, enabled) == Outcome::Verified {
        patched(buf, c.offset as int, c.replacement@)
    } else {
        buf
    }
}

/// The outcome that running a command reports: a verified check ends applied.
pub open spec fn reported(o: Outcome) -> Outcome {
    if o == Outcome::Verified {
        Outcome::Applied
    } else {
        o
    }
}

/// The flag of command `i`: flags are matched by position, a missing one is off.
pub open spec fn flag_at(flags: Seq<bool>, i: int) -> bool {
    0 <= i < flags.len() && flags[i]
}

/// The image after running the first `n` commands in order.
pub open spec fn run_commands(buf: Seq<u8>, cmds: Seq<Command>, flags: Seq<bool>, n: nat) -> Seq<
    u8,
>
    decreases n,
{
    if n == 0 {
        buf
    } else {
        let prev = run_commands(buf, cmds, flags, (n - 1) as nat);
        effect(prev, cmds[n - 1], flag_at(flags, n - 1))
    }
}

/// `c` with its baseline and replacement swapped: the command that undoes it.
pub open spec fn reversed_spec(c: Command) -> Command {
    Command {
        name: c.name,
        offset: c.offset,
        replacement: c.expected_existing_bytes,
        expected_existing_bytes: c.replacement,
        widens: true,
    }
}

impl Command {
    pub fn new(
        name: String,
        offset: usize,
        replacement_instructions: Vec<u8>,
        expected_existing_bytes: Vec<u8>,
    ) -> (r: Self)
        ensures
            r.name@ == name@,
            r.offset == offset,
            r.replacement@ == replacement_instructions@,
            r.expected_existing_bytes@ == expected_existing_bytes@,
            !r.widens,
    {
        Command {
            name,
            offset,
            replacement: replacement_instructions,
            expected_existing_bytes,
            widens: false,
        }
    }

    /// The same command, allowed to write a replacement longer than its baseline.
    pub fn widening(self) -> (r: Self)
        ensures
            r.name@ == self.name@,
            r.offset == self.offset,
            r.replacement@ == self.replacement@,
            r.expected_existing_bytes@ == self.expected_existing_bytes@,
            r.widens,
    {
        Command { widens: true, ..self }
    }

    /// The command that writes the baseline back over the replacement. It widens: an
    /// undo writes back the whole baseline, however little of it was replaced.
    pub fn reversed(&self) -> (r: Command)
        ensures
            r.name@ == self.name@,
            r.offset == self.offset,
            r.replacement@ == self.expected_existing_bytes@,
            r.expected_existing_bytes@ == self.replacement@,
            r.widens,
    {
        Command {
            name: self.name.clone(),
            offset: self.offset,
            replacement: self.expected_existing_bytes.clone(),
            expected_existing_bytes: self.replacement.clone(),
            widens: true,
        }
    }
}

proof fn lemma_mismatch(buf: Seq<u8>, off: int, exp: Seq<u8>, j: int)
    requires
        0 <= j <= exp.len(),
        0 <= off,
    ensures
        j <= mismatch_from(buf, off, exp, j) <= exp.len(),
        mismatch_from(buf, off, exp, j) < exp.len() ==> (off + mismatch_from(buf, off, exp, j)
            >= buf.len() || buf[off + mismatch_from(buf, off, exp, j)] != exp[mismatch_from(
            buf,
            off,
            exp,
            j,
        )]),
        j < mismatch_from(buf, off, exp, j) ==> off + mismatch_from(buf, off, exp, j) <= buf.len(),
        forall|t: int|
            j <= t < mismatch_from(buf, off, exp, j) ==> buf[off + t] == #[trigger] exp[t],
    decreases exp.len() - j,
{
    if j < exp.len() && off + j < buf.len() && buf[off + j] == exp[j] {
        lemma_mismatch(buf, off, exp, j + 1);
        let m = mismatch_from(buf, off, exp, j);
        assert(m == mismatch_from(buf, off, exp, j + 1));
        assert forall|t: int| j <= t < m implies buf[off + t] == #[trigger] exp[t] by {
            if t > j {
                assert(j + 1 <= t < mismatch_from(buf, off, exp, j + 1));
            }
        }
    } else {
        assert(mismatch_from(buf, off, exp, j) == j);
    }
}

/// A command passes its check exactly when the image holds its baseline, its
/// replacement is allowed and fits; it is rejected exactly when the image (or its end)
/// differs from a non-empty baseline.
proof fn lemma_verified_iff(buf: Seq<u8>, c: Command)
    ensures
        (outcome_of(buf, c, true) == Outcome::Verified) <==> (fits(buf.len() as int, c)
            && baseline_holds(buf, c.offset as int, c.expected_existing_bytes@) && (
        c.replacement@.len() <= c.expected_existing_bytes@.len() || c.widens)),
        (outcome_of(buf, c, true) is Rejected) <==> (c.expected_existing_bytes@.len() > 0
            && !baseline_holds(buf, c.offset as int, c.expected_existing_bytes@)),
{
    let exp = c.expected_existing_bytes@;
    lemma_mismatch(buf, c.offset as int, exp, 0);
    let m = mismatch_from(buf, c.offset as int, exp, 0);
    if m < exp.len() {
        assert(!baseline_holds(buf, c.offset as int, exp));
    } else if exp.len() > 0 {
        let last = exp.len() - 1;
        let e = exp[last];
        assert(0 <= last < m);
        assert(c.offset + last < buf.len());
    }
}

/// Undoing an applied command restores the image: after a command whose replacement is
/// no longer than its baseline has been applied, the reversed command (replacement back
/// to baseline) passes its check and writes the original image back. On that image the
/// original baseline passes again, and the replacement, taken as a baseline, is
/// rejected wherever it differs from the bytes it replaced.
pub proof fn lemma_reverse_restores(buf: Seq<u8>, c: Command)
    requires
        outcome_of(buf, c, true) == Outcome::Verified,
        c.replacement@.len() <= c.expected_existing_bytes@.len(),
    ensures
        outcome_of(effect(buf, c, true), reversed_spec(c), true) == Outcome::Verified,
        effect(effect(buf, c, true), reversed_spec(c), true) == buf,
        outcome_of(effect(effect(buf, c, true), reversed_spec(c), true), c, true)
            == Outcome::Verified,
        c.replacement@ != c.expected_existing_bytes@.take(c.replacement@.len() as int) ==> (
        outcome_of(
            effect(effect(buf, c, true), reversed_spec(c), true),
            reversed_spec(c),
            true,
        ) is Rejected),
{
    let off = c.offset as int;
    let rep = c.replacement@;
    let exp = c.expected_existing_bytes@;
    let rc = reversed_spec(c);
    lemma_verified_iff(buf, c);
    let after = patched(buf, off, rep);
    assert(effect(buf, c, true) == after);
    assert(after.len() == buf.len());
    assert forall|j: int| 0 <= j < rep.len() implies after[off + j] == #[trigger] rep[j] by {}
    lemma_verified_iff(after, rc);
    assert(effect(after, rc, true) == patched(after, off, exp));
    assert(patched(after, off, exp) =~= buf);
    if rep != exp.take(rep.len() as int) {
        lemma_verified_iff(buf, rc);
        if baseline_holds(buf, off, rep) {
            assert(rep =~= exp.take(rep.len() as int));
        }
    }
}

/// Checks command `c` against the image `buf`, touching nothing: `Skipped` when its
/// flag is off; `Rejected` at the first baseline byte that differs from the image or
/// lies past its end; `TooLong` when the replacement is longer than the baseline and
/// the command does not widen; `OutOfRange` when the replacement reaches past the
/// image; else `Verified`.
pub fn check_command(buf: &[u8], c: &Command, enabled: bool) -> (r: Outcome)
    ensures
        r == outcome_of(buf@, *c, enabled),
{
    if !enabled {
        return Outcome::Skipped;
    }
    let len = buf.len();
    let exp = &c.expected_existing_bytes;
    let mut j: usize = 0;
    while j < exp.len()
        invariant
            enabled,
            len == buf@.len(),
            exp@ == c.expected_existing_bytes@,
            0 <= j <= exp@.len(),
            j > 0 ==> c.offset + j <= len,
            mismatch_from(buf@, c.offset as int, exp@, 0) == mismatch_from(
                buf@,
                c.offset as int,
                exp@,
                j as int,
            ),
        decreases exp@.len() - j,
    {
        if c.offset >= len || len - c.offset <= j {
            assert(mismatch_from(buf@, c.offset as int, exp@, j as int) == j);
            return Outcome::Rejected { index: j, expected: exp[j], found: None };
        }
        if buf[c.offset + j] != exp[j] {
            assert(mismatch_from(buf@, c.offset as int, exp@, j as int) == j);
            return Outcome::Rejected {
                index: j,
                expected: exp[j],
                found: Some(buf[c.offset + j]),
            };
        }
        j = j + 1;
    }
    if c.replacement.len() > exp.len() && !c.widens {
        return Outcome::TooLong;
    }
    if c.offset > len || len - c.offset < c.replacement.len() {
        return Outcome::OutOfRange;
    }
    Outcome::Verified
}

/// Writes `rep` into `buf` from offset `off` on.
fn write_bytes(buf: &mut Vec<u8>, off: usize, rep: &Vec<u8>)
    requires
        off + rep@.len() <= old(buf)@.len(),
    ensures
        final(buf)@ == patched(old(buf)@, off as int, rep@),
{
    let n = buf.len();
    let mut j: usize = 0;
    while j < rep.len()
        invariant
            n == buf@.len(),
            off + rep@.len() <= buf@.len(),
            buf@.len() == old(buf)@.len(),
            0 <= j <= rep@.len(),
            forall|t: int| 0 <= t < off ==> buf@[t] == old(buf)@[t],
            forall|t: int| off + j <= t < buf@.len() ==> buf@[t] == old(buf)@[t],
            forall|t: int| off <= t < off + j ==> buf@[t] == rep@[t - off],
        decreases rep@.len() - j,
    {
        buf.set(off + j, rep[j]);
        j = j + 1;
    }
    assert(buf@ =~= patched(old(buf)@, off as int, rep@));
}

/// Runs command `c` on the image `buf`: the replacement is written only when the flag
/// is on, every baseline byte matches, and the replacement is allowed and fits; the
/// image is otherwise left as it was. A baseline that differs from the image, or runs
/// past its end, is always rejected.
pub fn apply_command(buf: &mut Vec<u8>, c: &Command, enabled: bool) -> (r: Outcome)
    ensures
        r == reported(outcome_of(old(buf)@, *c, enabled)),
        final(buf)@ == effect(old(buf)@, *c, enabled),
        r != Outcome::Applied ==> final(buf)@ == old(buf)@,
        !enabled ==> r == Outcome::Skipped,
        enabled && c.expected_existing_bytes@.len() > 0 && !baseline_holds(
            old(buf)@,
            c.offset as int,
            c.expected_existing_bytes@,
        ) ==> r is Rejected,
        enabled && fits(old(buf)@.len() as int, *c) && baseline_holds(
            old(buf)@,
            c.offset as int,
            c.expected_existing_bytes@,
        ) && (c.replacement@.len() <= c.expected_existing_bytes@.len() || c.widens) ==> r
            == Outcome::Applied,
{
    proof {
        lemma_verified_iff(old(buf)@, *c);
    }
    let o = check_command(buf.as_slice(), c, enabled);
    if o == Outcome::Verified {
        write_bytes(buf, c.offset, &c.replacement);
        Outcome::Applied
    } else {
        o
    }
}

/// Runs each command in order on `buf`, command `i` under `flags[i]` (off when missing),
/// and reports one outcome per command; one command's rejection does not stop the rest.
pub fn execute(buf: &mut Vec<u8>, cmds: &Vec<Command>, flags: &Vec<bool>) -> (r: Vec<Outcome>)
    ensures
        r@.len() == cmds@.len(),
        final(buf)@ == run_commands(old(buf)@, cmds@, flags@, cmds@.len()),
        forall|i: int|
            0 <= i < cmds@.len() ==> #[trigger] r@[i] == reported(
                outcome_of(
                    run_commands(old(buf)@, cmds@, flags@, i as nat),
                    cmds@[i],
                    flag_at(flags@, i),
                ),
            ),
{
    let mut r: Vec<Outcome> = Vec::new();
    let mut i: usize = 0;
    while i < cmds.len()
        invariant
            0 <= i <= cmds@.len(),
            r@.len() == i,
            buf@ == run_commands(old(buf)@, cmds@, flags@, i as nat),
            forall|k: int|
                0 <= k < i ==> #[trigger] r@[k] == reported(
                    outcome_of(
                        run_commands(old(buf)@, cmds@, flags@, k as nat),
                        cmds@[k],
                        flag_at(flags@, k),
                    ),
                ),
        decreases cmds@.len() - i,
    {
        let enabled = i < flags.len() && flags[i];
        let o = apply_command(buf, &cmds[i], enabled);
        r.push(o);
        i = i + 1;
    }
    r
}

} // verus!
