use vstd::prelude::*;
use crate::pattern::{CaptureGroup, CompiledPattern, PatternByte, groups_wf};

verus! {

/// The bytes that capture group matched: where they start in the buffer, and how many.
#[derive(Clone, Copy, Debug, PartialEq, Eq)]
pub struct Capture {
    pub location: usize,
    pub len: usize,
}

/// One occurrence of a pattern: its start offset in the buffer and one capture per group.
#[derive(Clone, Debug)]
pub struct Match {
    pub offset: usize,
    pub captures: Vec<Capture>,
}

/// A buffer byte agrees with every fixed bit of a pattern byte.
pub open spec fn byte_matches(b: u8, p: PatternByte) -> bool {
    b & p.mask == p.value & p.mask
}

/// The pattern occurs in `buf` starting at offset `i`.
pub open spec fn matches_at(buf: Seq<u8>, pat: Seq<PatternByte>, i: int) -> bool {
    &&& 0 <= i
    &&& i + pat.len() <= buf.len()
    &&& forall|j: int| 0 <= j < pat.len() ==> byte_matches(#[trigger] buf[i + j], pat[j])
}

/// The offsets below `n` at which the pattern occurs, in increasing order.
pub open spec fn match_offsets(buf: Seq<u8>, pat: Seq<PatternByte>, n: nat) -> Seq<int>
    decreases n,
{
    if n == 0 {
        seq![]
    } else {
        let prev = match_offsets(buf, pat, (n - 1) as nat);
        if matches_at(buf, pat, n - 1) {
            prev.push(n - 1)
        } else {
            prev
        }
    }
}

/// The captures of a match at `offset`: one per group, at the group's start.
pub open spec fn captures_at(groups: Seq<CaptureGroup>, offset: int) -> Seq<Capture> {
    groups.map_values(
        |g: CaptureGroup| Capture { location: (offset + g.start) as usize, len: g.len },
    )
}

/// The result `r` of scanning `buf` for `p`: exactly the occurrences, in order.
pub open spec fn scan_result(buf: Seq<u8>, p: CompiledPattern, r: Seq<Match>) -> bool {
    let offs = match_offsets(buf, p.bytes@, buf.len());
    &&& r.len() == offs.len()
    &&& forall|k: int|
        0 <= k < r.len() ==> {
            &&& (#[trigger] r[k]).offset == offs[k]
            &&& r[k].captures@ == captures_at(p.groups@, offs[k])
        }
}

/// Every offset that `match_offsets` lists lies below `n`.
proof fn lemma_offsets_below(buf: Seq<u8>, pat: Seq<PatternByte>, n: nat)
    ensures
        forall|k: int|
            0 <= k < match_offsets(buf, pat, n).len() ==> 0 <= #[trigger] match_offsets(
                buf,
                pat,
                n,
            )[k] < n,
    decreases n,
{
    if n > 0 {
        let prev = match_offsets(buf, pat, (n - 1) as nat);
        lemma_offsets_below(buf, pat, (n - 1) as nat);
        assert forall|k: int| 0 <= k < match_offsets(buf, pat, n).len() implies 0
            <= #[trigger] match_offsets(buf, pat, n)[k] < n by {
            if k < prev.len() {
                assert(match_offsets(buf, pat, n)[k] == prev[k]);
            }
        }
    }
}

proof fn lemma_offsets_exact(buf: Seq<u8>, pat: Seq<PatternByte>, n: nat, i: int)
    ensures
        match_offsets(buf, pat, n).contains(i) <==> (0 <= i < n && matches_at(buf, pat, i)),
    decreases n,
{
    if n > 0 {
        let prev = match_offsets(buf, pat, (n - 1) as nat);
        lemma_offsets_exact(buf, pat, (n - 1) as nat, i);
        lemma_offsets_below(buf, pat, (n - 1) as nat);
        if matches_at(buf, pat, n - 1) {
            assert(match_offsets(buf, pat, n)[prev.len() as int] == n - 1);
            if prev.contains(i) {
                let k = choose|k: int| 0 <= k < prev.len() && prev[k] == i;
                assert(match_offsets(buf, pat, n)[k] == i);
            }
        }
    }
}

proof fn lemma_offsets_increasing(buf: Seq<u8>, pat: Seq<PatternByte>, n: nat)
    ensures
        forall|a: int, b: int|
            0 <= a < b < match_offsets(buf, pat, n).len() ==> #[trigger] match_offsets(
                buf,
                pat,
                n,
            )[a] < #[trigger] match_offsets(buf, pat, n)[b],
    decreases n,
{
    if n > 0 {
        let prev = match_offsets(buf, pat, (n - 1) as nat);
        let offs = match_offsets(buf, pat, n);
        lemma_offsets_increasing(buf, pat, (n - 1) as nat);
        lemma_offsets_below(buf, pat, (n - 1) as nat);
        assert forall|a: int, b: int| 0 <= a < b < offs.len() implies #[trigger] offs[a]
            < #[trigger] offs[b] by {
            assert(offs[a] == prev[a]);
            if b < prev.len() {
                assert(offs[b] == prev[b]);
            }
        }
    }
}

/// A scan reports a match at offset `i` exactly when every fixed bit of the pattern
/// agrees with the buffer from `i` on, the whole pattern lying inside the buffer: no
/// false positives and no false negatives against a byte-by-byte check of each offset.
/// Each offset is reported once, in increasing order.
pub proof fn lemma_scan_exact(buf: Seq<u8>, p: CompiledPattern, r: Seq<Match>, i: int)
    requires
        p.wf(),
        scan_result(buf, p, r),
    ensures
        (exists|k: int| 0 <= k < r.len() && (#[trigger] r[k]).offset == i) <==> matches_at(
            buf,
            p.bytes@,
            i,
        ),
        forall|a: int, b: int|
            0 <= a < b < r.len() ==> (#[trigger] r[a]).offset < (#[trigger] r[b]).offset,
{
    let offs = match_offsets(buf, p.bytes@, buf.len());
    lemma_offsets_exact(buf, p.bytes@, buf.len(), i);
    lemma_offsets_increasing(buf, p.bytes@, buf.len());
    assert forall|a: int, b: int| 0 <= a < b < r.len() implies (#[trigger] r[a]).offset < (
    #[trigger] r[b]).offset by {
        assert(r[a].offset == offs[a]);
        assert(r[b].offset == offs[b]);
    }
    if exists|k: int| 0 <= k < r.len() && (#[trigger] r[k]).offset == i {
        let k = choose|k: int| 0 <= k < r.len() && (#[trigger] r[k]).offset == i;
        assert(offs[k] == i);
    }
    if offs.contains(i) {
        let k = choose|k: int| 0 <= k < offs.len() && offs[k] == i;
        assert(r[k].offset == i);
    }
}

/// Every match of a scan carries one capture per capture group of the pattern, and
/// each capture lies inside the bytes that the match spans.
pub proof fn lemma_scan_captures(buf: Seq<u8>, p: CompiledPattern, r: Seq<Match>, k: int)
    requires
        p.wf(),
        buf.len() <= usize::MAX,
        scan_result(buf, p, r),
        0 <= k < r.len(),
    ensures
        r[k].captures@.len() == p.groups@.len(),
        forall|c: int|
            0 <= c < r[k].captures@.len() ==> r[k].offset <= (#[trigger] r[k].captures@[c]).location
                < r[k].offset + p.bytes@.len(),
{
    let offs = match_offsets(buf, p.bytes@, buf.len());
    lemma_offsets_exact(buf, p.bytes@, buf.len(), offs[k]);
    assert(offs.contains(offs[k]));
    assert(r[k].offset == offs[k]);
    assert(r[k].captures@ == captures_at(p.groups@, offs[k]));
    assert(captures_at(p.groups@, offs[k]).len() == p.groups@.len());
    assert forall|c: int| 0 <= c < r[k].captures@.len() implies r[k].offset <= (
    #[trigger] r[k].captures@[c]).location < r[k].offset + p.bytes@.len() by {
        assert(p.groups@[c].len > 0);
        assert(r[k].captures@[c] == captures_at(p.groups@, offs[k])[c]);
    }
}

/// Tests whether the pattern occurs at offset `i`.
fn match_here(buf: &[u8], pat: &Vec<PatternByte>, i: usize) -> (r: bool)
    requires
        i + pat@.len() <= buf@.len(),
    ensures
        r == matches_at(buf@, pat@, i as int),
{
    let blen = buf.len();
    let mut j: usize = 0;
    while j < pat.len()
        invariant
            blen == buf@.len(),
            i + pat@.len() <= buf@.len(),
            0 <= j <= pat@.len(),
            forall|t: int| 0 <= t < j ==> byte_matches(#[trigger] buf@[i + t], pat@[t]),
        decreases pat@.len() - j,
    {
        let pb = pat[j];
        if buf[i + j] & pb.mask != pb.value & pb.mask {
            return false;
        }
        j = j + 1;
    }
    true
}

/// The captures of a match at `offset`.
fn captures_for(groups: &Vec<CaptureGroup>, offset: usize, n_bytes: usize) -> (r: Vec<Capture>)
    requires
        groups_wf(groups@, n_bytes as int),
        offset + n_bytes <= usize::MAX,
    ensures
        r@ == captures_at(groups@, offset as int),
{
    let mut r: Vec<Capture> = Vec::new();
    let mut k: usize = 0;
    while k < groups.len()
        invariant
            groups_wf(groups@, n_bytes as int),
            offset + n_bytes <= usize::MAX,
            0 <= k <= groups@.len(),
            r@ == captures_at(groups@.take(k as int), offset as int),
        decreases groups@.len() - k,
    {
        let g = groups[k];
        assert(groups@[k as int].len > 0);
        r.push(Capture { location: offset + g.start, len: g.len });
        assert(groups@.take(k + 1) =~= groups@.take(k as int).push(g));
        assert(r@ =~= captures_at(groups@.take(k + 1), offset as int));
        k = k + 1;
    }
    assert(groups@.take(k as int) =~= groups@);
    r
}

/// Scans `buf` for every occurrence of `p`, overlapping ones included, in order of offset.
pub fn scan(buf: &[u8], p: &CompiledPattern) -> (r: Vec<Match>)
    requires
        p.wf(),
    ensures
        scan_result(buf@, *p, r@),
{
    let mut r: Vec<Match> = Vec::new();
    let n = p.bytes.len();
    let mut i: usize = 0;
    while i < buf.len()
        invariant
            p.wf(),
            n == p.bytes@.len(),
            0 <= i <= buf@.len(),
            r@.len() == match_offsets(buf@, p.bytes@, i as nat).len(),
            forall|k: int|
                0 <= k < r@.len() ==> {
                    &&& (#[trigger] r@[k]).offset == match_offsets(buf@, p.bytes@, i as nat)[k]
                    &&& r@[k].captures@ == captures_at(
                        p.groups@,
                        match_offsets(buf@, p.bytes@, i as nat)[k],
                    )
                },
        decreases buf@.len() - i,
    {
        let ghost prev = match_offsets(buf@, p.bytes@, i as nat);
        let ghost next = match_offsets(buf@, p.bytes@, (i + 1) as nat);
        let ghost r0 = r@;
        let found = n <= buf.len() - i && match_here(buf, &p.bytes, i);
        if found {
            let caps = captures_for(&p.groups, i, n);
            r.push(Match { offset: i, captures: caps });
        }
        proof {
            assert(found == matches_at(buf@, p.bytes@, i as int));
            assert forall|k: int| 0 <= k < r@.len() implies {
                &&& (#[trigger] r@[k]).offset == next[k]
                &&& r@[k].captures@ == captures_at(p.groups@, next[k])
            } by {
                if k < prev.len() {
                    assert(next[k] == prev[k]);
                    assert(r@[k] == r0[k]);
                    assert(r0[k].offset == prev[k]);
                }
            }
        }
        i = i + 1;
        assert(next == match_offsets(buf@, p.bytes@, i as nat));
    }
    r
}

} // verus!
