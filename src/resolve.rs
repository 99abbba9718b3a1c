use vstd::prelude::*;
use crate::pattern::CompiledPattern;
use crate::scan::{Capture, Match, captures_at, match_offsets, scan};

verus! {

/// How a capture turns into the address of what a pattern locates.
#[derive(Clone, Copy, Debug, PartialEq, Eq, Structural)]
pub enum ResolveMode {
    /// The capture's own address.
    Direct,
    /// A 4-byte little-endian signed displacement at the capture, added to the
    /// address right after it (RIP-relative addressing).
    Relative,
    /// As `Relative`, then the 8-byte little-endian pointer stored at that address.
    Double,
}

/// Why no address could be resolved.
#[derive(Clone, Copy, Debug, PartialEq, Eq)]
pub enum ResolveError {
    /// The pattern did not occur.
    NoMatch,
    /// The pattern occurred more than once.
    Ambiguous,
    /// The match has no capture of the requested index.
    MissingCapture,
    /// The displacement field lies outside the image, or an address leaves the
    /// 64-bit address space.
    OutOfBounds,
    /// The pointer to dereference lies outside the mapped image.
    UnresolvedIndirection,
}

/// The unsigned little-endian value of `s`.
pub open spec fn le_value(s: Seq<u8>) -> nat
    decreases s.len(),
{
    if s.len() == 0 {
        0
    } else {
        (s[0] + 256 * le_value(s.drop_first())) as nat
    }
}

/// 256 to the power `n`.
pub open spec fn byte_limit(n: nat) -> nat
    decreases n,
{
    if n == 0 {
        1
    } else {
        256 * byte_limit((n - 1) as nat)
    }
}

/// A 32-bit value read as two's complement.
pub open spec fn signed32(u: nat) -> int {
    if u >= 0x8000_0000 {
        u - 0x1_0000_0000
    } else {
        u as int
    }
}

/// The displacement stored at offset `at` of the image.
pub open spec fn displacement_at(image: Seq<u8>, at: int) -> int {
    signed32(le_value(image.subrange(at, at + 4)))
}

/// The address that a capture at image offset `loc` stands for, the image being
/// mapped at address `base`.
pub open spec fn target_of(base: int, image: Seq<u8>, loc: int, mode: ResolveMode) -> Result<
    u64,
    ResolveError,
> {
    match mode {
        ResolveMode::Direct => if base + loc <= u64::MAX {
            Ok((base + loc) as u64)
        } else {
            Err(ResolveError::OutOfBounds)
        },
        _ => if loc + 4 > image.len() {
            Err(ResolveError::OutOfBounds)
        } else {
            let t = base + loc + 4 + displacement_at(image, loc);
            if t < 0 || t > u64::MAX {
                Err(ResolveError::OutOfBounds)
            } else if mode == ResolveMode::Relative {
                Ok(t as u64)
            } else if t < base || t - base + 8 > image.len() {
                Err(ResolveError::UnresolvedIndirection)
            } else {
                Ok(le_value(image.subrange(t - base, t - base + 8)) as u64)
            }
        },
    }
}

/// The address resolved from `n` matches whose first one has captures `caps`: exactly
/// one match is needed, and its capture of index `capture`.
pub open spec fn resolve_spec(
    base: int,
    image: Seq<u8>,
    n: nat,
    caps: Seq<Capture>,
    capture: int,
    mode: ResolveMode,
) -> Result<u64, ResolveError> {
    if n == 0 {
        Err(ResolveError::NoMatch)
    } else if n > 1 {
        Err(ResolveError::Ambiguous)
    } else if capture >= caps.len() {
        Err(ResolveError::MissingCapture)
    } else {
        target_of(base, image, caps[capture].location as int, mode)
    }
}

proof fn lemma_byte_limit_mono(m: nat, n: nat)
    requires
        m <= n,
    ensures
        byte_limit(m) <= byte_limit(n),
    decreases n,
{
    if m < n {
        lemma_byte_limit_mono(m, (n - 1) as nat);
    }
}

/// Reads the `width`-byte little-endian value at offset `at`.
fn read_le(image: &[u8], at: usize, width: usize) -> (r: u64)
    requires
        width <= 8,
        at + width <= image@.len(),
    ensures
        r == le_value(image@.subrange(at as int, at + width)),
{
    proof {
        reveal_with_fuel(byte_limit, 9);
        lemma_byte_limit_mono(width as nat, 8);
    }
    let len = image.len();
    let end = at + width;
    let mut acc: u64 = 0;
    let mut k: usize = end;
    while k > at
        invariant
            at <= k <= end,
            end == at + width,
            end <= image@.len(),
            byte_limit((end - at) as nat) <= 0x1_0000_0000_0000_0000,
            acc == le_value(image@.subrange(k as int, end as int)),
            acc < byte_limit((end - k) as nat),
        decreases k - at,
    {
        let ghost m = (end - k) as nat;
        let b = image[k - 1];
        proof {
            lemma_byte_limit_mono(m + 1, (end - at) as nat);
            let l = byte_limit(m);
            assert(acc * 256 + b < 256 * l) by (nonlinear_arith)
                requires
                    acc < l,
                    b < 256,
            ;
            assert(image@.subrange(k - 1, end as int).drop_first() =~= image@.subrange(
                k as int,
                end as int,
            ));
        }
        acc = acc * 256 + b as u64;
        k = k - 1;
    }
    acc
}

/// Resolves the address that capture `loc` of an image mapped at `base` stands for.
fn resolve_capture(base: u64, image: &[u8], loc: usize, mode: ResolveMode) -> (r: Result<
    u64,
    ResolveError,
>)
    ensures
        r == target_of(base as int, image@, loc as int, mode),
{
    let len = image.len();
    match mode {
        ResolveMode::Direct => {
            if loc as u128 + base as u128 <= u64::MAX as u128 {
                Ok(base + loc as u64)
            } else {
                Err(ResolveError::OutOfBounds)
            }
        },
        _ => {
            if loc > len || len - loc < 4 {
                return Err(ResolveError::OutOfBounds);
            }
            let u = read_le(image, loc, 4);
            proof {
                reveal_with_fuel(byte_limit, 5);
                lemma_le_bound(image@.subrange(loc as int, loc + 4));
            }
            let disp: i128 = if u >= 0x8000_0000 {
                u as i128 - 0x1_0000_0000
            } else {
                u as i128
            };
            let t: i128 = base as i128 + loc as i128 + 4 + disp;
            if t < 0 || t > u64::MAX as i128 {
                return Err(ResolveError::OutOfBounds);
            }
            let t = t as u64;
            if mode == ResolveMode::Relative {
                return Ok(t);
            }
            if t < base || t - base > len as u64 || len as u64 - (t - base) < 8 {
                return Err(ResolveError::UnresolvedIndirection);
            }
            let at = (t - base) as usize;
            Ok(read_le(image, at, 8))
        },
    }
}

proof fn lemma_le_bound(s: Seq<u8>)
    ensures
        le_value(s) < byte_limit(s.len()),
    decreases s.len(),
{
    if s.len() > 0 {
        lemma_le_bound(s.drop_first());
        let l = byte_limit(s.drop_first().len());
        let v = le_value(s.drop_first());
        let b = s[0];
        assert(b + 256 * v < 256 * l) by (nonlinear_arith)
            requires
                v < l,
                b < 256,
        ;
    }
}

/// Resolves the address that the scan result `matches` points at, for an image mapped
/// at address `base`: the pattern must have occurred exactly once, and its capture of
/// index `capture` is resolved as `mode` says.
pub fn resolve(
    base: u64,
    image: &[u8],
    matches: &Vec<Match>,
    capture: usize,
    mode: ResolveMode,
) -> (r: Result<u64, ResolveError>)
    ensures
        r == resolve_spec(
            base as int,
            image@,
            matches@.len(),
            if matches@.len() > 0 {
                matches@[0].captures@
            } else {
                seq![]
            },
            capture as int,
            mode,
        ),
{
    if matches.len() == 0 {
        return Err(ResolveError::NoMatch);
    }
    if matches.len() > 1 {
        return Err(ResolveError::Ambiguous);
    }
    if capture >= matches[0].captures.len() {
        return Err(ResolveError::MissingCapture);
    }
    resolve_capture(base, image, matches[0].captures[capture].location, mode)
}

/// Scans the image mapped at address `base` for `p` and resolves capture `capture`
/// of its single occurrence as `mode` says.
pub fn locate(base: u64, image: &[u8], p: &CompiledPattern, capture: usize, mode: ResolveMode) -> (r:
    Result<u64, ResolveError>)
    requires
        p.wf(),
    ensures
        ({
            let offs = match_offsets(image@, p.bytes@, image@.len());
            r == resolve_spec(
                base as int,
                image@,
                offs.len(),
                if offs.len() > 0 {
                    captures_at(p.groups@, offs[0])
                } else {
                    seq![]
                },
                capture as int,
                mode,
            )
        }),
{
    let matches = scan(image, p);
    proof {
        if matches@.len() > 0 {
            assert(matches@[0].offset == match_offsets(image@, p.bytes@, image@.len())[0]);
        }
    }
    resolve(base, image, &matches, capture, mode)
}

/// A displacement field holding the bytes `DE AD BE EF` (the little-endian value
/// -272716322) at offset `x` resolves, in instruction-relative mode, to the address
/// right after the field, `x + 4`, plus that displacement.
pub proof fn lemma_relative_target(base: u64, image: Seq<u8>, x: int)
    requires
        0 <= x,
        x + 4 <= image.len(),
        image[x] == 0xDEu8,
        image[x + 1] == 0xADu8,
        image[x + 2] == 0xBEu8,
        image[x + 3] == 0xEFu8,
        0 <= base + x + 4 - 272716322 <= u64::MAX,
    ensures
        displacement_at(image, x) == -272716322,
        target_of(base as int, image, x, ResolveMode::Relative) == Ok::<u64, ResolveError>(
            (base + x + 4 - 272716322) as u64,
        ),
{
    let s = image.subrange(x, x + 4);
    reveal_with_fuel(le_value, 5);
    assert(s.drop_first().drop_first().drop_first().drop_first().len() == 0);
    assert(le_value(s) == 0xEFBEADDE);
}

} // verus!
