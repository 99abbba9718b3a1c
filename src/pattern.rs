use vstd::prelude::*;
use vstd::string::StringSliceAdditionalSpecFns;

verus! {

/// One compiled pattern byte: a buffer byte `b` matches when `b & mask == value`.
/// A mask bit of 1 marks a fixed bit, a mask bit of 0 a wildcard bit.
#[derive(Clone, Copy, Debug, PartialEq, Eq)]
pub struct PatternByte {
    pub value: u8,
    pub mask: u8,
}

/// A capture group: `len` consecutive pattern bytes starting at pattern byte `start`.
#[derive(Clone, Copy, Debug, PartialEq, Eq)]
pub struct CaptureGroup {
    pub start: usize,
    pub len: usize,
}

/// Why a textual pattern could not be compiled.
#[derive(Clone, Copy, Debug, PartialEq, Eq)]
pub enum PatternSyntaxError {
    /// A run of bit characters whose length is not a multiple of eight.
    BadBitCount,
    /// A character other than `0`, `1`, `.`, `[`, `]` or whitespace.
    UnknownChar,
    /// A `[` inside an open group, a `]` without an open group, or a group left open.
    UnbalancedBracket,
    /// A group `[]` that holds no byte.
    EmptyGroup,
    /// A pattern that holds no byte.
    EmptyPattern,
}

/// A pattern compiled into one value/mask pair per byte, plus its capture groups.
#[derive(Clone, Debug)]
pub struct CompiledPattern {
    pub bytes: Vec<PatternByte>,
    pub groups: Vec<CaptureGroup>,
}

/// Capture groups lie inside the pattern, hold at least one byte, and come in
/// left-to-right order without overlapping.
pub open spec fn groups_wf(groups: Seq<CaptureGroup>, n_bytes: int) -> bool {
    &&& forall|k: int|
        0 <= k < groups.len() ==> {
            &&& #[trigger] groups[k].len > 0
            &&& groups[k].start + groups[k].len <= n_bytes
        }
    &&& forall|k: int|
        0 <= k < groups.len() - 1 ==> #[trigger] groups[k].start + groups[k].len <= groups[k
            + 1].start
}

impl CompiledPattern {
    /// At least one byte, and well-formed capture groups.
    pub open spec fn wf(&self) -> bool {
        &&& self.bytes@.len() > 0
        &&& groups_wf(self.groups@, self.bytes@.len() as int)
    }

    /// Number of bytes a match spans.
    pub fn byte_len(&self) -> (r: usize)
        ensures
            r == self.bytes@.len(),
    {
        self.bytes.len()
    }

    /// Number of capture groups, i.e. number of captures in every match.
    pub fn group_count(&self) -> (r: usize)
        ensures
            r == self.groups@.len(),
    {
        self.groups.len()
    }
}

/// The state of the pattern grammar after reading a prefix of the text.
pub ghost struct ParseState {
    pub bytes: Seq<PatternByte>,
    pub groups: Seq<CaptureGroup>,
    /// Start (in pattern bytes) of the group that is open, if any.
    pub open: Option<nat>,
    /// Bits read of the byte under construction (0 to 7).
    pub bits: nat,
    pub value: nat,
    pub mask: nat,
}

/// `2` to the power `bits`, for the bit counts of one byte.
pub open spec fn bit_limit(bits: nat) -> nat {
    if bits == 0 {
        1
    } else if bits == 1 {
        2
    } else if bits == 2 {
        4
    } else if bits == 3 {
        8
    } else if bits == 4 {
        16
    } else if bits == 5 {
        32
    } else if bits == 6 {
        64
    } else if bits == 7 {
        128
    } else {
        256
    }
}

pub open spec fn initial_state() -> ParseState {
    ParseState { bytes: seq![], groups: seq![], open: None, bits: 0, value: 0, mask: 0 }
}

pub open spec fn is_space(c: u8) -> bool {
    c == 0x20u8 || c == 0x09u8 || c == 0x0au8 || c == 0x0du8
}

/// Reads one bit specifier: `fixed` tells whether the bit is fixed, `bit` its value.
pub open spec fn push_bit(st: ParseState, fixed: bool, bit: nat) -> ParseState {
    let value = st.value * 2 + bit;
    let mask = st.mask * 2 + if fixed {
        1nat
    } else {
        0nat
    };
    if st.bits == 7 {
        ParseState {
            bytes: st.bytes.push(PatternByte { value: value as u8, mask: mask as u8 }),
            bits: 0,
            value: 0,
            mask: 0,
            ..st
        }
    } else {
        ParseState { bits: st.bits + 1, value, mask, ..st }
    }
}

/// One character of the pattern grammar. Whitespace and brackets may only stand
/// between whole bytes; brackets open and close non-nested, non-empty groups.
pub open spec fn step(st: ParseState, c: u8) -> Result<ParseState, PatternSyntaxError> {
    if c == 0x30u8 {
        Ok(push_bit(st, true, 0))
    } else if c == 0x31u8 {
        Ok(push_bit(st, true, 1))
    } else if c == 0x2eu8 {
        Ok(push_bit(st, false, 0))
    } else if !(is_space(c) || c == 0x5bu8 || c == 0x5du8) {
        Err(PatternSyntaxError::UnknownChar)
    } else if st.bits != 0 {
        Err(PatternSyntaxError::BadBitCount)
    } else if is_space(c) {
        Ok(st)
    } else if c == 0x5bu8 {
        if st.open is Some {
            Err(PatternSyntaxError::UnbalancedBracket)
        } else {
            Ok(ParseState { open: Some(st.bytes.len()), ..st })
        }
    } else {
        match st.open {
            None => Err(PatternSyntaxError::UnbalancedBracket),
            Some(start) => if start == st.bytes.len() {
                Err(PatternSyntaxError::EmptyGroup)
            } else {
                Ok(
                    ParseState {
                        groups: st.groups.push(
                            CaptureGroup {
                                start: start as usize,
                                len: (st.bytes.len() - start) as usize,
                            },
                        ),
                        open: None,
                        ..st
                    },
                )
            },
        }
    }
}

/// The grammar's state after reading all of `s`, or the first error met.
pub open spec fn parse_prefix(s: Seq<u8>) -> Result<ParseState, PatternSyntaxError>
    decreases s.len(),
{
    if s.len() == 0 {
        Ok(initial_state())
    } else {
        match parse_prefix(s.drop_last()) {
            Ok(st) => step(st, s.last()),
            Err(e) => Err(e),
        }
    }
}

/// What the pattern text `s` (its UTF-8 bytes) compiles to: its bytes and capture groups.
pub open spec fn parse_pattern(s: Seq<u8>) -> Result<
    (Seq<PatternByte>, Seq<CaptureGroup>),
    PatternSyntaxError,
> {
    match parse_prefix(s) {
        Err(e) => Err(e),
        Ok(st) => if st.bits != 0 {
            Err(PatternSyntaxError::BadBitCount)
        } else if st.open is Some {
            Err(PatternSyntaxError::UnbalancedBracket)
        } else if st.bytes.len() == 0 {
            Err(PatternSyntaxError::EmptyPattern)
        } else {
            Ok((st.bytes, st.groups))
        },
    }
}

proof fn lemma_error_sticks(s: Seq<u8>, i: int)
    requires
        0 <= i <= s.len(),
        parse_prefix(s.take(i)) is Err,
    ensures
        parse_prefix(s) == parse_prefix(s.take(i)),
    decreases s.len(),
{
    if i == s.len() {
        assert(s.take(i) =~= s);
    } else {
        assert(s.drop_last().take(i) =~= s.take(i));
        lemma_error_sticks(s.drop_last(), i);
    }
}

/// Compiles a textual bit pattern such as `"01001... [10001000 ........]"`.
pub fn compile(text: &str) -> (r: Result<CompiledPattern, PatternSyntaxError>)
    ensures
        match r {
            Ok(p) => p.wf() && parse_pattern(text.spec_bytes()) == Ok::<
                (Seq<PatternByte>, Seq<CaptureGroup>),
                PatternSyntaxError,
            >((p.bytes@, p.groups@)),
            Err(e) => parse_pattern(text.spec_bytes()) == Err::<
                (Seq<PatternByte>, Seq<CaptureGroup>),
                PatternSyntaxError,
            >(e),
        },
{
    let s: &[u8] = text.as_bytes();
    let ghost sv = s@;
    let mut bytes: Vec<PatternByte> = Vec::new();
    let mut groups: Vec<CaptureGroup> = Vec::new();
    let mut open: Option<usize> = None;
    let mut bits: u32 = 0;
    let mut value: u32 = 0;
    let mut mask: u32 = 0;
    let mut i: usize = 0;
    while i < s.len()
        invariant
            sv == s@,
            sv == text.spec_bytes(),
            0 <= i <= s@.len(),
            bits < 8,
            value < bit_limit(bits as nat),
            mask < bit_limit(bits as nat),
            groups_wf(groups@, bytes@.len() as int),
            groups@.len() > 0 ==> groups@.last().start + groups@.last().len <= (match open {
                Some(o) => o as int,
                None => bytes@.len() as int,
            }),
            match open {
                Some(o) => o <= bytes@.len(),
                None => true,
            },
            bytes@.len() <= i,
            parse_prefix(sv.take(i as int)) == Ok::<ParseState, PatternSyntaxError>(
                ParseState {
                    bytes: bytes@,
                    groups: groups@,
                    open: match open {
                        Some(o) => Some(o as nat),
                        None => None,
                    },
                    bits: bits as nat,
                    value: value as nat,
                    mask: mask as nat,
                },
            ),
        decreases s@.len() - i,
    {
        let c = s[i];
        let ghost before = sv.take(i as int);
        assert(sv.take(i + 1).drop_last() =~= before);
        if c == 0x30u8 || c == 0x31u8 || c == 0x2eu8 {
            let fixed: u32 = if c == 0x2eu8 {
                0
            } else {
                1
            };
            let bit: u32 = if c == 0x31u8 {
                1
            } else {
                0
            };
            value = value * 2 + bit;
            mask = mask * 2 + fixed;
            if bits == 7 {
                bytes.push(PatternByte { value: value as u8, mask: mask as u8 });
                bits = 0;
                value = 0;
                mask = 0;
            } else {
                bits = bits + 1;
            }
        } else if !(c == 0x20u8 || c == 0x09u8 || c == 0x0au8 || c == 0x0du8 || c == 0x5bu8 || c
            == 0x5du8) {
            proof {
                lemma_error_sticks(sv, i + 1);
            }
            return Err(PatternSyntaxError::UnknownChar);
        } else if bits != 0 {
            proof {
                lemma_error_sticks(sv, i + 1);
            }
            return Err(PatternSyntaxError::BadBitCount);
        } else if c == 0x5bu8 {
            if open.is_some() {
                proof {
                    lemma_error_sticks(sv, i + 1);
                }
                return Err(PatternSyntaxError::UnbalancedBracket);
            }
            open = Some(bytes.len());
        } else if c == 0x5du8 {
            match open {
                None => {
                    proof {
                        lemma_error_sticks(sv, i + 1);
                    }
                    return Err(PatternSyntaxError::UnbalancedBracket);
                },
                Some(start) => {
                    if start == bytes.len() {
                        proof {
                            lemma_error_sticks(sv, i + 1);
                        }
                        return Err(PatternSyntaxError::EmptyGroup);
                    }
                    groups.push(CaptureGroup { start, len: bytes.len() - start });
                    open = None;
                },
            }
        }
        i = i + 1;
    }
    assert(sv.take(i as int) =~= sv);
    if bits != 0 {
        return Err(PatternSyntaxError::BadBitCount);
    }
    if open.is_some() {
        return Err(PatternSyntaxError::UnbalancedBracket);
    }
    if bytes.len() == 0 {
        return Err(PatternSyntaxError::EmptyPattern);
    }
    Ok(CompiledPattern { bytes, groups })
}

} // verus!
