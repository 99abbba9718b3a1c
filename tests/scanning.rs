use aob_patch::pattern::{compile, PatternSyntaxError};
use aob_patch::scan::scan;

#[test]
fn two_plain_matches() {
    let p = compile("11110000 ........").unwrap();
    let m = scan(&[0xF0, 0x12, 0xF0, 0x34], &p);
    let offsets: Vec<usize> = m.iter().map(|x| x.offset).collect();
    assert_eq!(offsets, vec![0, 2]);
    assert!(m.iter().all(|x| x.captures.is_empty()));
}

#[test]
fn two_matches_with_captures() {
    let p = compile("[11110000] ........").unwrap();
    let m = scan(&[0xF0, 0x12, 0xF0, 0x34], &p);
    assert_eq!(m.len(), 2);
    assert_eq!(m[0].offset, 0);
    assert_eq!(m[0].captures.len(), 1);
    assert_eq!(m[0].captures[0].location, 0);
    assert_eq!(m[0].captures[0].len, 1);
    assert_eq!(m[1].offset, 2);
    assert_eq!(m[1].captures[0].location, 2);
}

#[test]
fn capture_in_middle_reports_absolute_location() {
    let p = compile("01001000 [........ ........] 11000011").unwrap();
    let buf = [0x00, 0x48, 0xAA, 0xBB, 0xC3, 0x48, 0x01, 0x02, 0xC3];
    let m = scan(&buf, &p);
    assert_eq!(m.len(), 2);
    assert_eq!(m[0].offset, 1);
    assert_eq!(m[0].captures[0].location, 2);
    assert_eq!(m[0].captures[0].len, 2);
    assert_eq!(m[1].offset, 5);
    assert_eq!(m[1].captures[0].location, 6);
}

#[test]
fn wildcard_bits_match_either_value() {
    let p = compile("01001...").unwrap();
    assert_eq!(p.bytes[0].value, 0x48);
    assert_eq!(p.bytes[0].mask, 0xF8);
    let m = scan(&[0x48, 0x4F, 0x50, 0x4C], &p);
    let offsets: Vec<usize> = m.iter().map(|x| x.offset).collect();
    assert_eq!(offsets, vec![0, 1, 3]);
}

#[test]
fn overlapping_matches_each_reported() {
    let p = compile("........ ........").unwrap();
    let m = scan(&[1, 2, 3, 4], &p);
    let offsets: Vec<usize> = m.iter().map(|x| x.offset).collect();
    assert_eq!(offsets, vec![0, 1, 2]);
}

#[test]
fn no_match_is_empty() {
    let p = compile("11111111").unwrap();
    assert!(scan(&[0, 1, 2], &p).is_empty());
    assert!(scan(&[], &p).is_empty());
}

#[test]
fn pattern_longer_than_buffer_never_matches() {
    let p = compile("........ ........ ........").unwrap();
    assert!(scan(&[1, 2], &p).is_empty());
}

#[test]
fn adjacent_bytes_without_space() {
    let p = compile("0000000000111000").unwrap();
    assert_eq!(p.byte_len(), 2);
    assert_eq!(p.bytes[1].value, 0x38);
    assert_eq!(p.bytes[1].mask, 0xFF);
}

#[test]
fn multiple_groups_left_to_right() {
    let p = compile("[11110000] 00000000 [........ ........]").unwrap();
    assert_eq!(p.group_count(), 2);
    let m = scan(&[0xF0, 0x00, 0x07, 0x08], &p);
    assert_eq!(m.len(), 1);
    assert_eq!(m[0].captures[0].location, 0);
    assert_eq!(m[0].captures[0].len, 1);
    assert_eq!(m[0].captures[1].location, 2);
    assert_eq!(m[0].captures[1].len, 2);
}

#[test]
fn long_instruction_pattern_compiles() {
    let text = [
        "01001... 10001011 01000011 00001000",
        "01001... 10001001 10001000 11001000 00000000 00000000 00000000",
        "00111000 00001101 ........ ........ ........ ........",
        "01110101 ........",
        "11101000 ........ ........ ........ ........",
        "10001000 00000101 ........ ........ ........ ........",
        "10001000 00000101 ........ ........ ........ ........",
        "[10001000 00000101 ........ ........ ........ ........]",
    ]
    .join("");
    let p = compile(&text).unwrap();
    assert_eq!(p.byte_len(), 42);
    assert_eq!(p.group_count(), 1);
    assert_eq!(p.groups[0].start, 36);
    assert_eq!(p.groups[0].len, 6);
}

#[test]
fn short_byte_is_rejected() {
    assert_eq!(compile("1111000").unwrap_err(), PatternSyntaxError::BadBitCount);
    assert_eq!(compile("1111000 11110000").unwrap_err(), PatternSyntaxError::BadBitCount);
    assert_eq!(compile("[1111000]").unwrap_err(), PatternSyntaxError::BadBitCount);
}

#[test]
fn unknown_character_is_rejected() {
    assert_eq!(compile("1111x000").unwrap_err(), PatternSyntaxError::UnknownChar);
    assert_eq!(compile("48 8B").unwrap_err(), PatternSyntaxError::UnknownChar);
}

#[test]
fn unbalanced_brackets_are_rejected() {
    assert_eq!(compile("[11110000").unwrap_err(), PatternSyntaxError::UnbalancedBracket);
    assert_eq!(compile("11110000]").unwrap_err(), PatternSyntaxError::UnbalancedBracket);
    assert_eq!(compile("[[11110000]]").unwrap_err(), PatternSyntaxError::UnbalancedBracket);
}

#[test]
fn empty_group_is_rejected() {
    assert_eq!(compile("11110000 []").unwrap_err(), PatternSyntaxError::EmptyGroup);
}

#[test]
fn scan_agrees_with_byte_by_byte_check() {
    let p = compile("1.1..... ......01").unwrap();
    let buf: Vec<u8> = (0..=255u8).collect();
    let got: Vec<usize> = scan(&buf, &p).iter().map(|m| m.offset).collect();
    let mut want = Vec::new();
    for i in 0..buf.len() - 1 {
        if buf[i] & 0xA0 == 0xA0 && buf[i + 1] & 0x03 == 0x01 {
            want.push(i);
        }
    }
    assert_eq!(got, want);
}

#[test]
fn empty_pattern_is_rejected() {
    assert_eq!(compile("").unwrap_err(), PatternSyntaxError::EmptyPattern);
    assert_eq!(compile("  \t ").unwrap_err(), PatternSyntaxError::EmptyPattern);
}
