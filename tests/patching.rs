use aob_patch::patch::{apply_command, check_command, execute, Command, Outcome};

fn cmd(offset: usize, replacement: Vec<u8>, expected: Vec<u8>) -> Command {
    Command::new("test command".to_string(), offset, replacement, expected)
}

#[test]
fn disabled_command_is_skipped() {
    let mut buf = vec![0x48, 0x85, 0xd2, 0x00];
    let before = buf.clone();
    let r = apply_command(&mut buf, &cmd(0, vec![0xc3, 0x90, 0x90], vec![0x48, 0x85, 0xd2]), false);
    assert_eq!(r, Outcome::Skipped);
    assert_eq!(buf, before);
}

#[test]
fn stale_baseline_is_rejected() {
    let mut buf = vec![0x00, 0x74, 0x07];
    let before = buf.clone();
    let r = apply_command(&mut buf, &cmd(1, vec![0xeb, 0x06], vec![0x74, 0x06]), true);
    assert_eq!(r, Outcome::Rejected { index: 1, expected: 0x06, found: Some(0x07) });
    assert_eq!(buf, before);
}

#[test]
fn matching_baseline_is_applied() {
    let mut buf = vec![0x00, 0x74, 0x06, 0x11];
    let r = apply_command(&mut buf, &cmd(1, vec![0xeb, 0x06], vec![0x74, 0x06]), true);
    assert_eq!(r, Outcome::Applied);
    assert_eq!(buf, vec![0x00, 0xeb, 0x06, 0x11]);
}

#[test]
fn shorter_replacement_writes_only_its_bytes() {
    let mut buf = vec![0x48, 0x85, 0xd2, 0x55];
    let r = apply_command(&mut buf, &cmd(0, vec![0xc3], vec![0x48, 0x85, 0xd2]), true);
    assert_eq!(r, Outcome::Applied);
    assert_eq!(buf, vec![0xc3, 0x85, 0xd2, 0x55]);
}

#[test]
fn command_past_end_is_out_of_range() {
    let mut buf = vec![0x74, 0x06];
    let r = apply_command(&mut buf, &cmd(1, vec![0xeb, 0x06], vec![0x06]).widening(), true);
    assert_eq!(r, Outcome::OutOfRange);
    assert_eq!(buf, vec![0x74, 0x06]);
    assert_eq!(check_command(&buf, &cmd(3, vec![], vec![]), true), Outcome::OutOfRange);
}

#[test]
fn check_touches_nothing() {
    let buf = vec![0x74, 0x06];
    assert_eq!(check_command(&buf, &cmd(0, vec![0xeb, 0x06], vec![0x74, 0x06]), true), Outcome::Verified);
    assert_eq!(check_command(&buf, &cmd(0, vec![0xeb, 0x06], vec![0x74, 0x06]), false), Outcome::Skipped);
}

#[test]
fn commands_run_independently_with_positional_flags() {
    let mut buf = vec![0x48, 0x85, 0xd2, 0x66, 0x74, 0x06, 0x74, 0x06];
    let cmds = vec![
        cmd(0, vec![0xc3, 0x90, 0x90], vec![0x48, 0x85, 0xd2]),
        cmd(3, vec![0x00], vec![0x67]),
        cmd(4, vec![0xeb, 0x06], vec![0x74, 0x06]),
        cmd(6, vec![0xeb, 0x06], vec![0x74, 0x06]),
    ];
    let r = execute(&mut buf, &cmds, &vec![true, true, false]);
    assert_eq!(
        r,
        vec![
            Outcome::Applied,
            Outcome::Rejected { index: 0, expected: 0x67, found: Some(0x66) },
            Outcome::Skipped,
            Outcome::Skipped,
        ]
    );
    assert_eq!(buf, vec![0xc3, 0x90, 0x90, 0x66, 0x74, 0x06, 0x74, 0x06]);
}

#[test]
fn reversed_command_restores_image() {
    let original = vec![0x10, 0x74, 0x06, 0x20];
    let mut buf = original.clone();
    let c = cmd(1, vec![0xeb, 0x06], vec![0x74, 0x06]);
    assert_eq!(apply_command(&mut buf, &c, true), Outcome::Applied);
    let rev = c.reversed();
    assert_eq!(rev.replacement, vec![0x74, 0x06]);
    assert_eq!(rev.expected_existing_bytes, vec![0xeb, 0x06]);
    assert_eq!(apply_command(&mut buf, &rev, true), Outcome::Applied);
    assert_eq!(buf, original);
    assert_eq!(check_command(&buf, &c, true), Outcome::Verified);
    assert_eq!(
        check_command(&buf, &rev, true),
        Outcome::Rejected { index: 0, expected: 0xeb, found: Some(0x74) }
    );
}

#[test]
fn stale_baseline_is_rejected_before_replacement_length() {
    let mut buf = vec![0x00];
    let r = apply_command(&mut buf, &cmd(0, vec![0x01, 0x02], vec![0x01]), true);
    assert_eq!(r, Outcome::Rejected { index: 0, expected: 0x01, found: Some(0x00) });
    assert_eq!(buf, vec![0x00]);
}

#[test]
fn long_replacement_after_good_baseline_is_out_of_range() {
    let mut buf = vec![0x01];
    let r = apply_command(&mut buf, &cmd(0, vec![0x01, 0x02], vec![0x01]).widening(), true);
    assert_eq!(r, Outcome::OutOfRange);
    assert_eq!(buf, vec![0x01]);
}

#[test]
fn baseline_past_end_differing_inside_is_rejected() {
    let mut buf = vec![1, 2];
    let r = apply_command(&mut buf, &cmd(1, vec![0, 0], vec![9, 9]), true);
    assert_eq!(r, Outcome::Rejected { index: 0, expected: 9, found: Some(2) });
    assert_eq!(buf, vec![1, 2]);
}

#[test]
fn baseline_past_end_is_rejected_where_image_ends() {
    let mut buf = vec![1, 2];
    let r = apply_command(&mut buf, &cmd(1, vec![0, 0], vec![2, 9]), true);
    assert_eq!(r, Outcome::Rejected { index: 1, expected: 9, found: None });
    assert_eq!(buf, vec![1, 2]);
    let r = apply_command(&mut buf, &cmd(5, vec![0], vec![1]), true);
    assert_eq!(r, Outcome::Rejected { index: 0, expected: 1, found: None });
    assert_eq!(buf, vec![1, 2]);
}

#[test]
fn longer_replacement_needs_widening() {
    let mut buf = vec![0x74, 0x06, 0x90];
    let c = cmd(0, vec![0xeb, 0x06, 0xcc], vec![0x74, 0x06]);
    assert!(!c.widens);
    assert_eq!(apply_command(&mut buf, &c, true), Outcome::TooLong);
    assert_eq!(buf, vec![0x74, 0x06, 0x90]);
    let w = c.widening();
    assert!(w.widens);
    assert_eq!(apply_command(&mut buf, &w, true), Outcome::Applied);
    assert_eq!(buf, vec![0xeb, 0x06, 0xcc]);
}
