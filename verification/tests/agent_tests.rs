use blit::agent::{capture_size, exit_code_from_status, format_exit_status, parse_escapes, parse_signal};

#[test]
fn parse_escapes_plain() {
    assert_eq!(parse_escapes("hello"), b"hello");
}

#[test]
fn parse_escapes_newline() {
    assert_eq!(parse_escapes("a\\nb"), b"a\nb");
}

#[test]
fn parse_escapes_tab() {
    assert_eq!(parse_escapes("a\\tb"), b"a\tb");
}

#[test]
fn parse_escapes_backslash() {
    assert_eq!(parse_escapes("a\\\\b"), b"a\\b");
}

#[test]
fn parse_escapes_hex() {
    assert_eq!(parse_escapes("\\x1b[A"), &[0x1b, b'[', b'A']);
}

#[test]
fn parse_escapes_carriage_return() {
    assert_eq!(parse_escapes("\\r"), b"\r");
}

#[test]
fn parse_escapes_nul() {
    assert_eq!(parse_escapes("\\0"), &[0]);
}

#[test]
fn parse_escapes_mixed() {
    assert_eq!(parse_escapes("echo hello\\n"), b"echo hello\n");
}

#[test]
fn parse_escapes_bad_hex_is_literal() {
    assert_eq!(parse_escapes("\\xZZ"), b"\\xZZ");
    assert_eq!(parse_escapes("\\x1"), b"\\x1");
    assert_eq!(parse_escapes("\\q"), b"\\q");
    assert_eq!(parse_escapes("end\\"), b"end\\");
}

#[test]
fn capture_size_defaults() {
    assert_eq!(capture_size(None, None), None);
    assert_eq!(capture_size(Some(30), None), Some((30, 80)));
    assert_eq!(capture_size(None, Some(100)), Some((24, 100)));
    assert_eq!(capture_size(Some(5), Some(6)), Some((5, 6)));
}

#[test]
fn parse_signal_numbers_and_names() {
    assert_eq!(parse_signal("9"), Ok(9));
    assert_eq!(parse_signal("-3"), Ok(-3));
    assert_eq!(parse_signal("+15"), Ok(15));
    assert_eq!(parse_signal("TERM"), Ok(15));
    assert_eq!(parse_signal("SIGKILL"), Ok(9));
    assert_eq!(parse_signal("SIGUSR2"), Ok(12));
    assert_eq!(parse_signal("STOP"), Ok(19));
    assert_eq!(parse_signal("BOGUS"), Err("unknown signal: BOGUS".to_string()));
    assert_eq!(parse_signal("99999999999"), Err("unknown signal: 99999999999".to_string()));
    assert_eq!(parse_signal("-2147483648"), Ok(i32::MIN));
    assert_eq!(parse_signal(""), Err("unknown signal: ".to_string()));
}

#[test]
fn exit_status_reporting() {
    let unknown = i32::MIN;
    assert_eq!(format_exit_status(unknown, unknown), "exited");
    assert_eq!(format_exit_status(0, unknown), "exited(0)");
    assert_eq!(format_exit_status(42, unknown), "exited(42)");
    assert_eq!(format_exit_status(-9, unknown), "signal(9)");
    assert_eq!(exit_code_from_status(unknown, unknown), 1);
    assert_eq!(exit_code_from_status(3, unknown), 3);
    assert_eq!(exit_code_from_status(-9, unknown), 137);
}
