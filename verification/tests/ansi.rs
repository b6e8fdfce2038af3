use mcom::ansi::strip;

fn s(b: &[u8]) -> String {
    String::from_utf8_lossy(&strip(b)).into_owned()
}

#[test]
fn strips_sgr_colors() {
    assert_eq!(s(b"\x1b[32mI (123) wifi:\x1b[0m up"), "I (123) wifi: up");
}

#[test]
fn strips_osc_titles() {
    assert_eq!(s(b"\x1b]0;title\x07rest"), "rest");
    assert_eq!(s(b"\x1b]0;title\x1b\\rest"), "rest");
}

#[test]
fn keeps_plain_text_and_control_chars() {
    assert_eq!(s(b"plain\ttext\r\n"), "plain\ttext\r\n");
}

#[test]
fn tolerates_truncated_sequences() {
    assert_eq!(s(b"abc\x1b["), "abc");
    assert_eq!(s(b"abc\x1b"), "abc");
}

#[test]
fn stripping_twice_changes_nothing_more() {
    let raw: &[u8] = b"\x1b[1;31mred\x1b[0m \x1bPdevice\x1b\\text \x1b(Bend";
    let once = strip(raw);
    assert!(!once.contains(&0x1b));
    assert_eq!(strip(&once), once);
}

#[test]
fn text_in_front_of_an_escape_is_kept() {
    assert_eq!(s(b"boot ok \x1b[2J"), "boot ok ");
    assert_eq!(s("grün \u{1b}[0m".as_bytes()), "grün ");
}
