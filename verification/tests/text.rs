use mcom::text::{
    after_prefix, contains_text, first_line, join, leaf_of, parse_usize, push_decimal, push_hex4,
    push_left_aligned, push_right_aligned, push_three_digits, push_two_digits, same_text, trim,
};

fn made(f: impl FnOnce(&mut String)) -> String {
    let mut s = String::from(">");
    f(&mut s);
    s
}

#[test]
fn trimming_goes_by_white_space() {
    for code in 0..=0x10ffffu32 {
        let Some(c) = char::from_u32(code) else {
            continue;
        };
        let blank = matches!(code, 0x09..=0x0d | 0x20 | 0x85 | 0xa0 | 0x1680 | 0x2000..=0x200a)
            || matches!(code, 0x2028 | 0x2029 | 0x202f | 0x205f | 0x3000);
        assert_eq!(c.is_whitespace(), blank, "{code:x}");
    }
    assert_eq!(trim("\u{3000} a b\t\n"), "a b");
    assert_eq!(trim(" \r\n"), "");
}

#[test]
fn numbers_are_spelled() {
    assert_eq!(made(|s| push_decimal(s, 0)), ">0");
    assert_eq!(made(|s| push_decimal(s, u64::MAX)), ">18446744073709551615");
    assert_eq!(made(|s| push_two_digits(s, 1207)), ">07");
    assert_eq!(made(|s| push_three_digits(s, 12_045)), ">045");
    assert_eq!(made(|s| push_hex4(s, 0xbeef)), ">beef");
    assert_eq!(made(|s| push_hex4(s, 0x1a)), ">001a");
}

#[test]
fn fields_are_padded_by_characters() {
    assert_eq!(made(|s| push_right_aligned(s, "é", 3)), ">  é");
    assert_eq!(made(|s| push_left_aligned(s, "é", 3)), ">é  ");
    assert_eq!(made(|s| push_left_aligned(s, "long", 3)), ">long");
}

#[test]
fn numbers_are_read() {
    assert_eq!(parse_usize("007"), Some(7));
    assert_eq!(parse_usize("+7"), Some(7));
    for bad in ["", "+", "-1", "1x", " 1", "++1", "99999999999999999999999"] {
        assert_eq!(parse_usize(bad), bad.parse::<usize>().ok(), "{bad:?}");
    }
    assert_eq!(parse_usize(&usize::MAX.to_string()), Some(usize::MAX));
}

#[test]
fn text_is_searched_and_cut() {
    assert!(contains_text("/dev/ttyACM0", "ttyACM"));
    assert!(contains_text("x", ""));
    assert!(!contains_text("tty", "ttyACM"));
    assert_eq!(leaf_of("/dev/cu.x"), "cu.x");
    assert_eq!(leaf_of("/dev/"), "");
    assert_eq!(leaf_of("cu.x"), "cu.x");
    assert_eq!(after_prefix("tty.x", "tty."), Some("x".to_string()));
    assert_eq!(after_prefix("tt", "tty."), None);
    assert!(same_text("é", "é"));
    assert!(!same_text("é", "e"));
    assert_eq!(join(&["a".to_string(), "b".to_string()], ", "), "a, b");
    assert_eq!(join(&[], ", "), "");
    assert_eq!(first_line("a\r\nb"), "a");
}
