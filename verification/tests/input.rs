use mcom::input::{Key, KeyDecoder};

fn keys(data: &[u8]) -> Vec<Key> {
    let mut d = KeyDecoder::default();
    d.push(data);
    let mut out = Vec::new();
    while let Some(k) = d.next_key() {
        out.push(k);
    }
    out
}

#[test]
fn decodes_plain_characters() {
    assert_eq!(keys(b"ab"), vec![Key::Char('a'), Key::Char('b')]);
}

#[test]
fn decodes_control_keys() {
    assert_eq!(keys(b"\x01"), vec![Key::Ctrl('a')]);
    assert_eq!(keys(b"\x03"), vec![Key::Ctrl('c')]);
    assert_eq!(keys(b"\r"), vec![Key::Enter]);
    assert_eq!(keys(b"\x7f"), vec![Key::Backspace]);
}

#[test]
fn decodes_arrows_and_paging() {
    assert_eq!(keys(b"\x1b[A\x1b[B"), vec![Key::Up, Key::Down]);
    assert_eq!(keys(b"\x1b[5~\x1b[6~"), vec![Key::PageUp, Key::PageDown]);
    assert_eq!(keys(b"\x1bOA"), vec![Key::Up]);
    assert_eq!(keys(b"\x1b[1;5A"), vec![Key::Up]);
}

#[test]
fn waits_for_incomplete_sequences() {
    let mut d = KeyDecoder::default();
    d.push(b"\x1b[");
    assert_eq!(d.next_key(), None);
    d.push(b"C");
    assert_eq!(d.next_key(), Some(Key::Right));
}

#[test]
fn lone_escape_resolves_on_flush_only() {
    let mut d = KeyDecoder::default();
    d.push(b"\x1b");
    assert_eq!(d.next_key(), None);
    assert_eq!(d.flush_escape(), Some(Key::Esc));
    assert_eq!(d.flush_escape(), None);
}

#[test]
fn decodes_multibyte_characters() {
    assert_eq!(keys("привет".as_bytes()).len(), 6);
    assert_eq!(keys("ж".as_bytes()), vec![Key::Char('ж')]);

    let mut d = KeyDecoder::default();
    d.push(&"ж".as_bytes()[..1]);
    assert_eq!(d.next_key(), None);
    d.push(&"ж".as_bytes()[1..]);
    assert_eq!(d.next_key(), Some(Key::Char('ж')));
}

#[test]
fn typed_text_comes_out_as_it_is() {
    let text = "grep ünïcode 日本 🦀";
    let want: Vec<Key> = text.chars().map(Key::Char).collect();
    assert_eq!(keys(text.as_bytes()), want);
}

#[test]
fn chunks_make_no_difference_to_keys() {
    let data = b"a\x1b[5~\x1bOHz\x1b[3~";
    let whole = keys(data);
    for cut in 0..data.len() {
        let mut d = KeyDecoder::default();
        let mut out = Vec::new();
        for part in [&data[..cut], &data[cut..]] {
            d.push(part);
            while let Some(k) = d.next_key() {
                out.push(k);
            }
        }
        assert_eq!(out, whole, "cut at {cut}");
    }
    assert_eq!(
        whole,
        vec![Key::Char('a'), Key::PageUp, Key::Home, Key::Char('z'), Key::Delete]
    );
}

#[test]
fn what_is_left_is_handed_over_as_it_came() {
    let mut d = KeyDecoder::default();
    d.push(b"q\x1b[Ax");
    assert_eq!(d.next_key(), Some(Key::Char('q')));
    assert_eq!(d.take_all(), b"\x1b[Ax".to_vec());
    assert_eq!(d.next_key(), None);
    assert!(d.take_all().is_empty());
}
