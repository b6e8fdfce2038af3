use mcom::cli::TsMode;
use mcom::clock::{Now, WallTime};
use mcom::timestamps::{advance, format_duration, Esc, Feed, LineAssembler};

fn out(f: &Feed) -> String {
    String::from_utf8_lossy(&f.out).into_owned()
}

#[test]
fn escape_sequences_pass_through_untouched() {
    let mut a = LineAssembler::new();
    let f = a.feed(b"\x1b[32mok\x1b[0m\r\nnext\r\n", TsMode::Off);
    assert_eq!(out(&f), "\x1b[32mok\x1b[0m\r\nnext\r\n");
    assert_eq!(f.lines.len(), 2);
    assert_eq!(f.lines[0].text(), "ok");
    assert_eq!(f.lines[1].text(), "next");
}

#[test]
fn prefixes_each_line_once_even_across_chunks() {
    let mut a = LineAssembler::new();
    let f1 = a.feed(b"hel", TsMode::Rel);
    let f2 = a.feed(b"lo\r\n", TsMode::Rel);
    assert!(out(&f1).starts_with("\x1b[90m["));
    assert!(out(&f1).ends_with("hel"));
    assert_eq!(out(&f2), "lo\r\n");
    assert_eq!(f2.lines[0].text(), "hello");
}

#[test]
fn empty_lines_get_no_prefix() {
    let mut a = LineAssembler::new();
    let f = a.feed(b"\r\n\r\n", TsMode::Rel);
    assert_eq!(out(&f), "\r\n\r\n");
    assert_eq!(f.lines.len(), 2);
    assert!(f.lines[0].raw.is_empty());
}

#[test]
fn lone_cr_restarts_the_line_without_emitting_it() {
    let mut a = LineAssembler::new();
    let f = a.feed(b"50%\r75%\r\n", TsMode::Off);
    assert_eq!(out(&f), "50%\r75%\r\n");
    assert_eq!(f.lines.len(), 1);
    assert_eq!(f.lines[0].text(), "75%");
}

#[test]
fn cr_split_across_chunks_still_pairs_with_lf() {
    let mut a = LineAssembler::new();
    let f1 = a.feed(b"done\r", TsMode::Off);
    assert_eq!(out(&f1), "done");
    assert!(f1.lines.is_empty());
    let f2 = a.feed(b"\n", TsMode::Off);
    assert_eq!(out(&f2), "\r\n");
    assert_eq!(f2.lines[0].text(), "done");
}

#[test]
fn trailing_cr_is_flushed_on_tick() {
    let mut a = LineAssembler::new();
    a.feed(b"x\r", TsMode::Off);
    let f = a.flush_pending();
    assert_eq!(out(&f), "\r");
    assert!(a.partial().is_empty());
}

#[test]
fn partial_line_is_visible_before_it_ends() {
    let mut a = LineAssembler::new();
    a.feed(b"prompt> ", TsMode::Off);
    assert_eq!(a.partial(), b"prompt> ");
}

#[test]
fn a_line_holding_only_escapes_gets_no_timestamp() {
    // wsh firmware appends its style reset after the newline, so the reset
    // lands alone on the next line. Stamping that prints an empty row.
    let mut a = LineAssembler::new();
    let f = a.feed(b"\x1b[0m\r\n", TsMode::Rel);
    assert_eq!(out(&f), "\x1b[0m\r\n");
    assert_eq!(f.lines.len(), 1);
    assert_eq!(f.lines[0].text(), "");
}

#[test]
fn the_timestamp_still_precedes_a_leading_color() {
    // Order matters: a prefix printed after the colour would reset it and
    // the device's text would lose its colour.
    let mut a = LineAssembler::new();
    let f = a.feed(b"\x1b[32mok\r\n", TsMode::Rel);
    let s = out(&f);
    let prefix_at = s.find("\x1b[90m").unwrap();
    let color_at = s.find("\x1b[32m").unwrap();
    assert!(prefix_at < color_at, "{s:?}");
    assert!(s.ends_with("\x1b[32mok\r\n"), "{s:?}");
}

#[test]
fn escapes_split_across_chunks_still_hold_the_line() {
    let mut a = LineAssembler::new();
    let f1 = a.feed(b"\x1b[3", TsMode::Rel);
    assert_eq!(out(&f1), "");
    let f2 = a.feed(b"2mok\r\n", TsMode::Rel);
    let s = out(&f2);
    assert!(s.contains("\x1b[90m"), "{s:?}");
    assert!(s.ends_with("\x1b[32mok\r\n"), "{s:?}");
}

#[test]
fn held_escapes_are_released_when_the_line_goes_quiet() {
    let mut a = LineAssembler::new();
    a.feed(b"\x1b[0m", TsMode::Rel);
    let f = a.flush_pending();
    assert_eq!(out(&f), "\x1b[0m");
}

#[test]
fn mid_line_tracks_unterminated_output() {
    let mut a = LineAssembler::new();
    assert!(!a.mid_line());
    a.feed(b"prompt> ", TsMode::Off);
    assert!(a.mid_line());
    a.feed(b"\r\n", TsMode::Off);
    assert!(!a.mid_line());
}

#[test]
fn bare_lf_terminates_a_line_and_gains_a_cr() {
    let mut a = LineAssembler::new();
    let f = a.feed(b"unix\n", TsMode::Off);
    assert_eq!(out(&f), "unix\r\n");
    assert_eq!(f.lines.len(), 1);
    assert_eq!(f.lines[0].text(), "unix");
}

fn at(mono: u64) -> Now {
    Now {
        wall: WallTime {
            secs: 0,
            nanos: 0,
            offset: 0,
        },
        mono,
    }
}

#[test]
fn stamps_carry_the_time_of_the_first_visible_byte() {
    let mut a = LineAssembler::new();
    let f = a.feed_at(b"\x1b[1mboot", TsMode::Rel, at(1_500_000_000));
    assert_eq!(out(&f), "\x1b[90m[    1.500] \x1b[39m\x1b[1mboot");
    let f = a.feed_at(b"ed\nnext\n", TsMode::Delta, at(1_750_000_000));
    assert_eq!(out(&f), "ed\r\n\x1b[90m[+   0.250] \x1b[39mnext\r\n");
    assert_eq!(f.lines.len(), 2);
    assert_eq!(f.lines[0].rel.nanos, 1_500_000_000);
    assert_eq!(f.lines[0].delta.nanos, 1_500_000_000);
    assert_eq!(f.lines[1].rel.nanos, 1_750_000_000);
    assert_eq!(f.lines[1].delta.nanos, 250_000_000);
}

#[test]
fn chunking_changes_neither_output_nor_lines() {
    let data = b"\x1b[32mI ok\x1b[0m\r\n50%\r75%\r\nbare\n\x1b]0;t\x07\n\r\rprompt> ";
    let mut whole = LineAssembler::new();
    let f = whole.feed_at(data, TsMode::Abs, at(9));
    for cut in 0..data.len() {
        let mut a = LineAssembler::new();
        let one = a.feed_at(&data[..cut], TsMode::Abs, at(9));
        let two = a.feed_at(&data[cut..], TsMode::Abs, at(9));
        assert_eq!(format!("{}{}", out(&one), out(&two)), out(&f));
        assert_eq!(one.lines.len() + two.lines.len(), f.lines.len());
        assert_eq!(a.partial(), whole.partial());
    }
    assert_eq!(f.lines.len(), 4);
}

#[test]
fn with_timestamps_off_output_is_untouched() {
    let data = b"a\x1b[2Kb\r\n\x00\xff\r\nc";
    let mut a = LineAssembler::new();
    assert_eq!(a.feed(data, TsMode::Off).out, data.to_vec());
}

#[test]
fn a_flushed_line_gets_no_timestamp_any_more() {
    let mut a = LineAssembler::new();
    a.feed_at(b"\x1b[0m", TsMode::Rel, at(1));
    assert_eq!(out(&a.flush_pending_at(at(2))), "\x1b[0m");
    assert_eq!(out(&a.feed_at(b"ok\n", TsMode::Rel, at(3))), "ok\r\n");
}

#[test]
fn escape_states_follow_the_sequence() {
    assert_eq!(advance(Esc::Outside, b'a'), Esc::Outside);
    assert_eq!(advance(Esc::Outside, 0x1b), Esc::Start);
    assert_eq!(advance(Esc::Start, b'['), Esc::Csi);
    assert_eq!(advance(Esc::Csi, b';'), Esc::Csi);
    assert_eq!(advance(Esc::Csi, b'm'), Esc::Outside);
    assert_eq!(advance(Esc::Start, b']'), Esc::Osc);
    assert_eq!(advance(Esc::Osc, 0x1b), Esc::OscTerminator);
    assert_eq!(advance(Esc::OscTerminator, b'x'), Esc::Osc);
    assert_eq!(advance(Esc::OscTerminator, b'\\'), Esc::Outside);
    assert_eq!(advance(Esc::Osc, 0x07), Esc::Outside);
    assert_eq!(advance(Esc::Start, b'c'), Esc::Outside);
}

#[test]
fn durations_grow_hours_only_when_needed() {
    assert_eq!(format_duration(7), "0:07");
    assert_eq!(format_duration(3599), "59:59");
    assert_eq!(format_duration(3600), "1:00:00");
    assert_eq!(format_duration(90_061), "25:01:01");
}
