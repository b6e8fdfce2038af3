use mcom::cli::TsMode;
use mcom::clock::{Clock, Elapsed, WallTime};
use mcom::scrollback::{Line, Scrollback};

fn line(raw: &str) -> Line {
    Line {
        raw: raw.as_bytes().to_vec(),
        at: Clock::start().read().wall,
        rel: Elapsed::from_millis(1500),
        delta: Elapsed::from_millis(250),
    }
}

#[test]
fn drops_oldest_lines_when_full() {
    let mut sb = Scrollback::new(3);
    for i in 0..5 {
        sb.push(line(&i.to_string()));
    }
    assert_eq!(sb.len(), 3);
    assert_eq!(sb.dropped(), 2);
    assert_eq!(sb.get(0).unwrap().text(), "2");
    assert_eq!(sb.get(2).unwrap().text(), "4");
}

#[test]
fn since_returns_only_newer_lines() {
    let mut sb = Scrollback::new(3);
    sb.push(line("a"));
    let mark = sb.total();
    sb.push(line("b"));
    sb.push(line("c"));
    let got: Vec<String> = sb.since(mark).iter().map(|l| l.text()).collect();
    assert_eq!(got, vec!["b", "c"]);

    // Once eviction kicks in, `since` clamps to what is still held.
    sb.push(line("d"));
    sb.push(line("e"));
    assert_eq!(sb.since(mark).len(), 3);
}

#[test]
fn formats_prefixes_per_mode() {
    let l = line("x");
    assert_eq!(l.prefix(TsMode::Off), "");
    assert_eq!(l.prefix(TsMode::Rel), "[    1.500] ");
    assert_eq!(l.prefix(TsMode::Delta), "[+   0.250] ");
    assert!(l.prefix(TsMode::Abs).starts_with('['));
}

#[test]
fn text_strips_ansi() {
    assert_eq!(line("\x1b[31merr\x1b[0m").text(), "err");
}

#[test]
fn absolute_prefixes_show_local_time() {
    let mut l = line("x");
    l.at = WallTime {
        secs: 86_399,
        nanos: 7_999_999,
        offset: 3600,
    };
    assert_eq!(l.prefix(TsMode::Abs), "[00:59:59.007] ");
    l.at.offset = -7200;
    assert_eq!(l.prefix(TsMode::Abs), "[21:59:59.007] ");
}

#[test]
fn broken_text_gets_replacement_characters() {
    let mut l = line("");
    l.raw = b"ok\xff!".to_vec();
    assert_eq!(l.text(), "ok\u{fffd}!");
}

#[test]
fn at_least_one_line_is_kept() {
    let mut sb = Scrollback::new(0);
    sb.push(line("a"));
    sb.push(line("b"));
    assert_eq!(sb.len(), 1);
    assert_eq!(sb.total(), 2);
    assert_eq!(sb.get(0).unwrap().text(), "b");
    assert!(sb.get(1).is_none());
    assert!(sb.since(2).is_empty());
    assert!(sb.since(9).is_empty());
}
