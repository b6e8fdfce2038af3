use mcom::cli::{Cli, FrameMode, LogFormat, TsMode};
use mcom::clock::{Now, WallTime};
use mcom::logfile::LogWriter;
use mcom::logo::banner;
use mcom::serial::PortConfig;
use mcom::session::{
    baud_label, ctrl_byte, escape_name, human_bytes, note_line, port_config, run, Action, Event,
    Session, Signal,
};
use mcom::term::TermOp;

fn cli() -> Cli {
    Cli {
        port: None,
        baud: 115200,
        mode: "8N1".into(),
        list: false,
        ts: TsMode::Off,
        log: None,
        log_format: LogFormat::Clean,
        scrollback: 10_000,
        no_reconnect: false,
        strict_port: false,
        escape: 'a',
        echo: false,
    }
}

fn at(millis: u64) -> Now {
    Now {
        wall: WallTime {
            secs: 951_825_599,
            nanos: 123_000_000,
            offset: 3600,
        },
        mono: millis * 1_000_000,
    }
}

fn cfg(cli: &Cli) -> PortConfig {
    port_config(cli, "/dev/ttyACM0".to_string()).unwrap()
}

fn session(cli: &Cli, log: Option<LogWriter>) -> Session {
    Session::new(cli, cfg(cli), Some("usb-board".into()), log, "/home/me".into())
}

/// Actions in short form.
fn short(actions: &[Action]) -> Vec<String> {
    let text = |b: &Vec<u8>| String::from_utf8_lossy(b).into_owned();
    actions
        .iter()
        .map(|a| match a {
            Action::Print(b) => format!("print {}", text(b)),
            Action::Send(b) => format!("send {}", text(b)),
            Action::ClosePort => "close".to_string(),
            Action::SendBreak => "break".to_string(),
            Action::OpenLog(p) => format!("open {p}"),
            Action::Log(b) => format!("log {}", text(b)),
            Action::CloseLog => "close log".to_string(),
            Action::Reconnect => "reconnect".to_string(),
            Action::Term(ops) => format!("term {ops:?}"),
            Action::Draw => "draw".to_string(),
        })
        .collect()
}

/// Feeds input and collects all that follows from it.
fn input(s: &mut Session, data: &[u8], now: Now) -> Vec<String> {
    let mut out = short(&s.handle(Event::Stdin(data.to_vec()), now));
    while let Some(actions) = s.next_input(now) {
        out.extend(short(&actions));
    }
    out
}

fn note(text: &str, color: &str) -> String {
    format!("print \x1b[{color}m── {text} ──\x1b[0m\r\n")
}

#[test]
fn escape_maps_letter_to_control_byte() {
    assert_eq!(ctrl_byte('a'), 0x01);
    assert_eq!(ctrl_byte('A'), 0x01);
    assert_eq!(ctrl_byte('t'), 0x14);
    assert_eq!(escape_name(0x01), 'A');
    assert_eq!(escape_name(0x14), 'T');
}

#[test]
fn notes_break_out_of_an_unfinished_device_line() {
    // The device left "rst" on screen with no newline; the note must not
    // be glued to it.
    assert!(note_line("disconnected", "33", true).starts_with("\r\n\x1b[33m"));
    assert!(note_line("disconnected", "33", false).starts_with("\x1b[33m"));
    assert!(note_line("disconnected", "33", false).ends_with("──\x1b[0m\r\n"));
}

#[test]
fn zero_baud_is_spelled_out() {
    assert_eq!(baud_label(115200), "115200");
    assert_eq!(baud_label(0), "line speed as-is");
}

#[test]
fn formats_byte_counts() {
    assert_eq!(human_bytes(512), "512 B");
    assert_eq!(human_bytes(2048), "2.0 KB");
    assert_eq!(human_bytes(5 * 1024 * 1024), "5.0 MB");
}

#[test]
fn byte_counts_print_like_doubles() {
    let units = ["B", "KB", "MB", "GB"];
    let mut n: u64 = 7;
    let mut counts = vec![0, 1023, 1024, 1048575, 1048576, 1 << 53, u64::MAX, (1 << 53) + 1];
    counts.extend([1024 + 51, 1024 * 5 / 4, 1024 * 7 / 4, (1 << 30) - 1, 1 << 30]);
    for i in 0..3000u64 {
        n = n.wrapping_mul(6364136223846793005).wrapping_add(1442695040888963407);
        counts.push(n >> (i % 64));
    }
    for n in counts {
        let mut v = n as f64;
        let mut u = 0;
        while v >= 1024.0 && u < units.len() - 1 {
            v /= 1024.0;
            u += 1;
        }
        let want = if u == 0 {
            format!("{n} B")
        } else {
            format!("{v:.1} {}", units[u])
        };
        assert_eq!(human_bytes(n), want);
    }
}

#[test]
fn an_escape_key_that_is_no_letter_falls_back() {
    assert_eq!(ctrl_byte('1'), 0x01);
    assert_eq!(ctrl_byte('z'), 0x1a);
    // Only the low byte of the code counts.
    assert_eq!(ctrl_byte('\u{162}'), 0x02);
}

#[test]
fn the_frame_is_checked_before_anything_is_opened() {
    let mut c = cli();
    c.mode = "8N9".into();
    let e = port_config(&c, "/dev/x".into()).unwrap_err();
    assert_eq!(e.message(), "stop bits must be 1 or 2, got '9'");
    c.mode = "7e2".into();
    c.baud = 0;
    let p = port_config(&c, "/dev/x".into()).unwrap();
    assert_eq!((p.path.as_str(), p.baud), ("/dev/x", 0));
    assert_eq!(p.frame, FrameMode::parse("7E2").unwrap());
}

#[test]
fn a_session_greets() {
    let c = cli();
    let (s, out) = run(&c, cfg(&c), None, None, "/".into());
    assert!(!s.quit());
    assert_eq!(s.config().path, "/dev/ttyACM0");
    assert_eq!(
        short(&out),
        vec![
            "term [EnableRawMode]".to_string(),
            format!("print {}", banner()),
            note(
                "/dev/ttyACM0 · 115200 8N1 · Ctrl-A q to quit, Ctrl-A ? for help",
                "36"
            ),
            "print \r\n".to_string(),
        ]
    );
}

#[test]
fn the_full_log_path_is_told_at_the_start() {
    let c = cli();
    let log = LogWriter::open_at(Some("a.log"), LogFormat::Clean, "/dev/x", "/tmp", &at(0).wall);
    let mut s = session(&c, Some(log));
    let out = short(&s.start(at(0)));
    assert_eq!(
        out[out.len() - 2..],
        [
            note("logging to /tmp/a.log", "36"),
            "log [2000-02-29 12:59:59.123] --- logging to /tmp/a.log ---\n".to_string()
        ]
    );
}

#[test]
fn typing_goes_to_the_device_in_one_piece() {
    let mut s = session(&cli(), None);
    assert_eq!(input(&mut s, b"ls -l\r\x03", at(0)), vec!["send ls -l\r\x03"]);
    let mut c = cli();
    c.echo = true;
    let mut s = session(&c, None);
    assert_eq!(input(&mut s, b"x", at(0)), vec!["print x", "send x"]);
}

#[test]
fn the_escape_key_twice_is_sent_once() {
    let mut s = session(&cli(), None);
    assert_eq!(input(&mut s, b"a\x01\x01b", at(0)), vec!["send a\x01b"]);
    // The two presses may come in different chunks.
    assert!(input(&mut s, b"\x01", at(0)).is_empty());
    assert_eq!(input(&mut s, b"\x01", at(0)), vec!["send \x01"]);
}

#[test]
fn escape_q_ends_the_session() {
    let mut s = session(&cli(), None);
    assert!(input(&mut s, b"\x01q", at(0)).is_empty());
    assert!(s.quit());
    let mut c = cli();
    c.escape = 't';
    let mut s = session(&c, None);
    assert_eq!(input(&mut s, b"\x01q", at(0)), vec!["send \x01q"]);
    input(&mut s, b"\x14q", at(0));
    assert!(s.quit());
}

#[test]
fn unknown_commands_do_nothing() {
    let mut s = session(&cli(), None);
    assert!(input(&mut s, b"\x01z", at(0)).is_empty());
    assert!(!s.quit());
}

#[test]
fn help_names_the_escape_key() {
    let mut c = cli();
    c.escape = 't';
    let mut s = session(&c, None);
    let out = input(&mut s, b"\x14?", at(0));
    assert_eq!(out.len(), 1);
    assert!(out[0].starts_with("print \x1b[36mCtrl-T q   quit and release the port\r\nCtrl-T ?   this help\r\n"));
    assert!(out[0].contains("Ctrl-T l   start or stop logging to a file\r\n"));
    assert!(out[0].ends_with("Ctrl-T Ctrl-T   send Ctrl-T to the device\r\n\x1b[0m"));
    assert_eq!(out[0].matches("\r\n").count(), 10);
    assert_eq!(input(&mut s, b"\x14h", at(0)), out);
}

#[test]
fn the_status_is_one_line() {
    let mut s = session(&cli(), None);
    s.on_rx_at(b"hello\n", at(5));
    assert_eq!(
        input(&mut s, b"\x01i", at(3_661_000)),
        vec![note(
            "/dev/ttyACM0 · 115200 8N1 · connected · up 1:01:01 · 6 B received · 1 line · ts off · log off",
            "36"
        )]
    );
    s.on_rx_at(&[b'\n'; 2000], at(5));
    assert!(input(&mut s, b"\x01i", at(0))[0].contains("· 2.0 KB received · 2001 lines ·"));
}

#[test]
fn timestamps_cycle_on_command() {
    let mut s = session(&cli(), None);
    for label in ["rel", "abs", "delta", "off"] {
        assert_eq!(
            input(&mut s, b"\x01t", at(0)),
            vec![note(&format!("timestamps: {label}"), "36")]
        );
    }
}

#[test]
fn the_screen_can_be_cleared_and_a_break_sent() {
    let mut s = session(&cli(), None);
    assert_eq!(input(&mut s, b"\x01c", at(0)), vec!["print \x1b[2J\x1b[H"]);
    assert_eq!(
        input(&mut s, b"\x01b", at(0)),
        vec!["break".to_string(), note("break sent", "36")]
    );
    input(&mut s, b"\x01r", at(0));
    assert!(input(&mut s, b"\x01b", at(0)).is_empty());
}

#[test]
fn logging_is_started_and_stopped() {
    let mut s = session(&cli(), None);
    let path = "/home/me/mcom-ttyACM0-20000229-125959.log";
    s.handle(Event::Stdin(b"\x01l".to_vec()), at(0));
    assert!(s.next_input(at(0)).unwrap().is_empty());
    assert_eq!(short(&s.next_input(at(0)).unwrap()), vec![format!("open {path}")]);
    assert_eq!(
        short(&s.log_ready(true, at(0))),
        vec![
            note(&format!("logging to {path}"), "36"),
            format!("log [2000-02-29 12:59:59.123] --- logging to {path} ---\n"),
        ]
    );
    while s.next_input(at(0)).is_some() {}
    assert_eq!(
        short(&s.on_rx_at(b"\x1b[31mred\x1b[0m\r\nrest", at(0))),
        vec![
            "print \x1b[31mred\x1b[0m\r\nrest",
            "log [2000-02-29 12:59:59.123] red\n"
        ]
    );
    let out = input(&mut s, b"\x01i", at(0));
    assert!(out[0].starts_with("print \r\n"), "{out:?}");
    assert!(out[0].contains(&format!("log {path} ")));
    assert_eq!(
        input(&mut s, b"\x01l", at(0)),
        vec![
            "close log".to_string(),
            format!("print \r\n\x1b[36m── logging stopped: {path} ──\x1b[0m\r\n")
        ]
    );
}

#[test]
fn a_log_that_cannot_be_created_is_reported() {
    let mut s = session(&cli(), None);
    input(&mut s, b"\x01l", at(0));
    assert_eq!(
        short(&s.log_ready(false, at(0))),
        vec![note(
            "cannot start log: cannot create \"/home/me/mcom-ttyACM0-20000229-125959.log\"",
            "31"
        )]
    );
    assert!(s.log_ready(true, at(0)).is_empty());
    assert!(input(&mut s, b"\x01i", at(0))[0].contains("log off"));
}

#[test]
fn a_raw_log_takes_every_byte() {
    let mut c = cli();
    c.log_format = LogFormat::Raw;
    let log = LogWriter::open_at(Some("/r.log"), LogFormat::Raw, "/dev/x", "/", &at(0).wall);
    let mut s = session(&c, Some(log));
    assert_eq!(
        short(&s.on_rx_at(b"a\nb", at(0))),
        vec!["log a\nb", "print a\r\nb"]
    );
}

#[test]
fn unplugging_waits_and_reconnects() {
    let mut s = session(&cli(), None);
    assert_eq!(
        short(&s.handle(Event::Disconnected("gone".into()), at(1000))),
        vec![
            "close".to_string(),
            note("disconnected (gone), waiting for the device", "33")
        ]
    );
    assert!(!s.quit());
    assert_eq!(
        input(&mut s, b"x", at(1000)),
        vec![note("not connected — input discarded", "31")]
    );
    assert!(s.handle(Event::Tick, at(1249)).is_empty());
    assert_eq!(short(&s.handle(Event::Tick, at(1250))), vec!["reconnect"]);
    assert!(s.handle(Event::Tick, at(1499)).is_empty());
    assert_eq!(short(&s.handle(Event::Tick, at(1500))), vec!["reconnect"]);

    let entries = vec![("usb-board".to_string(), "/dev/ttyACM3".to_string())];
    assert!(s.find_target(false, &[]).is_none());
    let target = s.find_target(false, &entries).unwrap();
    assert_eq!((target.path.as_str(), target.baud), ("/dev/ttyACM3", 115200));
    assert_eq!(s.find_target(true, &entries).unwrap().path, "/dev/ttyACM0");
    assert_eq!(
        short(&s.reconnected(target.path, None, at(1600))),
        vec![note("reconnected as /dev/ttyACM3", "32")]
    );
    assert_eq!(s.config().path, "/dev/ttyACM3");
    assert_eq!(input(&mut s, b"x", at(1700)), vec!["send x"]);

    // The identity is remembered across a second loss.
    s.write_failed("EIO", at(2000));
    assert!(s.find_target(false, &entries).is_some());
    assert_eq!(
        short(&s.reconnected("/dev/ttyACM3".into(), Some("usb-other".into()), at(2300))),
        vec![note("reconnected", "32")]
    );
    assert!(s.find_target(false, &entries).is_none());
}

#[test]
fn a_pinned_port_is_not_renamed() {
    let mut c = cli();
    c.strict_port = true;
    let s = session(&c, None);
    let entries = vec![("usb-board".to_string(), "/dev/ttyACM3".to_string())];
    assert!(s.find_target(false, &entries).is_none());
    assert!(s.find_target(true, &entries).is_some());
}

#[test]
fn without_reconnecting_a_lost_device_is_the_end() {
    let mut c = cli();
    c.no_reconnect = true;
    let mut s = session(&c, None);
    assert_eq!(
        short(&s.write_failed("EIO", at(0))),
        vec!["close".to_string(), note("disconnected: EIO", "31")]
    );
    assert!(s.quit());
}

#[test]
fn a_forced_reconnect_is_tried_at_once() {
    let mut s = session(&cli(), None);
    assert_eq!(
        input(&mut s, b"\x01r", at(10_000)),
        vec!["close".to_string(), note("reconnecting", "33")]
    );
    assert_eq!(short(&s.handle(Event::Tick, at(10_000))), vec!["reconnect"]);
}

#[test]
fn signals_end_the_session_or_redraw() {
    let mut s = session(&cli(), None);
    assert!(s.handle(Event::Signal(Signal::Resize), at(0)).is_empty());
    input(&mut s, b"\x01s", at(0));
    assert_eq!(short(&s.handle(Event::Signal(Signal::Resize), at(0))), vec!["draw"]);
    let mut s = session(&cli(), None);
    assert_eq!(
        short(&s.handle(Event::Signal(Signal::Terminate), at(0))),
        vec![note("terminating", "33")]
    );
    assert!(s.quit());
}

#[test]
fn held_back_bytes_come_out_on_a_tick() {
    let mut s = session(&cli(), None);
    assert_eq!(short(&s.on_rx_at(b"50%\r", at(0))), vec!["print 50%"]);
    assert_eq!(short(&s.handle(Event::Tick, at(1))), vec!["print \r"]);
    assert!(s.handle(Event::Tick, at(2)).is_empty());
    let out = s.handle(Event::Rx(b"75%\r\n".to_vec()), at(3));
    assert_eq!(short(&out), vec!["print 75%\r\n"]);
}

#[test]
fn what_was_missed_is_replayed_on_leaving() {
    let mut s = session(&cli(), None);
    s.on_rx_at(b"before\n", at(0));
    assert_eq!(
        input(&mut s, b"\x01s", at(0)),
        vec!["term [EnterAlternateScreen, HideCursor]", "draw"]
    );
    // Nothing is printed over the open view.
    assert!(s.on_rx_at(b"one\ntwo\n", at(0)).is_empty());
    let screen = s.draw(40, 10, at(7000)).unwrap();
    assert_eq!(screen.rows.len(), 3);
    assert_eq!(screen.title, " /dev/ttyACM0 · 115200 8N1 · connected · 15 B · 0:07 ");
    s.drawn(Some(11));
    assert_eq!(input(&mut s, b"k", at(0)), vec!["draw"]);
    assert_eq!(
        input(&mut s, b"q", at(0)),
        vec!["term [LeaveAlternateScreen, ShowCursor]", "print one\r\ntwo\r\n"]
    );
    assert!(s.draw(40, 10, at(0)).is_none());
    assert_eq!(input(&mut s, b"q", at(0)), vec!["send q"]);
}

#[test]
fn replayed_lines_are_stamped_and_capped() {
    let mut c = cli();
    c.ts = TsMode::Rel;
    let mut s = session(&c, None);
    input(&mut s, b"\x01s", at(0));
    s.on_rx_at(&b"x\n".repeat(1002), at(2000));
    let out = input(&mut s, b"q", at(0));
    assert_eq!(out.len(), 3);
    assert_eq!(out[1], note("2 earlier lines omitted", "33"));
    assert!(out[2].starts_with("print \x1b[90m[    2.000] \x1b[39mx\r\n"));
    assert_eq!(out[2].matches("\r\n").count(), 1000);
}

#[test]
fn a_lone_escape_leaves_the_view_on_a_tick() {
    let mut s = session(&cli(), None);
    input(&mut s, b"\x01s", at(0));
    assert!(input(&mut s, b"\x1b", at(0)).is_empty());
    assert_eq!(
        short(&s.handle(Event::Tick, at(1))),
        vec!["term [LeaveAlternateScreen, ShowCursor]"]
    );
    assert!(s.handle(Event::Tick, at(2)).is_empty());
}

#[test]
fn escape_q_in_the_view_ends_the_session() {
    let mut s = session(&cli(), None);
    input(&mut s, b"\x01s", at(0));
    assert_eq!(
        input(&mut s, b"\x01q", at(0)),
        vec!["draw", "term [LeaveAlternateScreen, ShowCursor]"]
    );
    assert!(s.quit());
}

#[test]
fn the_end_releases_port_and_terminal() {
    let log = LogWriter::open_at(Some("/a.log"), LogFormat::Clean, "/dev/x", "/", &at(0).wall);
    let mut s = session(&cli(), Some(log));
    input(&mut s, b"\x01s", at(0));
    let out = s.shutdown(at(0));
    assert_eq!(
        short(&out),
        vec![
            "term [LeaveAlternateScreen, ShowCursor]",
            "close",
            "log [2000-02-29 12:59:59.123] --- session ended ---\n",
            "term [DisableRawMode, ShowCursor, ResetColors]",
        ]
    );
    match &out[3] {
        Action::Term(ops) => assert_eq!(ops[0], TermOp::DisableRawMode),
        other => panic!("{other:?}"),
    }
    // The device was gone already: there is no port to close.
    let mut s = session(&cli(), None);
    s.write_failed("EIO", at(0));
    assert_eq!(
        short(&s.shutdown(at(0))),
        vec!["term [DisableRawMode, ShowCursor, ResetColors]"]
    );
}

#[test]
fn chunks_make_no_difference_to_a_session() {
    let data = b"one\r\n\x1b[1mtwo\r\nthr";
    for cut in 0..data.len() {
        let mut a = session(&cli(), None);
        a.on_rx_at(&data[..cut], at(1));
        a.on_rx_at(&data[cut..], at(1));
        let status = input(&mut a, b"\x01i", at(1));
        assert!(status[0].contains(&format!("· {} B received · 2 lines ·", data.len())));
    }
}

#[test]
fn what_follows_the_key_that_leaves_the_view_is_typed() {
    let mut s = session(&cli(), None);
    input(&mut s, b"\x01s", at(0));
    assert_eq!(
        input(&mut s, b"kqls\r", at(0)),
        vec!["draw", "term [LeaveAlternateScreen, ShowCursor]", "send ls\r"]
    );
    // Commands are ordinary input too, and so is the escape key pressed twice.
    input(&mut s, b"\x01s", at(0));
    assert_eq!(
        input(&mut s, b"qa\x01\x01b\x01t", at(0)),
        vec![
            "term [LeaveAlternateScreen, ShowCursor]".to_string(),
            note("timestamps: rel", "36"),
            "send a\x01b".to_string(),
        ]
    );
    assert_eq!(input(&mut s, b"x", at(0)), vec!["send x"]);
    // Nothing is sent once the session ends.
    input(&mut s, b"\x01s", at(0));
    let out = input(&mut s, b"\x01qls\r", at(0));
    assert_eq!(out, vec!["draw", "term [LeaveAlternateScreen, ShowCursor]"]);
    assert!(s.quit());
}

#[test]
fn pairs_of_the_escape_key_are_sent_once_wherever_the_input_is_cut() {
    let data = b"a\x03\x01\x01b\x01\x01\x01\x01";
    for echo in [false, true] {
        for cut in 0..=data.len() {
            let mut c = cli();
            c.echo = echo;
            let mut s = session(&c, None);
            let mut out = input(&mut s, &data[..cut], at(0));
            out.extend(input(&mut s, &data[cut..], at(0)));
            let sent: String = out.iter().filter_map(|a| a.strip_prefix("send ")).collect();
            assert_eq!(sent, "a\x03\x01b\x01\x01", "cut at {cut}");
            assert!(!s.quit());
        }
    }
}
