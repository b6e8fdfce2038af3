use mcom::cli::LogFormat;
use mcom::clock::{Elapsed, WallTime};
use mcom::logfile::{default_name, default_name_at, stamped_name, LogWriter};
use mcom::scrollback::Line;

const AT: WallTime = WallTime {
    secs: 951_825_599,
    nanos: 123_999_999,
    offset: 3600,
};

fn log(format: LogFormat) -> LogWriter {
    LogWriter::open_at(Some("session.log"), format, "/dev/ttyACM0", "/home/me", &AT)
}

fn text(bytes: Vec<u8>) -> String {
    String::from_utf8(bytes).unwrap()
}

#[test]
fn default_name_uses_port_leaf() {
    let n = default_name("/dev/cu.usbmodem1101");
    assert!(n.starts_with("mcom-cu.usbmodem1101-"));
    assert!(n.ends_with(".log"));
}

#[test]
fn default_names_carry_the_local_time() {
    assert_eq!(
        default_name_at("/dev/ttyACM0", &AT),
        "mcom-ttyACM0-20000229-125959.log"
    );
    assert_eq!(default_name_at("COM3", &AT), "mcom-COM3-20000229-125959.log");
}

#[test]
fn log_paths_are_full_paths() {
    assert_eq!(log(LogFormat::Raw).path(), "/home/me/session.log");
    let open = |path: Option<&str>, dir: &str| {
        let l = LogWriter::open_at(path, LogFormat::Clean, "/dev/ttyACM0", dir, &AT);
        l.path().to_string()
    };
    assert_eq!(open(Some("/var/log/x"), "/home/me"), "/var/log/x");
    assert_eq!(open(Some("x"), "/"), "/x");
    assert_eq!(open(None, "/tmp"), "/tmp/mcom-ttyACM0-20000229-125959.log");
    assert_eq!(open(Some(""), "/tmp"), "/tmp/mcom-ttyACM0-20000229-125959.log");
    let now = LogWriter::open(None, LogFormat::Clean, "/dev/ttyACM0", "/tmp");
    assert!(now.path().starts_with("/tmp/mcom-ttyACM0-2"));
}

#[test]
fn raw_logs_mirror_the_stream() {
    let l = log(LogFormat::Raw);
    assert_eq!(l.write_chunk(b"\x1b[31mred\r\n"), b"\x1b[31mred\r\n".to_vec());
    let line = Line {
        raw: b"red".to_vec(),
        at: AT,
        rel: Elapsed { nanos: 0 },
        delta: Elapsed { nanos: 0 },
    };
    assert!(l.write_line(&line).is_empty());
    assert_eq!(
        text(l.note_at("break sent", &AT)),
        "\n[2000-02-29 12:59:59.123] --- break sent ---\n"
    );
}

#[test]
fn clean_logs_hold_stamped_lines() {
    let l = log(LogFormat::Clean);
    assert!(l.write_chunk(b"anything").is_empty());
    let line = Line {
        raw: b"\x1b[31mred\x1b[0m alert".to_vec(),
        at: AT,
        rel: Elapsed { nanos: 0 },
        delta: Elapsed { nanos: 0 },
    };
    assert_eq!(text(l.write_line(&line)), "[2000-02-29 12:59:59.123] red alert\n");
    assert_eq!(
        text(l.note_at("session ended", &AT)),
        "[2000-02-29 12:59:59.123] --- session ended ---\n"
    );
    assert!(text(l.note("now")).ends_with("] --- now ---\n"));
}

#[test]
fn a_file_that_cannot_be_created_is_named() {
    assert_eq!(
        log(LogFormat::Raw).create_error(),
        "cannot create \"/home/me/session.log\""
    );
}

#[test]
fn stamps_may_be_given() {
    assert_eq!(stamped_name("/dev/cu.x", "T"), "mcom-cu.x-T.log");
    let clean = log(LogFormat::Clean);
    assert_eq!(text(clean.stamped_line(b"\x1b[1mx", "T")), "[T] x\n");
    assert_eq!(text(clean.stamped_note("n", "T")), "[T] --- n ---\n");
    let raw = log(LogFormat::Raw);
    assert!(raw.stamped_line(b"x", "T").is_empty());
    assert_eq!(text(raw.stamped_note("n", "T")), "\n[T] --- n ---\n");
}
