use mcom::serial::{
    describe_lock_error, describe_open_error, find_reconnect_target, is_disconnect, ErrorKind,
    OpenFailure, ReadOutcome, Reader, ReaderStep,
};

#[test]
fn timeouts_are_not_disconnects() {
    assert!(!is_disconnect(ErrorKind::TimedOut));
    assert!(!is_disconnect(ErrorKind::Interrupted));
    assert!(!is_disconnect(ErrorKind::WouldBlock));
}

#[test]
fn hangups_are_disconnects() {
    assert!(is_disconnect(ErrorKind::NotFound));
    assert!(is_disconnect(ErrorKind::BrokenPipe));
    assert!(is_disconnect(ErrorKind::Other));
}

#[test]
fn missing_port_has_no_target_when_pinned() {
    assert_eq!(
        find_reconnect_target("/dev/definitely-not-here", false, None, &[], true),
        None
    );
}

#[test]
fn a_renamed_device_is_found_by_its_identity() {
    let entries = vec![
        ("usb-probe".to_string(), "/dev/ttyACM0".to_string()),
        ("usb-board".to_string(), "/dev/ttyACM1".to_string()),
    ];
    let find = |exists: bool, id: Option<&str>, strict: bool| {
        find_reconnect_target("/dev/ttyACM7", exists, id, &entries, strict)
    };
    assert_eq!(find(true, None, false).as_deref(), Some("/dev/ttyACM7"));
    assert_eq!(find(true, Some("usb-board"), true).as_deref(), Some("/dev/ttyACM7"));
    assert_eq!(find(false, Some("usb-board"), false).as_deref(), Some("/dev/ttyACM1"));
    assert_eq!(find(false, Some("usb-board"), true), None);
    assert_eq!(find(false, Some("usb-other"), false), None);
    // A single USB port is not enough to be taken for the device.
    assert_eq!(
        find_reconnect_target("/dev/ttyACM7", false, None, &entries[..1], false),
        None
    );
}

#[test]
fn open_errors_come_with_a_hint() {
    assert_eq!(
        describe_open_error("/dev/x", OpenFailure::NoDevice),
        "/dev/x is not there — is the board plugged in? Try `mcom --list`."
    );
    assert_eq!(
        describe_open_error("/dev/x", OpenFailure::Io(ErrorKind::PermissionDenied)),
        "no permission to open /dev/x — on Linux add yourself to the `dialout` group, \
         or check that nothing else holds it: `lsof /dev/x`"
    );
    assert_eq!(
        describe_open_error("/dev/x", OpenFailure::Io(ErrorKind::ResourceBusy)),
        "/dev/x is busy — another program still holds it. \
         A detached `screen` session is the usual culprit: `screen -ls`, then `lsof /dev/x`."
    );
    assert_eq!(
        describe_open_error("/dev/x", OpenFailure::Io(ErrorKind::NotFound)),
        "cannot open /dev/x"
    );
    assert_eq!(describe_open_error("/dev/x", OpenFailure::Other), "cannot open /dev/x");
}

#[test]
fn lock_errors_name_the_port() {
    assert_eq!(
        describe_lock_error("/dev/x", ErrorKind::WouldBlock),
        "/dev/x is locked by another process — check with `lsof /dev/x` \
         (a detached `screen` session is the usual culprit)"
    );
    assert_eq!(describe_lock_error("/dev/x", ErrorKind::Other), "cannot lock /dev/x");
}

#[test]
fn a_run_of_empty_reads_is_a_hang_up() {
    let mut r = Reader::new();
    for _ in 0..19 {
        assert!(matches!(r.on_read(ReadOutcome::Bytes(0)), ReaderStep::Pause));
    }
    // Data starts the count over; a timeout does not.
    assert!(matches!(r.on_read(ReadOutcome::Bytes(7)), ReaderStep::Forward));
    for _ in 0..19 {
        assert!(matches!(r.on_read(ReadOutcome::Bytes(0)), ReaderStep::Pause));
    }
    let timeout = ReadOutcome::Failed(ErrorKind::TimedOut, "timed out".into());
    assert!(matches!(r.on_read(timeout), ReaderStep::Again));
    match r.on_read(ReadOutcome::Bytes(0)) {
        ReaderStep::HangUp(why) => assert_eq!(why, "device closed the port"),
        other => panic!("{other:?}"),
    }
}

#[test]
fn a_read_error_ends_the_reading() {
    let mut r = Reader::new();
    match r.on_read(ReadOutcome::Failed(ErrorKind::BrokenPipe, "Broken pipe".into())) {
        ReaderStep::HangUp(why) => assert_eq!(why, "Broken pipe"),
        other => panic!("{other:?}"),
    }
}
