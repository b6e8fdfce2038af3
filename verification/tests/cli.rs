use mcom::cli::{DataBits, FrameError, FrameMode, Parity, StopBits, TsMode};

#[test]
fn parses_frame_modes() {
    let m = FrameMode::parse("8N1").unwrap();
    assert_eq!(m.data_bits, DataBits::Eight);
    assert_eq!(m.parity, Parity::NoParity);
    assert_eq!(m.stop_bits, StopBits::One);
    assert_eq!(m.to_string(), "8N1");

    assert_eq!(FrameMode::parse("7e2").unwrap().to_string(), "7E2");
    assert!(FrameMode::parse("8N").is_err());
    assert!(FrameMode::parse("9N1").is_err());
    assert!(FrameMode::parse("8X1").is_err());
    assert!(FrameMode::parse("8N3").is_err());
}

#[test]
fn timestamp_modes_cycle() {
    let mut m = TsMode::Off;
    for _ in 0..4 {
        m = m.next();
    }
    assert_eq!(m, TsMode::Off);
}

#[test]
fn timestamp_modes_have_labels() {
    let mut m = TsMode::Off;
    let mut labels = Vec::new();
    for _ in 0..4 {
        labels.push(m.label());
        m = m.next();
    }
    assert_eq!(labels, vec!["off", "rel", "abs", "delta"]);
}

#[test]
fn frame_errors_say_what_is_wrong() {
    let e = FrameMode::parse("8N11").unwrap_err();
    assert_eq!(e, FrameError::Length("8N11".to_string()));
    assert_eq!(
        e.message(),
        "expected a 3-character frame format like 8N1, got \"8N11\""
    );
    let e = FrameMode::parse("9N1").unwrap_err();
    assert_eq!(e.message(), "data bits must be 5..8, got '9'");
    let e = FrameMode::parse("8x1").unwrap_err();
    assert_eq!(e.message(), "parity must be N, E or O, got 'x'");
    let e = FrameMode::parse("8N3").unwrap_err();
    assert_eq!(e.message(), "stop bits must be 1 or 2, got '3'");
}

#[test]
fn a_frame_is_measured_in_bytes() {
    assert_eq!(FrameMode::parse("é1"), Err(FrameError::DataBits(0xc3)));
    assert_eq!(FrameMode::parse("éé"), Err(FrameError::Length("éé".to_string())));
}

#[test]
fn every_frame_reads_back() {
    for d in ["5", "6", "7", "8"] {
        for p in ["N", "E", "O"] {
            for s in ["1", "2"] {
                let text = format!("{d}{p}{s}");
                assert_eq!(FrameMode::parse(&text).unwrap().to_string(), text);
            }
        }
    }
}
