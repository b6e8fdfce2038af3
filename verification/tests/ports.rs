use mcom::ports::{
    callout_twin, choose_port, device_identity, identities, identity_of, is_noise, list,
    looks_like_usb, node_path, path_for_identity, path_of, pick, prefer_callout, print_list,
    push_unique, scan_callout, scan_dev, Choice, ChooseError, DetectedPort, PortInfo, PortKind,
    TtyEntry, UsbInfo,
};

fn port(path: &str, label: &str, is_usb: bool) -> PortInfo {
    PortInfo {
        path: path.into(),
        label: label.into(),
        is_usb,
    }
}

fn usb(path: &str, serial: Option<&str>, maker: Option<&str>, product: Option<&str>) -> DetectedPort {
    DetectedPort {
        path: path.into(),
        kind: PortKind::Usb(UsbInfo {
            vid: 0x303a,
            pid: 0x1,
            serial_number: serial.map(String::from),
            manufacturer: maker.map(String::from),
            product: product.map(String::from),
        }),
    }
}

#[test]
fn recognizes_usb_port_names() {
    assert!(looks_like_usb("/dev/cu.usbmodem1101"));
    assert!(looks_like_usb("/dev/ttyACM0"));
    assert!(looks_like_usb("/dev/ttyUSB0"));
    assert!(!looks_like_usb("/dev/cu.Bluetooth-Incoming-Port"));
    assert!(!looks_like_usb("/dev/ttyS0"));
}

#[test]
fn filters_the_usual_macos_noise() {
    assert!(is_noise("/dev/cu.Bluetooth-Incoming-Port"));
    assert!(is_noise("/dev/cu.debug-console"));
    assert!(!is_noise("/dev/cu.usbmodem1101"));
}

#[test]
fn identity_maps_both_ways() {
    let entries = vec![
        (
            "usb-STMicroelectronics_STM32_Device_344F33483133-if00".to_string(),
            "/dev/ttyACM0".to_string(),
        ),
        (
            "usb-Black_Magic_Debug_Black_Magic_Probe-if00".to_string(),
            "/dev/ttyACM1".to_string(),
        ),
    ];
    let stm = identity_of(&entries, "/dev/ttyACM0").unwrap();
    assert!(stm.contains("STM32"));
    assert_eq!(path_of(&entries, &stm).as_deref(), Some("/dev/ttyACM0"));

    // The board is unplugged: its identity resolves to nothing, and in
    // particular not to the debug probe that is still connected.
    let gone: Vec<(String, String)> = entries[1..].to_vec();
    assert_eq!(path_of(&gone, &stm), None);
    assert_eq!(identity_of(&gone, "/dev/ttyACM0"), None);
}

#[test]
fn merges_duplicate_paths_keeping_the_better_label() {
    let mut v = Vec::new();
    push_unique(
        &mut v,
        PortInfo {
            path: "/dev/x".into(),
            label: String::new(),
            is_usb: false,
        },
    );
    push_unique(
        &mut v,
        PortInfo {
            path: "/dev/x".into(),
            label: "Espressif".into(),
            is_usb: true,
        },
    );
    assert_eq!(v.len(), 1);
    assert_eq!(v[0].label, "Espressif");
    assert!(v[0].is_usb);
}

#[test]
fn the_callout_twin_is_preferred_where_it_exists() {
    assert_eq!(
        callout_twin("/dev/tty.usbmodem1").as_deref(),
        Some("/dev/cu.usbmodem1")
    );
    assert_eq!(callout_twin("/dev/ttyUSB0"), None);
    assert_eq!(
        prefer_callout("/dev/tty.usbmodem1", true).as_deref(),
        Some("/dev/cu.usbmodem1")
    );
    assert_eq!(prefer_callout("/dev/tty.usbmodem1", false), None);
    assert_eq!(prefer_callout("/dev/ttyUSB0", true), None);
}

#[test]
fn usb_ports_are_listed_first_and_sorted() {
    let detected = vec![
        DetectedPort {
            path: "/dev/ttyS0".into(),
            kind: PortKind::Unknown,
        },
        usb("/dev/ttyACM1", None, None, None),
        usb("/dev/ttyACM0", None, Some("Espressif"), Some("JTAG")),
        DetectedPort {
            path: "/dev/cu.debug-console".into(),
            kind: PortKind::Pci,
        },
        DetectedPort {
            path: "/dev/rfcomm0".into(),
            kind: PortKind::Bluetooth,
        },
    ];
    let scanned = vec![port("/dev/ttyACM1", "by-id name", true), port("/dev/ttyAMA0", "", false)];
    let got = list(&detected, &scanned, false);
    assert_eq!(
        got,
        vec![
            port("/dev/ttyACM0", "Espressif JTAG", true),
            port("/dev/ttyACM1", "USB 303a:0001", true),
            port("/dev/rfcomm0", "Bluetooth", false),
            port("/dev/ttyAMA0", "", false),
            port("/dev/ttyS0", "", false),
        ]
    );
}

#[test]
fn macos_lists_no_tty_twins() {
    let scanned = vec![port("/dev/tty.usbmodem1", "", true), port("/dev/cu.usbmodem1", "", true)];
    let got = list(&[], &scanned, true);
    assert_eq!(got, vec![port("/dev/cu.usbmodem1", "", true)]);
    assert_eq!(list(&[], &scanned, false).len(), 2);
}

#[test]
fn scans_links_and_backed_terminals() {
    let links = vec![("usb-Espressif-if00".to_string(), "/dev/ttyACM0".to_string())];
    let ttys = vec![
        TtyEntry {
            name: "ttyUSB3".into(),
            has_device: true,
            node_exists: true,
        },
        TtyEntry {
            name: "tty7".into(),
            has_device: false,
            node_exists: true,
        },
        TtyEntry {
            name: "ttyS9".into(),
            has_device: true,
            node_exists: false,
        },
        TtyEntry {
            name: "ttyS0".into(),
            has_device: true,
            node_exists: true,
        },
    ];
    assert_eq!(
        scan_dev(&links, &ttys),
        vec![
            port("/dev/ttyACM0", "usb-Espressif-if00", true),
            port("/dev/ttyUSB3", "", true),
            port("/dev/ttyS0", "", false),
        ]
    );
    let names = vec!["cu.usbmodem1".to_string(), "tty.usbmodem1".to_string(), "cu.x".to_string()];
    assert_eq!(
        scan_callout(&names),
        vec![port("/dev/cu.usbmodem1", "", true), port("/dev/cu.x", "", false)]
    );
    assert_eq!(node_path("ttyS0"), "/dev/ttyS0");
}

#[test]
fn only_devices_with_a_serial_number_have_an_identity() {
    let detected = vec![
        usb("/dev/cu.usbmodem1", Some("ABC"), None, None),
        usb("/dev/cu.usbmodem2", None, None, None),
        DetectedPort {
            path: "/dev/cu.x".into(),
            kind: PortKind::Unknown,
        },
    ];
    let entries = identities(&detected);
    assert_eq!(
        entries,
        vec![("usb-303a:0001-ABC".to_string(), "/dev/cu.usbmodem1".to_string())]
    );
    assert_eq!(
        device_identity(&entries, "/dev/link", Some("/dev/cu.usbmodem1")).as_deref(),
        Some("usb-303a:0001-ABC")
    );
    assert_eq!(device_identity(&entries, "/dev/link", None), None);
    assert_eq!(
        path_for_identity(&entries, "usb-303a:0001-ABC").as_deref(),
        Some("/dev/cu.usbmodem1")
    );
    assert_eq!(path_for_identity(&entries, "usb-303a:0001-XYZ"), None);
}

#[test]
fn prints_the_list_in_columns() {
    assert_eq!(print_list(&[]), "no serial ports found\n");
    assert_eq!(
        print_list(&[port("/dev/ttyACM0", "Espressif", true), port("/dev/ttyS0", "", false)]),
        "usb  /dev/ttyACM0  Espressif\n     /dev/ttyS0  \n"
    );
}

fn selected(c: Result<Choice, ChooseError>) -> (String, Option<String>) {
    match c {
        Ok(Choice::Port { path, remark }) => (path, remark),
        other => panic!("{other:?}"),
    }
}

#[test]
fn a_requested_port_is_taken_as_it_is() {
    assert_eq!(
        selected(choose_port(Some("/dev/ttyACM3"), false, &[])),
        ("/dev/ttyACM3".to_string(), None)
    );
    assert_eq!(
        selected(choose_port(Some("/dev/tty.usbmodem1"), true, &[])),
        (
            "/dev/cu.usbmodem1".to_string(),
            Some(
                "note: using /dev/cu.usbmodem1 instead of /dev/tty.usbmodem1 (tty devices block until DCD)"
                    .to_string()
            )
        )
    );
}

#[test]
fn the_only_usb_port_is_selected() {
    let ports = vec![port("/dev/ttyACM0", "", true), port("/dev/ttyS0", "", false)];
    assert_eq!(
        selected(choose_port(None, false, &ports)),
        ("/dev/ttyACM0".to_string(), None)
    );
}

#[test]
fn no_port_is_an_error() {
    let e = choose_port(None, false, &[]).unwrap_err();
    assert_eq!(e, ChooseError::NoPorts);
    assert_eq!(
        e.message(),
        "no serial ports found; plug in a board or pass a path explicitly"
    );
    let ports = vec![port("/dev/ttyS0", "", false), port("/dev/ttyS1", "", false)];
    let e = choose_port(None, false, &ports).unwrap_err();
    assert_eq!(
        e.message(),
        "no USB serial port found; pass one of these explicitly: /dev/ttyS0, /dev/ttyS1"
    );
}

#[test]
fn several_usb_ports_are_put_to_the_user() {
    let ports = vec![
        port("/dev/ttyACM0", "Espressif", true),
        port("/dev/ttyS0", "", false),
        port("/dev/ttyUSB0", "", true),
    ];
    match choose_port(None, false, &ports) {
        Ok(Choice::Ask { menu, paths }) => {
            assert_eq!(
                menu,
                "Multiple ports found:\n  1) /dev/ttyACM0  Espressif\n  2) /dev/ttyUSB0\nSelect [1-2]: "
            );
            assert_eq!(pick(" 2\n", &paths).unwrap(), "/dev/ttyUSB0");
            assert_eq!(pick("+1", &paths).unwrap(), "/dev/ttyACM0");
            assert_eq!(pick("0\n", &paths), Err(ChooseError::OutOfRange));
            assert_eq!(pick("3", &paths).unwrap_err().message(), "choice out of range");
            assert_eq!(
                pick(" two \n", &paths).unwrap_err().message(),
                "not a number: \"two\""
            );
            assert_eq!(
                pick("\n", &paths),
                Err(ChooseError::NotANumber(String::new()))
            );
            assert_eq!(
                pick("99999999999999999999999", &paths),
                Err(ChooseError::NotANumber("99999999999999999999999".to_string()))
            );
        }
        other => panic!("{other:?}"),
    }
}
