use ch32rv::selector::{Selector, SelectorParseError, SerialFilter};

#[test]
fn canonical_vid_pid_serial() {
    let s: Selector = "1a86:8010:434A124C5596".parse().unwrap();
    assert_eq!(
        s,
        Selector::UsbId { vid: 0x1a86, pid: 0x8010, serial: SerialFilter::Exact("434A124C5596".into()) }
    );
}

#[test]
fn vid_pid_without_serial_matches_any() {
    let s: Selector = "1a86:8010".parse().unwrap();
    assert_eq!(s, Selector::UsbId { vid: 0x1a86, pid: 0x8010, serial: SerialFilter::Any });
}

#[test]
fn trailing_colon_means_no_serial() {
    let s: Selector = "4348:55e0:".parse().unwrap();
    assert_eq!(s, Selector::UsbId { vid: 0x4348, pid: 0x55e0, serial: SerialFilter::NoSerial });
}

#[test]
fn serial_may_contain_colons() {
    let s: Selector = "303a:1001:DC:DA:0C:D3:FE:D8".parse().unwrap();
    assert_eq!(
        s,
        Selector::UsbId { vid: 0x303a, pid: 0x1001, serial: SerialFilter::Exact("DC:DA:0C:D3:FE:D8".into()) }
    );
}

#[test]
fn keyword_forms() {
    assert_eq!("serial:ABC".parse::<Selector>().unwrap(), Selector::Serial("ABC".into()));
    assert_eq!("name:bench-01".parse::<Selector>().unwrap(), Selector::Name("bench-01".into()));
    assert_eq!("usb:3-1.4.2".parse::<Selector>().unwrap(), Selector::Topology("3-1.4.2".into()));
    assert_eq!("index:2".parse::<Selector>().unwrap(), Selector::Index(2));
}

#[test]
fn rejects_garbage() {
    assert!(matches!("zz86:8010".parse::<Selector>(), Err(SelectorParseError::InvalidHex { field: "VID", .. })));
    assert!(matches!("".parse::<Selector>(), Err(SelectorParseError::Empty)));
    assert!(matches!("wchlink".parse::<Selector>(), Err(SelectorParseError::Unrecognized(_))));
    assert!(matches!("index:x".parse::<Selector>(), Err(SelectorParseError::InvalidIndex(_))));
    assert!(matches!("serial:".parse::<Selector>(), Err(SelectorParseError::EmptyValue("serial"))));
}

#[test]
fn parse_errors_read_as_messages() {
    assert_eq!(Selector::parse("").unwrap_err().message(), "empty selector");
    assert_eq!(Selector::parse("zz86:8010").unwrap_err().message(), "invalid hex in `VID`: `zz86`");
    assert_eq!(Selector::parse("index:x").unwrap_err().message(), "invalid index: `x`");
    assert_eq!(Selector::parse("serial:").unwrap_err().message(), "empty value after `serial:`");
    assert_eq!(
        Selector::parse("probe").unwrap_err().message(),
        "unrecognized selector `probe` (expected VID:PID[:SERIAL], serial:<sn>, name:<alias>, usb:<bus>-<ports>, or index:<n>)"
    );
}
