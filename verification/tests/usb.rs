use ch32rv::usb::{classify_open_error, decode_hex, encode_line, record, sanitize, CaptureState, Chan, Dir, OpenErrorKind, UsbError};

#[test]
fn encode_line_is_ndjson_with_lowercase_hex() {
    let line = encode_line(3, 1234, 0x01, Chan::Cmd, Dir::Out, &[0x81, 0x0d, 0x01], true);
    assert_eq!(
        line,
        r#"{"seq":3,"t_us":1234,"ep":"0x01","chan":"cmd","dir":"out","len":3,"ok":true,"data":"810d01"}"#
    );
}

#[test]
fn encode_line_empty_data_and_failure() {
    let line = encode_line(0, 0, 0x82, Chan::Data, Dir::In, &[], false);
    assert_eq!(
        line,
        r#"{"seq":0,"t_us":0,"ep":"0x82","chan":"data","dir":"in","len":0,"ok":false,"data":""}"#
    );
}

#[test]
fn record_is_noop_when_capture_not_started() {
    let mut capture: Option<CaptureState> = None;
    assert!(record(&mut capture, 0, 0x81, Chan::Cmd, Dir::In, &[0xff, 0x00], true).is_none());
    assert!(capture.is_none());
}

#[test]
fn record_numbers_lines_in_order() {
    let mut capture = Some(CaptureState { next_seq: 0 });
    let a = record(&mut capture, 5, 0x01, Chan::Cmd, Dir::Out, &[0x81], true).unwrap();
    let b = record(&mut capture, 9, 0x81, Chan::Cmd, Dir::In, &[0x82], true).unwrap();
    assert!(a.starts_with(r#"{"seq":0,"t_us":5,"#));
    assert!(b.starts_with(r#"{"seq":1,"t_us":9,"#));
    assert_eq!(capture, Some(CaptureState { next_seq: 2 }));
}

#[test]
fn sanitize_keeps_safe_chars_and_replaces_others() {
    assert_eq!(sanitize("FBC18F0680B0"), "FBC18F0680B0");
    assert_eq!(sanitize("1a86:8010:AB"), "1a86_8010_AB");
    assert_eq!(sanitize("bus1-port2.3"), "bus1-port2.3");
    assert_eq!(sanitize(""), "unknown");
    assert_eq!(sanitize("../evil"), ".._evil");
}

#[test]
fn decode_hex_pairs() {
    assert_eq!(decode_hex("810d01ff"), vec![0x81, 0x0d, 0x01, 0xff]);
    assert_eq!(decode_hex(""), Vec::<u8>::new());
    assert_eq!(decode_hex("00"), vec![0x00]);
}

#[test]
fn open_errors_are_classified() {
    assert_eq!(
        classify_open_error(OpenErrorKind::PermissionDenied, "denied".to_string()),
        UsbError::AccessDenied("denied".to_string())
    );
    assert_eq!(classify_open_error(OpenErrorKind::ResourceBusy, "busy".to_string()), UsbError::Busy("busy".to_string()));
    assert_eq!(classify_open_error(OpenErrorKind::Other, "x".to_string()), UsbError::Open("x".to_string()));
}
