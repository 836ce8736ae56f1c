use ch32rv::wchwin::{cm_err, from_utf16_trimmed, function_read, function_write, to_utf16z, Ch375Error};

#[test]
fn function_codes_match_verified_capture() {
    assert_eq!(function_write(0x01).unwrap(), 0x2_0000);
    assert_eq!(function_read(0x81).unwrap(), 0x1_0000);
    assert_eq!(function_write(0x02).unwrap(), 0x2_0001);
    assert_eq!(function_read(0x82).unwrap(), 0x1_0001);
}

#[test]
fn direction_bit_is_ignored() {
    assert_eq!(function_write(0x81).unwrap(), function_write(0x01).unwrap());
    assert_eq!(function_read(0x02).unwrap(), function_read(0x82).unwrap());
}

#[test]
fn endpoint_zero_and_out_of_range_are_rejected() {
    assert!(matches!(function_write(0x00), Err(Ch375Error::InvalidEndpoint(0x00))));
    assert!(matches!(function_read(0x80), Err(Ch375Error::InvalidEndpoint(0x80))));
}

#[test]
fn utf16_paths_round_trip() {
    let path = "\\\\?\\USB#VID_1A86&PID_8010#é𝄞";
    let units = to_utf16z(path);
    assert_eq!(*units.last().unwrap(), 0);
    assert_eq!(units[..units.len() - 1], path.encode_utf16().collect::<Vec<u16>>()[..]);
    assert_eq!(from_utf16_trimmed(&units), path);
    assert_eq!(from_utf16_trimmed(&[0x41, 0xD800, 0x42, 0, 0x43]), "A\u{FFFD}B");
    assert_eq!(from_utf16_trimmed(&[0x41, 0x42]), "AB");
    assert_eq!(cm_err("CM_Get_Device_ID", 3), Ch375Error::Cm { op: "CM_Get_Device_ID", code: 3 });
}
