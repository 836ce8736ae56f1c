use ch32rv::boot::{
    hid_error_kind, pad_image, payload, write64_flash_stub, HidBootError, BOOT_FLASH_STATR, V003_FLASH_BASE,
};
use ch32rv::exit::ErrorKind;

#[test]
fn write64_exactly_fills_report() {
    let report = payload(&write64_flash_stub(), &[V003_FLASH_BASE, BOOT_FLASH_STATR], &[0x5a; 64])
        .expect("valid write64 payload");
    assert_eq!(report[0], 0xaa);
    assert_eq!(&report[52..56], &V003_FLASH_BASE.to_le_bytes());
    assert_eq!(&report[56..60], &BOOT_FLASH_STATR.to_le_bytes());
    assert_eq!(&report[60..124], &[0x5a; 64]);
    assert_eq!(&report[124..128], &[0xcd, 0xab, 0x34, 0x12]);
}

#[test]
fn rejects_oversized_payload() {
    assert!(matches!(payload(&[0; 121], &[], &[]), Err(HidBootError::Payload)));
}

#[test]
fn images_are_padded_to_whole_sectors() {
    let p = pad_image(&[1, 2, 3]).unwrap();
    assert_eq!(p.len(), 64);
    assert_eq!(&p[..3], &[1, 2, 3]);
    assert!(p[3..].iter().all(|&b| b == 0xff));
    assert!(matches!(
        pad_image(&vec![0u8; 16385]),
        Err(HidBootError::ImageTooLarge { actual: 16385, limit: 16384 })
    ));
}

#[test]
fn hid_errors_map_to_kinds() {
    assert_eq!(hid_error_kind(&HidBootError::NotFound(0x4348, 0x55e0)), ErrorKind::DeviceNotFound);
    assert_eq!(hid_error_kind(&HidBootError::ReadProtected(2)), ErrorKind::TargetProtected);
    assert_eq!(hid_error_kind(&HidBootError::Verify(0x0800_0000)), ErrorKind::VerifyMismatch);
    assert_eq!(hid_error_kind(&HidBootError::Payload), ErrorKind::Usage);
    assert_eq!(hid_error_kind(&HidBootError::Timeout), ErrorKind::TransferFailed);
    assert_eq!(hid_error_kind(&HidBootError::Init("x".to_string())), ErrorKind::DeviceOpenFailed);
}
