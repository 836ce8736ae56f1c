use ch32rv::contract::{ProbeMode, Warning};
use ch32rv::exit::ErrorKind;
use ch32rv::probeinfo::{apply_probe_info, base_report, firmware_verdict, should_retry, str_contains, ProbeFacts};

#[test]
fn base_report_names_the_mode() {
    let r = base_report(ProbeMode::Riscv, Some("WCH-LinkE"), Some("ABC".to_string()), "1a86:8010".to_string(), "1-2".to_string(), vec![]);
    assert_eq!(r.model, "WCH-LinkE");
    assert_eq!(r.usb.as_deref(), Some("1a86:8010"));
    assert_eq!(r.mode, Some(ProbeMode::Riscv));
    assert!(r.firmware.is_none());
    let r = base_report(ProbeMode::Dap, Some("ignored"), None, "1a86:8011".to_string(), "1-3".to_string(), vec![]);
    assert_eq!(r.model, "WCH-Link (DAP mode)");
    let r = base_report(ProbeMode::Iap, None, None, "4348:55e0".to_string(), "1-3".to_string(), vec![]);
    assert_eq!(r.model, "WCH-Link (IAP mode) or WCH factory ISP device");
    let r = base_report(ProbeMode::Riscv, None, None, "1a86:8010".to_string(), "1-4".to_string(), vec!["/dev/ttyACM0".to_string()]);
    assert_eq!(r.model, "WCH-Link");
    assert_eq!(r.ports, vec!["/dev/ttyACM0".to_string()]);
}

#[test]
fn probe_info_adds_firmware_and_warnings() {
    let mut r = base_report(ProbeMode::Riscv, None, None, "1a86:8010".to_string(), "1-2".to_string(), vec![]);
    let mut w: Vec<Warning> = Vec::new();
    apply_probe_info(
        &mut r,
        ProbeFacts {
            fw_major: 2,
            fw_minor: 9,
            fw_mode: Some("riscv".to_string()),
            known_bad: Some("breaks SDI print".to_string()),
            model: "WCH-Link (unknown variant 0x99)".to_string(),
        },
        &mut w,
    );
    let fw = r.firmware.as_ref().unwrap();
    assert_eq!(fw.norm, "2.9");
    assert_eq!(fw.raw, "0209");
    assert_eq!(fw.known_bad, Some(true));
    assert_eq!(fw.mode.as_deref(), Some("riscv"));
    assert_eq!(r.model, "WCH-Link (unknown variant 0x99)");
    assert_eq!(w.len(), 2);
    assert_eq!((w[0].code.as_str(), w[0].msg.as_str()), ("fw-known-bad", "breaks SDI print"));
    assert_eq!(w[1].code, "probe-variant-unknown");
    assert_eq!(w[1].msg, "unrecognized probe variant: WCH-Link (unknown variant 0x99)");

    let mut r = base_report(ProbeMode::Riscv, None, None, "1a86:8010".to_string(), "1-2".to_string(), vec![]);
    let mut w: Vec<Warning> = Vec::new();
    apply_probe_info(
        &mut r,
        ProbeFacts { fw_major: 2, fw_minor: 12, fw_mode: None, known_bad: None, model: "WCH-LinkE".to_string() },
        &mut w,
    );
    assert_eq!(r.firmware.as_ref().unwrap().known_bad, Some(false));
    assert!(w.is_empty());
}

#[test]
fn open_retry_skips_permission_errors() {
    assert!(should_retry(Some("USB open failed: busy")));
    assert!(!should_retry(Some("USB open failed: access denied (insufficient permissions)")));
    assert!(!should_retry(None));
    assert!(str_contains("abc", ""));
    assert!(!str_contains("", "a"));
}

#[test]
fn firmware_check_verdicts() {
    assert!(firmware_verdict(2, 12, None, None).is_ok());
    assert!(firmware_verdict(2, 12, None, Some("2.12")).is_ok());
    assert!(firmware_verdict(3, 0, None, Some(" 2.20 ")).is_ok());
    let f = firmware_verdict(2, 9, None, Some("2.10")).unwrap_err();
    assert_eq!(f.kind, ErrorKind::DeviceFirmwareUnsupported);
    assert_eq!(f.msg, "probe firmware 2.09 is below the required 2.10");
    assert_eq!(f.hint.as_deref(), Some("update the probe firmware"));
    let f = firmware_verdict(2, 9, Some("SDI print broken"), Some("1.0")).unwrap_err();
    assert_eq!(f.kind, ErrorKind::DeviceFirmwareKnownBad);
    assert_eq!(f.msg, "probe firmware 2.09 is known-bad: SDI print broken");
    let f = firmware_verdict(2, 12, None, Some("two")).unwrap_err();
    assert_eq!(f.kind, ErrorKind::Usage);
    assert_eq!(f.msg, "bad --min \"two\" (use major.minor, e.g. 2.20)");
    assert_eq!(f.hint, None);
}
