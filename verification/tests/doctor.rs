use ch32rv::doctor::{doctor_checks, DoctorProbe};
use ch32rv::exit::ErrorKind;

#[test]
fn no_probe_fails_with_a_hint() {
    let (checks, verdict) = doctor_checks(Ok(()), &[], None);
    assert_eq!(checks.len(), 2);
    assert_eq!(checks[0].name, "usb-enumerate");
    assert!(checks[0].ok);
    assert_eq!(checks[0].detail, "USB enumeration works");
    assert_eq!(checks[1].name, "probe-present");
    assert!(!checks[1].ok);
    assert_eq!(checks[1].hint.as_deref(), Some("plug in a WCH-LinkE (1a86:8010); check the cable"));
    assert_eq!(verdict, Some(ErrorKind::DeviceOpenFailed));
}

#[test]
fn healthy_probe_and_group_pass() {
    let probes = vec![DoctorProbe::Riscv { label: "ABC [riscv]".to_owned(), opened: Ok((2, 15, None)) }];
    let (checks, verdict) = doctor_checks(Ok(()), &probes, Some("user adm plugdev sudo\n"));
    assert_eq!(checks.len(), 4);
    assert_eq!(checks[1].detail, "1 WCH device(s) found");
    assert_eq!(checks[2].name, "probe-open");
    assert_eq!(checks[2].detail, "ABC [riscv]: opened, firmware 2.15");
    assert!(checks[2].ok);
    assert_eq!(checks[3].name, "linux-plugdev");
    assert!(checks[3].ok);
    assert_eq!(verdict, None);
}

#[test]
fn open_errors_are_sorted_and_bad_firmware_flagged() {
    let probes = vec![
        DoctorProbe::Riscv { label: "A [riscv]".to_owned(), opened: Err("usb: access denied (insufficient permissions)".to_owned()) },
        DoctorProbe::Riscv { label: "B [riscv]".to_owned(), opened: Err("resource busy".to_owned()) },
        DoctorProbe::Riscv { label: "C [riscv]".to_owned(), opened: Err("pipe error".to_owned()) },
        DoctorProbe::Riscv { label: "D [riscv]".to_owned(), opened: Ok((2, 8, Some("update the firmware".to_owned()))) },
        DoctorProbe::Iap { label: "E [iap]".to_owned() },
        DoctorProbe::Other { label: "F [dap]".to_owned() },
    ];
    let (checks, verdict) = doctor_checks(Err("no backend".to_owned()), &probes, Some("user plugdevs"));
    assert_eq!(checks[0].detail, "cannot enumerate USB: no backend");
    assert_eq!(checks[1].detail, "6 WCH device(s) found");
    assert_eq!(checks[2].detail, "A [riscv]: permission denied");
    assert_eq!(checks[3].detail, "B [riscv]: busy");
    assert_eq!(checks[3].hint.as_deref(), Some("another tool holds this probe"));
    assert_eq!(checks[4].detail, "C [riscv]: cannot open: pipe error");
    assert_eq!(checks[4].hint, None);
    assert_eq!(checks[5].detail, "D [riscv]: opened, firmware 2.8 [KNOWN BAD]");
    assert_eq!(checks[5].hint.as_deref(), Some("update the firmware"));
    assert!(!checks[5].ok);
    assert_eq!(checks[6].name, "probe-iap");
    assert_eq!(checks[7].name, "probe-mode");
    assert!(checks[7].ok);
    assert!(!checks[8].ok, "plugdevs is not plugdev");
    assert_eq!(verdict, Some(ErrorKind::DeviceOpenFailed));
}
