use ch32rv::contract::{ErrorBody, FirmwareVersion, ResultEnvelope, CONTRACT_VERSION};
use ch32rv::exit::{ErrorKind, ExitCode};
use ch32rv::policy::{EraseMode, RecoverMethod, VerifyMode};
use ch32rv::progress::CancelToken;

const ALL_KINDS: &[ErrorKind] = &[
    ErrorKind::Usage,
    ErrorKind::DeviceNotFound,
    ErrorKind::DeviceOpenFailed,
    ErrorKind::DeviceFirmwareUnsupported,
    ErrorKind::DeviceFirmwareKnownBad,
    ErrorKind::DeviceBusy,
    ErrorKind::DeviceAmbiguous,
    ErrorKind::TargetNoResponse,
    ErrorKind::TargetNotInDb,
    ErrorKind::TargetProtected,
    ErrorKind::AttachFailed,
    ErrorKind::TargetAmbiguous,
    ErrorKind::CapabilityUnsupported,
    ErrorKind::VerifyMismatch,
    ErrorKind::BlankCheckFailed,
    ErrorKind::TransportTimeout,
    ErrorKind::TransferFailed,
    ErrorKind::ProbeWedged,
    ErrorKind::NotRunningAfterWrite,
    ErrorKind::Internal,
    ErrorKind::Unimplemented,
];

#[test]
fn firmware_version_triple() {
    let fw = FirmwareVersion::from_major_minor(2, 12);
    assert_eq!(fw.raw, "020c");
    assert_eq!(fw.norm, "2.12");
    assert_eq!(fw.wch, "v32");
}

#[test]
fn failure_envelope_carries_kind_and_code() {
    let env = ResultEnvelope::failure(
        "flash".to_string(),
        ErrorKind::NotRunningAfterWrite,
        "target halted after reset".to_string(),
    );
    assert!(!env.ok);
    let e = env.error.expect("a failure carries its error");
    assert_eq!(e.code, 50);
    assert_eq!(e.kind, "not-running-after-write");
    assert_eq!(env.contract, CONTRACT_VERSION);
}

#[test]
fn success_envelope_starts_empty() {
    let env = ResultEnvelope::success("version".to_string());
    assert!(env.ok);
    assert!(env.warnings.is_empty());
    assert!(env.error.is_none());
    assert!(env.probe.is_none());
}

#[test]
fn error_body_carries_the_kind_code() {
    let b = ErrorBody::new(ErrorKind::VerifyMismatch, "differs".to_string());
    assert_eq!(b.code, 30);
    assert_eq!(b.kind, "verify-mismatch");
    assert_eq!(b.msg, "differs");
}

#[test]
fn exit_code_numbers_are_frozen() {
    assert_eq!(ExitCode::Success.code(), 0);
    assert_eq!(ExitCode::Usage.code(), 2);
    assert_eq!(ExitCode::DeviceNotFound.code(), 10);
    assert_eq!(ExitCode::DeviceOpenFailed.code(), 11);
    assert_eq!(ExitCode::DeviceFirmware.code(), 12);
    assert_eq!(ExitCode::DeviceBusy.code(), 13);
    assert_eq!(ExitCode::DeviceAmbiguous.code(), 14);
    assert_eq!(ExitCode::TargetUnidentified.code(), 20);
    assert_eq!(ExitCode::TargetProtected.code(), 21);
    assert_eq!(ExitCode::AttachFailed.code(), 22);
    assert_eq!(ExitCode::TargetAmbiguous.code(), 23);
    assert_eq!(ExitCode::CapabilityUnsupported.code(), 24);
    assert_eq!(ExitCode::VerifyMismatch.code(), 30);
    assert_eq!(ExitCode::TransferFailed.code(), 40);
    assert_eq!(ExitCode::ProbeWedged.code(), 41);
    assert_eq!(ExitCode::NotRunningAfterWrite.code(), 50);
    assert_eq!(ExitCode::Internal.code(), 70);
}

#[test]
fn every_kind_maps_into_the_documented_band() {
    const VALID: &[u8] = &[2, 10, 11, 12, 13, 14, 20, 21, 22, 23, 24, 30, 40, 41, 50, 70];
    for &k in ALL_KINDS {
        assert!(
            VALID.contains(&k.exit_code().code()),
            "{k:?} maps to an undocumented exit code {}",
            k.exit_code().code()
        );
    }
}

#[test]
fn documented_many_to_one_groupings() {
    assert_eq!(ErrorKind::TransportTimeout.exit_code(), ErrorKind::TransferFailed.exit_code());
    assert_eq!(ErrorKind::TargetNoResponse.exit_code(), ErrorKind::TargetNotInDb.exit_code());
    assert_eq!(ErrorKind::VerifyMismatch.exit_code(), ErrorKind::BlankCheckFailed.exit_code());
    assert_eq!(
        ErrorKind::DeviceFirmwareUnsupported.exit_code(),
        ErrorKind::DeviceFirmwareKnownBad.exit_code()
    );
}

#[test]
fn as_str_is_kebab_and_unique() {
    let mut seen = std::collections::HashSet::new();
    for &k in ALL_KINDS {
        let s = k.as_str();
        assert!(!s.is_empty());
        assert!(s.chars().all(|c| c.is_ascii_lowercase() || c == '-'), "{k:?} -> {s:?} is not kebab-case");
        assert!(seen.insert(s), "duplicate as_str {s:?}");
    }
}

#[test]
fn policy_words_are_kebab_case() {
    assert_eq!(RecoverMethod::PowerOff.as_str(), "power-off");
    assert_eq!(VerifyMode::Readback.as_str(), "readback");
    assert_eq!(EraseMode::Off.as_str(), "none");
}

#[test]
fn cancel_token_roundtrip() {
    let t = CancelToken::new();
    let t2 = t.clone();
    assert!(!t2.is_cancelled());
    t.cancel();
    assert!(t2.is_cancelled());
}
