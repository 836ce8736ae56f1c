//! Exit codes and error classification. The bands: 10-14 entry device, 20-24 target, 30-41
//! transfer and verify, 50 run confirmation. New codes may only be added within the free numbers
//! of each band.

use vstd::prelude::*;

verus! {

/// Process exit code. The values are part of the contract and never change.
#[derive(Debug, Clone, Copy, PartialEq, Eq, Structural, Hash)]
pub enum ExitCode {
    Success,
    /// Argument / usage error (as clap's 2).
    Usage,
    /// Entry device (probe / ISP device / DFU / port) not found.
    DeviceNotFound,
    /// Device cannot be opened (permissions, driver binding).
    DeviceOpenFailed,
    /// Device firmware does not satisfy the operation (incl. known-bad versions).
    DeviceFirmware,
    /// Device busy (lock acquisition failed).
    DeviceBusy,
    /// Device does not resolve to exactly one (fail-closed).
    DeviceAmbiguous,
    /// Target cannot be identified (no response / not in the DB).
    TargetUnidentified,
    /// Target is protected (explicit unprotect required).
    TargetProtected,
    /// Attach failed (wiring, power, BOOT).
    AttachFailed,
    /// Target ambiguous (several candidates / conflicts with --chip).
    TargetAmbiguous,
    /// Capability missing for this probe x firmware x target x operation.
    CapabilityUnsupported,
    /// Verify mismatch / blank check failed.
    VerifyMismatch,
    /// Any transfer / DMI operation failure, including a genuine transport timeout.
    TransferFailed,
    /// Probe is wedged; a USB re-plug is required (reserved).
    ProbeWedged,
    /// Programmed, but the target is not running (confirm-run failed).
    NotRunningAfterWrite,
    /// Internal error (bug).
    Internal,
}

impl ExitCode {
    /// The numeric exit status.
    pub open spec fn number(self) -> u8 {
        match self {
            ExitCode::Success => 0,
            ExitCode::Usage => 2,
            ExitCode::DeviceNotFound => 10,
            ExitCode::DeviceOpenFailed => 11,
            ExitCode::DeviceFirmware => 12,
            ExitCode::DeviceBusy => 13,
            ExitCode::DeviceAmbiguous => 14,
            ExitCode::TargetUnidentified => 20,
            ExitCode::TargetProtected => 21,
            ExitCode::AttachFailed => 22,
            ExitCode::TargetAmbiguous => 23,
            ExitCode::CapabilityUnsupported => 24,
            ExitCode::VerifyMismatch => 30,
            ExitCode::TransferFailed => 40,
            ExitCode::ProbeWedged => 41,
            ExitCode::NotRunningAfterWrite => 50,
            ExitCode::Internal => 70,
        }
    }

    pub fn code(self) -> (c: u8)
        ensures
            c == self.number(),
    {
        match self {
            ExitCode::Success => 0,
            ExitCode::Usage => 2,
            ExitCode::DeviceNotFound => 10,
            ExitCode::DeviceOpenFailed => 11,
            ExitCode::DeviceFirmware => 12,
            ExitCode::DeviceBusy => 13,
            ExitCode::DeviceAmbiguous => 14,
            ExitCode::TargetUnidentified => 20,
            ExitCode::TargetProtected => 21,
            ExitCode::AttachFailed => 22,
            ExitCode::TargetAmbiguous => 23,
            ExitCode::CapabilityUnsupported => 24,
            ExitCode::VerifyMismatch => 30,
            ExitCode::TransferFailed => 40,
            ExitCode::ProbeWedged => 41,
            ExitCode::NotRunningAfterWrite => 50,
            ExitCode::Internal => 70,
        }
    }
}

/// Machine-readable error kind, serialized in kebab-case as the JSON error kind. Every kind maps
/// to exactly one [`ExitCode`].
#[derive(Debug, Clone, Copy, PartialEq, Eq, Structural, Hash)]
pub enum ErrorKind {
    Usage,
    DeviceNotFound,
    DeviceOpenFailed,
    DeviceFirmwareUnsupported,
    DeviceFirmwareKnownBad,
    DeviceBusy,
    DeviceAmbiguous,
    TargetNoResponse,
    TargetNotInDb,
    TargetProtected,
    AttachFailed,
    TargetAmbiguous,
    CapabilityUnsupported,
    VerifyMismatch,
    BlankCheckFailed,
    TransportTimeout,
    TransferFailed,
    ProbeWedged,
    NotRunningAfterWrite,
    Internal,
    Unimplemented,
}

impl ErrorKind {
    /// The stable kebab-case name.
    pub open spec fn name(self) -> Seq<char> {
        match self {
            ErrorKind::Usage => "usage"@,
            ErrorKind::DeviceNotFound => "device-not-found"@,
            ErrorKind::DeviceOpenFailed => "device-open-failed"@,
            ErrorKind::DeviceFirmwareUnsupported => "device-firmware-unsupported"@,
            ErrorKind::DeviceFirmwareKnownBad => "device-firmware-known-bad"@,
            ErrorKind::DeviceBusy => "device-busy"@,
            ErrorKind::DeviceAmbiguous => "device-ambiguous"@,
            ErrorKind::TargetNoResponse => "target-no-response"@,
            ErrorKind::TargetNotInDb => "target-not-in-db"@,
            ErrorKind::TargetProtected => "target-protected"@,
            ErrorKind::AttachFailed => "attach-failed"@,
            ErrorKind::TargetAmbiguous => "target-ambiguous"@,
            ErrorKind::CapabilityUnsupported => "capability-unsupported"@,
            ErrorKind::VerifyMismatch => "verify-mismatch"@,
            ErrorKind::BlankCheckFailed => "blank-check-failed"@,
            ErrorKind::TransportTimeout => "transport-timeout"@,
            ErrorKind::TransferFailed => "transfer-failed"@,
            ErrorKind::ProbeWedged => "probe-wedged"@,
            ErrorKind::NotRunningAfterWrite => "not-running-after-write"@,
            ErrorKind::Internal => "internal"@,
            ErrorKind::Unimplemented => "unimplemented"@,
        }
    }

    /// The exit code of a kind.
    pub open spec fn code_of(self) -> ExitCode {
        match self {
            ErrorKind::Usage => ExitCode::Usage,
            ErrorKind::DeviceNotFound => ExitCode::DeviceNotFound,
            ErrorKind::DeviceOpenFailed => ExitCode::DeviceOpenFailed,
            ErrorKind::DeviceFirmwareUnsupported => ExitCode::DeviceFirmware,
            ErrorKind::DeviceFirmwareKnownBad => ExitCode::DeviceFirmware,
            ErrorKind::DeviceBusy => ExitCode::DeviceBusy,
            ErrorKind::DeviceAmbiguous => ExitCode::DeviceAmbiguous,
            ErrorKind::TargetNoResponse => ExitCode::TargetUnidentified,
            ErrorKind::TargetNotInDb => ExitCode::TargetUnidentified,
            ErrorKind::TargetProtected => ExitCode::TargetProtected,
            ErrorKind::AttachFailed => ExitCode::AttachFailed,
            ErrorKind::TargetAmbiguous => ExitCode::TargetAmbiguous,
            ErrorKind::CapabilityUnsupported => ExitCode::CapabilityUnsupported,
            ErrorKind::VerifyMismatch => ExitCode::VerifyMismatch,
            ErrorKind::BlankCheckFailed => ExitCode::VerifyMismatch,
            ErrorKind::TransportTimeout => ExitCode::TransferFailed,
            ErrorKind::TransferFailed => ExitCode::TransferFailed,
            ErrorKind::ProbeWedged => ExitCode::ProbeWedged,
            ErrorKind::NotRunningAfterWrite => ExitCode::NotRunningAfterWrite,
            ErrorKind::Internal => ExitCode::Internal,
            ErrorKind::Unimplemented => ExitCode::Internal,
        }
    }

    /// Stable kebab-case name (the JSON error kind).
    pub fn as_str(self) -> (s: &'static str)
        ensures
            s@ == self.name(),
    {
        match self {
            ErrorKind::Usage => "usage",
            ErrorKind::DeviceNotFound => "device-not-found",
            ErrorKind::DeviceOpenFailed => "device-open-failed",
            ErrorKind::DeviceFirmwareUnsupported => "device-firmware-unsupported",
            ErrorKind::DeviceFirmwareKnownBad => "device-firmware-known-bad",
            ErrorKind::DeviceBusy => "device-busy",
            ErrorKind::DeviceAmbiguous => "device-ambiguous",
            ErrorKind::TargetNoResponse => "target-no-response",
            ErrorKind::TargetNotInDb => "target-not-in-db",
            ErrorKind::TargetProtected => "target-protected",
            ErrorKind::AttachFailed => "attach-failed",
            ErrorKind::TargetAmbiguous => "target-ambiguous",
            ErrorKind::CapabilityUnsupported => "capability-unsupported",
            ErrorKind::VerifyMismatch => "verify-mismatch",
            ErrorKind::BlankCheckFailed => "blank-check-failed",
            ErrorKind::TransportTimeout => "transport-timeout",
            ErrorKind::TransferFailed => "transfer-failed",
            ErrorKind::ProbeWedged => "probe-wedged",
            ErrorKind::NotRunningAfterWrite => "not-running-after-write",
            ErrorKind::Internal => "internal",
            ErrorKind::Unimplemented => "unimplemented",
        }
    }

    /// The exit code this kind maps to.
    pub fn exit_code(self) -> (c: ExitCode)
        ensures
            c == self.code_of(),
    {
        match self {
            ErrorKind::Usage => ExitCode::Usage,
            ErrorKind::DeviceNotFound => ExitCode::DeviceNotFound,
            ErrorKind::DeviceOpenFailed => ExitCode::DeviceOpenFailed,
            ErrorKind::DeviceFirmwareUnsupported => ExitCode::DeviceFirmware,
            ErrorKind::DeviceFirmwareKnownBad => ExitCode::DeviceFirmware,
            ErrorKind::DeviceBusy => ExitCode::DeviceBusy,
            ErrorKind::DeviceAmbiguous => ExitCode::DeviceAmbiguous,
            ErrorKind::TargetNoResponse => ExitCode::TargetUnidentified,
            ErrorKind::TargetNotInDb => ExitCode::TargetUnidentified,
            ErrorKind::TargetProtected => ExitCode::TargetProtected,
            ErrorKind::AttachFailed => ExitCode::AttachFailed,
            ErrorKind::TargetAmbiguous => ExitCode::TargetAmbiguous,
            ErrorKind::CapabilityUnsupported => ExitCode::CapabilityUnsupported,
            ErrorKind::VerifyMismatch => ExitCode::VerifyMismatch,
            ErrorKind::BlankCheckFailed => ExitCode::VerifyMismatch,
            ErrorKind::TransportTimeout => ExitCode::TransferFailed,
            ErrorKind::TransferFailed => ExitCode::TransferFailed,
            ErrorKind::ProbeWedged => ExitCode::ProbeWedged,
            ErrorKind::NotRunningAfterWrite => ExitCode::NotRunningAfterWrite,
            ErrorKind::Internal => ExitCode::Internal,
            ErrorKind::Unimplemented => ExitCode::Internal,
        }
    }
}

/// The exit statuses the contract documents.
pub open spec fn documented_code(c: u8) -> bool {
    c == 2 || (10 <= c <= 14) || (20 <= c <= 24) || c == 30 || c == 40 || c == 41 || c == 50 || c == 70
}

/// Every error kind exits with a documented, non-zero status: no error reports success.
pub proof fn lemma_every_kind_in_band(k: ErrorKind)
    ensures
        documented_code(k.code_of().number()),
        k.code_of() != ExitCode::Success,
{
}

/// The intentional many-to-one groupings: a finer JSON kind, one coarse exit code.
pub proof fn lemma_groupings()
    ensures
        ErrorKind::TransportTimeout.code_of() == ErrorKind::TransferFailed.code_of(),
        ErrorKind::TargetNoResponse.code_of() == ErrorKind::TargetNotInDb.code_of(),
        ErrorKind::VerifyMismatch.code_of() == ErrorKind::BlankCheckFailed.code_of(),
        ErrorKind::DeviceFirmwareUnsupported.code_of() == ErrorKind::DeviceFirmwareKnownBad.code_of(),
        ErrorKind::Internal.code_of() == ErrorKind::Unimplemented.code_of(),
{
}

/// Distinct exit codes have distinct numbers.
pub proof fn lemma_codes_distinct(a: ExitCode, b: ExitCode)
    ensures
        a.number() == b.number() ==> a == b,
{
}

/// A kebab-case name: non-empty, lower-case ASCII letters and hyphens only.
pub open spec fn kebab(s: Seq<char>) -> bool {
    s.len() > 0 && forall|i: int| 0 <= i < s.len() ==> (('a' <= #[trigger] s[i] && s[i] <= 'z') || s[i] == '-')
}

/// Every kind's name is kebab-case, and no two kinds share a name.
pub proof fn lemma_names_kebab_and_unique(a: ErrorKind, b: ErrorKind)
    ensures
        kebab(a.name()),
        a.name() == b.name() ==> a == b,
{
    reveal_strlit("usage");
    reveal_strlit("device-not-found");
    reveal_strlit("device-open-failed");
    reveal_strlit("device-firmware-unsupported");
    reveal_strlit("device-firmware-known-bad");
    reveal_strlit("device-busy");
    reveal_strlit("device-ambiguous");
    reveal_strlit("target-no-response");
    reveal_strlit("target-not-in-db");
    reveal_strlit("target-protected");
    reveal_strlit("attach-failed");
    reveal_strlit("target-ambiguous");
    reveal_strlit("capability-unsupported");
    reveal_strlit("verify-mismatch");
    reveal_strlit("blank-check-failed");
    reveal_strlit("transport-timeout");
    reveal_strlit("transfer-failed");
    reveal_strlit("probe-wedged");
    reveal_strlit("not-running-after-write");
    reveal_strlit("internal");
    reveal_strlit("unimplemented");
    assert(kebab(a.name()));
    if a.name() == b.name() {
        assert(a.name().len() == b.name().len());
        assert(a.name()[0] == b.name()[0]);
        assert(a.name()[a.name().len() - 1] == b.name()[b.name().len() - 1]);
        assert(a.name()[(a.name().len() / 2) as int] == b.name()[(b.name().len() / 2) as int]);
        assert(a.name()[8] == b.name()[8] || a.name().len() <= 8);
    }
}

} // verus!
