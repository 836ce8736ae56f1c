//! The result envelope printed with `--json`, its reports, and the NDJSON progress events: the
//! shared vocabulary of the command line, GUIs and CI.

use vstd::prelude::*;

use crate::exit::{ErrorKind, ExitCode};
use crate::text::{dec, hex2, push_dec, push_hex2, push_str, string_of};

verus! {

#[verifier::external_type_specification]
#[verifier::external_body]
pub struct ExJsonValue(serde_json::Value);

/// JSON contract version, carried in the envelope.
pub const CONTRACT_VERSION: &'static str = "2";

/// The `--json` result object.
#[derive(Debug, Clone)]
pub struct ResultEnvelope {
    pub contract: String,
    pub ok: bool,
    /// Canonical command name (e.g. "flash", "probe.firmware.check").
    pub cmd: String,
    pub probe: Option<ProbeReport>,
    pub target: Option<TargetReport>,
    /// Command-specific result.
    pub result: Option<serde_json::Value>,
    pub warnings: Vec<Warning>,
    pub error: Option<ErrorBody>,
}

impl ResultEnvelope {
    /// A successful result of command `cmd`, with nothing else filled in.
    pub fn success(cmd: String) -> (e: Self)
        ensures
            e.contract@ == "2"@,
            e.ok,
            e.cmd == cmd,
            e.probe is None,
            e.target is None,
            e.result is None,
            e.warnings@.len() == 0,
            e.error is None,
    {
        ResultEnvelope {
            contract: version_string(),
            ok: true,
            cmd,
            probe: None,
            target: None,
            result: None,
            warnings: Vec::new(),
            error: None,
        }
    }

    /// A failed result of command `cmd`: the error body of `kind` with message `msg`.
    pub fn failure(cmd: String, kind: ErrorKind, msg: String) -> (e: Self)
        ensures
            e.contract@ == "2"@,
            !e.ok,
            e.cmd == cmd,
            e.probe is None,
            e.target is None,
            e.result is None,
            e.warnings@.len() == 0,
            e.error matches Some(b) && b.is_for(kind, msg),
    {
        ResultEnvelope {
            contract: version_string(),
            ok: false,
            cmd,
            probe: None,
            target: None,
            result: None,
            warnings: Vec::new(),
            error: Some(ErrorBody::new(kind, msg)),
        }
    }
}

fn version_string() -> (s: String)
    ensures
        s@ == "2"@,
{
    let mut v: Vec<char> = Vec::new();
    push_str(&mut v, CONTRACT_VERSION);
    proof { reveal_strlit("2"); }
    string_of(v.as_slice())
}

/// What is known of the probe.
#[derive(Debug, Clone)]
pub struct ProbeReport {
    /// e.g. "WCH-LinkE" / "WCH-Link(CH549)".
    pub model: String,
    pub serial: Option<String>,
    /// "VID:PID".
    pub usb: Option<String>,
    /// Bus-port form; the selector for devices without a serial.
    pub topology: Option<String>,
    pub mode: Option<ProbeMode>,
    pub firmware: Option<FirmwareVersion>,
    /// Serial-port nodes belonging to this probe (UART bridge / SDI output).
    pub ports: Vec<String>,
}

/// The mode a probe is in.
#[derive(Debug, Clone, Copy, PartialEq, Eq, Structural)]
pub enum ProbeMode {
    Riscv,
    Dap,
    Iap,
    Isp,
    Unknown,
}

/// Probe firmware version in three notations side by side; comparisons use `norm` only.
#[derive(Debug, Clone)]
pub struct FirmwareVersion {
    /// Raw bytes as hex (e.g. "020c").
    pub raw: String,
    /// Normalized notation (e.g. "2.12").
    pub norm: String,
    /// WCH notation (e.g. "v32").
    pub wch: String,
    pub known_bad: Option<bool>,
    /// Firmware mode ("riscv" / "arm"); separate firmware exists only on the CH549 Link.
    pub mode: Option<String>,
}

impl FirmwareVersion {
    /// The three notations of a (major, minor) version: raw hex `MMmm`, normalized `M.m`, and
    /// WCH `v(10M + m)`.
    pub fn from_major_minor(major: u8, minor: u8) -> (fw: Self)
        ensures
            fw.raw@ == hex2(major) + hex2(minor),
            fw.norm@ == dec(major as nat) + "."@ + dec(minor as nat),
            fw.wch@ == "v"@ + dec((major * 10 + minor) as nat),
            fw.known_bad is None,
            fw.mode is None,
    {
        let mut raw: Vec<char> = Vec::new();
        push_hex2(&mut raw, major);
        push_hex2(&mut raw, minor);
        let mut norm: Vec<char> = Vec::new();
        push_dec(&mut norm, major as u64);
        push_str(&mut norm, ".");
        push_dec(&mut norm, minor as u64);
        let mut wch: Vec<char> = Vec::new();
        push_str(&mut wch, "v");
        push_dec(&mut wch, (major as u64) * 10 + minor as u64);
        FirmwareVersion {
            raw: string_of(raw.as_slice()),
            norm: string_of(norm.as_slice()),
            wch: string_of(wch.as_slice()),
            known_bad: None,
            mode: None,
        }
    }
}

/// What is known of the target.
#[derive(Debug, Clone)]
pub struct TargetReport {
    pub sku: Option<String>,
    pub family: Option<String>,
    /// Hex with 0x prefix.
    pub chip_id: Option<String>,
    pub uid: Option<String>,
    /// Whether the SKU is verified on real silicon in the DB.
    pub verified: Option<bool>,
    /// Whether the DB entry comes from the provisional overlay.
    pub provisional: Option<bool>,
    pub protected: Option<bool>,
    /// Flash size in KiB as reported by the probe.
    pub flash_kb: Option<u32>,
}

/// A warning with a stable code (e.g. fw-known-bad, target-unverified).
#[derive(Debug, Clone)]
pub struct Warning {
    pub code: String,
    pub msg: String,
}

/// The error part of a failed result.
#[derive(Debug, Clone)]
pub struct ErrorBody {
    /// The exit code.
    pub code: u8,
    /// The kind's stable name.
    pub kind: String,
    pub msg: String,
    pub hint: Option<String>,
    /// Candidate list for ambiguity errors.
    pub candidates: Option<Vec<serde_json::Value>>,
    /// Reason for an unsupported capability.
    pub capability: Option<serde_json::Value>,
}

impl ErrorBody {
    /// This body reports `kind` with message `msg` and nothing more.
    pub open spec fn is_for(self, kind: ErrorKind, msg: String) -> bool {
        &&& self.code == kind.code_of().number()
        &&& self.kind@ == kind.name()
        &&& self.msg == msg
        &&& self.hint is None
        &&& self.candidates is None
        &&& self.capability is None
    }

    /// The body for `kind`: its exit code and stable name, with message `msg`.
    pub fn new(kind: ErrorKind, msg: String) -> (b: Self)
        ensures
            b.is_for(kind, msg),
    {
        let name = kind.as_str();
        let mut v: Vec<char> = Vec::new();
        push_str(&mut v, name);
        ErrorBody {
            code: kind.exit_code().code(),
            kind: string_of(v.as_slice()),
            msg,
            hint: None,
            candidates: None,
            capability: None,
        }
    }
}

/// One NDJSON progress event.
#[derive(Debug, Clone)]
pub enum Event {
    /// Start of a phase (erase / program / verify / reset / confirm-run, ...).
    Phase { name: String, total: Option<u64> },
    /// Progress within a phase.
    Progress { phase: String, done: u64, total: Option<u64> },
    /// A retry happened; retries are always made visible.
    Retry { phase: String, attempt: u32, cause: String },
    /// Warning with a stable code.
    Warn { code: String, msg: String },
    /// Free-form log line.
    Log { level: LogLevel, msg: String },
}

/// Log severity.
#[derive(Debug, Clone, Copy, PartialEq, Eq, Structural)]
pub enum LogLevel {
    Error,
    Warn,
    Info,
    Debug,
    Trace,
}

/// A failure's body always carries the exit code its kind maps to, which is never success.
pub proof fn lemma_failure_code(kind: ErrorKind, b: ErrorBody, msg: String)
    requires
        b.is_for(kind, msg),
    ensures
        b.code == kind.code_of().number(),
        b.code != 0,
{
    crate::exit::lemma_every_kind_in_band(kind);
}

} // verus!
