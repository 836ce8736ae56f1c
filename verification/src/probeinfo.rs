//! What the `probe` commands decide from what they read off a probe: the report built from
//! enumeration data, the firmware facts merged into it with their contract warnings, whether a
//! failed open is worth retrying, and the verdict of `probe firmware check`.

use vstd::prelude::*;

use crate::cmdparse::{debug_str, parse_version, version_spec};
use crate::contract::{FirmwareVersion, ProbeMode, ProbeReport, Warning};
use crate::exit::ErrorKind;
use crate::text::{chars_of, dec, push_dec, push_str, string_of};

verus! {

/// The model shown for a probe before it is queried: DAP and IAP modes say so; otherwise the USB
/// product string, or "WCH-Link".
pub open spec fn base_model(mode: ProbeMode, product: Option<Seq<char>>) -> Seq<char> {
    match mode {
        ProbeMode::Dap => "WCH-Link (DAP mode)"@,
        ProbeMode::Iap => "WCH-Link (IAP mode) or WCH factory ISP device"@,
        _ => match product {
            Some(p) => p,
            None => "WCH-Link"@,
        },
    }
}

/// The probe report from enumeration data alone (no device I/O).
pub fn base_report(
    mode: ProbeMode,
    product: Option<&str>,
    serial: Option<String>,
    usb_id: String,
    topology: String,
    ports: Vec<String>,
) -> (r: ProbeReport)
    ensures
        r.model@ == base_model(mode, match product { Some(p) => Some(p@), None => None }),
        r.serial == serial,
        r.usb == Some(usb_id),
        r.topology == Some(topology),
        r.mode == Some(mode),
        r.firmware is None,
        r.ports == ports,
{
    let model = match mode {
        ProbeMode::Dap => string_of(chars_of("WCH-Link (DAP mode)").as_slice()),
        ProbeMode::Iap => string_of(chars_of("WCH-Link (IAP mode) or WCH factory ISP device").as_slice()),
        _ => match product {
            Some(p) => string_of(chars_of(p).as_slice()),
            None => string_of(chars_of("WCH-Link").as_slice()),
        },
    };
    ProbeReport {
        model,
        serial,
        usb: Some(usb_id),
        topology: Some(topology),
        mode: Some(mode),
        firmware: None,
        ports,
    }
}

/// `s` contains `p` somewhere.
pub open spec fn contains(s: Seq<char>, p: Seq<char>) -> bool {
    exists|i: int| 0 <= i <= s.len() - p.len() && #[trigger] s.subrange(i, i + p.len()) == p
}

fn contains_at(s: &[char], p: &[char], i: usize) -> (r: bool)
    requires
        i + p@.len() <= s@.len(),
    ensures
        r == (s@.subrange(i as int, i + p@.len()) == p@),
{
    let n = s.len();
    let mut k: usize = 0;
    while k < p.len()
        invariant
            k <= p@.len(),
            n == s@.len(),
            i + p@.len() <= s@.len(),
            forall|j: int| 0 <= j < k ==> s@[i + j] == p@[j],
        decreases p@.len() - k,
    {
        if s[i + k] != p[k] {
            proof { assert(s@.subrange(i as int, i + p@.len())[k as int] != p@[k as int]); }
            return false;
        }
        k = k + 1;
    }
    proof { assert(s@.subrange(i as int, i + p@.len()) =~= p@); }
    true
}

/// Whether `s` contains `p`.
pub fn str_contains(s: &str, p: &str) -> (r: bool)
    ensures
        r == contains(s@, p@),
{
    let sc = chars_of(s);
    let pc = chars_of(p);
    if pc.len() > sc.len() {
        proof {
            assert forall|i: int| 0 <= i <= sc@.len() - pc@.len() implies
                #[trigger] sc@.subrange(i, i + pc@.len()) != pc@ by {}
        }
        return false;
    }
    let last = sc.len() - pc.len();
    let mut i: usize = 0;
    loop
        invariant
            last == sc@.len() - pc@.len(),
            i <= last,
            sc@ == s@,
            pc@ == p@,
            forall|j: int| 0 <= j < i ==> #[trigger] sc@.subrange(j, j + pc@.len()) != pc@,
        decreases last - i,
    {
        if contains_at(sc.as_slice(), pc.as_slice(), i) {
            return true;
        }
        if i == last {
            return false;
        }
        i = i + 1;
    }
}

/// The facts one probe query gives: firmware version and mode, the reason the version is known
/// bad (if it is), and the model name.
pub struct ProbeFacts {
    pub fw_major: u8,
    pub fw_minor: u8,
    pub fw_mode: Option<String>,
    pub known_bad: Option<String>,
    pub model: String,
}

/// The warnings a query adds: a known-bad firmware, and a model the probe driver did not
/// recognise (its name says `unknown variant`).
pub open spec fn probe_warnings(known_bad: Option<Seq<char>>, model: Seq<char>) -> Seq<(Seq<char>, Seq<char>)> {
    let w1: Seq<(Seq<char>, Seq<char>)> = match known_bad {
        Some(m) => seq![("fw-known-bad"@, m)],
        None => Seq::empty(),
    };
    if contains(model, "unknown variant"@) {
        w1.push(("probe-variant-unknown"@, "unrecognized probe variant: "@ + model))
    } else {
        w1
    }
}

pub open spec fn warning_views(w: Seq<Warning>) -> Seq<(Seq<char>, Seq<char>)> {
    Seq::new(w.len(), |i: int| (w[i].code@, w[i].msg@))
}

/// Merge a probe query into a report: the model and the firmware (marked known-bad or not, with
/// its mode), and the contract warnings appended.
pub fn apply_probe_info(report: &mut ProbeReport, info: ProbeFacts, warnings: &mut Vec<Warning>)
    ensures
        final(report).model@ == info.model@,
        final(report).firmware matches Some(fw) && {
            &&& fw.norm@ == dec(info.fw_major as nat) + "."@ + dec(info.fw_minor as nat)
            &&& fw.raw@ == crate::text::hex2(info.fw_major) + crate::text::hex2(info.fw_minor)
            &&& fw.known_bad == Some(info.known_bad is Some)
            &&& fw.mode == info.fw_mode
        },
        final(report).serial == old(report).serial,
        final(report).usb == old(report).usb,
        final(report).topology == old(report).topology,
        final(report).mode == old(report).mode,
        final(report).ports == old(report).ports,
        warning_views(final(warnings)@) == warning_views(old(warnings)@) + probe_warnings(
            match info.known_bad { Some(m) => Some(m@), None => None },
            info.model@,
        ),
{
    let ghost w0 = warning_views(warnings@);
    let mut fw = FirmwareVersion::from_major_minor(info.fw_major, info.fw_minor);
    fw.mode = info.fw_mode;
    match info.known_bad {
        Some(msg) => {
            fw.known_bad = Some(true);
            warnings.push(Warning { code: string_of(chars_of("fw-known-bad").as_slice()), msg });
        },
        None => {
            fw.known_bad = Some(false);
        },
    }
    let ghost w1 = warning_views(warnings@);
    proof {
        assert(w1 =~= w0 + match info.known_bad {
            Some(m) => seq![("fw-known-bad"@, m@)],
            None => Seq::<(Seq<char>, Seq<char>)>::empty(),
        });
    }
    if str_contains(info.model.as_str(), "unknown variant") {
        let mut m: Vec<char> = Vec::new();
        push_str(&mut m, "unrecognized probe variant: ");
        push_str(&mut m, info.model.as_str());
        warnings.push(Warning {
            code: string_of(chars_of("probe-variant-unknown").as_slice()),
            msg: string_of(m.as_slice()),
        });
        proof { assert(warning_views(warnings@) =~= w1.push(warning_views(warnings@).last())); }
    }
    report.model = info.model;
    report.firmware = Some(fw);
}

/// Whether a failed probe open is worth another try: not when the error says access was denied
/// (a permission problem does not go away by waiting).
pub open spec fn retry_spec(error: Option<Seq<char>>) -> bool {
    match error {
        Some(e) => !contains(e, "access denied"@),
        None => false,
    }
}

pub fn should_retry(error: Option<&str>) -> (r: bool)
    ensures
        r == retry_spec(match error { Some(e) => Some(e@), None => None }),
{
    match error {
        Some(e) => !str_contains(e, "access denied"),
        None => false,
    }
}

/// A refused `probe firmware check`: the kind, the message, and a hint where there is one.
#[derive(Debug, Clone)]
pub struct CheckFailure {
    pub kind: ErrorKind,
    pub msg: String,
    pub hint: Option<String>,
}

/// Decimal notation of `n`, at least two digits.
pub open spec fn dec2(n: nat) -> Seq<char> {
    if n < 10 { "0"@ + dec(n) } else { dec(n) }
}

fn push_dec2(out: &mut Vec<char>, n: u8)
    ensures
        final(out)@ == old(out)@ + dec2(n as nat),
{
    if n < 10 {
        push_str(out, "0");
        let ghost mid = out@;
        push_dec(out, n as u64);
        proof { assert(out@ =~= old(out)@ + ("0"@ + dec(n as nat))); }
    } else {
        push_dec(out, n as u64);
    }
}

/// `major.minor` as the probe commands print it: the minor number with two digits.
pub open spec fn version_text(major: nat, minor: nat) -> Seq<char> {
    dec(major) + "."@ + dec2(minor)
}

/// The verdict of `probe firmware check`: a known-bad firmware fails; so does one below `--min`
/// (compared as major, then minor), and an unreadable `--min`; otherwise it passes.
pub open spec fn check_spec(major: u8, minor: u8, known_bad: Option<Seq<char>>, min: Option<Seq<char>>)
    -> Result<(), (ErrorKind, Seq<char>, Option<Seq<char>>)>
{
    match known_bad {
        Some(reason) => Err((
            ErrorKind::DeviceFirmwareKnownBad,
            "probe firmware "@ + version_text(major as nat, minor as nat) + " is known-bad: "@ + reason,
            Some("update the probe firmware (WCH-LinkUtility / `probe firmware update`)"@),
        )),
        None => match min {
            None => Ok(()),
            Some(m) => match version_spec(m) {
                None => Err((ErrorKind::Usage, "bad --min "@ + debug_str(m) + " (use major.minor, e.g. 2.20)"@, None)),
                Some((rmaj, rmin)) => if major < rmaj || (major == rmaj && minor < rmin) {
                    Err((
                        ErrorKind::DeviceFirmwareUnsupported,
                        "probe firmware "@ + version_text(major as nat, minor as nat) + " is below the required "@
                            + version_text(rmaj, rmin),
                        Some("update the probe firmware"@),
                    ))
                } else {
                    Ok(())
                },
            },
        },
    }
}

pub fn firmware_verdict(major: u8, minor: u8, known_bad: Option<&str>, min: Option<&str>)
    -> (r: Result<(), CheckFailure>)
    ensures
        match check_spec(
            major,
            minor,
            match known_bad { Some(s) => Some(s@), None => None },
            match min { Some(s) => Some(s@), None => None },
        ) {
            Ok(()) => r is Ok,
            Err((k, m, h)) => r matches Err(f) && f.kind == k && f.msg@ == m && match h {
                Some(hs) => f.hint matches Some(x) && x@ == hs,
                None => f.hint is None,
            },
        },
{
    let mut v: Vec<char> = Vec::new();
    push_str(&mut v, "probe firmware ");
    push_dec(&mut v, major as u64);
    push_str(&mut v, ".");
    push_dec2(&mut v, minor);
    let ghost head = v@;
    proof { assert(head =~= "probe firmware "@ + version_text(major as nat, minor as nat)); }
    if let Some(reason) = known_bad {
        push_str(&mut v, " is known-bad: ");
        push_str(&mut v, reason);
        return Err(CheckFailure {
            kind: ErrorKind::DeviceFirmwareKnownBad,
            msg: string_of(v.as_slice()),
            hint: Some(string_of(chars_of("update the probe firmware (WCH-LinkUtility / `probe firmware update`)").as_slice())),
        });
    }
    if let Some(m) = min {
        match parse_version(m) {
            None => {
                let mut e: Vec<char> = Vec::new();
                push_str(&mut e, "bad --min ");
                push_str(&mut e, crate::cmdparse::debug_quoted(m).as_str());
                push_str(&mut e, " (use major.minor, e.g. 2.20)");
                return Err(CheckFailure { kind: ErrorKind::Usage, msg: string_of(e.as_slice()), hint: None });
            },
            Some((rmaj, rmin)) => {
                if major < rmaj || (major == rmaj && minor < rmin) {
                    push_str(&mut v, " is below the required ");
                    push_dec(&mut v, rmaj as u64);
                    push_str(&mut v, ".");
                    push_dec2(&mut v, rmin);
                    return Err(CheckFailure {
                        kind: ErrorKind::DeviceFirmwareUnsupported,
                        msg: string_of(v.as_slice()),
                        hint: Some(string_of(chars_of("update the probe firmware").as_slice())),
                    });
                }
            },
        }
    }
    Ok(())
}

} // verus!
