//! `doctor`: the environment checks and the next step each suggests. What the USB enumeration,
//! each probe's open and probe-info call, the known-bad firmware table and the user's groups
//! returned comes in as plain values; the checks, their hints and the verdict are decided here.

use vstd::prelude::*;

use crate::exit::ErrorKind;
use crate::text::{chars_of, dec, is_ws, push_dec, push_str, string_of};

verus! {

/// One check: its name, whether it passed, what was found, and the next step when it failed.
#[derive(Debug, Clone)]
pub struct Check {
    pub name: String,
    pub ok: bool,
    pub detail: String,
    pub hint: Option<String>,
}

/// A check as text.
pub struct CheckView {
    pub name: Seq<char>,
    pub ok: bool,
    pub detail: Seq<char>,
    pub hint: Option<Seq<char>>,
}

pub open spec fn check_view(c: Check) -> CheckView {
    CheckView {
        name: c.name@,
        ok: c.ok,
        detail: c.detail@,
        hint: match c.hint { Some(h) => Some(h@), None => None },
    }
}

pub open spec fn check_views(cs: Seq<Check>) -> Seq<CheckView> {
    Seq::new(cs.len(), |i: int| check_view(cs[i]))
}

/// What was found of one WCH device. `label` names it (serial and mode). A probe in RISC-V mode
/// carries what opening it and asking its probe info returned: the firmware version and, when
/// that firmware is known to be bad, why; or the open error's text.
#[derive(Debug)]
pub enum DoctorProbe {
    Riscv { label: String, opened: Result<(u8, u8, Option<String>), String> },
    Iap { label: String },
    Other { label: String },
}

/// `p` occurs in `s`.
pub open spec fn has_sub(s: Seq<char>, p: Seq<char>) -> bool {
    exists|i: int| 0 <= i && i + p.len() <= s.len() && #[trigger] s.subrange(i, i + p.len()) == p
}

/// `w` is one of the whitespace-separated words of `s`.
pub open spec fn has_word(s: Seq<char>, w: Seq<char>) -> bool {
    exists|i: int| {
        &&& 0 <= i
        &&& i + w.len() <= s.len()
        &&& #[trigger] s.subrange(i, i + w.len()) == w
        &&& (i == 0 || is_ws(s[i - 1]))
        &&& (i + w.len() == s.len() || is_ws(s[i + w.len()]))
    }
}

/// The enumeration result as text.
pub open spec fn enum_view(e: Result<(), String>) -> Result<(), Seq<char>> {
    match e {
        Ok(()) => Ok(()),
        Err(m) => Err(m@),
    }
}

pub open spec fn cv(name: Seq<char>, ok: bool, detail: Seq<char>, hint: Option<Seq<char>>) -> CheckView {
    CheckView { name, ok, detail, hint }
}

/// The check of the USB enumeration.
pub open spec fn enumerate_check(enumerated: Result<(), Seq<char>>) -> CheckView {
    match enumerated {
        Ok(()) => cv("usb-enumerate"@, true, "USB enumeration works"@, None),
        Err(e) => cv("usb-enumerate"@, false, "cannot enumerate USB: "@ + e,
            Some("check that libusb/usbfs is available"@)),
    }
}

/// The check of one WCH device.
pub open spec fn probe_check(p: DoctorProbe) -> CheckView {
    match p {
        DoctorProbe::Riscv { label, opened } => match opened {
            Ok((major, minor, bad)) => cv("probe-open"@, bad is None,
                label@ + ": opened, firmware "@ + dec(major as nat) + "."@ + dec(minor as nat)
                    + if bad is Some { " [KNOWN BAD]"@ } else { Seq::empty() },
                match bad { Some(m) => Some(m@), None => None }),
            Err(e) => if has_sub(e@, "access denied"@) {
                cv("probe-open"@, false, label@ + ": permission denied"@,
                    Some("run `ch32rv doctor --emit-udev` and install the rule (see its comment)"@))
            } else if has_sub(e@, "busy"@) {
                cv("probe-open"@, false, label@ + ": busy"@, Some("another tool holds this probe"@))
            } else {
                cv("probe-open"@, false, label@ + ": cannot open: "@ + e@, None)
            },
        },
        DoctorProbe::Iap { label } => cv("probe-iap"@, false, label@ + ": device is in IAP/ISP mode (4348:55e0)"@,
            Some("a LinkE stuck in IAP needs a firmware update; a bare ISP device is a target, not a probe"@)),
        DoctorProbe::Other { label } => cv("probe-mode"@, true, label@ + ": not a RISC-V-mode probe"@, None),
    }
}

/// The group check for the groups `g` of the user.
pub open spec fn group_check(g: Seq<char>) -> CheckView {
    if has_word(g, "plugdev"@) {
        cv("linux-plugdev"@, true, "user is in the 'plugdev' group"@, None)
    } else {
        cv("linux-plugdev"@, false, "user is not in the 'plugdev' group"@,
            Some("add yourself: sudo usermod -aG plugdev $USER, then re-login"@))
    }
}

/// All checks, in order: enumeration; whether a WCH device is there, and then one check per
/// device and, where group membership is known (Linux), the plugdev check.
pub open spec fn doctor_spec(enumerated: Result<(), Seq<char>>, probes: Seq<DoctorProbe>, groups: Option<Seq<char>>)
    -> Seq<CheckView>
{
    if probes.len() == 0 {
        seq![enumerate_check(enumerated), cv("probe-present"@, false, "no WCH-Link / ISP device found"@,
            Some("plug in a WCH-LinkE (1a86:8010); check the cable"@))]
    } else {
        seq![enumerate_check(enumerated), cv("probe-present"@, true, dec(probes.len()) + " WCH device(s) found"@, None)]
            + Seq::new(probes.len(), |i: int| probe_check(probes[i]))
            + match groups {
                Some(g) => seq![group_check(g)],
                None => Seq::empty(),
            }
    }
}

fn mk(name: &str, ok: bool, detail: Vec<char>, hint: Option<&str>) -> (c: Check)
    ensures
        check_view(c) == cv(name@, ok, detail@, match hint { Some(h) => Some(h@), None => None }),
{
    let n = string_of(chars_of(name).as_slice());
    let d = string_of(detail.as_slice());
    let h = match hint {
        Some(h) => Some(string_of(chars_of(h).as_slice())),
        None => None,
    };
    Check { name: n, ok, detail: d, hint: h }
}

/// Whether `p` occurs in `s`.
fn contains_text(s: &[char], p: &[char]) -> (r: bool)
    ensures
        r == has_sub(s@, p@),
{
    if p.len() > s.len() {
        return false;
    }
    let mut i: usize = 0;
    while i <= s.len() - p.len()
        invariant
            p@.len() <= s@.len(),
            i <= s@.len() - p@.len() + 1,
            forall|k: int| 0 <= k < i ==> #[trigger] s@.subrange(k, k + p@.len()) != p@,
        decreases s@.len() - p@.len() + 1 - i,
    {
        if matches_at(s, p, i) {
            return true;
        }
        if i == s.len() - p.len() {
            return false;
        }
        i = i + 1;
    }
    false
}

/// Whether `p` stands in `s` at `i`.
fn matches_at(s: &[char], p: &[char], i: usize) -> (r: bool)
    requires
        i + p@.len() <= s@.len(),
    ensures
        r == (s@.subrange(i as int, i + p@.len()) == p@),
{
    let mut j: usize = 0;
    while j < p.len()
        invariant
            i + p.len() <= s.len(),
            i + p@.len() <= s@.len(),
            j <= p@.len(),
            forall|k: int| 0 <= k < j ==> s@[i + k] == p@[k],
        decreases p@.len() - j,
    {
        if s[i + j] != p[j] {
            assert(s@.subrange(i as int, i + p@.len())[j as int] != p@[j as int]);
            return false;
        }
        j = j + 1;
    }
    assert(s@.subrange(i as int, i + p@.len()) =~= p@);
    true
}

/// Whether `w` is a whitespace-separated word of `s`.
fn has_word_exec(s: &[char], w: &[char]) -> (r: bool)
    ensures
        r == has_word(s@, w@),
{
    if w.len() > s.len() {
        return false;
    }
    let mut i: usize = 0;
    while i <= s.len() - w.len()
        invariant
            w@.len() <= s@.len(),
            i <= s@.len() - w@.len() + 1,
            forall|k: int| 0 <= k < i ==> !({
                &&& #[trigger] s@.subrange(k, k + w@.len()) == w@
                &&& (k == 0 || is_ws(s@[k - 1]))
                &&& (k + w@.len() == s@.len() || is_ws(s@[k + w@.len()]))
            }),
        decreases s@.len() - w@.len() + 1 - i,
    {
        if matches_at(s, w, i) {
            let before = i == 0 || crate::text::is_whitespace(s[i - 1]);
            let after = i + w.len() == s.len() || crate::text::is_whitespace(s[i + w.len()]);
            if before && after {
                return true;
            }
        }
        if i == s.len() - w.len() {
            return false;
        }
        i = i + 1;
    }
    false
}

fn probe_check_exec(p: &DoctorProbe) -> (c: Check)
    ensures
        check_view(c) == probe_check(*p),
{
    match p {
        DoctorProbe::Riscv { label, opened } => match opened {
            Ok((major, minor, bad)) => {
                let mut d: Vec<char> = Vec::new();
                push_str(&mut d, label.as_str());
                push_str(&mut d, ": opened, firmware ");
                push_dec(&mut d, *major as u64);
                push_str(&mut d, ".");
                push_dec(&mut d, *minor as u64);
                let ghost d0 = d@;
                let hint = match bad {
                    Some(m) => {
                        push_str(&mut d, " [KNOWN BAD]");
                        Some(m.clone())
                    },
                    None => {
                        assert(d@ =~= d0 + Seq::<char>::empty());
                        None
                    },
                };
                let name = string_of(chars_of("probe-open").as_slice());
                Check { name, ok: bad.is_none(), detail: string_of(d.as_slice()), hint }
            },
            Err(e) => {
                let es = chars_of(e.as_str());
                let denied = contains_text(es.as_slice(), chars_of("access denied").as_slice());
                let mut d: Vec<char> = Vec::new();
                push_str(&mut d, label.as_str());
                if denied {
                    push_str(&mut d, ": permission denied");
                    mk("probe-open", false, d,
                        Some("run `ch32rv doctor --emit-udev` and install the rule (see its comment)"))
                } else if contains_text(es.as_slice(), chars_of("busy").as_slice()) {
                    push_str(&mut d, ": busy");
                    mk("probe-open", false, d, Some("another tool holds this probe"))
                } else {
                    push_str(&mut d, ": cannot open: ");
                    push_str(&mut d, e.as_str());
                    mk("probe-open", false, d, None)
                }
            },
        },
        DoctorProbe::Iap { label } => {
            let mut d: Vec<char> = Vec::new();
            push_str(&mut d, label.as_str());
            push_str(&mut d, ": device is in IAP/ISP mode (4348:55e0)");
            mk("probe-iap", false, d,
                Some("a LinkE stuck in IAP needs a firmware update; a bare ISP device is a target, not a probe"))
        },
        DoctorProbe::Other { label } => {
            let mut d: Vec<char> = Vec::new();
            push_str(&mut d, label.as_str());
            push_str(&mut d, ": not a RISC-V-mode probe");
            mk("probe-mode", true, d, None)
        },
    }
}

fn enumerate_check_exec(enumerated: &Result<(), String>) -> (c: Check)
    ensures
        check_view(c) == enumerate_check(enum_view(*enumerated)),
{
    match enumerated {
        Ok(()) => {
            let mut d: Vec<char> = Vec::new();
            push_str(&mut d, "USB enumeration works");
            mk("usb-enumerate", true, d, None)
        },
        Err(e) => {
            let mut d: Vec<char> = Vec::new();
            push_str(&mut d, "cannot enumerate USB: ");
            push_str(&mut d, e.as_str());
            mk("usb-enumerate", false, d, Some("check that libusb/usbfs is available"))
        },
    }
}

fn group_check_exec(g: &str) -> (c: Check)
    ensures
        check_view(c) == group_check(g@),
{
    let gs = chars_of(g);
    if has_word_exec(gs.as_slice(), chars_of("plugdev").as_slice()) {
        let mut d: Vec<char> = Vec::new();
        push_str(&mut d, "user is in the 'plugdev' group");
        mk("linux-plugdev", true, d, None)
    } else {
        let mut d: Vec<char> = Vec::new();
        push_str(&mut d, "user is not in the 'plugdev' group");
        mk("linux-plugdev", false, d, Some("add yourself: sudo usermod -aG plugdev $USER, then re-login"))
    }
}

fn push_check(out: &mut Vec<Check>, c: Check)
    ensures
        check_views(final(out)@) == check_views(old(out)@).push(check_view(c)),
{
    out.push(c);
    assert(check_views(out@) =~= check_views(old(out)@).push(check_view(c)));
}

/// Run the checks of `doctor` over what the environment returned: `enumerated` (the USB
/// enumeration, or its error's text), `probes` (each WCH device found), `groups` (the output of
/// `id -nG` on Linux - empty when it could not be run - and `None` elsewhere). The verdict is
/// `None` when every check passed, else `DeviceOpenFailed`.
pub fn doctor_checks(enumerated: Result<(), String>, probes: &[DoctorProbe], groups: Option<&str>)
    -> (r: (Vec<Check>, Option<ErrorKind>))
    requires
        probes@.len() < u64::MAX,
    ensures
        check_views(r.0@) == doctor_spec(
            enum_view(enumerated),
            probes@,
            match groups { Some(g) => Some(g@), None => None },
        ),
        r.1 == if forall|i: int| 0 <= i < r.0@.len() ==> (#[trigger] r.0@[i]).ok {
            None::<ErrorKind>
        } else {
            Some(ErrorKind::DeviceOpenFailed)
        },
{
    let ghost en = enum_view(enumerated);
    let ghost gr = match groups { Some(g) => Some(g@), None => None::<Seq<char>> };
    let mut out: Vec<Check> = Vec::new();
    proof { assert(check_views(out@) =~= Seq::<CheckView>::empty()); }
    push_check(&mut out, enumerate_check_exec(&enumerated));
    if probes.len() == 0 {
        let mut d: Vec<char> = Vec::new();
        push_str(&mut d, "no WCH-Link / ISP device found");
        push_check(&mut out, mk("probe-present", false, d, Some("plug in a WCH-LinkE (1a86:8010); check the cable")));
        assert(check_views(out@) =~= doctor_spec(en, probes@, gr));
    } else {
        let mut d: Vec<char> = Vec::new();
        push_dec(&mut d, probes.len() as u64);
        push_str(&mut d, " WCH device(s) found");
        push_check(&mut out, mk("probe-present", true, d, None));
        let ghost head = check_views(out@);
        let mut k: usize = 0;
        while k < probes.len()
            invariant
                k <= probes@.len(),
                head.len() == 2,
                check_views(out@) == head + Seq::new(k as nat, |i: int| probe_check(probes@[i])),
            decreases probes@.len() - k,
        {
            let c = probe_check_exec(&probes[k]);
            push_check(&mut out, c);
            assert(check_views(out@) =~= head + Seq::new((k + 1) as nat, |i: int| probe_check(probes@[i])));
            k = k + 1;
        }
        match groups {
            Some(g) => {
                push_check(&mut out, group_check_exec(g));
            },
            None => {},
        }
        assert(check_views(out@) =~= doctor_spec(en, probes@, gr));
    }
    let mut all_ok = true;
    let mut i: usize = 0;
    while i < out.len()
        invariant
            i <= out@.len(),
            all_ok == forall|j: int| 0 <= j < i ==> (#[trigger] out@[j]).ok,
        decreases out@.len() - i,
    {
        all_ok = all_ok && out[i].ok;
        i = i + 1;
    }
    let verdict = if all_ok { None } else { Some(ErrorKind::DeviceOpenFailed) };
    (out, verdict)
}

} // verus!
