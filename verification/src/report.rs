//! How probes, recovery steps and streaming failures are put into words: the probe table row,
//! the mode names, the speed class a recovery attached at, and the next command to type.

use vstd::prelude::*;

use crate::contract::{ProbeMode, ProbeReport};
use crate::dmi::DmiError;
use crate::dump::pad_right;
use crate::exit::ErrorKind;
use crate::optbytes::{reset_user, reset_user_byte, Action, UserField};
use crate::parse::{speed_spec, Speed};
use crate::text::{hex2, join_with, push_hex2, push_joined, push_str, string_of, string_views};

verus! {

/// The name of a probe mode.
pub open spec fn mode_name(mode: ProbeMode) -> Seq<char> {
    match mode {
        ProbeMode::Riscv => "riscv"@,
        ProbeMode::Dap => "dap"@,
        ProbeMode::Iap => "iap"@,
        ProbeMode::Isp => "isp"@,
        ProbeMode::Unknown => "unknown"@,
    }
}

/// The name of a probe mode.
pub fn mode_str(mode: ProbeMode) -> (s: &'static str)
    ensures
        s@ == mode_name(mode),
{
    match mode {
        ProbeMode::Riscv => "riscv",
        ProbeMode::Dap => "dap",
        ProbeMode::Iap => "iap",
        ProbeMode::Isp => "isp",
        ProbeMode::Unknown => "unknown",
    }
}

/// The text of an optional field, `-` when absent.
pub open spec fn or_dash(s: Option<String>) -> Seq<char> {
    match s {
        Some(v) => v@,
        None => "-"@,
    }
}

/// The firmware column: the normalized, WCH and raw notations (marked when known bad), the
/// error that kept it from being read, or `-`.
pub open spec fn fw_cell(r: ProbeReport, error: Option<Seq<char>>) -> Seq<char> {
    match (r.firmware, error) {
        (Some(f), _) => f.norm@ + " ("@ + f.wch@ + ", raw "@ + f.raw@ + ")"@
            + if f.known_bad == Some(true) { "  [KNOWN BAD]"@ } else { Seq::empty() },
        (None, Some(e)) => "error: "@ + e,
        (None, None) => "-"@,
    }
}

/// One row of the probe table: mode, USB id, serial, topology, model and ports in left-aligned
/// columns of 6, 10, 14, 9, 18 and 13 characters, then the firmware.
pub open spec fn row_spec(r: ProbeReport, error: Option<Seq<char>>) -> Seq<char> {
    let mode = match r.mode {
        Some(m) => mode_name(m),
        None => "?"@,
    };
    let ports = if r.ports.len() == 0 { "-"@ } else { join_with(string_views(r.ports@), ","@) };
    pad_right(mode, 6) + " "@ + pad_right(or_dash(r.usb), 10) + " "@ + pad_right(or_dash(r.serial), 14) + " "@
        + pad_right(or_dash(r.topology), 9) + " "@ + pad_right(r.model@, 18) + " "@ + pad_right(ports, 13) + " "@
        + fw_cell(r, error)
}

fn push_padded(out: &mut Vec<char>, s: &str, w: usize)
    ensures
        final(out)@ == old(out)@ + pad_right(s@, w as nat),
{
    let ghost start = out@;
    push_str(out, s);
    let cs = crate::text::chars_of(s);
    let mut n = cs.len();
    proof { assert(out@ == start + s@); }
    while n < w
        invariant
            cs@ == s@,
            cs@.len() <= n <= w || (n == cs@.len() && n >= w),
            n >= cs@.len(),
            out@ == start + s@ + Seq::new((n - cs@.len()) as nat, |i: int| ' '),
        decreases w - n,
    {
        out.push(' ');
        proof { assert(out@ =~= start + s@ + Seq::new((n + 1 - cs@.len()) as nat, |i: int| ' ')); }
        n = n + 1;
    }
    proof {
        if s@.len() >= w {
            assert(out@ =~= start + pad_right(s@, w as nat));
        } else {
            assert(out@ =~= start + pad_right(s@, w as nat));
        }
    }
}

fn opt_str(s: &Option<String>) -> (r: &str)
    ensures
        r@ == or_dash(*s),
{
    match s {
        Some(v) => v.as_str(),
        None => "-",
    }
}

fn fw_text(r: &ProbeReport, error: Option<&str>) -> (s: String)
    ensures
        s@ == fw_cell(*r, match error { Some(e) => Some(e@), None => None::<Seq<char>> }),
{
    let mut v: Vec<char> = Vec::new();
    match (&r.firmware, error) {
        (Some(f), _) => {
            push_str(&mut v, f.norm.as_str());
            push_str(&mut v, " (");
            push_str(&mut v, f.wch.as_str());
            push_str(&mut v, ", raw ");
            push_str(&mut v, f.raw.as_str());
            push_str(&mut v, ")");
            if f.known_bad == Some(true) {
                push_str(&mut v, "  [KNOWN BAD]");
            }
            proof { assert(v@ =~= fw_cell(*r, match error { Some(e) => Some(e@), None => None::<Seq<char>> })); }
        },
        (None, Some(e)) => {
            push_str(&mut v, "error: ");
            push_str(&mut v, e);
        },
        (None, None) => {
            push_str(&mut v, "-");
        },
    }
    string_of(v.as_slice())
}

fn ports_text(ports: &Vec<String>) -> (s: String)
    ensures
        s@ == (if ports@.len() == 0 { "-"@ } else { join_with(string_views(ports@), ","@) }),
{
    let mut v: Vec<char> = Vec::new();
    if ports.len() == 0 {
        push_str(&mut v, "-");
    } else {
        push_joined(&mut v, ports.as_slice(), ",");
    }
    proof { assert(v@ =~= (if ports@.len() == 0 { "-"@ } else { join_with(string_views(ports@), ","@) })); }
    string_of(v.as_slice())
}

/// Format one row of the probe table.
pub fn format_row(r: &ProbeReport, error: Option<&str>) -> (s: String)
    ensures
        s@ == row_spec(*r, match error { Some(e) => Some(e@), None => None::<Seq<char>> }),
{
    let mut v: Vec<char> = Vec::new();
    let mode = match r.mode {
        Some(m) => mode_str(m),
        None => "?",
    };
    let p = ports_text(&r.ports);
    let fw = fw_text(r, error);
    push_padded(&mut v, mode, 6);
    push_str(&mut v, " ");
    push_padded(&mut v, opt_str(&r.usb), 10);
    push_str(&mut v, " ");
    push_padded(&mut v, opt_str(&r.serial), 14);
    push_str(&mut v, " ");
    push_padded(&mut v, opt_str(&r.topology), 9);
    push_str(&mut v, " ");
    push_padded(&mut v, r.model.as_str(), 18);
    push_str(&mut v, " ");
    push_padded(&mut v, p.as_str(), 13);
    push_str(&mut v, " ");
    push_str(&mut v, fw.as_str());
    proof {
        assert(v@ =~= row_spec(*r, match error { Some(e) => Some(e@), None => None::<Seq<char>> }));
    }
    string_of(v.as_slice())
}

/// The speed class a recovery attached at: the step `--speed` reads as, `high` when it does
/// not read at all.
pub open spec fn speed_class_spec(spec: Seq<char>) -> Seq<char> {
    match speed_spec(spec) {
        Ok((Speed::Low, _)) => "low"@,
        Ok((Speed::Medium, _)) => "medium"@,
        _ => "high"@,
    }
}

/// The speed class of a `--speed` value.
pub fn speed_class(spec: &str) -> (s: &'static str)
    ensures
        s@ == speed_class_spec(spec@),
{
    match crate::parse::speed(spec) {
        Ok((Speed::Low, _)) => "low",
        Ok((Speed::Medium, _)) => "medium",
        _ => "high",
    }
}

/// The command line that applies `action`: the speed option only when the target answered at
/// the low speed; the chip is the identified family, else `--chip`, else a placeholder.
pub open spec fn command_spec(chip: Option<Seq<char>>, speed: Option<Seq<char>>, action: Action) -> Option<Seq<char>> {
    let sp = if speed == Some("low"@) { " --speed low"@ } else { Seq::empty() };
    let c = match chip {
        Some(x) => x,
        None => "<family>"@,
    };
    match action {
        Action::Nothing | Action::Manual => None,
        Action::Unprotect => Some("ch32rv recover --method unprotect"@ + sp),
        Action::OptionReset => Some("ch32rv target option reset"@ + sp),
        Action::PowerOff => Some("ch32rv recover --method power-off --chip "@ + c),
    }
}

/// What a person would type next to apply `action`. `chip` is the identified family or, failing
/// that, the `--chip` given; `speed` the class the target answered at.
pub fn command_for(chip: Option<&str>, speed: Option<&str>, action: Action) -> (r: Option<String>)
    ensures
        match command_spec(match chip { Some(c) => Some(c@), None => None::<Seq<char>> },
            match speed { Some(s) => Some(s@), None => None::<Seq<char>> }, action) {
            None => r is None,
            Some(t) => r matches Some(s) && s@ == t,
        },
{
    let low = match speed {
        Some(s) => crate::parse::eq_str(crate::text::chars_of(s).as_slice(), "low"),
        None => false,
    };
    proof {
        match speed {
            Some(s) => { assert(low == (s@ == "low"@)); },
            None => {},
        }
    }
    let mut v: Vec<char> = Vec::new();
    match action {
        Action::Nothing | Action::Manual => return None,
        Action::Unprotect => {
            push_str(&mut v, "ch32rv recover --method unprotect");
            if low {
                push_str(&mut v, " --speed low");
            }
        },
        Action::OptionReset => {
            push_str(&mut v, "ch32rv target option reset");
            if low {
                push_str(&mut v, " --speed low");
            }
        },
        Action::PowerOff => {
            push_str(&mut v, "ch32rv recover --method power-off --chip ");
            match chip {
                Some(c) => push_str(&mut v, c),
                None => push_str(&mut v, "<family>"),
            }
        },
    }
    proof {
        match action {
            Action::Unprotect | Action::OptionReset => {
                if low {
                    assert(v@ =~= command_spec(match chip { Some(c) => Some(c@), None => None::<Seq<char>> },
                        match speed { Some(s) => Some(s@), None => None::<Seq<char>> }, action)->0);
                } else {
                    assert(v@ =~= command_spec(match chip { Some(c) => Some(c@), None => None::<Seq<char>> },
                        match speed { Some(s) => Some(s@), None => None::<Seq<char>> }, action)->0);
                }
            },
            _ => {},
        }
    }
    Some(string_of(v.as_slice()))
}

/// The exit class of a DMI failure while streaming: a true timeout, or a failed transfer.
pub fn dmi_error_kind(e: &DmiError) -> (k: ErrorKind)
    ensures
        k == (if *e is Timeout { ErrorKind::TransportTimeout } else { ErrorKind::TransferFailed }),
{
    match e {
        DmiError::Timeout => ErrorKind::TransportTimeout,
        _ => ErrorKind::TransferFailed,
    }
}

/// The speeds a diagnosis attaches at, in order: the one asked for, then `low` unless that was
/// it already (a slow or oddly clocked target, or a long cable, may answer only at low speed).
pub fn attach_order(requested: &str) -> (v: Vec<String>)
    ensures
        string_views(v@) == if requested@ == "low"@ { seq![requested@] } else { seq![requested@, "low"@] },
{
    let mut v: Vec<String> = Vec::new();
    let mut a: Vec<char> = Vec::new();
    push_str(&mut a, requested);
    v.push(string_of(a.as_slice()));
    let low = crate::parse::eq_str(crate::text::chars_of(requested).as_slice(), "low");
    if !low {
        let mut b: Vec<char> = Vec::new();
        push_str(&mut b, "low");
        v.push(string_of(b.as_slice()));
    }
    proof {
        assert(string_views(v@) =~= if requested@ == "low"@ { seq![requested@] } else { seq![requested@, "low"@] });
    }
    v
}

/// What a diagnosis says when nothing answered: check power and wiring first, then reset-line
/// advice depending on whether connect-under-reset was already tried.
pub fn unreachable_notes(connect_under_reset: bool) -> (v: Vec<String>)
    ensures
        string_views(v@) == seq![
            "check first that the target is powered and SWDIO/SWCLK (or SWIO) and GND are wired: that is the common cause"@,
            if connect_under_reset {
                "--connect-under-reset was already tried"@
            } else {
                "if the probe's RST line is wired to the target's NRST, retry with --connect-under-reset, or use --method nrst"@
            },
        ],
{
    let mut v: Vec<String> = Vec::new();
    let mut a: Vec<char> = Vec::new();
    push_str(&mut a, "check first that the target is powered and SWDIO/SWCLK (or SWIO) and GND are wired: that is the common cause");
    v.push(string_of(a.as_slice()));
    let mut b: Vec<char> = Vec::new();
    if connect_under_reset {
        push_str(&mut b, "--connect-under-reset was already tried");
    } else {
        push_str(&mut b, "if the probe's RST line is wired to the target's NRST, retry with --connect-under-reset, or use --method nrst");
    }
    v.push(string_of(b.as_slice()));
    proof {
        assert(string_views(v@) =~= seq![
            "check first that the target is powered and SWDIO/SWCLK (or SWIO) and GND are wired: that is the common cause"@,
            if connect_under_reset {
                "--connect-under-reset was already tried"@
            } else {
                "if the probe's RST line is wired to the target's NRST, retry with --connect-under-reset, or use --method nrst"@
            },
        ]);
    }
    v
}

/// The note when the target answered only at low speed.
pub fn low_speed_note(requested: &str) -> (s: String)
    ensures
        s@ == "the target did not answer at --speed "@ + requested@ + ", only at low: pass --speed low to other commands"@,
{
    let mut v: Vec<char> = Vec::new();
    push_str(&mut v, "the target did not answer at --speed ");
    push_str(&mut v, requested);
    push_str(&mut v, ", only at low: pass --speed low to other commands");
    string_of(v.as_slice())
}

/// The names of the documented single-bit fields in which `user` and `want` differ.
pub open spec fn changed_fields(fields: Seq<UserField>, user: u8, want: u8) -> Seq<Seq<char>>
    decreases fields.len(),
{
    if fields.len() == 0 {
        Seq::empty()
    } else {
        let f = fields.last();
        let rest = changed_fields(fields.drop_last(), user, want);
        if f.bit < 8 && (user ^ want) & ((1u8 << f.bit) as u8) != 0 { rest.push(f.field@) } else { rest }
    }
}

/// The note of a non-standard USER byte: its value, the documented defaults, and the fields
/// that differ.
pub open spec fn nonstandard_note_spec(fields: Seq<UserField>, user: u8) -> Seq<char> {
    let want = reset_user(fields, user);
    "USER 0x"@ + hex2(user) + ", documented defaults give 0x"@ + hex2(want) + " (fields: "@
        + join_with(changed_fields(fields, user, want), ", "@) + ")"@
}

/// Describe a USER byte that differs from its documented defaults.
pub fn nonstandard_note(fields: &[UserField], user: u8) -> (s: String)
    ensures
        s@ == nonstandard_note_spec(fields@, user),
{
    let want = reset_user_byte(fields, user);
    let mut names: Vec<String> = Vec::new();
    let mut k: usize = 0;
    while k < fields.len()
        invariant
            k <= fields@.len(),
            string_views(names@) == changed_fields(fields@.take(k as int), user, want),
        decreases fields@.len() - k,
    {
        proof { assert(fields@.take(k + 1).drop_last() =~= fields@.take(k as int)); }
        let f = &fields[k];
        if f.bit < 8 && (user ^ want) & (1u8 << f.bit) != 0 {
            let ghost before = names@;
            names.push(f.field.clone());
            proof {
                assert(names@.last() == f.field);
                assert(string_views(names@) =~= string_views(before).push(f.field@));
            }
        }
        k = k + 1;
    }
    proof { assert(fields@.take(k as int) =~= fields@); }
    let mut v: Vec<char> = Vec::new();
    push_str(&mut v, "USER 0x");
    push_hex2(&mut v, user);
    push_str(&mut v, ", documented defaults give 0x");
    push_hex2(&mut v, want);
    push_str(&mut v, " (fields: ");
    push_joined(&mut v, names.as_slice(), ", ");
    push_str(&mut v, ")");
    string_of(v.as_slice())
}

} // verus!
