//! Per-family flash configuration: the WCH-Link write parameters (loader stub and packet sizes),
//! the direct FLASH-controller profile derived from the device data, the capability matrix built
//! from both, and the default programming policy.

use vstd::prelude::*;

use crate::cliargs::Cap;
use crate::erase::{db_family, db_family_spec};
use crate::flashctl::FlashProgMode;
use crate::policy::{ConfirmRunMode, EraseMode, Region, ResetPolicy, VerifyMode};
use crate::text::{chars_of, dec, push_dec, push_str, string_of};

verus! {

/// Start of code flash on every CH32 RISC-V part (the default load address of a raw binary).
pub const CODE_FLASH_START: u32 = 0x0800_0000;

/// The flash loader stub a family is programmed with.
#[derive(Debug, Clone, Copy, PartialEq, Eq, Structural)]
pub enum FlashStub {
    /// CH32V003 / CH641 (single-wire SWIO).
    Ch32v003,
    /// CH32V103.
    Ch32v103,
    /// CH32V20x / CH32V30x.
    Ch32v307,
    /// CH32X035 / CH643 / CH32L103.
    Ch643,
}

/// The WCH-Link flash write parameters of one family.
#[derive(Debug, Clone, Copy, PartialEq, Eq, Structural)]
pub struct FlashParams {
    pub stub: FlashStub,
    pub data_packet_size: usize,
    pub write_pack_size: usize,
    pub supports_protect: bool,
    pub supports_special_erase: bool,
}

/// Families that take the special (whole-chip) erase: all but the BLE families CH56x/57x/58x/59x.
pub open spec fn special_erase_family(b: u8) -> bool {
    !(b == 0x02 || b == 0x03 || b == 0x07 || b == 0x0B)
}

/// Families with flash read protection: V103 / V20x / V30x / V003 / V00x / CH643 / L103 / X035 /
/// CH641 / V317 / H4.
pub open spec fn protect_family(b: u8) -> bool {
    b == 0x01 || b == 0x05 || b == 0x06 || b == 0x09 || b == 0x4E || b == 0x0C || b == 0x0E
        || b == 0x0D || b == 0x49 || b == 0x86 || b == 0xC6
}

/// Loader stub and packet sizes by family byte; none for a family without a stub.
pub open spec fn stub_spec(b: u8) -> Option<(FlashStub, usize, usize)> {
    if b == 0x09 || b == 0x49 {
        Some((FlashStub::Ch32v003, 64usize, 1024usize))
    } else if b == 0x01 {
        Some((FlashStub::Ch32v103, 128usize, 4096usize))
    } else if b == 0x05 || b == 0x06 {
        Some((FlashStub::Ch32v307, 256usize, 4096usize))
    } else if b == 0x0D || b == 0x0C || b == 0x0E {
        Some((FlashStub::Ch643, 256usize, 4096usize))
    } else {
        None
    }
}

pub open spec fn params_spec(b: u8) -> Option<FlashParams> {
    match stub_spec(b) {
        Some((stub, d, w)) => Some(FlashParams {
            stub,
            data_packet_size: d,
            write_pack_size: w,
            supports_protect: protect_family(b),
            supports_special_erase: special_erase_family(b),
        }),
        None => None,
    }
}

/// The flash write parameters for an AttachChip family byte; none for a family that has no
/// loader stub yet (the caller reports it as unsupported for flashing).
pub fn params_for_family(family_byte: u8) -> (p: Option<FlashParams>)
    ensures
        p == params_spec(family_byte),
{
    let b = family_byte;
    let (stub, data_packet_size, write_pack_size): (FlashStub, usize, usize) = if b == 0x09 || b == 0x49 {
        (FlashStub::Ch32v003, 64, 1024)
    } else if b == 0x01 {
        (FlashStub::Ch32v103, 128, 4096)
    } else if b == 0x05 || b == 0x06 {
        (FlashStub::Ch32v307, 256, 4096)
    } else if b == 0x0D || b == 0x0C || b == 0x0E {
        (FlashStub::Ch643, 256, 4096)
    } else {
        return None;
    };
    let supports_special_erase = !(b == 0x02 || b == 0x03 || b == 0x07 || b == 0x0B);
    let supports_protect = b == 0x01 || b == 0x05 || b == 0x06 || b == 0x09 || b == 0x4E || b == 0x0C
        || b == 0x0E || b == 0x0D || b == 0x49 || b == 0x86 || b == 0xC6;
    Some(FlashParams { stub, data_packet_size, write_pack_size, supports_protect, supports_special_erase })
}

/// Flash geometry of a family as the device data records it.
#[derive(Debug, Clone, Copy, PartialEq, Eq, Structural)]
pub struct FlashGeometry {
    /// Fast-erase page size in bytes; 0 when the family only erases whole blocks.
    pub fast_erase: u32,
    /// What an erased word reads back as, where recorded.
    pub erased_word: Option<u32>,
}

/// The programming procedure's kind, as the device data names it.
#[derive(Debug, Clone, Copy, PartialEq, Eq, Structural)]
pub enum MethodKind {
    /// FTPG, write the words, then PG_STRT.
    Direct,
    /// FTPG + BUFRST, one buffer load per word width, then STRT.
    Buffered,
    /// Any other procedure.
    Other,
}

/// The programming procedure of a family as the device data records it.
#[derive(Debug, Clone, Copy, PartialEq, Eq, Structural)]
pub struct ProgramMethod {
    pub mode: MethodKind,
    /// The reference manual and the vendor driver disagree on this procedure.
    pub conflict: bool,
    /// Width of one buffer load, in bits, where recorded.
    pub buffer_load_bits: Option<u32>,
}

/// The direct FLASH-controller programming profile of a family.
#[derive(Debug, Clone, Copy, PartialEq, Eq, Structural)]
pub struct FlashCtrlProfile {
    /// Page size (bytes) that `erase --range` and flash software breakpoints operate at.
    pub page_size: u32,
    /// The FLASH-controller programming mechanism.
    pub mode: FlashProgMode,
    /// Flash software breakpoints are supported.
    pub gdb_breakpoints: bool,
    /// The probe's attach overwrites a live register (CH32V103: s1/x9), so the target is
    /// soft-reset after attach.
    pub attach_corrupts_regs: bool,
    /// An erased cell reads back as 0xff (false for the parts that erase to 0xe339e339).
    pub erased_reads_ff: bool,
}

/// The programming mechanism a recorded procedure maps to: direct maps to PgStart; a 32-bit
/// buffer load to Buffered; a wider buffer load only on CH32V103 (family byte 0x01), to its
/// half-word path; anything else to none.
pub open spec fn mode_of(family_byte: u8, m: ProgramMethod) -> Option<FlashProgMode> {
    match m.mode {
        MethodKind::Direct => Some(FlashProgMode::PgStart),
        MethodKind::Buffered => match m.buffer_load_bits {
            Some(bits) => if bits == 32 {
                Some(FlashProgMode::Buffered)
            } else if family_byte == 0x01 {
                Some(FlashProgMode::V103)
            } else {
                None
            },
            None => None,
        },
        MethodKind::Other => None,
    }
}

/// The profile for a family byte from its device-data rows: none for a family this path has not
/// been verified on, for a missing row, a conflicting procedure, a family without page erase, or
/// a procedure that cannot be driven word by word.
pub open spec fn profile_spec(
    family_byte: u8,
    geometry: Option<FlashGeometry>,
    method: Option<ProgramMethod>,
) -> Option<FlashCtrlProfile> {
    if db_family_spec(family_byte).is_none() {
        None
    } else {
        match (geometry, method) {
            (Some(g), Some(m)) => if m.conflict || g.fast_erase == 0 {
                None
            } else {
                match mode_of(family_byte, m) {
                    Some(mode) => Some(FlashCtrlProfile {
                        page_size: g.fast_erase,
                        mode,
                        gdb_breakpoints: true,
                        attach_corrupts_regs: family_byte == 0x01,
                        erased_reads_ff: g.erased_word == Some(0xFFFF_FFFFu32),
                    }),
                    None => None,
                }
            },
            _ => None,
        }
    }
}

/// The FLASH-controller profile of a family, given the device data's geometry and programming
/// procedure rows for that family (as `db_family` names it). Fails closed: this profile is used
/// to erase and program flash.
pub fn flash_controller_profile(
    family_byte: u8,
    geometry: Option<FlashGeometry>,
    method: Option<ProgramMethod>,
) -> (p: Option<FlashCtrlProfile>)
    ensures
        p == profile_spec(family_byte, geometry, method),
{
    if db_family(family_byte).is_none() {
        return None;
    }
    let (g, m) = match (geometry, method) {
        (Some(g), Some(m)) => (g, m),
        _ => return None,
    };
    if m.conflict {
        return None;
    }
    let page_size = g.fast_erase;
    if page_size == 0 {
        return None;
    }
    let mode = match m.mode {
        MethodKind::Direct => FlashProgMode::PgStart,
        MethodKind::Buffered => match m.buffer_load_bits {
            Some(bits) => if bits == 32 {
                FlashProgMode::Buffered
            } else if family_byte == 0x01 {
                FlashProgMode::V103
            } else {
                return None;
            },
            None => return None,
        },
        MethodKind::Other => return None,
    };
    let erased_reads_ff = match g.erased_word {
        Some(w) => w == 0xFFFF_FFFF,
        None => false,
    };
    Some(FlashCtrlProfile {
        page_size,
        mode,
        gdb_breakpoints: true,
        attach_corrupts_regs: family_byte == 0x01,
        erased_reads_ff,
    })
}

/// A family whose controller path has not been run on silicon never gets a profile, whatever the
/// device data says about it: the profile is used to erase and program flash.
pub proof fn lemma_unverified_family_fails_closed(
    family_byte: u8,
    geometry: Option<FlashGeometry>,
    method: Option<ProgramMethod>,
)
    requires
        db_family_spec(family_byte).is_none(),
    ensures
        profile_spec(family_byte, geometry, method).is_none(),
{
}

/// A profile reports erased cells as 0xff exactly when the device data records an erased word of
/// 0xFFFFFFFF, so a part that erases to 0xe339e339 is never treated as blank-checkable with 0xff;
/// and the page size is always the recorded fast-erase page, never zero.
pub proof fn lemma_profile_follows_geometry(
    family_byte: u8,
    g: FlashGeometry,
    method: Option<ProgramMethod>,
)
    requires
        profile_spec(family_byte, Some(g), method).is_some(),
    ensures
        profile_spec(family_byte, Some(g), method).unwrap().erased_reads_ff
            == (g.erased_word == Some(0xFFFF_FFFFu32)),
        profile_spec(family_byte, Some(g), method).unwrap().page_size == g.fast_erase,
        g.fast_erase > 0,
{
}

/// Policy set for one `flash` invocation.
#[derive(Debug, Clone, Copy, PartialEq, Eq, Structural)]
pub struct FlashOptions {
    pub region: Region,
    pub erase: EraseMode,
    pub verify: VerifyMode,
    pub reset: ResetPolicy,
    pub confirm_run: Option<ConfirmRunMode>,
}

impl Default for FlashOptions {
    /// Program the code region, erase what the image touches, verify by readback, reset and run.
    fn default() -> (o: Self)
        ensures
            o == (FlashOptions {
                region: Region::Code,
                erase: EraseMode::Auto,
                verify: VerifyMode::Readback,
                reset: ResetPolicy::Run,
                confirm_run: None,
            }),
    {
        FlashOptions {
            region: Region::Code,
            erase: EraseMode::Auto,
            verify: VerifyMode::Readback,
            reset: ResetPolicy::Run,
            confirm_run: None,
        }
    }
}

/// The name of a programming mechanism, as reports show it.
pub open spec fn mode_name(m: FlashProgMode) -> Seq<char> {
    match m {
        FlashProgMode::PgStart => "PgStart"@,
        FlashProgMode::Buffered => "Buffered"@,
        FlashProgMode::V103 => "V103"@,
    }
}

fn mode_str(m: FlashProgMode) -> (s: &'static str)
    ensures
        s@ == mode_name(m),
{
    match m {
        FlashProgMode::PgStart => "PgStart",
        FlashProgMode::Buffered => "Buffered",
        FlashProgMode::V103 => "V103",
    }
}

/// The reason shown for a family with a FLASH-controller profile.
pub open spec fn ctrl_reason(p: FlashCtrlProfile) -> Seq<char> {
    "direct FLASH controller ("@ + dec(p.page_size as nat) + "-byte page, "@ + mode_name(p.mode) + ")"@
}

/// One expected matrix row: operation, verdict, reason.
pub open spec fn row_is(c: Cap, op: Seq<char>, supported: bool, reason: Seq<char>) -> bool {
    c.op@ == op && c.supported == supported && c.reason@ == reason
}

/// The operation matrix for a probe and a target: `is_linke` for a WCH-LinkE, `powers_target`
/// for a probe that switches target power (LinkE / LinkW), `one_wire` for a single-wire SWIO
/// target, and the family's FLASH-controller profile.
pub fn build_matrix(
    is_linke: bool,
    powers_target: bool,
    one_wire: bool,
    family_byte: u8,
    ctrl: Option<FlashCtrlProfile>,
) -> (caps: Vec<Cap>)
    ensures
        caps@.len() == 7,
        if one_wire && !is_linke {
            row_is(caps@[0], "connect"@, false,
                "target is 1-wire SWIO; only WCH-LinkE drives a single-wire target"@)
        } else {
            row_is(caps@[0], "connect"@, true, "the probe supports this target's debug wiring"@)
        },
        if params_spec(family_byte).is_some() {
            row_is(caps@[1], "flash"@, true, "a flash loader stub is available for this family"@)
        } else {
            row_is(caps@[1], "flash"@, false, "no flash stub for this family yet (interim table)"@)
        },
        match ctrl {
            Some(p) => row_is(caps@[2], "erase --range / flash-bp"@, true, ctrl_reason(p)),
            None => row_is(caps@[2], "erase --range / flash-bp"@, false,
                "no capture-verified FLASH-controller profile for this family"@),
        },
        row_is(caps@[3], "gdb HW breakpoints"@, true,
            "detected at gdb attach (V4C/V4F have 4 trigger slots; V2/V3/V4B have 0)"@),
        if is_linke {
            row_is(caps@[4], "monitor sdi"@, true, "SDI print forwarding (WCH-LinkE)"@)
        } else {
            row_is(caps@[4], "monitor sdi"@, false,
                "SDI print forwarding is WCH-LinkE only; use `monitor --source dmdata`"@)
        },
        row_is(caps@[5], "monitor dmdata"@, true, "host polls the DM data mailbox over DMI (any probe)"@),
        if powers_target {
            row_is(caps@[6], "recover power-off"@, true, "target-power erase (WCH-LinkE/LinkW)"@)
        } else {
            row_is(caps@[6], "recover power-off"@, false,
                "power-off erase needs a probe that controls target power (LinkE/LinkW)"@)
        },
{
    let mut caps: Vec<Cap> = Vec::new();
    if one_wire && !is_linke {
        caps.push(Cap::no("connect", owned("target is 1-wire SWIO; only WCH-LinkE drives a single-wire target")));
    } else {
        caps.push(Cap::yes("connect", owned("the probe supports this target's debug wiring")));
    }
    if params_for_family(family_byte).is_some() {
        caps.push(Cap::yes("flash", owned("a flash loader stub is available for this family")));
    } else {
        caps.push(Cap::no("flash", owned("no flash stub for this family yet (interim table)")));
    }
    match ctrl {
        Some(p) => {
            let mut r: Vec<char> = Vec::new();
            push_str(&mut r, "direct FLASH controller (");
            push_dec(&mut r, p.page_size as u64);
            push_str(&mut r, "-byte page, ");
            push_str(&mut r, mode_str(p.mode));
            push_str(&mut r, ")");
            caps.push(Cap::yes("erase --range / flash-bp", string_of(r.as_slice())));
        },
        None => {
            caps.push(Cap::no("erase --range / flash-bp",
                owned("no capture-verified FLASH-controller profile for this family")));
        },
    }
    caps.push(Cap::yes("gdb HW breakpoints",
        owned("detected at gdb attach (V4C/V4F have 4 trigger slots; V2/V3/V4B have 0)")));
    if is_linke {
        caps.push(Cap::yes("monitor sdi", owned("SDI print forwarding (WCH-LinkE)")));
    } else {
        caps.push(Cap::no("monitor sdi",
            owned("SDI print forwarding is WCH-LinkE only; use `monitor --source dmdata`")));
    }
    caps.push(Cap::yes("monitor dmdata", owned("host polls the DM data mailbox over DMI (any probe)")));
    if powers_target {
        caps.push(Cap::yes("recover power-off", owned("target-power erase (WCH-LinkE/LinkW)")));
    } else {
        caps.push(Cap::no("recover power-off",
            owned("power-off erase needs a probe that controls target power (LinkE/LinkW)")));
    }
    caps
}

/// `s` as an owned string.
fn owned(s: &str) -> (o: String)
    ensures
        o@ == s@,
{
    string_of(chars_of(s).as_slice())
}

} // verus!
