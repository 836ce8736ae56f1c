//! `probe firmware update`: the checks that decide whether an image may be written to the
//! probe's own flash over IAP, and how the update starts. What is known of the image comes from
//! inspecting it (bootloader prefix, RISC-V entry, embedded USB product ids); what is known of
//! the probe comes from its mode and, in RISC-V mode, its model.

use vstd::prelude::*;

use crate::contract::ProbeMode;

verus! {

/// What inspecting a firmware image found.
#[derive(Debug, Clone)]
pub struct IapInfo {
    /// Length of a bootloader that precedes the application, when the file carries one.
    pub bootloader_prefix: Option<u32>,
    /// The image starts with a RISC-V `jal`.
    pub looks_riscv: bool,
    /// USB product ids the image announces.
    pub pids: Vec<u16>,
}

/// Why an update is refused.
#[derive(Debug, Clone, Copy, PartialEq, Eq, Structural)]
pub enum FwRefusal {
    /// The image file is empty.
    EmptyImage,
    /// The file carries a bootloader of this length before the application.
    BootloaderPrefix(u32),
    /// The probe is in a mode the update cannot start from (DAP, ISP, unknown).
    UnsupportedMode,
    /// The probe is not a WCH-LinkE, the only model the update is verified for.
    NotLinkE,
    /// The image does not start with a RISC-V jump.
    NotRiscv,
    /// The image announces USB ids and the probe's RISC-V-mode id is not among them.
    ForeignUsbIds,
    /// Non-interactive use without `--yes`.
    NeedsYes,
}

/// How an accepted update goes on.
#[derive(Debug, Clone, Copy, PartialEq, Eq, Structural)]
pub struct UpdatePlan {
    /// Only describe the image; open no device.
    pub dry_run: bool,
    /// The probe already sits in IAP mode: write directly (the rescue path).
    pub resume: bool,
    /// Ask the user before switching the probe into IAP mode.
    pub confirm: bool,
}

/// The refusal for an update, if any, in the order the checks are made.
pub open spec fn update_refusal(
    bootloader_prefix: Option<u32>,
    looks_riscv: bool,
    pids: Seq<u16>,
    image_len: nat,
    dry_run: bool,
    mode: ProbeMode,
    is_link_e: bool,
    riscv_pid: u16,
    yes: bool,
    non_interactive: bool,
) -> Option<FwRefusal> {
    if image_len == 0 {
        Some(FwRefusal::EmptyImage)
    } else if bootloader_prefix is Some {
        Some(FwRefusal::BootloaderPrefix(bootloader_prefix->0))
    } else if dry_run {
        None
    } else {
        match mode {
            ProbeMode::Iap => None,
            ProbeMode::Riscv => if !is_link_e {
                Some(FwRefusal::NotLinkE)
            } else if !looks_riscv {
                Some(FwRefusal::NotRiscv)
            } else if pids.len() > 0 && !pids.contains(riscv_pid) {
                Some(FwRefusal::ForeignUsbIds)
            } else if !yes && non_interactive {
                Some(FwRefusal::NeedsYes)
            } else {
                None
            },
            _ => Some(FwRefusal::UnsupportedMode),
        }
    }
}

/// Whether `v` holds `x`.
fn contains_pid(v: &[u16], x: u16) -> (r: bool)
    ensures
        r == v@.contains(x),
{
    let mut i: usize = 0;
    while i < v.len()
        invariant
            i <= v@.len(),
            forall|j: int| 0 <= j < i ==> v@[j] != x,
        decreases v@.len() - i,
    {
        if v[i] == x {
            assert(v@[i as int] == x);
            return true;
        }
        i = i + 1;
    }
    false
}

/// Decide a probe firmware update. `is_link_e` is the model of a probe in RISC-V mode and
/// `riscv_pid` the USB product id a WCH-LinkE image must announce for that mode. An accepted
/// update is a dry run (nothing opened), a resume (the probe is in IAP mode already), or an entry
/// into IAP mode, which asks for confirmation unless `--yes` was given.
pub fn check_update(
    info: &IapInfo,
    image: &[u8],
    dry_run: bool,
    mode: ProbeMode,
    is_link_e: bool,
    riscv_pid: u16,
    yes: bool,
    non_interactive: bool,
) -> (r: Result<UpdatePlan, FwRefusal>)
    ensures
        ({
            let f = update_refusal(info.bootloader_prefix, info.looks_riscv, info.pids@, image@.len(),
                dry_run, mode, is_link_e, riscv_pid, yes, non_interactive);
            &&& r is Err <==> f is Some
            &&& r matches Err(e) ==> f == Some(e)
            &&& r matches Ok(p) ==> p == (UpdatePlan {
                dry_run: dry_run,
                resume: !dry_run && mode == ProbeMode::Iap,
                confirm: !dry_run && mode == ProbeMode::Riscv && !yes,
            })
        }),
{
    if image.len() == 0 {
        return Err(FwRefusal::EmptyImage);
    }
    if let Some(bl) = info.bootloader_prefix {
        return Err(FwRefusal::BootloaderPrefix(bl));
    }
    if dry_run {
        return Ok(UpdatePlan { dry_run: true, resume: false, confirm: false });
    }
    match mode {
        ProbeMode::Iap => Ok(UpdatePlan { dry_run: false, resume: true, confirm: false }),
        ProbeMode::Riscv => {
            if !is_link_e {
                return Err(FwRefusal::NotLinkE);
            }
            if !info.looks_riscv {
                return Err(FwRefusal::NotRiscv);
            }
            if info.pids.len() > 0 && !contains_pid(info.pids.as_slice(), riscv_pid) {
                return Err(FwRefusal::ForeignUsbIds);
            }
            if !yes && non_interactive {
                return Err(FwRefusal::NeedsYes);
            }
            Ok(UpdatePlan { dry_run: false, resume: false, confirm: !yes })
        },
        _ => Err(FwRefusal::UnsupportedMode),
    }
}

} // verus!
