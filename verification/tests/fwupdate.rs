use ch32rv::contract::ProbeMode;
use ch32rv::erase::resolve_erase;
use ch32rv::flashcfg::FlashCtrlProfile;
use ch32rv::flashctl::FlashProgMode;
use ch32rv::flashflow::{erase_policy, FlashRefusal};
use ch32rv::fwupdate::{check_update, FwRefusal, IapInfo, UpdatePlan};
use ch32rv::optprog::{first_even_mismatch, option_verify_next, OptVerifyAction};
use ch32rv::policy::EraseMode;

fn app_image() -> IapInfo {
    IapInfo { bootloader_prefix: None, looks_riscv: true, pids: vec![0x8010, 0x8012] }
}

#[test]
fn an_empty_image_is_refused_first() {
    let mut info = app_image();
    info.bootloader_prefix = Some(0x4000);
    assert_eq!(check_update(&info, &[], false, ProbeMode::Riscv, true, 0x8010, true, false), Err(FwRefusal::EmptyImage));
}

#[test]
fn a_bootloader_image_is_refused_even_in_a_dry_run() {
    let mut info = app_image();
    info.bootloader_prefix = Some(0x4000);
    assert_eq!(check_update(&info, &[1, 2], true, ProbeMode::Riscv, true, 0x8010, true, false), Err(FwRefusal::BootloaderPrefix(0x4000)));
}

#[test]
fn a_dry_run_opens_nothing() {
    let info = IapInfo { bootloader_prefix: None, looks_riscv: false, pids: vec![] };
    assert_eq!(
        check_update(&info, &[1], true, ProbeMode::Dap, false, 0x8010, false, true),
        Ok(UpdatePlan { dry_run: true, resume: false, confirm: false })
    );
}

#[test]
fn an_iap_probe_is_written_directly() {
    let info = IapInfo { bootloader_prefix: None, looks_riscv: false, pids: vec![] };
    assert_eq!(
        check_update(&info, &[1], false, ProbeMode::Iap, false, 0x8010, false, true),
        Ok(UpdatePlan { dry_run: false, resume: true, confirm: false })
    );
}

#[test]
fn riscv_mode_checks_model_code_and_usb_ids() {
    let info = app_image();
    assert_eq!(check_update(&info, &[1], false, ProbeMode::Riscv, false, 0x8010, true, false), Err(FwRefusal::NotLinkE));
    let not_riscv = IapInfo { looks_riscv: false, ..app_image() };
    assert_eq!(check_update(&not_riscv, &[1], false, ProbeMode::Riscv, true, 0x8010, true, false), Err(FwRefusal::NotRiscv));
    let foreign = IapInfo { pids: vec![0x8011], ..app_image() };
    assert_eq!(check_update(&foreign, &[1], false, ProbeMode::Riscv, true, 0x8010, true, false), Err(FwRefusal::ForeignUsbIds));
    assert_eq!(check_update(&info, &[1], false, ProbeMode::Riscv, true, 0x8010, false, true), Err(FwRefusal::NeedsYes));
    assert_eq!(
        check_update(&info, &[1], false, ProbeMode::Riscv, true, 0x8010, false, false),
        Ok(UpdatePlan { dry_run: false, resume: false, confirm: true })
    );
    assert_eq!(
        check_update(&info, &[1], false, ProbeMode::Riscv, true, 0x8010, true, true),
        Ok(UpdatePlan { dry_run: false, resume: false, confirm: false })
    );
    assert_eq!(check_update(&info, &[1], false, ProbeMode::Dap, true, 0x8010, true, false), Err(FwRefusal::UnsupportedMode));
}

fn profile(ff: bool) -> FlashCtrlProfile {
    FlashCtrlProfile { page_size: 256, mode: FlashProgMode::PgStart, gdb_breakpoints: true, attach_corrupts_regs: false, erased_reads_ff: ff }
}

#[test]
fn erase_policy_resolves_and_refuses() {
    assert_eq!(erase_policy(EraseMode::Auto, Some(0x0800_0000), 0x0800_0000, false, None), Ok(EraseMode::Chip));
    assert_eq!(erase_policy(EraseMode::Auto, Some(0x0800_1000), 0x0800_0000, false, Some(profile(true))), Ok(EraseMode::Sector));
    assert_eq!(erase_policy(EraseMode::Auto, Some(0x0800_1000), 0x0800_0000, false, None), Err(FlashRefusal::SectorUnsupported));
    assert_eq!(erase_policy(EraseMode::Chip, Some(0x0800_0000), 0x0800_0000, true, Some(profile(true))), Err(FlashRefusal::RestoreNeedsSector(EraseMode::Chip)));
    assert_eq!(erase_policy(EraseMode::Auto, Some(0x0800_0000), 0x0800_0000, true, Some(profile(false))), Err(FlashRefusal::RestoreNeedsErasedFf));
    assert_eq!(erase_policy(EraseMode::Off, None, 0x0800_0000, false, None), Ok(EraseMode::Off));
    assert_eq!(resolve_erase(EraseMode::Auto, None, 0x0800_0000, false), EraseMode::Sector);
}

#[test]
fn option_value_bytes_are_compared_and_retried() {
    let want = [1u8, 0xFE, 2, 0xFD, 3, 0xFC, 4, 0xFB, 5, 0xFA, 6, 0xF9, 7, 0xF8, 8, 0xF7];
    let mut got = want.to_vec();
    got[1] = 0;
    assert_eq!(first_even_mismatch(&got, &want), None);
    got[6] = 9;
    got[10] = 9;
    assert_eq!(first_even_mismatch(&got, &want), Some(6));
    assert_eq!(option_verify_next(0, Some(6)), OptVerifyAction::Retry);
    assert_eq!(option_verify_next(1, Some(6)), OptVerifyAction::Retry);
    assert_eq!(option_verify_next(2, Some(6)), OptVerifyAction::Mismatch(6));
    assert_eq!(option_verify_next(2, None), OptVerifyAction::Verified);
}

use ch32rv::flashflow::{flash_decide, FlashAction, FlashEvent, FlashPhase, FlashPlan};

fn plan(preverify: bool, erase: EraseMode, restore: bool, verify: bool) -> FlashPlan {
    FlashPlan { phase: FlashPhase::Start, preverify, erase, restore_unwritten: restore, verify }
}

#[test]
fn a_matching_preverify_skips_the_flash() {
    let (p, a) = flash_decide(&plan(true, EraseMode::Chip, false, true), FlashEvent::Begin);
    assert_eq!(a, FlashAction::Preverify);
    let (p, a) = flash_decide(&p, FlashEvent::Readback(None));
    assert_eq!(a, FlashAction::Finish { skipped: true, verified: true });
    assert_eq!(p.phase, FlashPhase::Done);
}

#[test]
fn a_full_run_erases_programs_and_verifies() {
    let (p, a) = flash_decide(&plan(true, EraseMode::Sector, true, true), FlashEvent::Begin);
    assert_eq!(a, FlashAction::Preverify);
    let (p, a) = flash_decide(&p, FlashEvent::Readback(Some(0x0800_0010)));
    assert_eq!(a, FlashAction::Erase { scope: EraseMode::Sector, restore: true });
    let (p, a) = flash_decide(&p, FlashEvent::Erased);
    assert_eq!(a, FlashAction::Program { whole_pages: true });
    let (p, a) = flash_decide(&p, FlashEvent::Programmed);
    assert_eq!(a, FlashAction::Verify);
    let (_, a) = flash_decide(&p, FlashEvent::Readback(Some(0x0800_0123)));
    assert_eq!(a, FlashAction::Mismatch(0x0800_0123));
}

#[test]
fn no_erase_and_no_verify() {
    let (p, a) = flash_decide(&plan(false, EraseMode::Off, false, false), FlashEvent::Begin);
    assert_eq!(a, FlashAction::Program { whole_pages: false });
    let (p, a) = flash_decide(&p, FlashEvent::Programmed);
    assert_eq!(a, FlashAction::Finish { skipped: false, verified: false });
    let (_, a) = flash_decide(&p, FlashEvent::Erased);
    assert_eq!(a, FlashAction::Invalid);
}
