use ch32rv::cliargs::Cap;
use ch32rv::flashcfg::{
    build_matrix, flash_controller_profile, params_for_family, FlashCtrlProfile, FlashGeometry,
    FlashOptions, FlashStub, MethodKind, ProgramMethod, CODE_FLASH_START,
};
use ch32rv::flashctl::FlashProgMode;
use ch32rv::policy::{EraseMode, Region, ResetPolicy, VerifyMode};

/// The device-data rows of the families the controller path was verified on.
fn rows(byte: u8) -> (Option<FlashGeometry>, Option<ProgramMethod>) {
    let direct = ProgramMethod { mode: MethodKind::Direct, conflict: false, buffer_load_bits: None };
    let buf32 = ProgramMethod { mode: MethodKind::Buffered, conflict: false, buffer_load_bits: Some(32) };
    let buf128 = ProgramMethod { mode: MethodKind::Buffered, conflict: false, buffer_load_bits: Some(128) };
    let ff = Some(0xFFFF_FFFF);
    let e3 = Some(0xe339_e339);
    match byte {
        0x05 | 0x06 => (Some(FlashGeometry { fast_erase: 256, erased_word: e3 }), Some(direct)),
        0x09 | 0x49 => (Some(FlashGeometry { fast_erase: 64, erased_word: ff }), Some(buf32)),
        0x0C | 0x0D | 0x0E => (Some(FlashGeometry { fast_erase: 256, erased_word: ff }), Some(buf32)),
        0x01 => (Some(FlashGeometry { fast_erase: 128, erased_word: ff }), Some(buf128)),
        _ => (Some(FlashGeometry { fast_erase: 256, erased_word: ff }), Some(direct)),
    }
}

fn profile(byte: u8) -> Option<FlashCtrlProfile> {
    let (g, m) = rows(byte);
    flash_controller_profile(byte, g, m)
}

fn cap<'a>(caps: &'a [Cap], op: &str) -> &'a Cap {
    caps.iter().find(|c| c.op == op).expect("cap present")
}

#[test]
fn profile_matches_bench_verified_values() {
    let cases = [
        (0x05u8, 256u32, FlashProgMode::PgStart, false, false),
        (0x06, 256, FlashProgMode::PgStart, false, false),
        (0x09, 64, FlashProgMode::Buffered, false, true),
        (0x49, 64, FlashProgMode::Buffered, false, true),
        (0x0C, 256, FlashProgMode::Buffered, false, true),
        (0x0D, 256, FlashProgMode::Buffered, false, true),
        (0x0E, 256, FlashProgMode::Buffered, false, true),
        (0x01, 128, FlashProgMode::V103, true, true),
    ];
    for (byte, page_size, mode, corrupts, reads_ff) in cases {
        let p = profile(byte).unwrap_or_else(|| panic!("family byte 0x{byte:02x}: no controller profile"));
        assert_eq!(p.page_size, page_size, "0x{byte:02x} page_size");
        assert_eq!(p.mode, mode, "0x{byte:02x} mode");
        assert_eq!(p.attach_corrupts_regs, corrupts, "0x{byte:02x} attach_corrupts_regs");
        assert_eq!(p.erased_reads_ff, reads_ff, "0x{byte:02x} erased_reads_ff");
        assert!(p.gdb_breakpoints, "0x{byte:02x} gdb_breakpoints");
    }
}

#[test]
fn unverified_families_have_no_profile() {
    for byte in [0x4Eu8, 0x86, 0xC6, 0x02, 0x00, 0xFF] {
        assert!(profile(byte).is_none(), "family byte 0x{byte:02x} must not resolve to a controller profile");
    }
}

#[test]
fn erase_groups_are_distinguished() {
    let group_b = profile(0x06).expect("CH32V30x profile");
    assert!(!group_b.erased_reads_ff, "V30x erases to 0xe339e339");
    let group_a = profile(0x0E).expect("CH32L103 profile");
    assert!(group_a.erased_reads_ff, "L103 erases to 0xffffffff");
}

#[test]
fn profile_fails_closed_on_doubtful_data() {
    let g = FlashGeometry { fast_erase: 256, erased_word: Some(0xFFFF_FFFF) };
    let conflict = ProgramMethod { mode: MethodKind::Direct, conflict: true, buffer_load_bits: None };
    assert_eq!(flash_controller_profile(0x05, Some(g), Some(conflict)), None);
    let block_only = FlashGeometry { fast_erase: 0, erased_word: None };
    let direct = ProgramMethod { mode: MethodKind::Direct, conflict: false, buffer_load_bits: None };
    assert_eq!(flash_controller_profile(0x05, Some(block_only), Some(direct)), None);
    let wide = ProgramMethod { mode: MethodKind::Buffered, conflict: false, buffer_load_bits: Some(64) };
    assert_eq!(flash_controller_profile(0x0E, Some(g), Some(wide)), None);
    let other = ProgramMethod { mode: MethodKind::Other, conflict: false, buffer_load_bits: None };
    assert_eq!(flash_controller_profile(0x0E, Some(g), Some(other)), None);
    assert_eq!(flash_controller_profile(0x0E, None, Some(direct)), None);
    assert_eq!(flash_controller_profile(0x0E, Some(g), None), None);
    let unknown_erase = FlashGeometry { fast_erase: 256, erased_word: None };
    assert!(!flash_controller_profile(0x0E, Some(unknown_erase), Some(direct)).unwrap().erased_reads_ff);
}

#[test]
fn write_params_by_family() {
    let v003 = params_for_family(0x09).unwrap();
    assert_eq!(v003.stub, FlashStub::Ch32v003);
    assert_eq!((v003.data_packet_size, v003.write_pack_size), (64, 1024));
    assert!(v003.supports_protect && v003.supports_special_erase);
    let v103 = params_for_family(0x01).unwrap();
    assert_eq!((v103.stub, v103.data_packet_size, v103.write_pack_size), (FlashStub::Ch32v103, 128, 4096));
    assert_eq!(params_for_family(0x06).unwrap().stub, FlashStub::Ch32v307);
    assert_eq!(params_for_family(0x0E).unwrap().stub, FlashStub::Ch643);
    assert!(params_for_family(0x02).is_none());
    assert!(params_for_family(0x4E).is_none());
}

#[test]
fn default_flash_policy() {
    let o = FlashOptions::default();
    assert_eq!(o.region, Region::Code);
    assert_eq!(o.erase, EraseMode::Auto);
    assert_eq!(o.verify, VerifyMode::Readback);
    assert_eq!(o.reset, ResetPolicy::Run);
    assert_eq!(o.confirm_run, None);
    assert_eq!(CODE_FLASH_START, 0x0800_0000);
}

#[test]
fn ch549_cannot_drive_1wire_target() {
    let caps = build_matrix(false, false, true, 0x09, profile(0x09));
    assert!(!cap(&caps, "connect").supported);
    let caps = build_matrix(true, true, true, 0x09, profile(0x09));
    assert!(cap(&caps, "connect").supported);
}

#[test]
fn sdi_and_poweroff_are_linke_only() {
    let ch549 = build_matrix(false, false, false, 0x01, profile(0x01));
    assert!(!cap(&ch549, "monitor sdi").supported);
    assert!(!cap(&ch549, "recover power-off").supported);
    let linke = build_matrix(true, true, false, 0x01, profile(0x01));
    assert!(cap(&linke, "monitor sdi").supported);
    assert!(cap(&linke, "recover power-off").supported);
}

#[test]
fn erase_range_follows_the_controller_profile() {
    assert!(cap(&build_matrix(true, true, false, 0x0E, profile(0x0E)), "erase --range / flash-bp").supported);
    assert!(!cap(&build_matrix(true, true, false, 0x00, profile(0x00)), "erase --range / flash-bp").supported);
}

#[test]
fn matrix_reasons() {
    let caps = build_matrix(true, true, false, 0x0E, profile(0x0E));
    assert_eq!(caps.len(), 7);
    assert_eq!(cap(&caps, "erase --range / flash-bp").reason, "direct FLASH controller (256-byte page, Buffered)");
    assert_eq!(cap(&caps, "flash").reason, "a flash loader stub is available for this family");
    let none = build_matrix(false, false, false, 0x4E, None);
    assert_eq!(cap(&none, "flash").reason, "no flash stub for this family yet (interim table)");
    assert_eq!(
        cap(&none, "monitor sdi").reason,
        "SDI print forwarding is WCH-LinkE only; use `monitor --source dmdata`"
    );
}
