use std::collections::HashMap;

use ch32rv::dbgregs::{read_gprs, regs_text, step_count, step_n};
use ch32rv::dm::DebugModule;
use ch32rv::semiserve::{service_halt, HaltOutcome};
use ch32rv::dmi::{DmiError, DmiOp, DtmAccess};
use ch32rv::flashctl::{FlashProgMode, FLASH_ADDR};
use ch32rv::cliargs::WriteErase;
use ch32rv::flashcfg::FlashCtrlProfile;
use ch32rv::memwrite::{is_flash, low_alias_refusal, write_flash};
use ch32rv::rangeerase::{erase_pages, erase_span, page_count, resolve_region};
use ch32rv::flashflow::{readback_check, restore_pages, ReadbackError};
use ch32rv::image::Segment;
use ch32rv::optprog::{program_option_bytes, read_option_check, OptProgError};
use ch32rv::flashctl::{FLASH_CTLR, FLASH_OPTWRE, OB_BASE};

/// A Debug Module over plain memory and a register file: abstract commands move values between
/// DATA0 and the registers, the program buffer's load and store are carried out on a word map,
/// DMSTATUS reads as `status`, and every store is logged.
#[derive(Default)]
struct MemDtm {
    data0: u32,
    progbuf0: u32,
    regs: HashMap<u32, u32>,
    mem: HashMap<u32, u32>,
    stores: Vec<(u32, u32)>,
    fail_at: Option<u32>,
    status: u32,
    dmcontrol: Vec<u32>,
}

impl MemDtm {
    fn word(&self, a: u32) -> u32 {
        *self.mem.get(&a).unwrap_or(&0)
    }

    fn byte(&self, a: u32) -> u8 {
        (self.word(a & !3) >> (8 * (a & 3))) as u8
    }

    fn reg(&self, regno: u32) -> u32 {
        *self.regs.get(&regno).unwrap_or(&0)
    }

    fn exec(&mut self) -> Result<(), DmiError> {
        let x5 = self.reg(0x1005);
        let x7 = self.reg(0x1007);
        match self.progbuf0 {
            0x0002_a303 => {
                let v = self.word(x5);
                self.regs.insert(0x1006, v);
            }
            0x0072_a023 | 0x0072_9023 => {
                if x5 == FLASH_ADDR && Some(x7) == self.fail_at {
                    return Err(DmiError::Timeout);
                }
                if self.progbuf0 == 0x0072_9023 {
                    let base = x5 & !3;
                    let shift = 8 * (x5 & 2);
                    let w = (self.word(base) & !(0xFFFF << shift)) | ((x7 & 0xFFFF) << shift);
                    self.mem.insert(base, w);
                } else {
                    self.mem.insert(x5, x7);
                }
                self.stores.push((x5, x7));
            }
            _ => {}
        }
        Ok(())
    }
}

impl DtmAccess for MemDtm {
    fn trace(&self) -> vstd::seq::Seq<DmiOp> {
        panic!("the access history exists only for the proofs")
    }

    fn dmi_read(&mut self, addr: u8) -> Result<u32, DmiError> {
        match addr {
            0x04 => Ok(self.data0),
            0x11 => Ok(self.status),
            _ => Ok(0),
        }
    }

    fn dmi_write(&mut self, addr: u8, value: u32) -> Result<(), DmiError> {
        match addr {
            0x04 => self.data0 = value,
            0x10 => self.dmcontrol.push(value),
            0x20 => self.progbuf0 = value,
            0x17 => {
                let regno = value & 0xFFFF;
                if value & 0x2_0000 != 0 {
                    if value & 0x1_0000 != 0 {
                        self.regs.insert(regno, self.data0);
                    } else {
                        self.data0 = self.reg(regno);
                    }
                }
                if value & 0x4_0000 != 0 {
                    return self.exec();
                }
            }
            _ => {}
        }
        Ok(())
    }

    fn dmi_nop(&mut self) -> Result<(), DmiError> {
        Ok(())
    }
}

#[test]
fn code_region_resolves_inside_the_window() {
    assert_eq!(resolve_region("code", Some(64)), Ok((0x0800_0000, 64 * 1024)));
    assert_eq!(resolve_region("code+4k", Some(64)), Ok((0x0800_1000, 60 * 1024)));
    assert_eq!(resolve_region("code+0x100+0x200", Some(16)), Ok((0x0800_0100, 0x200)));
    assert_eq!(
        resolve_region("code+60k+8k", Some(64)),
        Err("region extends past the 65536-byte code flash".to_string())
    );
    assert_eq!(
        resolve_region("ram+4", Some(64)),
        Err("region `ram` is not supported yet (only `code`); use --range for an explicit range".to_string())
    );
    assert_eq!(
        resolve_region("code", None),
        Err("code region needs the flash size, which the probe did not report".to_string())
    );
    assert_eq!(
        resolve_region("code+zz", Some(64)),
        Err("invalid address/number `zz` (use 0x-hex or decimal)".to_string())
    );
}

#[test]
fn erase_span_prefers_the_range_and_rejects_empty() {
    assert_eq!(erase_span(Some("0x08000000+512"), Some("code"), Some(64)), Ok((0x0800_0000, 512)));
    assert_eq!(erase_span(None, Some("code+1k+1k"), Some(64)), Ok((0x0800_0400, 1024)));
    assert_eq!(erase_span(Some("0x08000000+0"), None, None), Err("empty range".to_string()));
    assert_eq!(erase_span(None, None, Some(64)), Err("no --range or --region".to_string()));
}

#[test]
fn page_alignment_is_demanded() {
    assert_eq!(page_count(0x0800_0000, 1024, 256), Ok(4));
    assert_eq!(
        page_count(0x0800_0010, 256, 256),
        Err("range 0x08000010+0x100 is not aligned to the 256-byte flash page".to_string())
    );
    assert_eq!(
        page_count(0x0800_0000, 100, 64),
        Err("range 0x08000000+0x64 is not aligned to the 64-byte flash page".to_string())
    );
}

#[test]
fn pages_are_erased_in_address_order() {
    let mut dtm = MemDtm::default();
    let mut dm = DebugModule::new(&mut dtm);
    assert!(erase_pages(&mut dm, 0x0800_0000, 3, 256, FlashProgMode::PgStart).is_ok());
    let addrs: Vec<u32> = dtm.stores.iter().filter(|(a, _)| *a == FLASH_ADDR).map(|(_, v)| *v).collect();
    assert_eq!(addrs, vec![0x0800_0000, 0x0800_0100, 0x0800_0200]);
}

#[test]
fn a_failed_page_is_reported_by_address() {
    let mut dtm = MemDtm { fail_at: Some(0x0800_0080), ..MemDtm::default() };
    let mut dm = DebugModule::new(&mut dtm);
    match erase_pages(&mut dm, 0x0800_0000, 4, 64, FlashProgMode::Buffered) {
        Err((addr, DmiError::Timeout)) => assert_eq!(addr, 0x0800_0080),
        other => panic!("expected a failure at the third page, got {:?}", other.is_ok()),
    }
    let addrs: Vec<u32> = dtm.stores.iter().filter(|(a, _)| *a == FLASH_ADDR).map(|(_, v)| *v).collect();
    assert_eq!(addrs, vec![0x0800_0000, 0x0800_0040]);
}

fn profile(page_size: u32) -> FlashCtrlProfile {
    FlashCtrlProfile {
        page_size,
        mode: FlashProgMode::PgStart,
        gdb_breakpoints: true,
        attach_corrupts_regs: false,
        erased_reads_ff: true,
    }
}

#[test]
fn flash_write_keeps_the_rest_of_the_page() {
    let mut dtm = MemDtm::default();
    for i in 0..64u32 {
        dtm.mem.insert(0x0800_0000 + 4 * i, 0x1111_1111 * (i % 7));
    }
    let before = dtm.mem.clone();
    let mut dm = DebugModule::new(&mut dtm);
    let r = write_flash(&mut dm, Some(profile(64)), 0x06, 0x0800_003E, &[0xAA, 0xBB, 0xCC, 0xDD], WriteErase::Auto);
    assert!(r.is_ok());
    // Two pages are touched: 0x0800_0000 and 0x0800_0040; each is erased once, in order.
    let erased: Vec<u32> = dtm.stores.iter().filter(|(a, _)| *a == FLASH_ADDR).map(|(_, v)| *v).collect();
    assert_eq!(erased, vec![0x0800_0000, 0x0800_0040]);
    assert_eq!(dtm.mem[&0x0800_003C], (before[&0x0800_003C] & 0x0000_FFFF) | 0xBBAA_0000);
    assert_eq!(dtm.mem[&0x0800_0040], (before[&0x0800_0040] & 0xFFFF_0000) | 0x0000_DDCC);
    for i in 0..64u32 {
        let a = 0x0800_0000 + 4 * i;
        if a != 0x0800_003C && a != 0x0800_0040 {
            assert_eq!(dtm.mem[&a], before[&a], "word at 0x{a:08x}");
        }
    }
}

#[test]
fn flash_write_without_erase_and_without_profile() {
    let mut dtm = MemDtm::default();
    let mut dm = DebugModule::new(&mut dtm);
    assert!(write_flash(&mut dm, Some(profile(256)), 0x06, 0x0800_0100, &[1, 2, 3, 4], WriteErase::Off).is_ok());
    assert!(dtm.stores.iter().all(|(a, _)| *a != FLASH_ADDR));
    assert_eq!(dtm.mem[&0x0800_0100], 0x0403_0201);
    let mut dtm = MemDtm::default();
    let mut dm = DebugModule::new(&mut dtm);
    let e = write_flash(&mut dm, None, 0x4E, 0x0800_0000, &[1], WriteErase::Auto).unwrap_err();
    assert_eq!(e.message(), "no FLASH-controller profile for family 0x4e");
    assert!(dtm.stores.is_empty());
}

#[test]
fn low_alias_is_refused() {
    assert!(is_flash(0x0800_0000) && is_flash(0x080F_FFFF) && !is_flash(0x0810_0000));
    assert_eq!(
        low_alias_refusal(0x0000_1000).as_deref(),
        Some("0x00001000 is the low flash alias; write to the physical flash address 0x08001000 instead")
    );
    assert_eq!(low_alias_refusal(0x2000_0000), None);
    assert_eq!(low_alias_refusal(0x0800_0000), None);
}

#[test]
fn unaligned_memory_write_keeps_the_neighbours() {
    let mut dtm = MemDtm::default();
    dtm.mem.insert(0x2000_0000, 0x4433_2211);
    dtm.mem.insert(0x2000_0004, 0x8877_6655);
    dtm.mem.insert(0x2000_0008, 0xCCBB_AA99);
    let mut dm = DebugModule::new(&mut dtm);
    assert!(dm.write_mem(0x2000_0002, &[1, 2, 3, 4, 5, 6, 7]).is_ok());
    let back = dm.read_mem(0x2000_0001, 10).unwrap();
    assert_eq!(back, vec![0x22, 1, 2, 3, 4, 5, 6, 7, 0xAA, 0xBB]);
    assert_eq!(dtm.word(0x2000_0000), 0x0201_2211);
    assert_eq!(dtm.word(0x2000_0004), 0x0605_0403);
    assert_eq!(dtm.word(0x2000_0008), 0xCCBB_AA07);
    assert_eq!(dtm.byte(0x2000_000B), 0xCC);
}

#[test]
fn v103_pages_are_programmed_by_halfwords() {
    let mut dtm = MemDtm::default();
    let mut dm = DebugModule::new(&mut dtm);
    let data: Vec<u8> = (0u8..8).collect();
    assert!(dm.flash_program_page(0x0800_0080, &data, FlashProgMode::V103).is_ok());
    assert_eq!(dtm.word(0x0800_0080), 0x0302_0100);
    assert_eq!(dtm.word(0x0800_0084), 0x0706_0504);
    let mut dm = DebugModule::new(&mut dtm);
    match dm.flash_program_page(0x0800_0080, &[1, 2, 3], FlashProgMode::PgStart) {
        Err(DmiError::OperationFailed(m)) => assert_eq!(m, "page data length must be a multiple of 4"),
        _ => panic!("a page that is not whole words must be refused"),
    }
}

#[test]
fn dmi_errors_read_as_messages() {
    assert_eq!(DmiError::Timeout.message(), "timeout");
    assert_eq!(DmiError::Cancelled.message(), "cancelled");
    assert_eq!(DmiError::Transport("usb gone".to_string()).message(), "transport error: usb gone");
    assert_eq!(
        DmiError::OperationFailed("flash busy".to_string()).message(),
        "dmi operation failed (op state: flash busy)"
    );
}

#[test]
fn registers_are_listed_by_abi_name() {
    let mut dtm = MemDtm { status: 0x300, ..MemDtm::default() };
    for n in 0..32u32 {
        dtm.regs.insert(0x1000 + n, 0x100 * n);
    }
    dtm.regs.insert(0x7b1, 0x0800_0123);
    dtm.regs.insert(0x301, 0x4000_0014);
    let mut dm = DebugModule::new(&mut dtm);
    let d = read_gprs(&mut dm).unwrap();
    assert_eq!(d.misa, Some(0x4000_0014));
    assert_eq!(d.gprs.len(), 16, "misa.E limits the read to x0..x15");
    assert_eq!(d.gprs[10], 0xa00);
    assert_eq!(d.pc, Some(0x0800_0123));
    let text = regs_text(&d.gprs[..3], d.pc);
    assert_eq!(
        text,
        "x0  zero 0x00000000\nx1  ra   0x00000100\nx2  sp   0x00000200\npc       0x08000123\n"
    );
    dtm.regs.insert(0x301, 0x4000_0100);
    let mut dm = DebugModule::new(&mut dtm);
    let d = read_gprs(&mut dm).unwrap();
    assert_eq!(d.gprs.len(), 32);
    assert_eq!(d.gprs[31], 0x1f00);
    let all = regs_text(&d.gprs, None);
    assert!(all.contains("x31 t6   0x00001f00\n"));
    assert!(all.ends_with("pc       (unavailable)\n"));
}

#[test]
fn steps_are_counted_and_resumed() {
    assert_eq!(step_count(None), 1);
    assert_eq!(step_count(Some(0)), 1);
    assert_eq!(step_count(Some(5)), 5);
    let mut dtm = MemDtm { status: 0x300, ..MemDtm::default() };
    let mut dm = DebugModule::new(&mut dtm);
    assert!(step_n(&mut dm, 3).is_ok());
    assert_eq!(dtm.dmcontrol, vec![0x4000_0001; 3]);
    assert_eq!(dtm.reg(0x7b0) & 0x4, 0, "the step bit is cleared again");
    let mut dtm = MemDtm::default();
    let mut dm = DebugModule::new(&mut dtm);
    match step_n(&mut dm, 2) {
        Err((1, DmiError::OperationFailed(m))) => assert_eq!(m, "did not re-halt after step"),
        _ => panic!("a hart that never re-halts fails the first step"),
    }
}

/// A hart halted on the semihosting sequence at 0x0800_0104, with `a0`/`a1` set.
fn semihost_target(op: u32, arg: u32) -> MemDtm {
    let mut dtm = MemDtm { status: 0x300, ..MemDtm::default() };
    dtm.mem.insert(0x0800_0100, 0x01f0_1013);
    dtm.mem.insert(0x0800_0104, 0x0010_0073);
    dtm.mem.insert(0x0800_0108, 0x4070_5013);
    dtm.regs.insert(0x7b1, 0x0800_0104);
    dtm.regs.insert(0x100a, op);
    dtm.regs.insert(0x100b, arg);
    dtm
}

#[test]
fn semihosting_calls_are_serviced() {
    let mut dtm = semihost_target(0x20, 0x2000_0000);
    dtm.mem.insert(0x2000_0000, 0x2_0026);
    dtm.mem.insert(0x2000_0004, 7);
    let mut dm = DebugModule::new(&mut dtm);
    assert!(matches!(service_halt(&mut dm), HaltOutcome::Exit(7)));

    let mut dtm = semihost_target(0x18, 0x2_0026);
    let mut dm = DebugModule::new(&mut dtm);
    assert!(matches!(service_halt(&mut dm), HaltOutcome::Exit(0)));

    let mut dtm = semihost_target(0x04, 0x2000_0000);
    dtm.mem.insert(0x2000_0000, u32::from_le_bytes(*b"hi!\0"));
    let mut dm = DebugModule::new(&mut dtm);
    match service_halt(&mut dm) {
        HaltOutcome::Output(b) => assert_eq!(b, b"hi!".to_vec()),
        other => panic!("expected output, got {other:?}"),
    }
    assert_eq!(dtm.reg(0x7b1), 0x0800_0108, "resumed past the call");
    assert_eq!(dtm.dmcontrol.last(), Some(&0x4000_0001));

    let mut dtm = semihost_target(0x99, 0);
    let mut dm = DebugModule::new(&mut dtm);
    assert!(matches!(service_halt(&mut dm), HaltOutcome::Skipped));

    let mut dtm = semihost_target(0x18, 0);
    dtm.mem.insert(0x0800_0100, 0x13);
    let mut dm = DebugModule::new(&mut dtm);
    assert!(matches!(service_halt(&mut dm), HaltOutcome::Foreign(0x0800_0104)));
}

fn halted_memory() -> MemDtm {
    let mut dtm = MemDtm::default();
    dtm.status = 0x300;
    for i in 0..16u32 {
        dtm.mem.insert(0x2000_0000 + 4 * i, 0x0403_0201 + 0x0404_0404 * i);
    }
    dtm
}

#[test]
fn readback_matching_image_reports_no_difference() {
    let mut dtm = halted_memory();
    let mut dm = DebugModule::new(&mut dtm);
    let segs = vec![
        Segment { addr: 0x2000_0000, data: vec![1, 2, 3, 4, 5, 6] },
        Segment { addr: 0x2000_0011, data: vec![0x12, 0x13] },
    ];
    assert!(matches!(readback_check(&mut dm, &segs), Ok(None)));
}

#[test]
fn readback_reports_the_first_differing_address() {
    let mut dtm = halted_memory();
    let mut dm = DebugModule::new(&mut dtm);
    let segs = vec![
        Segment { addr: 0x2000_0000, data: vec![1, 2, 3, 4] },
        Segment { addr: 0x2000_0010, data: vec![0x11, 0x12, 0x99, 0x14, 0x00] },
    ];
    assert!(matches!(readback_check(&mut dm, &segs), Ok(Some(0x2000_0012))));
}

#[test]
fn readback_of_a_running_hart_fails_at_the_halt() {
    let mut dtm = halted_memory();
    dtm.status = 0xC00;
    let mut dm = DebugModule::new(&mut dtm);
    let segs = vec![Segment { addr: 0x2000_0000, data: vec![1] }];
    assert!(matches!(readback_check(&mut dm, &segs), Err(ReadbackError::Halt(_))));
}

#[test]
fn restored_pages_keep_unwritten_bytes() {
    let mut dtm = halted_memory();
    let mut dm = DebugModule::new(&mut dtm);
    let segs = vec![Segment { addr: 0x2000_0006, data: vec![0xAA, 0xBB] }];
    let out = restore_pages(&mut dm, &[0x2000_0000, 0x2000_0008], 8, &segs).unwrap();
    assert_eq!(out.len(), 2);
    assert_eq!(out[0].addr, 0x2000_0000);
    assert_eq!(out[0].data, vec![1, 2, 3, 4, 5, 6, 0xAA, 0xBB]);
    assert_eq!(out[1].addr, 0x2000_0008);
    assert_eq!(out[1].data, vec![9, 10, 11, 12, 13, 14, 15, 16]);
}

#[test]
fn option_bytes_are_programmed_and_read_back() {
    let mut dtm = halted_memory();
    dtm.mem.insert(FLASH_CTLR, FLASH_OPTWRE);
    for i in 0..4u32 {
        dtm.mem.insert(OB_BASE + 4 * i, 0x5AA5_5AA5);
    }
    let new: [u8; 16] = [0xA5, 0x5A, 0x3F, 0xC0, 0x00, 0xFF, 0x00, 0xFF, 0xFF, 0x00, 0xFF, 0x00, 0xFF, 0x00, 0xFF, 0x00];
    let mut dm = DebugModule::new(&mut dtm);
    let before = program_option_bytes(&mut dm, &new).unwrap();
    assert_eq!(before, vec![0xA5, 0x5A, 0xA5, 0x5A, 0xA5, 0x5A, 0xA5, 0x5A, 0xA5, 0x5A, 0xA5, 0x5A, 0xA5, 0x5A, 0xA5, 0x5A]);
    let (after, mismatch) = read_option_check(&mut dm, &new).unwrap();
    assert_eq!(after, new.to_vec());
    assert_eq!(mismatch, None);
}

#[test]
fn option_programming_without_optwre_is_refused() {
    let mut dtm = halted_memory();
    let new = [0u8; 16];
    let mut dm = DebugModule::new(&mut dtm);
    assert!(matches!(program_option_bytes(&mut dm, &new), Err(OptProgError::Program(_))));
}
