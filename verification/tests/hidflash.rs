use ch32rv::boot::{candidate_ids, not_found, reply_ready, FlashReport, HidBootError};
use ch32rv::hidflash::{
    reply_of, HidFlash, HidNext, HidOp, HidReply, CTLR_PAGE_ER, CTLR_START, FLASH_ADDR, FLASH_CTLR, FLASH_OBR,
    FLASH_STATR,
};

/// A simulated bootloader: flash contents, lock state, OBR and a status that stays busy for a
/// number of reads.
struct Fake {
    flash: Vec<u8>,
    locked: bool,
    keys: u32,
    obr: u32,
    busy_reads: u32,
    status_error: bool,
    ops: Vec<HidOp>,
    corrupt_writes: bool,
}

impl Fake {
    fn new(flash: Vec<u8>) -> Self {
        Fake { flash, locked: false, keys: 0, obr: 0, busy_reads: 0, status_error: false, ops: vec![], corrupt_writes: false }
    }

    fn apply(&mut self, m: &HidFlash, op: HidOp) -> HidReply {
        self.ops.push(op);
        // The report for every operation must build.
        let (report, _no_reply) = m.op_report(op);
        assert_eq!(report[0], 0xaa);
        let mut response = [0u8; 128];
        response[1] = 0xff;
        match op {
            HidOp::ReadWord(a) => {
                let v = if a == FLASH_CTLR {
                    if self.locked { 0x80 } else { 0 }
                } else if a == FLASH_OBR {
                    self.obr
                } else if a == FLASH_STATR {
                    if self.busy_reads > 0 {
                        self.busy_reads -= 1;
                        1
                    } else if self.status_error {
                        0x10
                    } else {
                        0
                    }
                } else {
                    0
                };
                response[60..64].copy_from_slice(&v.to_le_bytes());
            }
            HidOp::WriteWord { .. } => {
                self.keys += 1;
                if self.keys >= 6 {
                    self.locked = false;
                }
            }
            HidOp::Read64(a) => {
                let o = (a - 0x0800_0000) as usize;
                response[60..124].copy_from_slice(&self.flash[o..o + 64]);
            }
            HidOp::Write64 { sector, addr } => {
                let o = (addr - 0x0800_0000) as usize;
                let mut d = m.sector_data(sector).to_vec();
                if self.corrupt_writes {
                    d[0] ^= 1;
                }
                self.flash[o..o + 64].copy_from_slice(&d);
            }
            HidOp::RunApp => {}
        }
        assert!(reply_ready(128, &response));
        reply_of(op, &response)
    }
}

fn drive(fake: &mut Fake, image: &[u8], run: bool) -> HidNext {
    let (mut m, mut op) = HidFlash::start(image, run, 0x1209, 0xb003).unwrap();
    for _ in 0..100_000 {
        let reply = fake.apply(&m, op);
        match m.step(&reply) {
            HidNext::Op(next) => op = next,
            end => return end,
        }
    }
    panic!("the run did not end");
}

#[test]
fn only_differing_sectors_are_written_and_verified() {
    let mut image = vec![0x11u8; 64];
    image.extend(vec![0x22u8; 6]);
    let mut flash = vec![0xffu8; 16384];
    flash[..64].copy_from_slice(&[0x11u8; 64]);
    let mut fake = Fake::new(flash);
    fake.busy_reads = 3;
    let end = drive(&mut fake, &image, true);
    assert_eq!(end, HidNext::Done(FlashReport { bytes: 70, sectors_written: 1, vid: 0x1209, pid: 0xb003 }));
    assert_eq!(&fake.flash[64..70], &[0x22u8; 6]);
    assert_eq!(&fake.flash[70..128], &[0xffu8; 58]);
    assert!(fake.ops.contains(&HidOp::WriteWord { addr: FLASH_ADDR, value: 0x0800_0040, no_reply: false }));
    assert!(fake.ops.contains(&HidOp::WriteWord { addr: FLASH_CTLR, value: CTLR_PAGE_ER | CTLR_START, no_reply: true }));
    assert_eq!(fake.ops.last(), Some(&HidOp::RunApp));
    assert_eq!(fake.ops.iter().filter(|o| matches!(o, HidOp::Write64 { .. })).count(), 1);
}

#[test]
fn locked_controller_is_unlocked_with_six_keys() {
    let mut fake = Fake::new(vec![0xffu8; 16384]);
    fake.locked = true;
    let end = drive(&mut fake, &[0xff; 64], false);
    assert_eq!(end, HidNext::Done(FlashReport { bytes: 64, sectors_written: 0, vid: 0x1209, pid: 0xb003 }));
    assert_eq!(fake.keys, 6);
}

#[test]
fn read_protected_parts_are_refused() {
    let mut fake = Fake::new(vec![0xffu8; 16384]);
    fake.obr = 2;
    assert_eq!(drive(&mut fake, &[1, 2, 3], false), HidNext::Failed(HidBootError::ReadProtected(2)));
    assert!(!fake.ops.iter().any(|o| matches!(o, HidOp::Write64 { .. })));
}

#[test]
fn a_bad_read_back_or_status_ends_the_run() {
    let mut fake = Fake::new(vec![0xffu8; 16384]);
    fake.corrupt_writes = true;
    assert_eq!(drive(&mut fake, &[1, 2, 3], false), HidNext::Failed(HidBootError::Verify(0x0800_0000)));
    let mut fake = Fake::new(vec![0xffu8; 16384]);
    fake.status_error = true;
    assert_eq!(drive(&mut fake, &[1, 2, 3], false), HidNext::Failed(HidBootError::FlashStatus(0x10)));
    let mut fake = Fake::new(vec![0xffu8; 16384]);
    fake.busy_reads = 5000;
    assert_eq!(drive(&mut fake, &[1, 2, 3], false), HidNext::Failed(HidBootError::Timeout));
}

#[test]
fn oversized_images_and_ids() {
    assert!(matches!(
        HidFlash::start(&vec![0u8; 16385], false, 0x1209, 0xb003),
        Err(HidBootError::ImageTooLarge { actual: 16385, limit: 16384 })
    ));
    assert_eq!(candidate_ids(None), vec![(0x1209, 0xb803), (0x1209, 0xb003)]);
    assert_eq!(candidate_ids(Some((1, 2))), vec![(1, 2)]);
    assert_eq!(not_found(None), HidBootError::NotFound(0x1209, 0xb803));
}
