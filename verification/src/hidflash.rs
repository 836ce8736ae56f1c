//! Flashing a CH32V003 through the HID scratchpad bootloader, as a machine that the caller
//! drives: each step takes the reply to the last operation and names the next one, until the
//! run is done or has failed. The operations are whole stub calls (read a word, write a word,
//! read or program a 64-byte sector, start the application); sending them is the caller's.
//!
//! The run unlocks the flash controller, refuses a read-protected part, then walks the image
//! sector by sector: a sector that already reads back as the image is skipped; any other is
//! erased, programmed and read back, and a read-back that differs ends the run.

use vstd::prelude::*;

use crate::boot::{
    padded_image, pad_image, payload, report_spec, run_app_code, run_app_stub, word_read_code, word_read_stub,
    word_write_code, word_write_stub, write64_code, write64_flash_stub, FlashReport, HidBootError, V003_FLASH_BASE,
};
use crate::dm::bytes4;

verus! {

pub const FLASH_KEYR: u32 = 0x4002_2004;
pub const FLASH_OBKEYR: u32 = 0x4002_2008;
pub const FLASH_STATR: u32 = 0x4002_200c;
pub const FLASH_CTLR: u32 = 0x4002_2010;
pub const FLASH_ADDR: u32 = 0x4002_2014;
pub const FLASH_OBR: u32 = 0x4002_201c;
pub const FLASH_MODEKEYR: u32 = 0x4002_2024;

pub const CTLR_PAGE_PG: u32 = 0x0001_0000;
pub const CTLR_PAGE_ER: u32 = 0x0002_0000;
pub const CTLR_BUF_RST: u32 = 0x0008_0000;
pub const CTLR_START: u32 = 0x0000_0040;

/// How many status reads a flash operation is given before the run times out.
pub const WAIT_POLLS: u32 = 1000;

/// One stub call of the bootloader.
#[derive(Debug, Clone, Copy, PartialEq, Eq, Structural)]
pub enum HidOp {
    /// Read the word at this address; the reply is the word.
    ReadWord(u32),
    /// Write a word; with `no_reply` the bootloader is not asked for a reply.
    WriteWord { addr: u32, value: u32, no_reply: bool },
    /// Read the 64 bytes at this address; the reply is the bytes.
    Read64(u32),
    /// Program image sector `sector` (its bytes: [`HidFlash::sector_data`]) at `addr`.
    Write64 { sector: usize, addr: u32 },
    /// Start the application; no reply.
    RunApp,
}

/// The reply to an operation.
#[derive(Debug, Clone, PartialEq, Eq)]
pub enum HidReply {
    Word(u32),
    Block(Vec<u8>),
    /// An operation without data in its reply (or none at all) completed.
    Ack,
}

/// What the run does next.
#[derive(Debug, Clone, PartialEq, Eq)]
pub enum HidNext {
    Op(HidOp),
    Done(FlashReport),
    Failed(HidBootError),
}

/// Where the run is: what the last operation was.
#[derive(Debug, Clone, Copy, PartialEq, Eq, Structural)]
pub enum HidPhase {
    /// CTLR read to see whether the controller is locked.
    UnlockRead,
    /// Key write `k` of the six unlock writes.
    UnlockKey(u32),
    /// CTLR read again after the keys.
    UnlockReread,
    /// OBR read for read protection.
    CheckObr,
    /// The current sector read to compare with the image.
    Compare,
    /// The page erase: mode set, address set, started, status polled (`n` reads so far).
    EraseMode,
    EraseAddr,
    EraseStart,
    EraseWait(u32),
    /// The page program: mode set, buffer reset, sector written, status polled.
    ProgMode,
    ProgBufRst,
    ProgWrite,
    ProgWait(u32),
    /// The programmed sector read back.
    Verify,
    /// The application started.
    Run,
    /// The run is over.
    Finished,
}

/// A flash run.
#[derive(Debug, Clone)]
pub struct HidFlash {
    /// The image padded to whole sectors.
    pub image: Vec<u8>,
    /// The image's own length.
    pub len: usize,
    /// Whether to start the application at the end.
    pub run: bool,
    pub vid: u16,
    pub pid: u16,
    pub phase: HidPhase,
    /// The sector being worked on.
    pub sector: usize,
    /// Sectors programmed so far.
    pub written: usize,
}

/// The number of sectors of a padded image.
pub open spec fn sector_count(image: Seq<u8>) -> nat {
    image.len() / 64
}

/// The flash address of sector `i`.
pub open spec fn sector_addr(i: nat) -> int {
    V003_FLASH_BASE + 64 * i
}

/// The image bytes of sector `i`.
pub open spec fn sector_bytes(image: Seq<u8>, i: nat) -> Seq<u8> {
    image.subrange(64 * i as int, 64 * i as int + 64)
}

/// The key writes of the unlock sequence, in order: both keys to KEYR, OBKEYR and MODEKEYR.
pub open spec fn key_write(k: u32) -> (u32, u32) {
    let addr = if k < 2 { FLASH_KEYR } else if k < 4 { FLASH_OBKEYR } else { FLASH_MODEKEYR };
    (addr, if k % 2 == 0 { 0x4567_0123u32 } else { 0xcdef_89abu32 })
}

/// A run in a consistent state: a padded image within the code flash, and counters in range.
pub open spec fn hid_wf(f: HidFlash) -> bool {
    &&& f.image@.len() % 64 == 0
    &&& f.image@.len() <= 16384
    &&& f.len <= f.image@.len()
    &&& f.sector <= sector_count(f.image@)
    &&& f.written <= f.sector
    &&& (f.phase is Compare || f.phase is EraseMode || f.phase is EraseAddr || f.phase is EraseStart
        || f.phase is EraseWait || f.phase is ProgMode || f.phase is ProgBufRst || f.phase is ProgWrite
        || f.phase is ProgWait || f.phase is Verify) ==> f.sector < sector_count(f.image@)
    &&& (f.phase matches HidPhase::UnlockKey(k) ==> k < 6)
    &&& (f.phase is UnlockRead || f.phase is UnlockKey || f.phase is UnlockReread || f.phase is CheckObr)
        ==> f.sector == 0 && f.written == 0
    &&& (f.phase matches HidPhase::EraseWait(n) ==> n < WAIT_POLLS)
    &&& (f.phase matches HidPhase::ProgWait(n) ==> n < WAIT_POLLS)
}

/// The report of a finished run.
pub open spec fn report_of(f: HidFlash) -> FlashReport {
    FlashReport { bytes: f.len, sectors_written: f.written, vid: f.vid, pid: f.pid }
}

/// A run moved on to `phase` with `sector` and `written`.
pub open spec fn moved(f: HidFlash, phase: HidPhase, sector: int, written: int) -> HidFlash {
    HidFlash { phase, sector: sector as usize, written: written as usize, ..f }
}

/// Once the last sector is done: start the application when asked, or finish.
pub open spec fn after_sectors(f: HidFlash, written: int) -> (HidFlash, HidNext) {
    let g = moved(f, if f.run { HidPhase::Run } else { HidPhase::Finished }, sector_count(f.image@) as int, written);
    if f.run { (g, HidNext::Op(HidOp::RunApp)) } else { (g, HidNext::Done(report_of(g))) }
}

/// Go to sector `i`: compare it, or end the sector walk.
pub open spec fn goto_sector(f: HidFlash, i: int, written: int) -> (HidFlash, HidNext) {
    if i < sector_count(f.image@) {
        (moved(f, HidPhase::Compare, i, written), HidNext::Op(HidOp::Read64(sector_addr(i as nat) as u32)))
    } else {
        after_sectors(f, written)
    }
}

/// A status read of a flash operation: done and clean moves on, done with an error fails,
/// busy polls again until the polls run out.
pub open spec fn wait_step(f: HidFlash, n: u32, st: u32, erase: bool) -> (HidFlash, HidNext) {
    let addr = sector_addr(f.sector as nat) as u32;
    if st & 3 == 0 {
        if st & 0x10 == 0 {
            if erase {
                (moved(f, HidPhase::ProgMode, f.sector as int, f.written as int),
                    HidNext::Op(HidOp::WriteWord { addr: FLASH_CTLR, value: CTLR_PAGE_PG, no_reply: false }))
            } else {
                (moved(f, HidPhase::Verify, f.sector as int, f.written as int), HidNext::Op(HidOp::Read64(addr)))
            }
        } else {
            (moved(f, HidPhase::Finished, f.sector as int, f.written as int), HidNext::Failed(HidBootError::FlashStatus(st)))
        }
    } else if n + 1 < WAIT_POLLS {
        (moved(f, if erase { HidPhase::EraseWait((n + 1) as u32) } else { HidPhase::ProgWait((n + 1) as u32) },
            f.sector as int, f.written as int), HidNext::Op(HidOp::ReadWord(FLASH_STATR)))
    } else {
        (moved(f, HidPhase::Finished, f.sector as int, f.written as int), HidNext::Failed(HidBootError::Timeout))
    }
}

/// The run's answer to `reply`, the reply to the operation of its phase. A reply of the wrong
/// kind ends the run as a bad payload.
pub open spec fn hid_next(f: HidFlash, reply: HidReply) -> (HidFlash, HidNext) {
    let i = f.sector as int;
    let w = f.written as int;
    let addr = sector_addr(f.sector as nat) as u32;
    let fail = (moved(f, HidPhase::Finished, i, w), HidNext::Failed(HidBootError::Payload));
    match f.phase {
        HidPhase::UnlockRead => match reply {
            HidReply::Word(ctlr) => if ctlr & 0x8080 != 0 {
                (moved(f, HidPhase::UnlockKey(0), i, w),
                    HidNext::Op(HidOp::WriteWord { addr: key_write(0).0, value: key_write(0).1, no_reply: false }))
            } else {
                (moved(f, HidPhase::CheckObr, i, w), HidNext::Op(HidOp::ReadWord(FLASH_OBR)))
            },
            _ => fail,
        },
        HidPhase::UnlockKey(k) => match reply {
            HidReply::Ack => if k + 1 < 6 {
                (moved(f, HidPhase::UnlockKey((k + 1) as u32), i, w),
                    HidNext::Op(HidOp::WriteWord { addr: key_write((k + 1) as u32).0, value: key_write((k + 1) as u32).1, no_reply: false }))
            } else {
                (moved(f, HidPhase::UnlockReread, i, w), HidNext::Op(HidOp::ReadWord(FLASH_CTLR)))
            },
            _ => fail,
        },
        HidPhase::UnlockReread => match reply {
            HidReply::Word(ctlr) => if ctlr & 0x8080 != 0 {
                (moved(f, HidPhase::Finished, i, w), HidNext::Failed(HidBootError::FlashLocked(ctlr)))
            } else {
                (moved(f, HidPhase::CheckObr, i, w), HidNext::Op(HidOp::ReadWord(FLASH_OBR)))
            },
            _ => fail,
        },
        HidPhase::CheckObr => match reply {
            HidReply::Word(obr) => if obr & 2 != 0 {
                (moved(f, HidPhase::Finished, i, w), HidNext::Failed(HidBootError::ReadProtected(obr)))
            } else {
                goto_sector(f, 0, 0)
            },
            _ => fail,
        },
        HidPhase::Compare => match reply {
            HidReply::Block(b) => if b@ == sector_bytes(f.image@, f.sector as nat) {
                goto_sector(f, i + 1, w)
            } else {
                (moved(f, HidPhase::EraseMode, i, w),
                    HidNext::Op(HidOp::WriteWord { addr: FLASH_CTLR, value: CTLR_PAGE_ER, no_reply: false }))
            },
            _ => fail,
        },
        HidPhase::EraseMode => match reply {
            HidReply::Ack => (moved(f, HidPhase::EraseAddr, i, w),
                HidNext::Op(HidOp::WriteWord { addr: FLASH_ADDR, value: addr, no_reply: false })),
            _ => fail,
        },
        HidPhase::EraseAddr => match reply {
            HidReply::Ack => (moved(f, HidPhase::EraseStart, i, w),
                HidNext::Op(HidOp::WriteWord { addr: FLASH_CTLR, value: CTLR_PAGE_ER | CTLR_START, no_reply: true })),
            _ => fail,
        },
        HidPhase::EraseStart => match reply {
            HidReply::Ack => (moved(f, HidPhase::EraseWait(0), i, w), HidNext::Op(HidOp::ReadWord(FLASH_STATR))),
            _ => fail,
        },
        HidPhase::EraseWait(n) => match reply {
            HidReply::Word(st) => wait_step(f, n, st, true),
            _ => fail,
        },
        HidPhase::ProgMode => match reply {
            HidReply::Ack => (moved(f, HidPhase::ProgBufRst, i, w),
                HidNext::Op(HidOp::WriteWord { addr: FLASH_CTLR, value: CTLR_PAGE_PG | CTLR_BUF_RST, no_reply: false })),
            _ => fail,
        },
        HidPhase::ProgBufRst => match reply {
            HidReply::Ack => (moved(f, HidPhase::ProgWrite, i, w), HidNext::Op(HidOp::Write64 { sector: f.sector, addr })),
            _ => fail,
        },
        HidPhase::ProgWrite => match reply {
            HidReply::Ack => (moved(f, HidPhase::ProgWait(0), i, w), HidNext::Op(HidOp::ReadWord(FLASH_STATR))),
            _ => fail,
        },
        HidPhase::ProgWait(n) => match reply {
            HidReply::Word(st) => wait_step(f, n, st, false),
            _ => fail,
        },
        HidPhase::Verify => match reply {
            HidReply::Block(b) => if b@ == sector_bytes(f.image@, f.sector as nat) {
                goto_sector(f, i + 1, w + 1)
            } else {
                (moved(f, HidPhase::Finished, i, w), HidNext::Failed(HidBootError::Verify(addr)))
            },
            _ => fail,
        },
        HidPhase::Run => match reply {
            HidReply::Ack => (moved(f, HidPhase::Finished, i, w), HidNext::Done(report_of(f))),
            _ => fail,
        },
        HidPhase::Finished => (f, HidNext::Done(report_of(f))),
    }
}

impl HidFlash {
    /// Start a run for `image` (padded to whole sectors; larger than the code flash is refused):
    /// its first operation reads CTLR.
    pub fn start(image: &[u8], run: bool, vid: u16, pid: u16) -> (r: Result<(HidFlash, HidOp), HidBootError>)
        ensures
            image@.len() > 16384 ==> r == Err::<(HidFlash, HidOp), HidBootError>(
                HidBootError::ImageTooLarge { actual: image@.len() as usize, limit: 16384 },
            ),
            image@.len() <= 16384 ==> (r matches Ok((f, op)) && {
                &&& f.image@ == padded_image(image@)
                &&& f.len == image@.len()
                &&& f.run == run && f.vid == vid && f.pid == pid
                &&& f.phase == HidPhase::UnlockRead && f.sector == 0 && f.written == 0
                &&& op == HidOp::ReadWord(FLASH_CTLR)
                &&& hid_wf(f)
            }),
    {
        let padded = pad_image(image)?;
        proof {
            let n = image@.len();
            assert(padded_image(image@).len() == ((n + 63) / 64) * 64);
            assert(((n + 63) / 64) * 64 % 64 == 0) by (nonlinear_arith);
            assert(((n + 63) / 64) * 64 >= n) by (nonlinear_arith);
            assert(n <= 16384 ==> ((n + 63) / 64) * 64 <= 16384) by (nonlinear_arith);
        }
        let f = HidFlash {
            image: padded,
            len: image.len(),
            run,
            vid,
            pid,
            phase: HidPhase::UnlockRead,
            sector: 0,
            written: 0,
        };
        Ok((f, HidOp::ReadWord(FLASH_CTLR)))
    }

    /// The image bytes of sector `i`.
    pub fn sector_data(&self, i: usize) -> (d: &[u8])
        requires
            i < sector_count(self.image@),
        ensures
            d@ == sector_bytes(self.image@, i as nat),
    {
        proof {
            let n = self.image@.len();
            assert(64 * i + 64 <= n) by (nonlinear_arith)
                requires i < n / 64;
        }
        assert(self.image@.len() == self.image.len());
        vstd::slice::slice_subrange(self.image.as_slice(), 64 * i, 64 * i + 64)
    }

    fn go_sector(&mut self, i: usize, written: usize) -> (n: HidNext)
        requires
            hid_wf(*old(self)),
            i <= sector_count(old(self).image@),
            written <= i,
        ensures
            (*final(self), n) == goto_sector(*old(self), i as int, written as int),
            hid_wf(*final(self)),
    {
        let count = self.image.len() / 64;
        if i < count {
            self.phase = HidPhase::Compare;
            self.sector = i;
            self.written = written;
            HidNext::Op(HidOp::Read64(V003_FLASH_BASE + 64 * (i as u32)))
        } else {
            self.sector = count;
            self.written = written;
            if self.run {
                self.phase = HidPhase::Run;
                HidNext::Op(HidOp::RunApp)
            } else {
                self.phase = HidPhase::Finished;
                HidNext::Done(FlashReport { bytes: self.len, sectors_written: self.written, vid: self.vid, pid: self.pid })
            }
        }
    }

    fn wait(&mut self, n: u32, st: u32, erase: bool) -> (r: HidNext)
        requires
            hid_wf(*old(self)),
            old(self).sector < sector_count(old(self).image@),
            n < WAIT_POLLS,
            erase ==> old(self).phase == HidPhase::EraseWait(n),
            !erase ==> old(self).phase == HidPhase::ProgWait(n),
        ensures
            (*final(self), r) == wait_step(*old(self), n, st, erase),
            hid_wf(*final(self)),
    {
        let addr = V003_FLASH_BASE + 64 * (self.sector as u32);
        if st & 3 == 0 {
            if st & 0x10 == 0 {
                if erase {
                    self.phase = HidPhase::ProgMode;
                    HidNext::Op(HidOp::WriteWord { addr: FLASH_CTLR, value: CTLR_PAGE_PG, no_reply: false })
                } else {
                    self.phase = HidPhase::Verify;
                    HidNext::Op(HidOp::Read64(addr))
                }
            } else {
                self.phase = HidPhase::Finished;
                HidNext::Failed(HidBootError::FlashStatus(st))
            }
        } else if n + 1 < WAIT_POLLS {
            self.phase = if erase { HidPhase::EraseWait(n + 1) } else { HidPhase::ProgWait(n + 1) };
            HidNext::Op(HidOp::ReadWord(FLASH_STATR))
        } else {
            self.phase = HidPhase::Finished;
            HidNext::Failed(HidBootError::Timeout)
        }
    }

    fn fail_payload(&mut self) -> (r: HidNext)
        requires
            hid_wf(*old(self)),
        ensures
            *final(self) == moved(*old(self), HidPhase::Finished, old(self).sector as int, old(self).written as int),
            r == HidNext::Failed(HidBootError::Payload),
            hid_wf(*final(self)),
    {
        self.phase = HidPhase::Finished;
        HidNext::Failed(HidBootError::Payload)
    }

    /// Take the reply to the last operation and say what comes next.
    pub fn step(&mut self, reply: &HidReply) -> (n: HidNext)
        requires
            hid_wf(*old(self)),
        ensures
            (*final(self), n) == hid_next(*old(self), *reply),
            hid_wf(*final(self)),
    {
        let addr = V003_FLASH_BASE + 64 * (self.sector as u32);
        match self.phase {
            HidPhase::UnlockRead => match reply {
                HidReply::Word(ctlr) => if *ctlr & 0x8080 != 0 {
                    self.phase = HidPhase::UnlockKey(0);
                    HidNext::Op(HidOp::WriteWord { addr: FLASH_KEYR, value: 0x4567_0123, no_reply: false })
                } else {
                    self.phase = HidPhase::CheckObr;
                    HidNext::Op(HidOp::ReadWord(FLASH_OBR))
                },
                _ => self.fail_payload(),
            },
            HidPhase::UnlockKey(k) => match reply {
                HidReply::Ack => if k + 1 < 6 {
                    let next = k + 1;
                    let a = if next < 2 { FLASH_KEYR } else if next < 4 { FLASH_OBKEYR } else { FLASH_MODEKEYR };
                    let v = if next % 2 == 0 { 0x4567_0123u32 } else { 0xcdef_89abu32 };
                    self.phase = HidPhase::UnlockKey(next);
                    HidNext::Op(HidOp::WriteWord { addr: a, value: v, no_reply: false })
                } else {
                    self.phase = HidPhase::UnlockReread;
                    HidNext::Op(HidOp::ReadWord(FLASH_CTLR))
                },
                _ => self.fail_payload(),
            },
            HidPhase::UnlockReread => match reply {
                HidReply::Word(ctlr) => if *ctlr & 0x8080 != 0 {
                    self.phase = HidPhase::Finished;
                    HidNext::Failed(HidBootError::FlashLocked(*ctlr))
                } else {
                    self.phase = HidPhase::CheckObr;
                    HidNext::Op(HidOp::ReadWord(FLASH_OBR))
                },
                _ => self.fail_payload(),
            },
            HidPhase::CheckObr => match reply {
                HidReply::Word(obr) => if *obr & 2 != 0 {
                    self.phase = HidPhase::Finished;
                    HidNext::Failed(HidBootError::ReadProtected(*obr))
                } else {
                    self.go_sector(0, 0)
                },
                _ => self.fail_payload(),
            },
            HidPhase::Compare => match reply {
                HidReply::Block(b) => if same_bytes(b.as_slice(), self.sector_data(self.sector)) {
                    let (s, w) = (self.sector, self.written);
                    self.go_sector(s + 1, w)
                } else {
                    self.phase = HidPhase::EraseMode;
                    HidNext::Op(HidOp::WriteWord { addr: FLASH_CTLR, value: CTLR_PAGE_ER, no_reply: false })
                },
                _ => self.fail_payload(),
            },
            HidPhase::EraseMode => match reply {
                HidReply::Ack => {
                    self.phase = HidPhase::EraseAddr;
                    HidNext::Op(HidOp::WriteWord { addr: FLASH_ADDR, value: addr, no_reply: false })
                },
                _ => self.fail_payload(),
            },
            HidPhase::EraseAddr => match reply {
                HidReply::Ack => {
                    self.phase = HidPhase::EraseStart;
                    HidNext::Op(HidOp::WriteWord { addr: FLASH_CTLR, value: CTLR_PAGE_ER | CTLR_START, no_reply: true })
                },
                _ => self.fail_payload(),
            },
            HidPhase::EraseStart => match reply {
                HidReply::Ack => {
                    self.phase = HidPhase::EraseWait(0);
                    HidNext::Op(HidOp::ReadWord(FLASH_STATR))
                },
                _ => self.fail_payload(),
            },
            HidPhase::EraseWait(n) => match reply {
                HidReply::Word(st) => self.wait(n, *st, true),
                _ => self.fail_payload(),
            },
            HidPhase::ProgMode => match reply {
                HidReply::Ack => {
                    self.phase = HidPhase::ProgBufRst;
                    HidNext::Op(HidOp::WriteWord { addr: FLASH_CTLR, value: CTLR_PAGE_PG | CTLR_BUF_RST, no_reply: false })
                },
                _ => self.fail_payload(),
            },
            HidPhase::ProgBufRst => match reply {
                HidReply::Ack => {
                    self.phase = HidPhase::ProgWrite;
                    HidNext::Op(HidOp::Write64 { sector: self.sector, addr })
                },
                _ => self.fail_payload(),
            },
            HidPhase::ProgWrite => match reply {
                HidReply::Ack => {
                    self.phase = HidPhase::ProgWait(0);
                    HidNext::Op(HidOp::ReadWord(FLASH_STATR))
                },
                _ => self.fail_payload(),
            },
            HidPhase::ProgWait(n) => match reply {
                HidReply::Word(st) => self.wait(n, *st, false),
                _ => self.fail_payload(),
            },
            HidPhase::Verify => match reply {
                HidReply::Block(b) => if same_bytes(b.as_slice(), self.sector_data(self.sector)) {
                    let (s, w) = (self.sector, self.written);
                    self.go_sector(s + 1, w + 1)
                } else {
                    self.phase = HidPhase::Finished;
                    HidNext::Failed(HidBootError::Verify(addr))
                },
                _ => self.fail_payload(),
            },
            HidPhase::Run => match reply {
                HidReply::Ack => {
                    self.phase = HidPhase::Finished;
                    HidNext::Done(FlashReport { bytes: self.len, sectors_written: self.written, vid: self.vid, pid: self.pid })
                },
                _ => self.fail_payload(),
            },
            HidPhase::Finished => HidNext::Done(FlashReport {
                bytes: self.len,
                sectors_written: self.written,
                vid: self.vid,
                pid: self.pid,
            }),
        }
    }
}

/// `a` and `b` hold the same bytes.
fn same_bytes(a: &[u8], b: &[u8]) -> (r: bool)
    ensures
        r == (a@ == b@),
{
    if a.len() != b.len() {
        return false;
    }
    let mut k: usize = 0;
    while k < a.len()
        invariant
            k <= a@.len(),
            a@.len() == b@.len(),
            forall|j: int| 0 <= j < k ==> a@[j] == b@[j],
        decreases a@.len() - k,
    {
        if a[k] != b[k] {
            return false;
        }
        k = k + 1;
    }
    proof { assert(a@ =~= b@); }
    true
}

/// What every step of a run keeps: a sector is counted as written only when the bootloader
/// read it back equal to the image; programming only ever targets the current sector at its own
/// address, right after the page buffer was reset; and a finished run reports the image's length
/// and the sectors it wrote, never more than the image has.
pub proof fn lemma_hid_step_safety(f: HidFlash, reply: HidReply)
    requires
        hid_wf(f),
    ensures
        hid_wf(hid_next(f, reply).0),
        hid_next(f, reply).0.image == f.image && hid_next(f, reply).0.len == f.len,
        hid_next(f, reply).0.written == f.written || (hid_next(f, reply).0.written == f.written + 1
            && f.phase == HidPhase::Verify
            && (reply matches HidReply::Block(b) && b@ == sector_bytes(f.image@, f.sector as nat))),
        hid_next(f, reply).1 matches HidNext::Op(HidOp::Write64 { sector, addr }) ==> (f.phase == HidPhase::ProgBufRst
            && sector == f.sector && sector < sector_count(f.image@)
            && addr == sector_addr(sector as nat)),
        hid_next(f, reply).1 matches HidNext::Done(rep) ==> (rep.bytes == f.len
            && rep.sectors_written == hid_next(f, reply).0.written
            && rep.sectors_written <= sector_count(f.image@)),
{
    assert(V003_FLASH_BASE + 64 * f.sector <= u32::MAX) by (nonlinear_arith)
        requires f.sector <= f.image@.len() / 64, f.image@.len() <= 16384;
}

/// A read-protected part is never touched: when OBR shows read protection the run ends there,
/// and the read-back of a programmed sector that differs from the image ends the run too.
pub proof fn lemma_hid_refusals(f: HidFlash, w: u32, b: Vec<u8>)
    requires
        hid_wf(f),
    ensures
        f.phase == HidPhase::CheckObr && w & 2 != 0 ==> hid_next(f, HidReply::Word(w)).1
            == HidNext::Failed(HidBootError::ReadProtected(w)),
        f.phase == HidPhase::Verify && b@ != sector_bytes(f.image@, f.sector as nat) ==> hid_next(f, HidReply::Block(b)).1
            == HidNext::Failed(HidBootError::Verify(sector_addr(f.sector as nat) as u32)),
{
}

/// The report that carries an operation, and whether the bootloader's reply is awaited.
pub open spec fn op_report_spec(image: Seq<u8>, op: HidOp) -> (Option<Seq<u8>>, bool) {
    match op {
        HidOp::ReadWord(a) => (report_spec(word_read_code(), seq![a, 4u32], Seq::empty()), false),
        HidOp::WriteWord { addr, value, no_reply } => (report_spec(word_write_code(), seq![addr, 4u32], bytes4(value)), no_reply),
        HidOp::Read64(a) => (report_spec(word_read_code(), seq![a, 64u32], Seq::empty()), false),
        HidOp::Write64 { sector, addr } => (report_spec(write64_code(), seq![addr, FLASH_STATR], sector_bytes(image, sector as nat)), false),
        HidOp::RunApp => (report_spec(run_app_code(), Seq::empty(), Seq::empty()), true),
    }
}

impl HidFlash {
    /// The feature report that carries `op`, and whether its reply is awaited (it is not for the
    /// erase start and the application start).
    pub fn op_report(&self, op: HidOp) -> (r: ([u8; 128], bool))
        requires
            op matches HidOp::Write64 { sector, .. } ==> sector < sector_count(self.image@),
        ensures
            op_report_spec(self.image@, op).0 == Some(r.0@),
            op_report_spec(self.image@, op).1 == r.1,
    {
        proof {
            crate::boot::lemma_words_le_len(Seq::<u32>::empty());
        }
        let none: Vec<u8> = Vec::new();
        let built = match op {
            HidOp::ReadWord(a) => {
                let w = [a, 4u32];
                proof { assert(w@ =~= seq![a, 4u32]); crate::boot::lemma_words_le_len(w@); }
                (payload(word_read_stub().as_slice(), &w, none.as_slice()), false)
            },
            HidOp::WriteWord { addr, value, no_reply } => {
                let w = [addr, 4u32];
                let d = [(value & 0xff) as u8, ((value >> 8) & 0xff) as u8, ((value >> 16) & 0xff) as u8, ((value >> 24) & 0xff) as u8];
                proof {
                    assert(w@ =~= seq![addr, 4u32]);
                    crate::boot::lemma_words_le_len(w@);
                    crate::dmseq::lemma_word_bytes(value);
                    assert(d@ =~= bytes4(value));
                }
                (payload(word_write_stub().as_slice(), &w, &d), no_reply)
            },
            HidOp::Read64(a) => {
                let w = [a, 64u32];
                proof { assert(w@ =~= seq![a, 64u32]); crate::boot::lemma_words_le_len(w@); }
                (payload(word_read_stub().as_slice(), &w, none.as_slice()), false)
            },
            HidOp::Write64 { sector, addr } => {
                let w = [addr, FLASH_STATR];
                proof { assert(w@ =~= seq![addr, FLASH_STATR]); crate::boot::lemma_words_le_len(w@); }
                (payload(write64_flash_stub().as_slice(), &w, self.sector_data(sector)), false)
            },
            HidOp::RunApp => {
                let w: Vec<u32> = Vec::new();
                proof { assert(w@ =~= Seq::<u32>::empty()); }
                (payload(run_app_stub().as_slice(), w.as_slice(), none.as_slice()), true)
            },
        };
        match built.0 {
            Ok(rep) => (rep, built.1),
            Err(_) => ([0u8; 128], built.1),
        }
    }
}

/// `r` is what `response` carries as the reply to `op`: the word at bytes 60..64 of a word read,
/// the 64 bytes from 60 of a block read, and an acknowledgement for the rest.
pub open spec fn reply_is(op: HidOp, response: Seq<u8>, r: HidReply) -> bool {
    match op {
        HidOp::ReadWord(_) => r == HidReply::Word(crate::dmseq::le_word(response.subrange(60, 64))),
        HidOp::Read64(_) => r matches HidReply::Block(b) && b@ == response.subrange(60, 124),
        _ => r == HidReply::Ack,
    }
}

/// The reply that the bootloader's response to `op` carries.
pub fn reply_of(op: HidOp, response: &[u8; 128]) -> (r: HidReply)
    ensures
        reply_is(op, response@, r),
{
    match op {
        HidOp::ReadWord(_) => HidReply::Word(crate::boot::reply_word(response)),
        HidOp::Read64(_) => {
            let mut b: Vec<u8> = Vec::new();
            let mut k: usize = 60;
            while k < 124
                invariant
                    60 <= k <= 124,
                    b@ == response@.subrange(60, k as int),
                decreases 124 - k,
            {
                b.push(response[k]);
                proof { assert(b@ =~= response@.subrange(60, k + 1)); }
                k = k + 1;
            }
            HidReply::Block(b)
        },
        _ => HidReply::Ack,
    }
}

} // verus!
