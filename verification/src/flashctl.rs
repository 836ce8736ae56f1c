//! Direct FLASH-controller programming over the Debug Module: page erase, page program and the
//! option bytes, driven through word and halfword accesses of the memory-mapped controller at
//! 0x4002_2000. The hart must be halted for all of these.

use vstd::prelude::*;

use crate::dmseq::le_word;

use crate::dm::DebugModule;
use crate::dmi::{
    faulted_since, lemma_faulted_kept, realizes, added, grows, group_grows, lemma_log_concat, lemma_log_start, lemma_log_step, realizes_all,
    DmOp, DmiError, DmiOp, DtmAccess,
};

verus! {

broadcast use group_grows;

pub const FLASH_KEYR: u32 = 0x4002_2004;
pub const FLASH_OBKEYR: u32 = 0x4002_2008;
pub const FLASH_STATR: u32 = 0x4002_200C;
pub const FLASH_CTLR: u32 = 0x4002_2010;
pub const FLASH_ADDR: u32 = 0x4002_2014;
pub const FLASH_MODEKEYR: u32 = 0x4002_2024;
/// Undocumented CH32V103 "commit" register.
pub const FLASH_MAGIC_V103: u32 = 0x4002_2034;
pub const FLASH_KEY1: u32 = 0x4567_0123;
pub const FLASH_KEY2: u32 = 0xCDEF_89AB;
// CTLR bits.
pub const FLASH_PG: u32 = 0x1;
pub const FLASH_OPTPG: u32 = 0x10;
pub const FLASH_OPTER: u32 = 0x20;
pub const FLASH_STRT: u32 = 0x40;
pub const FLASH_LOCK: u32 = 0x80;
pub const FLASH_OPTWRE: u32 = 0x200;
pub const FLASH_FLOCK: u32 = 0x8000;
pub const FLASH_FTPG: u32 = 0x1_0000;
pub const FLASH_FTER: u32 = 0x2_0000;
pub const FLASH_BUFLOAD: u32 = 0x4_0000;
pub const FLASH_BUFRST: u32 = 0x8_0000;
pub const FLASH_PGSTART: u32 = 0x20_0000;
// STATR bits.
pub const FLASH_BUSY: u32 = 0x1;
pub const FLASH_WRBUSY: u32 = 0x2;
pub const FLASH_WPRERR: u32 = 0x10;
/// Base of the option-byte block.
pub const OB_BASE: u32 = 0x1FFF_F800;

/// Which fast-program mechanism a family uses.
#[derive(Debug, Clone, Copy, PartialEq, Eq, Structural)]
pub enum FlashProgMode {
    /// V20x/V30x: load words, then set PGSTART.
    PgStart,
    /// V003/X035/L103: buffer reset, per-word write + BUFLOAD, then STRT.
    Buffered,
    /// CH32V103: standard 16-bit halfword programming (CR_PG) + the mandatory commit side effect.
    V103,
}

pub open spec fn rd32(addr: u32, value: u32) -> DmOp {
    DmOp::Read32 { addr: addr, value: value }
}

pub open spec fn wr32(addr: u32, value: u32) -> DmOp {
    DmOp::Write32 { addr: addr, value: value }
}

/// Unlocking: read CTLR; if LOCK or FLOCK is set, write both keys to KEYR and MODEKEYR.
pub open spec fn unlock_log(l: Seq<DmOp>) -> bool {
    &&& l.len() >= 1
    &&& l[0] matches DmOp::Read32 { addr, value: c }
    &&& addr == FLASH_CTLR
    &&& if c & (FLASH_LOCK | FLASH_FLOCK) == 0 {
        l.len() == 1
    } else {
        l == seq![
            l[0],
            wr32(FLASH_KEYR, FLASH_KEY1),
            wr32(FLASH_KEYR, FLASH_KEY2),
            wr32(FLASH_MODEKEYR, FLASH_KEY1),
            wr32(FLASH_MODEKEYR, FLASH_KEY2),
        ]
    }
}

/// Re-locking: read CTLR and write it back with LOCK and FLOCK set.
pub open spec fn lock_log(l: Seq<DmOp>) -> bool {
    &&& l.len() == 2
    &&& l[0] matches DmOp::Read32 { addr, value: c }
    &&& addr == FLASH_CTLR
    &&& l[1] == wr32(FLASH_CTLR, c | FLASH_LOCK | FLASH_FLOCK)
}

/// Waiting on STATR: reads until every bit of `mask` is clear (at most 4000), the last read
/// giving `v`.
pub open spec fn wait_log(l: Seq<DmOp>, mask: u32, v: u32) -> bool {
    &&& 1 <= l.len() <= 4000
    &&& forall|i: int| 0 <= i < l.len() - 1 ==> (#[trigger] l[i] matches DmOp::Read32 { addr, value: x }
        && addr == FLASH_STATR && x & mask != 0)
    &&& l.last() == rd32(FLASH_STATR, v)
    &&& v & mask == 0
}

/// The CH32V103 commit: read the word at `(addr & !3) ^ 0x1000` and write it to the commit
/// register.
pub open spec fn commit_log(l: Seq<DmOp>, addr: u32) -> bool {
    &&& l.len() == 2
    &&& l[0] matches DmOp::Read32 { addr: a, value: v }
    &&& a == (addr & 0xFFFF_FFFC) ^ 0x0000_1000
    &&& l[1] == wr32(FLASH_MAGIC_V103, v)
}

/// The accesses of a fast page erase, piece by piece.
pub open spec fn erase_seq(
    u: Seq<DmOp>, s0: u32, c1: u32, c2: u32, wt: Seq<DmOp>, st: u32, c3: u32,
    cm: Seq<DmOp>, lk: Seq<DmOp>, addr: u32,
) -> Seq<DmOp> {
    u + seq![
        rd32(FLASH_STATR, s0),
        rd32(FLASH_CTLR, c1),
        wr32(FLASH_CTLR, c1 | FLASH_FTER),
        wr32(FLASH_ADDR, addr),
        rd32(FLASH_CTLR, c2),
        wr32(FLASH_CTLR, c2 | FLASH_STRT),
    ] + wt + seq![
        rd32(FLASH_CTLR, c3),
        wr32(FLASH_CTLR, c3 & !FLASH_FTER),
        wr32(FLASH_STATR, st),
    ] + cm + lk
}

/// What a successful page erase found and did: unlocked, found the controller idle, set FTER,
/// gave the page address, started, waited for BUSY to clear, cleared FTER and the status flags,
/// committed on CH32V103, re-locked - and the final status reported no write-protect error.
pub open spec fn erase_parts_ok(
    u: Seq<DmOp>, s0: u32, wt: Seq<DmOp>, st: u32, cm: Seq<DmOp>, lk: Seq<DmOp>,
    addr: u32, mode: FlashProgMode,
) -> bool {
    &&& unlock_log(u)
    &&& s0 & FLASH_BUSY == 0
    &&& wait_log(wt, FLASH_BUSY, st)
    &&& if mode == FlashProgMode::V103 { commit_log(cm, addr) } else { cm.len() == 0 }
    &&& lock_log(lk)
    &&& st & FLASH_WPRERR == 0
}

/// Word `i` of page data, little-endian.
pub open spec fn data_word(data: Seq<u8>, i: int) -> u32 {
    le_word(data.subrange(4 * i, 4 * i + 4))
}

/// Halfword `k` (0 or 1) of word `i` of page data, little-endian.
pub open spec fn data_half(data: Seq<u8>, i: int, k: int) -> u16 {
    ((data[4 * i + 2 * k] as u16) | ((data[4 * i + 2 * k + 1] as u16) << 8u16)) as u16
}

/// How word `i` of a page is programmed in each mode.
pub open spec fn word_piece(mode: FlashProgMode, p: Seq<DmOp>, addr: u32, data: Seq<u8>, i: int) -> bool {
    let a = (addr + 4 * i) as u32;
    match mode {
        FlashProgMode::PgStart => exists|wt: Seq<DmOp>, v: u32|
            #[trigger] wait_log(wt, FLASH_WRBUSY, v) && p == seq![wr32(a, data_word(data, i))] + wt,
        FlashProgMode::Buffered => exists|wt: Seq<DmOp>, v: u32|
            #[trigger] wait_log(wt, FLASH_BUSY, v)
                && p == seq![wr32(a, data_word(data, i)), wr32(FLASH_CTLR, FLASH_FTPG | FLASH_BUFLOAD)] + wt,
        FlashProgMode::V103 => exists|w1: Seq<DmOp>, v1: u32, w2: Seq<DmOp>, v2: u32|
            #![trigger wait_log(w1, FLASH_BUSY, v1), wait_log(w2, FLASH_BUSY, v2)]
            wait_log(w1, FLASH_BUSY, v1) && wait_log(w2, FLASH_BUSY, v2) && p ==
                seq![DmOp::Write16 { addr: a, value: data_half(data, i, 0) }] + w1
                    + seq![DmOp::Write16 { addr: (a + 2) as u32, value: data_half(data, i, 1) }] + w2,
    }
}

/// Every word of the page programmed in order, one piece per word.
pub open spec fn words_ok(mode: FlashProgMode, pieces: Seq<Seq<DmOp>>, addr: u32, data: Seq<u8>) -> bool {
    &&& pieces.len() == data.len() / 4
    &&& forall|i: int| 0 <= i < pieces.len() ==> #[trigger] word_piece(mode, pieces[i], addr, data, i)
}

/// The accesses of a CH32V103 page program after the status check: PG set once, each halfword
/// stored, PG cleared, one commit, re-lock.
pub open spec fn v103_tail(c: u32, words: Seq<DmOp>, c2: u32, cm: Seq<DmOp>, lk: Seq<DmOp>) -> Seq<DmOp> {
    seq![rd32(FLASH_CTLR, c), wr32(FLASH_CTLR, c | FLASH_PG)] + words
        + seq![rd32(FLASH_CTLR, c2), wr32(FLASH_CTLR, c2 & !FLASH_PG)] + cm + lk
}

/// The accesses of a fast (PgStart or Buffered) page program after the status check.
pub open spec fn fast_tail(
    mode: FlashProgMode, addr: u32, wb: Seq<DmOp>, words: Seq<DmOp>, wt: Seq<DmOp>, st: u32,
    lk: Seq<DmOp>,
) -> Seq<DmOp> {
    let start = if mode == FlashProgMode::PgStart {
        seq![wr32(FLASH_CTLR, FLASH_FTPG)] + words + seq![wr32(FLASH_CTLR, FLASH_FTPG | FLASH_PGSTART)]
    } else {
        seq![wr32(FLASH_CTLR, FLASH_FTPG), wr32(FLASH_CTLR, FLASH_FTPG | FLASH_BUFRST)] + wb + words
            + seq![wr32(FLASH_ADDR, addr), wr32(FLASH_CTLR, FLASH_FTPG | FLASH_STRT)]
    };
    start + wt + seq![wr32(FLASH_CTLR, 0), wr32(FLASH_STATR, st)] + lk
}

/// The accesses of a page program, given the pieces that differ between runs.
pub open spec fn program_seq(
    mode: FlashProgMode, addr: u32, u: Seq<DmOp>, s0: u32, c: u32, wb: Seq<DmOp>,
    words: Seq<DmOp>, c2: u32, wt: Seq<DmOp>, st: u32, cm: Seq<DmOp>, lk: Seq<DmOp>,
) -> Seq<DmOp> {
    u + seq![rd32(FLASH_STATR, s0)] + if mode == FlashProgMode::V103 {
        v103_tail(c, words, c2, cm, lk)
    } else {
        fast_tail(mode, addr, wb, words, wt, st, lk)
    }
}

/// What the part of a successful page program after the status check found and did.
pub open spec fn tail_ok(
    mode: FlashProgMode, addr: u32, data: Seq<u8>, wb: Seq<DmOp>, pieces: Seq<Seq<DmOp>>,
    wt: Seq<DmOp>, st: u32, cm: Seq<DmOp>, lk: Seq<DmOp>,
) -> bool {
    &&& words_ok(mode, pieces, addr, data)
    &&& lock_log(lk)
    &&& match mode {
        FlashProgMode::V103 => commit_log(cm, addr),
        FlashProgMode::PgStart => wait_log(wt, FLASH_BUSY, st) && st & FLASH_WPRERR == 0,
        FlashProgMode::Buffered => (exists|v: u32| #[trigger] wait_log(wb, FLASH_BUSY, v))
            && wait_log(wt, FLASH_BUSY, st) && st & FLASH_WPRERR == 0,
    }
}

/// What a successful page program checked and found: unlocked, the controller idle, every word
/// programmed in order, the mode's completion (commit, or BUSY clear with no write-protect
/// error), re-locked.
pub open spec fn program_parts_ok(
    mode: FlashProgMode, addr: u32, data: Seq<u8>, u: Seq<DmOp>, s0: u32, wb: Seq<DmOp>,
    pieces: Seq<Seq<DmOp>>, wt: Seq<DmOp>, st: u32, cm: Seq<DmOp>, lk: Seq<DmOp>,
) -> bool {
    &&& unlock_log(u)
    &&& s0 & FLASH_BUSY == 0
    &&& tail_ok(mode, addr, data, wb, pieces, wt, st, cm, lk)
}

/// Option halfword `i` (0..8) of a 16-byte option image, little-endian.
pub open spec fn option_half(bytes: Seq<u8>, i: int) -> u16 {
    ((bytes[2 * i] as u16) | ((bytes[2 * i + 1] as u16) << 8u16)) as u16
}

/// How option halfword `i` is programmed: OPTPG, then OPTPG + STRT, the halfword store at
/// `OB_BASE + 2i`, and a wait for BUSY that ended without a write-protect error.
pub open spec fn option_piece(p: Seq<DmOp>, bytes: Seq<u8>, i: int) -> bool {
    exists|w: Seq<DmOp>, v: u32| #[trigger] wait_log(w, FLASH_BUSY, v) && v & FLASH_WPRERR == 0 && p == seq![
        wr32(FLASH_CTLR, FLASH_OPTPG | FLASH_OPTWRE),
        wr32(FLASH_CTLR, FLASH_OPTPG | FLASH_OPTWRE | FLASH_STRT),
        DmOp::Write16 { addr: (OB_BASE + 2 * i) as u32, value: option_half(bytes, i) },
    ] + w
}

/// The accesses of an option-byte rewrite: all three key pairs, the CTLR read `c`, the erase
/// with its wait `we`, the eight halfword pieces, and the final clear of CTLR.
pub open spec fn option_seq(c: u32, we: Seq<DmOp>, halves: Seq<DmOp>) -> Seq<DmOp> {
    seq![
        wr32(FLASH_KEYR, FLASH_KEY1),
        wr32(FLASH_KEYR, FLASH_KEY2),
        wr32(FLASH_OBKEYR, FLASH_KEY1),
        wr32(FLASH_OBKEYR, FLASH_KEY2),
        wr32(FLASH_MODEKEYR, FLASH_KEY1),
        wr32(FLASH_MODEKEYR, FLASH_KEY2),
        rd32(FLASH_CTLR, c),
        wr32(FLASH_CTLR, FLASH_OPTER | FLASH_OPTWRE),
        wr32(FLASH_CTLR, FLASH_OPTER | FLASH_OPTWRE | FLASH_STRT),
    ] + we + halves + seq![wr32(FLASH_CTLR, 0)]
}

/// What a successful option-byte rewrite found: OPTWRE set after the keys, the erase finished
/// without a write-protect error, and the eight halfwords programmed in order, RDPR first.
pub open spec fn option_parts_ok(c: u32, we: Seq<DmOp>, se: u32, hw: Seq<Seq<DmOp>>, bytes: Seq<u8>) -> bool {
    &&& c & FLASH_OPTWRE != 0
    &&& wait_log(we, FLASH_BUSY, se)
    &&& se & FLASH_WPRERR == 0
    &&& hw.len() == 8
    &&& forall|i: int| 0 <= i < 8 ==> #[trigger] option_piece(hw[i], bytes, i)
}

/// `ops` unlocked the controller (`u`) and read STATR as `s0`, busy, and did nothing more:
/// neither CTLR nor the page was written.
pub open spec fn busy_stop(ops: Seq<DmiOp>, u: Seq<DmOp>, s0: u32) -> bool {
    &&& unlock_log(u)
    &&& s0 & FLASH_BUSY != 0
    &&& realizes_all(ops, u.push(rd32(FLASH_STATR, s0)))
}

/// `ops` rewrote the option bytes with `bytes`: keys, erase, the eight halfwords, clear.
pub open spec fn option_program_log(ops: Seq<DmiOp>, bytes: Seq<u8>) -> bool {
    exists|c: u32, we: Seq<DmOp>, se: u32, hw: Seq<Seq<DmOp>>| {
        &&& #[trigger] option_parts_ok(c, we, se, hw, bytes)
        &&& realizes_all(ops, option_seq(c, we, hw.flatten()))
    }
}

/// A read of the FLASH controller that says it cannot go on: STATR busy, still writing, or
/// reporting a write-protect error; or CTLR without the option-byte write enable.
pub open spec fn flash_refusal(m: DmOp) -> bool {
    match m {
        DmOp::Read32 { addr, value } => (addr == FLASH_STATR && (value & FLASH_BUSY != 0
            || value & FLASH_WRBUSY != 0 || value & FLASH_WPRERR != 0))
            || (addr == FLASH_CTLR && value & FLASH_OPTWRE == 0),
        _ => false,
    }
}

/// From position `n` of trace `t` on, some accesses carried out a refusing controller read.
pub open spec fn flash_refused_since(n: int, t: Seq<DmiOp>) -> bool {
    exists|i: int, j: int, m: DmOp| n <= i <= j <= t.len() && flash_refusal(m) && #[trigger] realizes(t.subrange(i, j), m)
}

/// From position `n` of trace `t` on, a STATR read found a bit of `mask` set.
pub open spec fn status_seen_since(n: int, t: Seq<DmiOp>, mask: u32) -> bool {
    exists|i: int, j: int, v: u32| n <= i <= j <= t.len() && v & mask != 0
        && #[trigger] realizes(t.subrange(i, j), DmOp::Read32 { addr: FLASH_STATR, value: v })
}

/// From position `n` of trace `t` on, a STATR read returned exactly `v`.
pub open spec fn status_read_since(n: int, t: Seq<DmiOp>, v: u32) -> bool {
    exists|i: int, j: int| n <= i <= j <= t.len()
        && #[trigger] realizes(t.subrange(i, j), DmOp::Read32 { addr: FLASH_STATR, value: v })
}

/// A refusing status read made at or after position `k` fails every operation begun at `n <= k`.
pub proof fn lemma_status_refused(n: int, k: int, t: Seq<DmiOp>, v: u32)
    requires
        n <= k,
        status_read_since(k, t, v),
        flash_refusal(DmOp::Read32 { addr: FLASH_STATR, value: v }),
    ensures
        flash_failed(n, t),
{
    let (i, j) = choose|i: int, j: int| k <= i <= j <= t.len()
        && #[trigger] realizes(t.subrange(i, j), DmOp::Read32 { addr: FLASH_STATR, value: v });
    assert(realizes(t.subrange(i, j), DmOp::Read32 { addr: FLASH_STATR, value: v }));
}

/// The failure of a flash operation: an access went wrong, or the controller refused.
pub open spec fn flash_failed(n: int, t: Seq<DmiOp>) -> bool {
    faulted_since(n, t) || flash_refused_since(n, t)
}

pub proof fn lemma_flash_failed_kept(n: int, a: Seq<DmiOp>, b: Seq<DmiOp>)
    requires
        0 <= n,
        flash_failed(n, a),
        grows(a, b),
    ensures
        flash_failed(n, b),
{
    if faulted_since(n, a) {
        lemma_faulted_kept(n, a, b);
    } else {
        let (i, j, m) = choose|i: int, j: int, m: DmOp| n <= i <= j <= a.len() && flash_refusal(m)
            && #[trigger] realizes(a.subrange(i, j), m);
        lemma_prefix_window(a, b, i, j);
    }
}

pub proof fn lemma_seen_kept(n: int, a: Seq<DmiOp>, b: Seq<DmiOp>, mask: u32)
    requires
        0 <= n,
        status_seen_since(n, a, mask),
        grows(a, b),
    ensures
        status_seen_since(n, b, mask),
{
    let (i, j, v) = choose|i: int, j: int, v: u32| n <= i <= j <= a.len() && v & mask != 0
        && #[trigger] realizes(a.subrange(i, j), DmOp::Read32 { addr: FLASH_STATR, value: v });
    lemma_prefix_window(a, b, i, j);
}

/// A window of a trace reads the same in any longer trace it grew into.
proof fn lemma_prefix_window(a: Seq<DmiOp>, b: Seq<DmiOp>, i: int, j: int)
    requires
        grows(a, b),
        0 <= i <= j <= a.len(),
    ensures
        b.subrange(i, j) == a.subrange(i, j),
{
    assert forall|k: int| 0 <= k < j - i implies b.subrange(i, j)[k] == a.subrange(i, j)[k] by {
        assert(b.take(a.len() as int)[i + k] == b[i + k]);
    }
    assert(b.subrange(i, j) =~= a.subrange(i, j));
}

/// A controller read just made (between `a` and `b`) that refuses.
pub proof fn lemma_refusing_read(n: int, a: Seq<DmiOp>, b: Seq<DmiOp>, m: DmOp)
    requires
        n <= a.len(),
        grows(a, b),
        realizes(added(a, b), m),
        flash_refusal(m),
    ensures
        flash_failed(n, b),
{
    assert(added(a, b) =~= b.subrange(a.len() as int, b.len() as int));
    assert(realizes(b.subrange(a.len() as int, b.len() as int), m));
}

impl<'a, T: DtmAccess> DebugModule<'a, T> {
    /// Unlock the FLASH controller (LOCK + FLOCK) with the standard key sequence. Idempotent.
    fn flash_unlock(&mut self) -> (r: Result<(), DmiError>)
        ensures
            old(self).trace().len() <= final(self).trace().len(),
            r is Err ==> flash_failed(old(self).trace().len() as int, final(self).trace()),
            r is Ok ==> grows(old(self).trace(), final(self).trace()),
            r is Ok ==> exists|l: Seq<DmOp>| #[trigger] unlock_log(l)
                && realizes_all(added(old(self).trace(), final(self).trace()), l),
    {
        let ghost t0 = self.trace();
        proof { lemma_log_start(t0); }
        let ctlr = self.read_mem32(FLASH_CTLR)?;
        let ghost t1 = self.trace();
        let ghost l = seq![rd32(FLASH_CTLR, ctlr)];
        proof { lemma_log_step(t0, t0, t1, Seq::empty(), l.last()); }
        if ctlr & (FLASH_LOCK | FLASH_FLOCK) == 0 {
            assert(unlock_log(l));
            return Ok(());
        }
        self.write_mem32(FLASH_KEYR, FLASH_KEY1)?;
        let ghost t2 = self.trace();
        proof { lemma_log_step(t0, t1, t2, l, wr32(FLASH_KEYR, FLASH_KEY1)); }
        let ghost l = l.push(wr32(FLASH_KEYR, FLASH_KEY1));
        self.write_mem32(FLASH_KEYR, FLASH_KEY2)?;
        let ghost t3 = self.trace();
        proof { lemma_log_step(t0, t2, t3, l, wr32(FLASH_KEYR, FLASH_KEY2)); }
        let ghost l = l.push(wr32(FLASH_KEYR, FLASH_KEY2));
        self.write_mem32(FLASH_MODEKEYR, FLASH_KEY1)?;
        let ghost t4 = self.trace();
        proof { lemma_log_step(t0, t3, t4, l, wr32(FLASH_MODEKEYR, FLASH_KEY1)); }
        let ghost l = l.push(wr32(FLASH_MODEKEYR, FLASH_KEY1));
        self.write_mem32(FLASH_MODEKEYR, FLASH_KEY2)?;
        proof { lemma_log_step(t0, t4, self.trace(), l, wr32(FLASH_MODEKEYR, FLASH_KEY2)); }
        let ghost l = l.push(wr32(FLASH_MODEKEYR, FLASH_KEY2));
        assert(l =~= seq![
            l[0],
            wr32(FLASH_KEYR, FLASH_KEY1),
            wr32(FLASH_KEYR, FLASH_KEY2),
            wr32(FLASH_MODEKEYR, FLASH_KEY1),
            wr32(FLASH_MODEKEYR, FLASH_KEY2),
        ]);
        assert(unlock_log(l));
        Ok(())
    }

    /// Re-lock the FLASH controller (LOCK + FLOCK).
    fn flash_lock(&mut self) -> (r: Result<(), DmiError>)
        ensures
            old(self).trace().len() <= final(self).trace().len(),
            r is Err ==> flash_failed(old(self).trace().len() as int, final(self).trace()),
            r is Ok ==> grows(old(self).trace(), final(self).trace()),
            r is Ok ==> exists|l: Seq<DmOp>| #[trigger] lock_log(l)
                && realizes_all(added(old(self).trace(), final(self).trace()), l),
    {
        let ghost t0 = self.trace();
        proof { lemma_log_start(t0); }
        let ctlr = self.read_mem32(FLASH_CTLR)?;
        let ghost t1 = self.trace();
        proof { lemma_log_step(t0, t0, t1, Seq::empty(), rd32(FLASH_CTLR, ctlr)); }
        self.write_mem32(FLASH_CTLR, ctlr | FLASH_LOCK | FLASH_FLOCK)?;
        let ghost l = seq![rd32(FLASH_CTLR, ctlr), wr32(FLASH_CTLR, ctlr | FLASH_LOCK | FLASH_FLOCK)];
        proof { lemma_log_step(t0, t1, self.trace(), seq![rd32(FLASH_CTLR, ctlr)], l.last()); }
        assert(lock_log(l));
        Ok(())
    }

    /// Spin until every bit in `mask` reads 0 in the FLASH status register, then return it.
    fn flash_wait(&mut self, mask: u32) -> (r: Result<u32, DmiError>)
        ensures
            old(self).trace().len() <= final(self).trace().len(),
            r is Err ==> faulted_since(old(self).trace().len() as int, final(self).trace())
                || status_seen_since(old(self).trace().len() as int, final(self).trace(), mask),
            r matches Ok(v) ==> status_read_since(old(self).trace().len() as int, final(self).trace(), v),
            r is Ok ==> grows(old(self).trace(), final(self).trace()),
            r matches Ok(v) ==> exists|l: Seq<DmOp>| #[trigger] wait_log(l, mask, v)
                && realizes_all(added(old(self).trace(), final(self).trace()), l),
    {
        let ghost t0 = self.trace();
        proof { lemma_log_start(t0); }
        let ghost mut l: Seq<DmOp> = Seq::empty();
        let mut i: u32 = 0;
        while i < 4000
            invariant
                i <= 4000,
                l.len() == i,
                t0 == old(self).trace(),
                grows(t0, self.trace()),
                realizes_all(added(t0, self.trace()), l),
                forall|j: int| 0 <= j < l.len() ==> (#[trigger] l[j] matches DmOp::Read32 { addr, value: x }
                    && addr == FLASH_STATR && x & mask != 0),
                i > 0 ==> status_seen_since(t0.len() as int, self.trace(), mask),
            decreases 4000 - i,
        {
            let ghost before = self.trace();
            let v = self.read_mem32(FLASH_STATR)?;
            proof {
                lemma_log_step(t0, before, self.trace(), l, rd32(FLASH_STATR, v));
                let after = self.trace();
                assert(added(before, after) =~= after.subrange(before.len() as int, after.len() as int));
                assert(realizes(after.subrange(before.len() as int, after.len() as int), rd32(FLASH_STATR, v)));
                if i > 0 {
                    lemma_seen_kept(t0.len() as int, before, after, mask);
                }
            }
            if v & mask == 0 {
                assert(wait_log(l.push(rd32(FLASH_STATR, v)), mask, v));
                return Ok(v);
            }
            proof { l = l.push(rd32(FLASH_STATR, v)); }
            i = i + 1;
        }
        Err(DmiError::Timeout)
    }

    /// CH32V103-only commit side effect performed after every fast erase / buffer load: read the
    /// word at `(addr & !3) ^ 0x1000` and write it to the undocumented register 0x4002_2034.
    fn flash_v103_commit(&mut self, addr: u32) -> (r: Result<(), DmiError>)
        ensures
            old(self).trace().len() <= final(self).trace().len(),
            r is Err ==> flash_failed(old(self).trace().len() as int, final(self).trace()),
            r is Ok ==> grows(old(self).trace(), final(self).trace()),
            r is Ok ==> exists|l: Seq<DmOp>| #[trigger] commit_log(l, addr)
                && realizes_all(added(old(self).trace(), final(self).trace()), l),
    {
        let ghost t0 = self.trace();
        proof { lemma_log_start(t0); }
        let src = (addr & 0xFFFF_FFFC) ^ 0x0000_1000;
        let v = self.read_mem32(src)?;
        let ghost t1 = self.trace();
        proof { lemma_log_step(t0, t0, t1, Seq::empty(), rd32(src, v)); }
        self.write_mem32(FLASH_MAGIC_V103, v)?;
        let ghost l = seq![rd32(src, v), wr32(FLASH_MAGIC_V103, v)];
        proof { lemma_log_step(t0, t1, self.trace(), seq![rd32(src, v)], l.last()); }
        assert(commit_log(l, addr));
        Ok(())
    }

    /// Fast-page-erase the page at `addr` (page-aligned) with FTER + STRT. On CH32V103 the
    /// mandatory commit side effect follows. The hart must be halted.
    pub fn flash_page_erase(&mut self, addr: u32, mode: FlashProgMode) -> (r: Result<(), DmiError>)
        ensures
            old(self).trace().len() <= final(self).trace().len(),
            r is Err ==> flash_failed(old(self).trace().len() as int, final(self).trace()),
            r is Ok ==> grows(old(self).trace(), final(self).trace()),
            r is Ok ==> exists|u: Seq<DmOp>, s0: u32, c1: u32, c2: u32, wt: Seq<DmOp>, st: u32,
                c3: u32, cm: Seq<DmOp>, lk: Seq<DmOp>| {
                &&& erase_parts_ok(u, s0, wt, st, cm, lk, addr, mode)
                &&& realizes_all(
                    added(old(self).trace(), final(self).trace()),
                    #[trigger] erase_seq(u, s0, c1, c2, wt, st, c3, cm, lk, addr),
                )
            },
    {
        let ghost t0 = self.trace();
        proof { lemma_log_start(t0); }
        self.flash_unlock()?;
        let ghost t1 = self.trace();
        let ghost u = choose|l: Seq<DmOp>| #[trigger] unlock_log(l) && realizes_all(added(t0, t1), l);
        proof { lemma_log_concat(t0, t0, t1, Seq::empty(), u); assert(Seq::<DmOp>::empty() + u =~= u); }
        let s0 = self.read_mem32(FLASH_STATR)?;
        let ghost t2 = self.trace();
        proof { lemma_log_step(t0, t1, t2, u, rd32(FLASH_STATR, s0)); }
        if s0 & FLASH_BUSY != 0 {
            proof { lemma_refusing_read(t0.len() as int, t1, t2, rd32(FLASH_STATR, s0)); }
            return Err(DmiError::OperationFailed("flash busy".to_owned()));
        }
        let ghost l = u.push(rd32(FLASH_STATR, s0));
        let c1 = self.read_mem32(FLASH_CTLR)?;
        let ghost t3 = self.trace();
        proof { lemma_log_step(t0, t2, t3, l, rd32(FLASH_CTLR, c1)); }
        let ghost l = l.push(rd32(FLASH_CTLR, c1));
        self.write_mem32(FLASH_CTLR, c1 | FLASH_FTER)?;
        let ghost t4 = self.trace();
        proof { lemma_log_step(t0, t3, t4, l, wr32(FLASH_CTLR, c1 | FLASH_FTER)); }
        let ghost l = l.push(wr32(FLASH_CTLR, c1 | FLASH_FTER));
        self.write_mem32(FLASH_ADDR, addr)?;
        let ghost t5 = self.trace();
        proof { lemma_log_step(t0, t4, t5, l, wr32(FLASH_ADDR, addr)); }
        let ghost l = l.push(wr32(FLASH_ADDR, addr));
        let c2 = self.read_mem32(FLASH_CTLR)?;
        let ghost t6 = self.trace();
        proof { lemma_log_step(t0, t5, t6, l, rd32(FLASH_CTLR, c2)); }
        let ghost l = l.push(rd32(FLASH_CTLR, c2));
        self.write_mem32(FLASH_CTLR, c2 | FLASH_STRT)?;
        let ghost t7 = self.trace();
        proof { lemma_log_step(t0, t6, t7, l, wr32(FLASH_CTLR, c2 | FLASH_STRT)); }
        let ghost l = l.push(wr32(FLASH_CTLR, c2 | FLASH_STRT));
        let statr = self.flash_wait(FLASH_BUSY)?;
        let ghost t8 = self.trace();
        let ghost wt = choose|w: Seq<DmOp>| #[trigger] wait_log(w, FLASH_BUSY, statr) && realizes_all(added(t7, t8), w);
        proof { lemma_log_concat(t0, t7, t8, l, wt); }
        let ghost l = l + wt;
        let c3 = self.read_mem32(FLASH_CTLR)?;
        let ghost t9 = self.trace();
        proof { lemma_log_step(t0, t8, t9, l, rd32(FLASH_CTLR, c3)); }
        let ghost l = l.push(rd32(FLASH_CTLR, c3));
        self.write_mem32(FLASH_CTLR, c3 & !FLASH_FTER)?;
        let ghost t10 = self.trace();
        proof { lemma_log_step(t0, t9, t10, l, wr32(FLASH_CTLR, c3 & !FLASH_FTER)); }
        let ghost l = l.push(wr32(FLASH_CTLR, c3 & !FLASH_FTER));
        self.write_mem32(FLASH_STATR, statr)?;
        let ghost t11 = self.trace();
        proof { lemma_log_step(t0, t10, t11, l, wr32(FLASH_STATR, statr)); }
        let ghost l = l.push(wr32(FLASH_STATR, statr));
        let ghost mut cm: Seq<DmOp> = Seq::empty();
        if mode == FlashProgMode::V103 {
            self.flash_v103_commit(addr)?;
            proof {
                cm = choose|c: Seq<DmOp>| #[trigger] commit_log(c, addr) && realizes_all(added(t11, self.trace()), c);
                lemma_log_concat(t0, t11, self.trace(), l, cm);
            }
        } else {
            proof { assert(l + cm =~= l); }
        }
        let ghost t12 = self.trace();
        let ghost l = l + cm;
        self.flash_lock()?;
        let ghost lk = choose|k: Seq<DmOp>| #[trigger] lock_log(k) && realizes_all(added(t12, self.trace()), k);
        proof { lemma_log_concat(t0, t12, self.trace(), l, lk); }
        if statr & FLASH_WPRERR != 0 {
            proof {
                lemma_status_refused(t0.len() as int, t7.len() as int, t8, statr);
                assert(grows(t8, t12));
                lemma_flash_failed_kept(t0.len() as int, t8, self.trace());
            }
            return Err(DmiError::OperationFailed("flash write-protected".to_owned()));
        }
        proof {
            assert(l + lk =~= erase_seq(u, s0, c1, c2, wt, statr, c3, cm, lk, addr));
            assert(erase_parts_ok(u, s0, wt, statr, cm, lk, addr, mode));
        }
        Ok(())
    }

    /// Program word `i` of `data` at `addr + 4 * i` in the given mode.
    fn program_word(&mut self, addr: u32, data: &[u8], i: usize, mode: FlashProgMode) -> (r: Result<(), DmiError>)
        requires
            4 * i + 4 <= data@.len(),
            addr + data@.len() <= u32::MAX,
        ensures
            old(self).trace().len() <= final(self).trace().len(),
            r is Err ==> flash_failed(old(self).trace().len() as int, final(self).trace()),
            r is Ok ==> grows(old(self).trace(), final(self).trace()),
            r is Ok ==> exists|p: Seq<DmOp>| #[trigger] word_piece(mode, p, addr, data@, i as int)
                && realizes_all(added(old(self).trace(), final(self).trace()), p),
    {
        let ghost t0 = self.trace();
        proof { lemma_log_start(t0); }
        let a = addr + (i as u32) * 4;
        let j = 4 * i;
        match mode {
            FlashProgMode::V103 => {
                let lo = (data[j] as u16) | ((data[j + 1] as u16) << 8);
                let hi = (data[j + 2] as u16) | ((data[j + 3] as u16) << 8);
                self.write_mem16(a, lo)?;
                let ghost t1 = self.trace();
                proof { lemma_log_step(t0, t0, t1, Seq::empty(), DmOp::Write16 { addr: a, value: lo }); }
                let ghost l = seq![DmOp::Write16 { addr: a, value: lo }];
                let v1 = self.flash_wait(FLASH_BUSY)?;
                let ghost t2 = self.trace();
                let ghost w1 = choose|w: Seq<DmOp>| #[trigger] wait_log(w, FLASH_BUSY, v1) && realizes_all(added(t1, t2), w);
                proof { lemma_log_concat(t0, t1, t2, l, w1); }
                let ghost l = l + w1;
                self.write_mem16(a + 2, hi)?;
                let ghost t3 = self.trace();
                proof { lemma_log_step(t0, t2, t3, l, DmOp::Write16 { addr: (a + 2) as u32, value: hi }); }
                let ghost l = l.push(DmOp::Write16 { addr: (a + 2) as u32, value: hi });
                let v2 = self.flash_wait(FLASH_BUSY)?;
                let ghost w2 = choose|w: Seq<DmOp>| #[trigger] wait_log(w, FLASH_BUSY, v2) && realizes_all(added(t3, self.trace()), w);
                proof {
                    lemma_log_concat(t0, t3, self.trace(), l, w2);
                    assert(lo == data_half(data@, i as int, 0));
                    assert(hi == data_half(data@, i as int, 1));
                    let p = seq![DmOp::Write16 { addr: a, value: lo }] + w1
                        + seq![DmOp::Write16 { addr: (a + 2) as u32, value: hi }] + w2;
                    assert(l + w2 =~= p);
                    assert(word_piece(mode, p, addr, data@, i as int));
                }
            }
            FlashProgMode::PgStart => {
                let w = (data[j] as u32) | ((data[j + 1] as u32) << 8) | ((data[j + 2] as u32) << 16) | ((data[j + 3] as u32) << 24);
                proof {
                    assert(data@.subrange(4 * i, 4 * i + 4) =~= seq![data@[4 * i], data@[4 * i + 1], data@[4 * i + 2], data@[4 * i + 3]]);
                }
                self.write_mem32(a, w)?;
                let ghost t1 = self.trace();
                proof { lemma_log_step(t0, t0, t1, Seq::empty(), wr32(a, w)); }
                let v = self.flash_wait(FLASH_WRBUSY)?;
                let ghost wt = choose|x: Seq<DmOp>| #[trigger] wait_log(x, FLASH_WRBUSY, v) && realizes_all(added(t1, self.trace()), x);
                proof {
                    lemma_log_concat(t0, t1, self.trace(), seq![wr32(a, w)], wt);
                    assert(word_piece(mode, seq![wr32(a, w)] + wt, addr, data@, i as int));
                }
            }
            FlashProgMode::Buffered => {
                let w = (data[j] as u32) | ((data[j + 1] as u32) << 8) | ((data[j + 2] as u32) << 16) | ((data[j + 3] as u32) << 24);
                proof {
                    assert(data@.subrange(4 * i, 4 * i + 4) =~= seq![data@[4 * i], data@[4 * i + 1], data@[4 * i + 2], data@[4 * i + 3]]);
                }
                self.write_mem32(a, w)?;
                let ghost t1 = self.trace();
                proof { lemma_log_step(t0, t0, t1, Seq::empty(), wr32(a, w)); }
                self.write_mem32(FLASH_CTLR, FLASH_FTPG | FLASH_BUFLOAD)?;
                let ghost t2 = self.trace();
                let ghost l = seq![wr32(a, w), wr32(FLASH_CTLR, FLASH_FTPG | FLASH_BUFLOAD)];
                proof { lemma_log_step(t0, t1, t2, seq![wr32(a, w)], l.last()); }
                let v = self.flash_wait(FLASH_BUSY)?;
                let ghost wt = choose|x: Seq<DmOp>| #[trigger] wait_log(x, FLASH_BUSY, v) && realizes_all(added(t2, self.trace()), x);
                proof {
                    lemma_log_concat(t0, t2, self.trace(), l, wt);
                    assert(word_piece(mode, l + wt, addr, data@, i as int));
                }
            }
        }
        Ok(())
    }

    /// Program every word of `data` in order.
    fn program_words(&mut self, addr: u32, data: &[u8], mode: FlashProgMode) -> (r: Result<(), DmiError>)
        requires
            data@.len() % 4 == 0,
            addr + data@.len() <= u32::MAX,
        ensures
            old(self).trace().len() <= final(self).trace().len(),
            r is Err ==> flash_failed(old(self).trace().len() as int, final(self).trace()),
            r is Ok ==> grows(old(self).trace(), final(self).trace()),
            r is Ok ==> exists|pieces: Seq<Seq<DmOp>>| #[trigger] words_ok(mode, pieces, addr, data@)
                && realizes_all(added(old(self).trace(), final(self).trace()), pieces.flatten()),
    {
        let ghost t0 = self.trace();
        proof { lemma_log_start(t0); }
        let ghost mut pieces: Seq<Seq<DmOp>> = Seq::empty();
        let n = data.len() / 4;
        let mut i: usize = 0;
        while i < n
            invariant
                n == data@.len() / 4,
                data@.len() % 4 == 0,
                addr + data@.len() <= u32::MAX,
                i <= n,
                pieces.len() == i,
                t0 == old(self).trace(),
                grows(t0, self.trace()),
                realizes_all(added(t0, self.trace()), pieces.flatten()),
                forall|k: int| 0 <= k < i ==> #[trigger] word_piece(mode, pieces[k], addr, data@, k),
            decreases n - i,
        {
            let ghost before = self.trace();
            self.program_word(addr, data, i, mode)?;
            proof {
                let p = choose|p: Seq<DmOp>| #[trigger] word_piece(mode, p, addr, data@, i as int)
                    && realizes_all(added(before, self.trace()), p);
                lemma_log_concat(t0, before, self.trace(), pieces.flatten(), p);
                pieces.lemma_flatten_push(p);
                let old_pieces = pieces;
                pieces = pieces.push(p);
                assert forall|k: int| 0 <= k < i + 1 implies #[trigger] word_piece(mode, pieces[k], addr, data@, k) by {
                    if k < i {
                        assert(pieces[k] == old_pieces[k]);
                    }
                }
            }
            i = i + 1;
        }
        assert(words_ok(mode, pieces, addr, data@));
        Ok(())
    }

    /// The CH32V103 page program after the status check.
    fn program_v103(&mut self, addr: u32, data: &[u8]) -> (r: Result<(), DmiError>)
        requires
            data@.len() % 4 == 0,
            addr + data@.len() <= u32::MAX,
        ensures
            old(self).trace().len() <= final(self).trace().len(),
            r is Err ==> flash_failed(old(self).trace().len() as int, final(self).trace()),
            r is Ok ==> grows(old(self).trace(), final(self).trace()),
            r is Ok ==> exists|c: u32, pieces: Seq<Seq<DmOp>>, c2: u32, cm: Seq<DmOp>, lk: Seq<DmOp>| {
                &&& tail_ok(FlashProgMode::V103, addr, data@, Seq::empty(), pieces, Seq::empty(), 0, cm, lk)
                &&& realizes_all(
                    added(old(self).trace(), final(self).trace()),
                    #[trigger] v103_tail(c, pieces.flatten(), c2, cm, lk),
                )
            },
    {
        let ghost t0 = self.trace();
        proof { lemma_log_start(t0); }
        let c = self.read_mem32(FLASH_CTLR)?;
        let ghost t1 = self.trace();
        proof { lemma_log_step(t0, t0, t1, Seq::empty(), rd32(FLASH_CTLR, c)); }
        let ghost l = seq![rd32(FLASH_CTLR, c)];
        self.write_mem32(FLASH_CTLR, c | FLASH_PG)?;
        let ghost t2 = self.trace();
        proof { lemma_log_step(t0, t1, t2, l, wr32(FLASH_CTLR, c | FLASH_PG)); }
        let ghost l = l.push(wr32(FLASH_CTLR, c | FLASH_PG));
        self.program_words(addr, data, FlashProgMode::V103)?;
        let ghost t3 = self.trace();
        let ghost pieces = choose|ps: Seq<Seq<DmOp>>| #[trigger] words_ok(FlashProgMode::V103, ps, addr, data@)
            && realizes_all(added(t2, t3), ps.flatten());
        proof { lemma_log_concat(t0, t2, t3, l, pieces.flatten()); }
        let ghost l = l + pieces.flatten();
        let c2 = self.read_mem32(FLASH_CTLR)?;
        let ghost t4 = self.trace();
        proof { lemma_log_step(t0, t3, t4, l, rd32(FLASH_CTLR, c2)); }
        let ghost l = l.push(rd32(FLASH_CTLR, c2));
        self.write_mem32(FLASH_CTLR, c2 & !FLASH_PG)?;
        let ghost t5 = self.trace();
        proof { lemma_log_step(t0, t4, t5, l, wr32(FLASH_CTLR, c2 & !FLASH_PG)); }
        let ghost l = l.push(wr32(FLASH_CTLR, c2 & !FLASH_PG));
        self.flash_v103_commit(addr)?;
        let ghost t6 = self.trace();
        let ghost cm = choose|x: Seq<DmOp>| #[trigger] commit_log(x, addr) && realizes_all(added(t5, t6), x);
        proof { lemma_log_concat(t0, t5, t6, l, cm); }
        let ghost l = l + cm;
        self.flash_lock()?;
        let ghost lk = choose|k: Seq<DmOp>| #[trigger] lock_log(k) && realizes_all(added(t6, self.trace()), k);
        proof {
            lemma_log_concat(t0, t6, self.trace(), l, lk);
            assert(l + lk =~= v103_tail(c, pieces.flatten(), c2, cm, lk));
            assert(tail_ok(FlashProgMode::V103, addr, data@, Seq::empty(), pieces, Seq::empty(), 0, cm, lk));
        }
        Ok(())
    }

    /// The PgStart / Buffered page program after the status check.
    fn program_fast(&mut self, addr: u32, data: &[u8], mode: FlashProgMode) -> (r: Result<(), DmiError>)
        requires
            mode != FlashProgMode::V103,
            data@.len() % 4 == 0,
            addr + data@.len() <= u32::MAX,
        ensures
            old(self).trace().len() <= final(self).trace().len(),
            r is Err ==> flash_failed(old(self).trace().len() as int, final(self).trace()),
            r is Ok ==> grows(old(self).trace(), final(self).trace()),
            r is Ok ==> exists|wb: Seq<DmOp>, pieces: Seq<Seq<DmOp>>, wt: Seq<DmOp>, st: u32, lk: Seq<DmOp>| {
                &&& tail_ok(mode, addr, data@, wb, pieces, wt, st, Seq::empty(), lk)
                &&& realizes_all(
                    added(old(self).trace(), final(self).trace()),
                    #[trigger] fast_tail(mode, addr, wb, pieces.flatten(), wt, st, lk),
                )
            },
    {
        let ghost t0 = self.trace();
        proof { lemma_log_start(t0); }
        self.write_mem32(FLASH_CTLR, FLASH_FTPG)?;
        let ghost t1 = self.trace();
        proof { lemma_log_step(t0, t0, t1, Seq::empty(), wr32(FLASH_CTLR, FLASH_FTPG)); }
        let ghost mut l = seq![wr32(FLASH_CTLR, FLASH_FTPG)];
        let ghost mut wb: Seq<DmOp> = Seq::empty();
        if mode == FlashProgMode::Buffered {
            self.write_mem32(FLASH_CTLR, FLASH_FTPG | FLASH_BUFRST)?;
            let ghost t2 = self.trace();
            proof {
                lemma_log_step(t0, t1, t2, l, wr32(FLASH_CTLR, FLASH_FTPG | FLASH_BUFRST));
                l = l.push(wr32(FLASH_CTLR, FLASH_FTPG | FLASH_BUFRST));
            }
            let v = self.flash_wait(FLASH_BUSY)?;
            proof {
                wb = choose|w: Seq<DmOp>| #[trigger] wait_log(w, FLASH_BUSY, v) && realizes_all(added(t2, self.trace()), w);
                lemma_log_concat(t0, t2, self.trace(), l, wb);
                l = l + wb;
            }
        }
        let ghost t3 = self.trace();
        self.program_words(addr, data, mode)?;
        let ghost t4 = self.trace();
        let ghost pieces = choose|ps: Seq<Seq<DmOp>>| #[trigger] words_ok(mode, ps, addr, data@)
            && realizes_all(added(t3, t4), ps.flatten());
        proof {
            lemma_log_concat(t0, t3, t4, l, pieces.flatten());
            l = l + pieces.flatten();
        }
        if mode == FlashProgMode::PgStart {
            self.write_mem32(FLASH_CTLR, FLASH_FTPG | FLASH_PGSTART)?;
            proof {
                lemma_log_step(t0, t4, self.trace(), l, wr32(FLASH_CTLR, FLASH_FTPG | FLASH_PGSTART));
                l = l.push(wr32(FLASH_CTLR, FLASH_FTPG | FLASH_PGSTART));
            }
        } else {
            self.write_mem32(FLASH_ADDR, addr)?;
            let ghost t5 = self.trace();
            proof {
                lemma_log_step(t0, t4, t5, l, wr32(FLASH_ADDR, addr));
                l = l.push(wr32(FLASH_ADDR, addr));
            }
            self.write_mem32(FLASH_CTLR, FLASH_FTPG | FLASH_STRT)?;
            proof {
                lemma_log_step(t0, t5, self.trace(), l, wr32(FLASH_CTLR, FLASH_FTPG | FLASH_STRT));
                l = l.push(wr32(FLASH_CTLR, FLASH_FTPG | FLASH_STRT));
            }
        }
        let ghost t6 = self.trace();
        let ghost start = l;
        let statr = self.flash_wait(FLASH_BUSY)?;
        let ghost t7 = self.trace();
        let ghost wt = choose|w: Seq<DmOp>| #[trigger] wait_log(w, FLASH_BUSY, statr) && realizes_all(added(t6, t7), w);
        proof { lemma_log_concat(t0, t6, t7, l, wt); }
        let ghost l = l + wt;
        self.write_mem32(FLASH_CTLR, 0)?;
        let ghost t8 = self.trace();
        proof { lemma_log_step(t0, t7, t8, l, wr32(FLASH_CTLR, 0)); }
        let ghost l = l.push(wr32(FLASH_CTLR, 0));
        self.write_mem32(FLASH_STATR, statr)?;
        let ghost t9 = self.trace();
        proof { lemma_log_step(t0, t8, t9, l, wr32(FLASH_STATR, statr)); }
        let ghost l = l.push(wr32(FLASH_STATR, statr));
        self.flash_lock()?;
        let ghost lk = choose|k: Seq<DmOp>| #[trigger] lock_log(k) && realizes_all(added(t9, self.trace()), k);
        proof { lemma_log_concat(t0, t9, self.trace(), l, lk); }
        if statr & FLASH_WPRERR != 0 {
            proof {
                lemma_status_refused(t0.len() as int, t6.len() as int, t7, statr);
                assert(grows(t7, t9));
                lemma_flash_failed_kept(t0.len() as int, t7, self.trace());
            }
            return Err(DmiError::OperationFailed("flash write-protected".to_owned()));
        }
        proof {
            assert(l + lk =~= fast_tail(mode, addr, wb, pieces.flatten(), wt, statr, lk));
            assert(tail_ok(mode, addr, data@, wb, pieces, wt, statr, Seq::empty(), lk));
        }
        Ok(())
    }

    /// Program `data` (a whole number of words, page-aligned, page-sized, already erased) at
    /// `addr` in the given mode. PgStart (V20x/V30x): load each word, then PGSTART. Buffered
    /// (V003/X035/L103): reset the page buffer, then per word a write and BUFLOAD, then STRT.
    /// V103 (CH32V103): 16-bit halfword stores under PG, then the commit. The hart must be halted.
    pub fn flash_program_page(&mut self, addr: u32, data: &[u8], mode: FlashProgMode) -> (r: Result<(), DmiError>)
        requires
            data@.len() % 4 == 0 ==> addr + data@.len() <= u32::MAX,
        ensures
            data@.len() % 4 != 0 ==> final(self).trace() == old(self).trace() && (r matches Err(
                DmiError::OperationFailed(m),
            ) && m@ == "page data length must be a multiple of 4"@),
            old(self).trace().len() <= final(self).trace().len(),
            r is Err ==> data@.len() % 4 != 0 || flash_failed(old(self).trace().len() as int, final(self).trace()),
            r is Err ==> data@.len() % 4 != 0
                || (r matches Err(DmiError::OperationFailed(m)) && m@ == "flash busy"@
                    && exists|u: Seq<DmOp>, s0: u32| #[trigger] busy_stop(added(old(self).trace(), final(self).trace()), u, s0))
                || flash_failed(old(self).trace().len() as int, final(self).trace()),
            r is Ok ==> grows(old(self).trace(), final(self).trace()),
            r is Ok ==> exists|u: Seq<DmOp>, s0: u32, c: u32, wb: Seq<DmOp>, pieces: Seq<Seq<DmOp>>,
                c2: u32, wt: Seq<DmOp>, st: u32, cm: Seq<DmOp>, lk: Seq<DmOp>| {
                &&& program_parts_ok(mode, addr, data@, u, s0, wb, pieces, wt, st, cm, lk)
                &&& realizes_all(
                    added(old(self).trace(), final(self).trace()),
                    #[trigger] program_seq(mode, addr, u, s0, c, wb, pieces.flatten(), c2, wt, st, cm, lk),
                )
            },
    {
        if data.len() % 4 != 0 {
            return Err(DmiError::OperationFailed("page data length must be a multiple of 4".to_owned()));
        }
        let ghost t0 = self.trace();
        proof { lemma_log_start(t0); }
        self.flash_unlock()?;
        let ghost t1 = self.trace();
        let ghost u = choose|l: Seq<DmOp>| #[trigger] unlock_log(l) && realizes_all(added(t0, t1), l);
        proof { lemma_log_concat(t0, t0, t1, Seq::empty(), u); assert(Seq::<DmOp>::empty() + u =~= u); }
        let s0 = self.read_mem32(FLASH_STATR)?;
        let ghost t2 = self.trace();
        proof { lemma_log_step(t0, t1, t2, u, rd32(FLASH_STATR, s0)); }
        if s0 & FLASH_BUSY != 0 {
            proof { lemma_refusing_read(t0.len() as int, t1, t2, rd32(FLASH_STATR, s0)); }
            proof { assert(busy_stop(added(t0, t2), u, s0)); }
            return Err(DmiError::OperationFailed("flash busy".to_owned()));
        }
        let ghost l = u.push(rd32(FLASH_STATR, s0));
        if mode == FlashProgMode::V103 {
            self.program_v103(addr, data)?;
            proof {
                let (c, pieces, c2, cm, lk) = choose|c: u32, pieces: Seq<Seq<DmOp>>, c2: u32, cm: Seq<DmOp>, lk: Seq<DmOp>|
                    tail_ok(FlashProgMode::V103, addr, data@, Seq::empty(), pieces, Seq::empty(), 0, cm, lk)
                    && realizes_all(added(t2, self.trace()), #[trigger] v103_tail(c, pieces.flatten(), c2, cm, lk));
                lemma_log_concat(t0, t2, self.trace(), l, v103_tail(c, pieces.flatten(), c2, cm, lk));
                let ps = program_seq(mode, addr, u, s0, c, Seq::empty(), pieces.flatten(), c2, Seq::empty(), 0, cm, lk);
                assert(l + v103_tail(c, pieces.flatten(), c2, cm, lk) =~= ps);
                assert(program_parts_ok(mode, addr, data@, u, s0, Seq::empty(), pieces, Seq::empty(), 0, cm, lk));
            }
        } else {
            self.program_fast(addr, data, mode)?;
            proof {
                let (wb, pieces, wt, st, lk) = choose|wb: Seq<DmOp>, pieces: Seq<Seq<DmOp>>, wt: Seq<DmOp>, st: u32, lk: Seq<DmOp>|
                    tail_ok(mode, addr, data@, wb, pieces, wt, st, Seq::empty(), lk)
                    && realizes_all(added(t2, self.trace()), #[trigger] fast_tail(mode, addr, wb, pieces.flatten(), wt, st, lk));
                lemma_log_concat(t0, t2, self.trace(), l, fast_tail(mode, addr, wb, pieces.flatten(), wt, st, lk));
                let ps = program_seq(mode, addr, u, s0, 0, wb, pieces.flatten(), 0, wt, st, Seq::empty(), lk);
                assert(l + fast_tail(mode, addr, wb, pieces.flatten(), wt, st, lk) =~= ps);
                assert(program_parts_ok(mode, addr, data@, u, s0, wb, pieces, wt, st, Seq::empty(), lk));
            }
        }
        Ok(())
    }

    /// Rewrite the 16 option bytes at `OB_BASE` (8 halfwords of value + complement), each
    /// halfword verbatim from `bytes`, so the caller owns the complements. Unlocks main flash,
    /// option writes and fast mode, erases the option block, then programs RDPR first. The hart
    /// must be halted.
    pub fn flash_program_option_bytes(&mut self, bytes: &[u8; 16]) -> (r: Result<(), DmiError>)
        ensures
            old(self).trace().len() <= final(self).trace().len(),
            r is Err ==> flash_failed(old(self).trace().len() as int, final(self).trace()),
            r is Ok ==> grows(old(self).trace(), final(self).trace()),
            r is Ok ==> option_program_log(added(old(self).trace(), final(self).trace()), bytes@),
    {
        let ghost t0 = self.trace();
        proof { lemma_log_start(t0); }
        let ghost mut l: Seq<DmOp> = Seq::empty();
        self.write_mem32(FLASH_KEYR, FLASH_KEY1)?;
        proof { lemma_log_step(t0, t0, self.trace(), l, wr32(FLASH_KEYR, FLASH_KEY1)); l = l.push(wr32(FLASH_KEYR, FLASH_KEY1)); }
        let ghost t = self.trace();
        self.write_mem32(FLASH_KEYR, FLASH_KEY2)?;
        proof { lemma_log_step(t0, t, self.trace(), l, wr32(FLASH_KEYR, FLASH_KEY2)); l = l.push(wr32(FLASH_KEYR, FLASH_KEY2)); }
        let ghost t = self.trace();
        self.write_mem32(FLASH_OBKEYR, FLASH_KEY1)?;
        proof { lemma_log_step(t0, t, self.trace(), l, wr32(FLASH_OBKEYR, FLASH_KEY1)); l = l.push(wr32(FLASH_OBKEYR, FLASH_KEY1)); }
        let ghost t = self.trace();
        self.write_mem32(FLASH_OBKEYR, FLASH_KEY2)?;
        proof { lemma_log_step(t0, t, self.trace(), l, wr32(FLASH_OBKEYR, FLASH_KEY2)); l = l.push(wr32(FLASH_OBKEYR, FLASH_KEY2)); }
        let ghost t = self.trace();
        self.write_mem32(FLASH_MODEKEYR, FLASH_KEY1)?;
        proof { lemma_log_step(t0, t, self.trace(), l, wr32(FLASH_MODEKEYR, FLASH_KEY1)); l = l.push(wr32(FLASH_MODEKEYR, FLASH_KEY1)); }
        let ghost t = self.trace();
        self.write_mem32(FLASH_MODEKEYR, FLASH_KEY2)?;
        proof { lemma_log_step(t0, t, self.trace(), l, wr32(FLASH_MODEKEYR, FLASH_KEY2)); l = l.push(wr32(FLASH_MODEKEYR, FLASH_KEY2)); }
        let ghost t = self.trace();
        let c = self.read_mem32(FLASH_CTLR)?;
        proof { lemma_log_step(t0, t, self.trace(), l, rd32(FLASH_CTLR, c)); l = l.push(rd32(FLASH_CTLR, c)); }
        if c & FLASH_OPTWRE == 0 {
            proof { lemma_refusing_read(t0.len() as int, t, self.trace(), rd32(FLASH_CTLR, c)); }
            return Err(DmiError::OperationFailed("option-byte unlock failed (OPTWRE not set)".to_owned()));
        }
        let ghost t = self.trace();
        self.write_mem32(FLASH_CTLR, FLASH_OPTER | FLASH_OPTWRE)?;
        proof {
            lemma_log_step(t0, t, self.trace(), l, wr32(FLASH_CTLR, FLASH_OPTER | FLASH_OPTWRE));
            l = l.push(wr32(FLASH_CTLR, FLASH_OPTER | FLASH_OPTWRE));
        }
        let ghost t = self.trace();
        self.write_mem32(FLASH_CTLR, FLASH_OPTER | FLASH_OPTWRE | FLASH_STRT)?;
        proof {
            lemma_log_step(t0, t, self.trace(), l, wr32(FLASH_CTLR, FLASH_OPTER | FLASH_OPTWRE | FLASH_STRT));
            l = l.push(wr32(FLASH_CTLR, FLASH_OPTER | FLASH_OPTWRE | FLASH_STRT));
        }
        let ghost t = self.trace();
        let se = self.flash_wait(FLASH_BUSY)?;
        let ghost we = choose|w: Seq<DmOp>| #[trigger] wait_log(w, FLASH_BUSY, se) && realizes_all(added(t, self.trace()), w);
        proof { lemma_log_concat(t0, t, self.trace(), l, we); l = l + we; }
        if se & FLASH_WPRERR != 0 {
            let ghost ts = self.trace();
            proof { lemma_status_refused(t0.len() as int, t.len() as int, ts, se); }
            self.write_mem32(FLASH_CTLR, 0)?;
            proof { lemma_flash_failed_kept(t0.len() as int, ts, self.trace()); }
            return Err(DmiError::OperationFailed("option-byte erase: write-protect error".to_owned()));
        }
        let ghost head = l;
        let ghost t1 = self.trace();
        let ghost mut hw: Seq<Seq<DmOp>> = Seq::empty();
        proof { lemma_log_start(t1); assert(hw.flatten() =~= Seq::<DmOp>::empty()); }
        let mut i: u32 = 0;
        while i < 8
            invariant
                i <= 8,
                hw.len() == i,
                t0 == old(self).trace(),
                grows(t0, t1),
                realizes_all(added(t0, t1), head),
                grows(t1, self.trace()),
                realizes_all(added(t1, self.trace()), hw.flatten()),
                forall|k: int| 0 <= k < i ==> #[trigger] option_piece(hw[k], bytes@, k),
            decreases 8 - i,
        {
            let ghost b = self.trace();
            proof { lemma_log_start(b); }
            self.write_mem32(FLASH_CTLR, FLASH_OPTPG | FLASH_OPTWRE)?;
            let ghost b1 = self.trace();
            proof { lemma_log_step(b, b, b1, Seq::empty(), wr32(FLASH_CTLR, FLASH_OPTPG | FLASH_OPTWRE)); }
            let ghost p = seq![wr32(FLASH_CTLR, FLASH_OPTPG | FLASH_OPTWRE)];
            self.write_mem32(FLASH_CTLR, FLASH_OPTPG | FLASH_OPTWRE | FLASH_STRT)?;
            let ghost b2 = self.trace();
            proof { lemma_log_step(b, b1, b2, p, wr32(FLASH_CTLR, FLASH_OPTPG | FLASH_OPTWRE | FLASH_STRT)); }
            let ghost p = p.push(wr32(FLASH_CTLR, FLASH_OPTPG | FLASH_OPTWRE | FLASH_STRT));
            let lo = bytes[(i * 2) as usize];
            let hi = bytes[(i * 2 + 1) as usize];
            let half = (lo as u16) | ((hi as u16) << 8);
            self.write_mem16(OB_BASE + i * 2, half)?;
            let ghost b3 = self.trace();
            proof { lemma_log_step(b, b2, b3, p, DmOp::Write16 { addr: (OB_BASE + i * 2) as u32, value: half }); }
            let ghost p = p.push(DmOp::Write16 { addr: (OB_BASE + i * 2) as u32, value: half });
            let st = self.flash_wait(FLASH_BUSY)?;
            let ghost w = choose|w: Seq<DmOp>| #[trigger] wait_log(w, FLASH_BUSY, st) && realizes_all(added(b3, self.trace()), w);
            proof { lemma_log_concat(b, b3, self.trace(), p, w); }
            if st & FLASH_WPRERR != 0 {
                let ghost ts = self.trace();
                proof { lemma_status_refused(t0.len() as int, b3.len() as int, ts, st); }
                self.write_mem32(FLASH_CTLR, 0)?;
                proof { lemma_flash_failed_kept(t0.len() as int, ts, self.trace()); }
                return Err(DmiError::OperationFailed(crate::text::with_number(
                    "option-byte program: write-protect error at halfword ", i as u64)));
            }
            proof {
                assert(half == option_half(bytes@, i as int));
                assert(p =~= seq![
                    wr32(FLASH_CTLR, FLASH_OPTPG | FLASH_OPTWRE),
                    wr32(FLASH_CTLR, FLASH_OPTPG | FLASH_OPTWRE | FLASH_STRT),
                    DmOp::Write16 { addr: (OB_BASE + 2 * i) as u32, value: option_half(bytes@, i as int) },
                ]);
                assert(option_piece(p + w, bytes@, i as int));
                lemma_log_concat(t1, b, self.trace(), hw.flatten(), p + w);
                hw.lemma_flatten_push(p + w);
                let old_hw = hw;
                hw = hw.push(p + w);
                assert forall|k: int| 0 <= k < i + 1 implies #[trigger] option_piece(hw[k], bytes@, k) by {
                    if k < i { assert(hw[k] == old_hw[k]); }
                }
            }
            i = i + 1;
        }
        let ghost t2 = self.trace();
        self.write_mem32(FLASH_CTLR, 0)?;
        proof {
            lemma_log_concat(t0, t1, t2, head, hw.flatten());
            lemma_log_step(t0, t2, self.trace(), head + hw.flatten(), wr32(FLASH_CTLR, 0));
            assert((head + hw.flatten()).push(wr32(FLASH_CTLR, 0)) =~= option_seq(c, we, hw.flatten()));
            assert(option_parts_ok(c, we, se, hw, bytes@));
        }
        Ok(())
    }
}

} // verus!
