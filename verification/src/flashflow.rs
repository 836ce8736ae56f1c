//! The Debug-Module side of `flash`: which erase the policy comes to and when it is refused,
//! the read-back that decides `--preverify` (skip when the target already holds the image) and
//! the verify after programming (the first address that differs), and the page capture of
//! `--restore-unwritten` (each covered page read before the erase, the image laid over it).

use vstd::prelude::*;

use crate::blocks::overlay;
use crate::dm::{halt_attempt, read_value, status_halted, DebugModule};
use crate::dmi::{added, faulted_since, flat, grows, group_grows, lemma_grows_split, DmiError, DmiOp, DtmAccess};
use crate::erase::{erase_scope, overlay_page, resolve_erase};
use crate::flashcfg::FlashCtrlProfile;
use crate::image::{seg_end, Segment};
use crate::optprog::halt_refused;
use crate::policy::EraseMode;
use crate::semiserve::bytes_read;

verus! {

broadcast use group_grows;

/// Why `flash` refuses its erase policy.
#[derive(Debug, Clone, Copy, PartialEq, Eq, Structural)]
pub enum FlashRefusal {
    /// `--restore-unwritten` rewrites whole pages and needs the page (sector) erase; the policy
    /// came to this scope instead.
    RestoreNeedsSector(EraseMode),
    /// Sector erase needs a FLASH-controller profile, and the family has none.
    SectorUnsupported,
    /// `--restore-unwritten` needs erased cells to read back as 0xff.
    RestoreNeedsErasedFf,
}

/// The refusal of an erase scope `m`, if any.
pub open spec fn erase_refusal(m: EraseMode, restore: bool, profile: Option<FlashCtrlProfile>) -> Option<FlashRefusal> {
    if restore && m != EraseMode::Sector {
        Some(FlashRefusal::RestoreNeedsSector(m))
    } else if m == EraseMode::Sector && profile is None {
        Some(FlashRefusal::SectorUnsupported)
    } else if m == EraseMode::Sector && restore && !profile->0.erased_reads_ff {
        Some(FlashRefusal::RestoreNeedsErasedFf)
    } else {
        None
    }
}

/// Resolve the erase policy for an image based at `base_addr` and check it can be carried out:
/// `auto` becomes a chip erase for a full image loaded from the flash base and a sector erase
/// otherwise; restore-unwritten needs sector erase and erased cells reading 0xff; sector erase
/// needs the family's FLASH-controller profile.
pub fn erase_policy(
    requested: EraseMode,
    base_addr: Option<u32>,
    code_flash_start: u32,
    restore_unwritten: bool,
    profile: Option<FlashCtrlProfile>,
) -> (r: Result<EraseMode, FlashRefusal>)
    ensures
        ({
            let m = erase_scope(requested, base_addr, code_flash_start, restore_unwritten);
            match erase_refusal(m, restore_unwritten, profile) {
                Some(f) => r == Err::<EraseMode, FlashRefusal>(f),
                None => r == Ok::<EraseMode, FlashRefusal>(m),
            }
        }),
{
    let m = resolve_erase(requested, base_addr, code_flash_start, restore_unwritten);
    if restore_unwritten && m != EraseMode::Sector {
        return Err(FlashRefusal::RestoreNeedsSector(m));
    }
    if m == EraseMode::Sector {
        match profile {
            None => return Err(FlashRefusal::SectorUnsupported),
            Some(p) => {
                if restore_unwritten && !p.erased_reads_ff {
                    return Err(FlashRefusal::RestoreNeedsErasedFf);
                }
            },
        }
    }
    Ok(m)
}

/// The first position where `a` and `b` differ.
pub open spec fn first_diff(a: Seq<u8>, b: Seq<u8>) -> int {
    choose|i: int| 0 <= i < a.len() && a[i] != b[i] && forall|j: int| 0 <= j < i ==> a[j] == b[j]
}

/// The first index where two byte strings of one length differ, if they do.
fn find_diff(a: &[u8], b: &[u8]) -> (r: Option<usize>)
    requires
        a@.len() == b@.len(),
    ensures
        r is None <==> a@ == b@,
        r matches Some(i) ==> i == first_diff(a@, b@) && i < a@.len(),
{
    let mut i: usize = 0;
    while i < a.len()
        invariant
            i <= a@.len() == b@.len(),
            forall|j: int| 0 <= j < i ==> a@[j] == b@[j],
        decreases a@.len() - i,
    {
        if a[i] != b[i] {
            proof {
                let k = i as int;
                assert(0 <= k < a@.len() && a@[k] != b@[k] && forall|j: int| 0 <= j < k ==> a@[j] == b@[j]);
                let c = first_diff(a@, b@);
                if c < k {
                    assert(a@[c] == b@[c]);
                } else if c > k {
                    assert(a@[k] == b@[k]);
                }
            }
            return Some(i);
        }
        i = i + 1;
    }
    assert(a@ =~= b@);
    None
}

proof fn lemma_added_concat(a: Seq<DmiOp>, b: Seq<DmiOp>, c: Seq<DmiOp>)
    requires
        grows(a, b),
        grows(b, c),
    ensures
        grows(a, c),
        added(a, c) == added(a, b) + added(b, c),
{
    lemma_grows_split(a, b);
    lemma_grows_split(b, c);
    assert(c =~= a + (added(a, b) + added(b, c)));
    assert(added(a, c) =~= added(a, b) + added(b, c));
}

/// `ops` read back the segments in order, one run of accesses each, and found `rbs`.
pub open spec fn segs_readback(ops: Seq<DmiOp>, segs: Seq<Segment>, rbs: Seq<Seq<u8>>) -> bool {
    exists|ws: Seq<Seq<DmiOp>>| {
        &&& ws.len() == rbs.len()
        &&& rbs.len() <= segs.len()
        &&& ops == #[trigger] flat(ws)
        &&& forall|k: int| 0 <= k < ws.len() ==> bytes_read(#[trigger] ws[k], segs[k].addr,
            segs[k].data@.len() as u32, rbs[k])
    }
}

/// What comparing the read-back with the segments found: `None` when every segment read back
/// as its data; else the address of the first differing byte in the first segment that differs,
/// where the reads stopped.
pub open spec fn readback_result(segs: Seq<Segment>, rbs: Seq<Seq<u8>>, m: Option<u32>) -> bool {
    &&& forall|k: int| 0 <= k < rbs.len() - 1 ==> #[trigger] rbs[k] == segs[k].data@
    &&& match m {
        None => rbs.len() == segs.len() && forall|k: int| 0 <= k < rbs.len() ==> #[trigger] rbs[k] == segs[k].data@,
        Some(a) => {
            let k = rbs.len() - 1;
            &&& rbs.len() > 0
            &&& rbs[k] != segs[k].data@
            &&& a == segs[k].addr + first_diff(rbs[k], segs[k].data@)
        },
    }
}

/// Why a read-back stopped.
#[derive(Debug)]
pub enum ReadbackError {
    /// The hart could not be halted for the read-back.
    Halt(DmiError),
    /// A read failed; the segment's address.
    Read(u32, DmiError),
}

/// Halt the hart and read each segment back, in order, stopping at the first that differs.
/// `Ok(None)`: the target holds the image (`--preverify` skips erase and program); `Ok(Some(a))`:
/// the first byte that differs is at `a` (the verify mismatch).
pub fn readback_check<T: DtmAccess>(dm: &mut DebugModule<'_, T>, segs: &[Segment])
    -> (r: Result<Option<u32>, ReadbackError>)
    requires
        forall|k: int| 0 <= k < segs@.len() ==> seg_end(#[trigger] segs@[k]) <= u32::MAX,
    ensures
        old(dm).trace().len() <= final(dm).trace().len(),
        r matches Err(ReadbackError::Halt(_)) ==> faulted_since(old(dm).trace().len() as int, final(dm).trace())
            || halt_refused(added(old(dm).trace(), final(dm).trace())),
        r matches Err(ReadbackError::Read(a, _)) ==> faulted_since(old(dm).trace().len() as int, final(dm).trace())
            || exists|k: int| 0 <= k < segs@.len() && #[trigger] segs@[k].addr == a
                && seg_end(segs@[k]) > 0xFFFF_FFFC,
        r matches Ok(m) ==> exists|t1: Seq<DmiOp>, rbs: Seq<Seq<u8>>| {
            &&& grows(old(dm).trace(), t1)
            &&& grows(t1, final(dm).trace())
            &&& halt_attempt(added(old(dm).trace(), t1))
            &&& status_halted(read_value(added(old(dm).trace(), t1).last()))
            &&& #[trigger] segs_readback(added(t1, final(dm).trace()), segs@, rbs)
            &&& readback_result(segs@, rbs, m)
        },
{
    let ghost t0 = dm.trace();
    match dm.halt() {
        Ok(()) => {},
        Err(e) => return Err(ReadbackError::Halt(e)),
    }
    let ghost t1 = dm.trace();
    let ghost mut ws: Seq<Seq<DmiOp>> = Seq::empty();
    let ghost mut rbs: Seq<Seq<u8>> = Seq::empty();
    proof {
        assert(added(t1, t1) =~= flat(ws));
    }
    let mut k: usize = 0;
    while k < segs.len()
        invariant
            k <= segs@.len(),
            t0 == old(dm).trace(),
            grows(t0, t1),
            grows(t1, dm.trace()),
            halt_attempt(added(t0, t1)),
            status_halted(read_value(added(t0, t1).last())),
            ws.len() == k,
            rbs.len() == k,
            added(t1, dm.trace()) == flat(ws),
            forall|j: int| 0 <= j < k ==> bytes_read(#[trigger] ws[j], segs@[j].addr, segs@[j].data@.len() as u32, rbs[j]),
            forall|j: int| 0 <= j < k ==> #[trigger] rbs[j] == segs@[j].data@,
            forall|j: int| 0 <= j < segs@.len() ==> seg_end(#[trigger] segs@[j]) <= u32::MAX,
        decreases segs@.len() - k,
    {
        let seg = &segs[k];
        let ghost before = dm.trace();
        let rb = match dm.read_mem(seg.addr, seg.data.len() as u32) {
            Ok(b) => b,
            Err(e) => {
                proof {
                    assert(segs@[k as int].addr == seg.addr);
                }
                return Err(ReadbackError::Read(seg.addr, e));
            },
        };
        let ghost w = added(before, dm.trace());
        proof {
            lemma_added_concat(t1, before, dm.trace());
            assert(ws.push(w).drop_last() =~= ws);
            assert(bytes_read(w, seg.addr, seg.data@.len() as u32, rb@));
            let old_ws = ws;
            let old_rbs = rbs;
            ws = ws.push(w);
            rbs = rbs.push(rb@);
            assert forall|j: int| 0 <= j < k + 1 implies bytes_read(#[trigger] ws[j], segs@[j].addr, segs@[j].data@.len() as u32, rbs[j]) by {
                if j < k {
                    assert(ws[j] == old_ws[j]);
                    assert(rbs[j] == old_rbs[j]);
                }
            }
            assert(flat(ws) == flat(old_ws) + w);
            assert(added(t1, dm.trace()) == flat(ws));
            assert(rbs[k as int] == rb@);
        }
        match find_diff(rb.as_slice(), seg.data.as_slice()) {
            Some(at) => {
                let a = seg.addr + at as u32;
                proof {
                    assert(segs_readback(added(t1, dm.trace()), segs@, rbs));
                    assert forall|j: int| 0 <= j < rbs.len() - 1 implies #[trigger] rbs[j] == segs@[j].data@ by {
                        assert(rbs[j] == rbs.drop_last()[j]);
                    }
                    let kk = rbs.len() - 1;
                    assert(kk == k);
                    assert(segs@[kk] == *seg);
                    assert(rb@ != seg.data@);
                    assert(a == segs@[kk].addr + first_diff(rbs[kk], segs@[kk].data@));
                    assert(readback_result(segs@, rbs, Some(a)));
                }
                return Ok(Some(a));
            },
            None => {},
        }
        proof {
            assert forall|j: int| 0 <= j < k + 1 implies #[trigger] rbs[j] == segs@[j].data@ by {
                if j < k {
                    assert(rbs[j] == rbs.drop_last()[j]);
                }
            }
        }
        k = k + 1;
    }
    proof {
        assert(segs_readback(added(t1, dm.trace()), segs@, rbs));
    }
    Ok(None)
}

/// `--restore-unwritten`: read each page (of `page` bytes at the addresses `pages`) before the
/// erase and lay the image's segments over what was read, so that programming the whole pages
/// back keeps every byte the image does not write.
pub fn restore_pages<T: DtmAccess>(dm: &mut DebugModule<'_, T>, pages: &[u32], page: u32, segs: &[Segment])
    -> (r: Result<Vec<Segment>, DmiError>)
    requires
        forall|k: int| 0 <= k < pages@.len() ==> #[trigger] pages@[k] + page <= u32::MAX,
        forall|k: int| 0 <= k < segs@.len() ==> seg_end(#[trigger] segs@[k]) <= u32::MAX,
    ensures
        grows(old(dm).trace(), final(dm).trace()),
        r is Err ==> faulted_since(old(dm).trace().len() as int, final(dm).trace())
            || exists|k: int| 0 <= k < pages@.len() && #[trigger] pages@[k] + page > 0xFFFF_FFFC,
        r matches Ok(out) ==> exists|rbs: Seq<Seq<u8>>, ws: Seq<Seq<DmiOp>>|
            #![trigger flat(ws), rbs.len()] {
            &&& out@.len() == pages@.len()
            &&& ws.len() == pages@.len()
            &&& rbs.len() == pages@.len()
            &&& added(old(dm).trace(), final(dm).trace()) == flat(ws)
            &&& forall|k: int| 0 <= k < pages@.len() ==> {
                &&& bytes_read(#[trigger] ws[k], pages@[k], page, rbs[k])
                &&& out@[k].addr == pages@[k]
                &&& out@[k].data@.len() == page
                &&& forall|i: int| 0 <= i < page ==> #[trigger] out@[k].data@[i] == match overlay(segs@, pages@[k] + i) {
                    Some(b) => b,
                    None => rbs[k][i],
                }
            }
        },
{
    let ghost t0 = dm.trace();
    let ghost mut ws: Seq<Seq<DmiOp>> = Seq::empty();
    let ghost mut rbs: Seq<Seq<u8>> = Seq::empty();
    proof { assert(added(t0, t0) =~= flat(ws)); }
    let mut out: Vec<Segment> = Vec::new();
    let mut k: usize = 0;
    while k < pages.len()
        invariant
            k <= pages@.len(),
            t0 == old(dm).trace(),
            grows(t0, dm.trace()),
            ws.len() == k,
            rbs.len() == k,
            out@.len() == k,
            added(t0, dm.trace()) == flat(ws),
            forall|k2: int| 0 <= k2 < pages@.len() ==> #[trigger] pages@[k2] + page <= u32::MAX,
            forall|k2: int| 0 <= k2 < segs@.len() ==> seg_end(#[trigger] segs@[k2]) <= u32::MAX,
            forall|j: int| 0 <= j < k ==> {
                &&& bytes_read(#[trigger] ws[j], pages@[j], page, rbs[j])
                &&& out@[j].addr == pages@[j]
                &&& out@[j].data@.len() == page
                &&& forall|i: int| 0 <= i < page ==> #[trigger] out@[j].data@[i] == match overlay(segs@, pages@[j] + i) {
                    Some(b) => b,
                    None => rbs[j][i],
                }
            },
        decreases pages@.len() - k,
    {
        let pg = pages[k];
        let ghost before = dm.trace();
        let mut buf = match dm.read_mem(pg, page) {
            Ok(b) => b,
            Err(e) => {
                proof { assert(pages@[k as int] == pg); }
                return Err(e);
            },
        };
        let ghost rb = buf@;
        let ghost w = added(before, dm.trace());
        proof {
            assert(bytes_read(w, pg, page, rb));
            assert(pages@[k as int] + page <= u32::MAX);
        }
        overlay_page(pg, &mut buf, segs);
        let ghost new_seg_data = buf@;
        out.push(Segment { addr: pg, data: buf });
        proof {
            lemma_added_concat(t0, before, dm.trace());
            assert(ws.push(w).drop_last() =~= ws);
            let old_ws = ws;
            let old_rbs = rbs;
            ws = ws.push(w);
            rbs = rbs.push(rb);
            assert forall|j: int| 0 <= j < k + 1 implies {
                &&& bytes_read(#[trigger] ws[j], pages@[j], page, rbs[j])
                &&& out@[j].addr == pages@[j]
                &&& out@[j].data@.len() == page
                &&& forall|i: int| 0 <= i < page ==> #[trigger] out@[j].data@[i] == match overlay(segs@, pages@[j] + i) {
                    Some(b) => b,
                    None => rbs[j][i],
                }
            } by {
                if j < k {
                    assert(ws[j] == old_ws[j]);
                    assert(rbs[j] == old_rbs[j]);
                } else {
                    assert(out@[j].data@ == new_seg_data);
                }
            }
        }
        k = k + 1;
    }
    Ok(out)
}


/// Where a `flash` run stands.
#[derive(Debug, Clone, Copy, PartialEq, Eq, Structural)]
pub enum FlashPhase {
    Start,
    Preverifying,
    Erasing,
    Programming,
    Verifying,
    Done,
}

/// A `flash` run: where it stands and the choices made for it (the resolved erase scope).
#[derive(Debug, Clone, Copy, PartialEq, Eq, Structural)]
pub struct FlashPlan {
    pub phase: FlashPhase,
    pub preverify: bool,
    pub erase: EraseMode,
    pub restore_unwritten: bool,
    pub verify: bool,
}

/// What the outside work of the last step came back with.
#[derive(Debug, Clone, Copy, PartialEq, Eq, Structural)]
pub enum FlashEvent {
    /// The run begins.
    Begin,
    /// A read-back finished: `None` when the target held the image, else the first differing
    /// address.
    Readback(Option<u32>),
    /// The erase finished.
    Erased,
    /// Programming finished.
    Programmed,
}

/// The next piece of outside work, or the end of the run.
#[derive(Debug, Clone, Copy, PartialEq, Eq, Structural)]
pub enum FlashAction {
    /// Read the image region back and compare (`readback_check`).
    Preverify,
    /// Erase with this scope; for `restore` capture the covered pages first (`restore_pages`).
    Erase { scope: EraseMode, restore: bool },
    /// Program the image; `whole_pages` programs the captured pages instead of the sparse image.
    Program { whole_pages: bool },
    /// Read the image back after programming (`readback_check`).
    Verify,
    /// The run succeeded: `skipped` when the preverify found the image already there.
    Finish { skipped: bool, verified: bool },
    /// The verify found this address differing from the image.
    Mismatch(u32),
    /// The event does not fit where the run stands; nothing changes.
    Invalid,
}

/// The step after `plan` when the erase comes next: erase unless the scope is none.
pub open spec fn erase_next(plan: FlashPlan) -> (FlashPlan, FlashAction) {
    if plan.erase == EraseMode::Off {
        (FlashPlan { phase: FlashPhase::Programming, ..plan }, FlashAction::Program { whole_pages: plan.restore_unwritten })
    } else {
        (FlashPlan { phase: FlashPhase::Erasing, ..plan },
            FlashAction::Erase { scope: plan.erase, restore: plan.restore_unwritten })
    }
}

/// The transitions of a `flash` run.
pub open spec fn flash_next(plan: FlashPlan, ev: FlashEvent) -> (FlashPlan, FlashAction) {
    match (plan.phase, ev) {
        (FlashPhase::Start, FlashEvent::Begin) => if plan.preverify {
            (FlashPlan { phase: FlashPhase::Preverifying, ..plan }, FlashAction::Preverify)
        } else {
            erase_next(plan)
        },
        (FlashPhase::Preverifying, FlashEvent::Readback(m)) => if m is None {
            (FlashPlan { phase: FlashPhase::Done, ..plan }, FlashAction::Finish { skipped: true, verified: true })
        } else {
            erase_next(plan)
        },
        (FlashPhase::Erasing, FlashEvent::Erased) =>
            (FlashPlan { phase: FlashPhase::Programming, ..plan }, FlashAction::Program { whole_pages: plan.restore_unwritten }),
        (FlashPhase::Programming, FlashEvent::Programmed) => if plan.verify {
            (FlashPlan { phase: FlashPhase::Verifying, ..plan }, FlashAction::Verify)
        } else {
            (FlashPlan { phase: FlashPhase::Done, ..plan }, FlashAction::Finish { skipped: false, verified: false })
        },
        (FlashPhase::Verifying, FlashEvent::Readback(m)) => match m {
            None => (FlashPlan { phase: FlashPhase::Done, ..plan }, FlashAction::Finish { skipped: false, verified: true }),
            Some(a) => (FlashPlan { phase: FlashPhase::Done, ..plan }, FlashAction::Mismatch(a)),
        },
        _ => (plan, FlashAction::Invalid),
    }
}

fn erase_step(plan: FlashPlan) -> (r: (FlashPlan, FlashAction))
    ensures
        r == erase_next(plan),
{
    if plan.erase == EraseMode::Off {
        (FlashPlan { phase: FlashPhase::Programming, ..plan }, FlashAction::Program { whole_pages: plan.restore_unwritten })
    } else {
        (FlashPlan { phase: FlashPhase::Erasing, ..plan },
            FlashAction::Erase { scope: plan.erase, restore: plan.restore_unwritten })
    }
}

/// One step of a `flash` run: from where it stands and what the last piece of outside work
/// came back with, the new standing and the next piece of work. A preverify that finds the
/// image skips erase and programming; the erase uses the resolved scope and captures the pages
/// first under restore-unwritten, whose program step then writes the whole pages; a verify
/// reports the first differing address.
pub fn flash_decide(plan: &FlashPlan, ev: FlashEvent) -> (r: (FlashPlan, FlashAction))
    ensures
        r == flash_next(*plan, ev),
{
    let plan = *plan;
    match (plan.phase, ev) {
        (FlashPhase::Start, FlashEvent::Begin) => if plan.preverify {
            (FlashPlan { phase: FlashPhase::Preverifying, ..plan }, FlashAction::Preverify)
        } else {
            erase_step(plan)
        },
        (FlashPhase::Preverifying, FlashEvent::Readback(m)) => match m {
            None => (FlashPlan { phase: FlashPhase::Done, ..plan }, FlashAction::Finish { skipped: true, verified: true }),
            Some(_) => erase_step(plan),
        },
        (FlashPhase::Erasing, FlashEvent::Erased) =>
            (FlashPlan { phase: FlashPhase::Programming, ..plan }, FlashAction::Program { whole_pages: plan.restore_unwritten }),
        (FlashPhase::Programming, FlashEvent::Programmed) => if plan.verify {
            (FlashPlan { phase: FlashPhase::Verifying, ..plan }, FlashAction::Verify)
        } else {
            (FlashPlan { phase: FlashPhase::Done, ..plan }, FlashAction::Finish { skipped: false, verified: false })
        },
        (FlashPhase::Verifying, FlashEvent::Readback(m)) => match m {
            None => (FlashPlan { phase: FlashPhase::Done, ..plan }, FlashAction::Finish { skipped: false, verified: true }),
            Some(a) => (FlashPlan { phase: FlashPhase::Done, ..plan }, FlashAction::Mismatch(a)),
        },
        _ => (plan, FlashAction::Invalid),
    }
}

/// A run that programs always erased with the chosen scope first (unless that scope is none),
/// and programs whole pages exactly under restore-unwritten: from the start, whatever the
/// preverify found, the step before `Program` is the erase of `plan.erase`.
pub proof fn lemma_program_follows_erase(plan: FlashPlan, m: Option<u32>)
    requires
        plan.phase == FlashPhase::Start,
        plan.erase != EraseMode::Off,
    ensures
        ({
            let first = if plan.preverify { flash_next(flash_next(plan, FlashEvent::Begin).0, FlashEvent::Readback(m)) }
                else { flash_next(plan, FlashEvent::Begin) };
            &&& (plan.preverify && m is None) || first.1 == FlashAction::Erase { scope: plan.erase, restore: plan.restore_unwritten }
            &&& !(plan.preverify && m is None) ==> flash_next(first.0, FlashEvent::Erased).1
                == FlashAction::Program { whole_pages: plan.restore_unwritten }
        }),
{
}


/// A run reports its image verified whenever its verify read the image back without a
/// difference, and reports it unverified only when it was told not to verify: from any plan
/// standing at the verify, a clean read-back finishes verified; an unverified finish comes only
/// from a plan without verify, right after programming.
pub proof fn lemma_verified_reported(plan: FlashPlan, ev: FlashEvent)
    ensures
        plan.phase == FlashPhase::Verifying && ev == FlashEvent::Readback(None)
            ==> flash_next(plan, ev).1 == (FlashAction::Finish { skipped: false, verified: true }),
        (flash_next(plan, ev).1 matches FlashAction::Finish { verified, .. } && !verified)
            ==> plan.phase == FlashPhase::Programming && ev == FlashEvent::Programmed && !plan.verify,
        plan.phase == FlashPhase::Verifying && ev is Readback && ev->Readback_0 is Some
            ==> flash_next(plan, ev).1 == FlashAction::Mismatch(ev->Readback_0->0),
{
}

} // verus!
