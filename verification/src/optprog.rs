//! `target option set` / `write-raw` on the target: halt, keep the current option bytes, erase
//! and program the new sixteen bytes (RDPR first), and - after the reset that makes them take
//! effect - read them back and compare the value bytes (even positions), reading up to three
//! times while the reset settles.

use vstd::prelude::*;

use crate::dm::{halt_attempt, read_value, status_halted, DebugModule};
use crate::dmi::{added, faulted_since, grows, group_grows, DmiError, DmiOp, DtmAccess};
use crate::flashctl::{flash_failed, option_program_log, OB_BASE};
use crate::semiserve::bytes_read;

verus! {

broadcast use group_grows;

/// How many times the option bytes are read back before a mismatch counts.
pub const OPTION_VERIFY_ATTEMPTS: u32 = 3;

/// Why programming the option bytes stopped.
#[derive(Debug)]
pub enum OptProgError {
    /// The hart could not be halted.
    Halt(DmiError),
    /// The current option bytes could not be read.
    Read(DmiError),
    /// Erasing or programming the option block failed.
    Program(DmiError),
}

/// A halt that did not leave the hart halted: the attempt was made and the last status read
/// shows it running.
pub open spec fn halt_refused(ops: Seq<DmiOp>) -> bool {
    halt_attempt(ops) && !status_halted(read_value(ops.last()))
}

/// The first even position below 16 where `after` and `want` differ.
pub open spec fn even_mismatch(after: Seq<u8>, want: Seq<u8>) -> Option<int> {
    if exists|i: int| 0 <= i < 16 && i % 2 == 0 && #[trigger] after[i] != want[i] {
        Some(choose|i: int| 0 <= i < 16 && i % 2 == 0 && #[trigger] after[i] != want[i]
            && forall|j: int| 0 <= j < i && j % 2 == 0 ==> after[j] == want[j])
    } else {
        None
    }
}

/// The first even index at which `after` differs from `want` (the value bytes; odd bytes are the
/// complements the hardware derives).
pub fn first_even_mismatch(after: &[u8], want: &[u8; 16]) -> (r: Option<usize>)
    requires
        after@.len() == 16,
    ensures
        r matches Some(i) ==> i < 16 && i % 2 == 0 && after@[i as int] != want@[i as int]
            && forall|j: int| 0 <= j < i && j % 2 == 0 ==> after@[j] == want@[j],
        r is None ==> forall|j: int| 0 <= j < 16 && j % 2 == 0 ==> after@[j] == want@[j],
        r matches Some(i) ==> even_mismatch(after@, want@) == Some(i as int),
        r is None ==> even_mismatch(after@, want@) is None,
{
    let mut i: usize = 0;
    while i < 16
        invariant
            i <= 16,
            i % 2 == 0,
            after@.len() == 16,
            forall|j: int| 0 <= j < i && j % 2 == 0 ==> after@[j] == want@[j],
        decreases 16 - i,
    {
        if after[i] != want[i] {
            proof {
                let k = i as int;
                assert(exists|x: int| 0 <= x < 16 && x % 2 == 0 && #[trigger] after@[x] != want@[x]);
                let c = choose|x: int| 0 <= x < 16 && x % 2 == 0 && #[trigger] after@[x] != want@[x]
                    && forall|j: int| 0 <= j < x && j % 2 == 0 ==> after@[j] == want@[j];
                assert(0 <= k < 16 && k % 2 == 0 && after@[k] != want@[k]
                    && forall|j: int| 0 <= j < k && j % 2 == 0 ==> after@[j] == want@[j]);
                if c < k {
                    assert(after@[c] == want@[c]);
                } else if c > k {
                    assert(after@[k] == want@[k]);
                }
            }
            return Some(i);
        }
        i = i + 2;
    }
    proof {
        assert(!exists|x: int| 0 <= x < 16 && x % 2 == 0 && #[trigger] after@[x] != want@[x]);
    }
    None
}

/// What to do after one read-back of the option bytes.
#[derive(Debug, Clone, Copy, PartialEq, Eq, Structural)]
pub enum OptVerifyAction {
    /// Every value byte reads back as requested.
    Verified,
    /// A mismatch, with read-backs left: wait and read again.
    Retry,
    /// A mismatch on the last read-back: the write did not take; the first differing byte.
    Mismatch(usize),
}

/// Decide after read-back number `attempt` (from 0) found `mismatch`.
pub fn option_verify_next(attempt: u32, mismatch: Option<usize>) -> (a: OptVerifyAction)
    ensures
        a == match mismatch {
            None => OptVerifyAction::Verified,
            Some(i) => if attempt + 1 < OPTION_VERIFY_ATTEMPTS {
                OptVerifyAction::Retry
            } else {
                OptVerifyAction::Mismatch(i)
            },
        },
{
    match mismatch {
        None => OptVerifyAction::Verified,
        Some(i) => if attempt < OPTION_VERIFY_ATTEMPTS - 1 {
            OptVerifyAction::Retry
        } else {
            OptVerifyAction::Mismatch(i)
        },
    }
}

/// Read the sixteen option bytes back and find the first value byte that differs from `want`.
/// The hart must be halted.
pub fn read_option_check<T: DtmAccess>(dm: &mut DebugModule<'_, T>, want: &[u8; 16])
    -> (r: Result<(Vec<u8>, Option<usize>), DmiError>)
    ensures
        grows(old(dm).trace(), final(dm).trace()),
        r is Err ==> faulted_since(old(dm).trace().len() as int, final(dm).trace()),
        r matches Ok((after, m)) ==> {
            &&& after@.len() == 16
            &&& bytes_read(added(old(dm).trace(), final(dm).trace()), OB_BASE, 16, after@)
            &&& m matches Some(i) ==> even_mismatch(after@, want@) == Some(i as int)
            &&& m is None ==> even_mismatch(after@, want@) is None
        },
{
    let after = dm.read_mem(OB_BASE, 16)?;
    proof { assert(bytes_read(added(old(dm).trace(), dm.trace()), OB_BASE, 16, after@)); }
    let m = first_even_mismatch(after.as_slice(), want);
    Ok((after, m))
}

/// Halt, read the current option bytes (returned), then erase and program `new`. On failure the
/// step that failed is named; a failed programming may leave the option block erased.
pub fn program_option_bytes<T: DtmAccess>(dm: &mut DebugModule<'_, T>, new: &[u8; 16])
    -> (r: Result<Vec<u8>, OptProgError>)
    ensures
        old(dm).trace().len() <= final(dm).trace().len(),
        r matches Err(OptProgError::Halt(_)) ==> faulted_since(old(dm).trace().len() as int, final(dm).trace())
            || halt_refused(added(old(dm).trace(), final(dm).trace())),
        r matches Err(OptProgError::Read(_)) ==> faulted_since(old(dm).trace().len() as int, final(dm).trace()),
        r matches Err(OptProgError::Program(_)) ==> flash_failed(old(dm).trace().len() as int, final(dm).trace()),
        r matches Ok(before) ==> before@.len() == 16 && exists|t1: Seq<DmiOp>, t2: Seq<DmiOp>|
            #![trigger added(old(dm).trace(), t1), added(t1, t2)] {
            &&& grows(old(dm).trace(), t1)
            &&& grows(t1, t2)
            &&& grows(t2, final(dm).trace())
            &&& halt_attempt(added(old(dm).trace(), t1))
            &&& status_halted(read_value(added(old(dm).trace(), t1).last()))
            &&& bytes_read(added(t1, t2), OB_BASE, 16, before@)
            &&& option_program_log(added(t2, final(dm).trace()), new@)
        },
{
    let ghost t0 = dm.trace();
    match dm.halt() {
        Ok(()) => {},
        Err(e) => return Err(OptProgError::Halt(e)),
    }
    let ghost t1 = dm.trace();
    let before = match dm.read_mem(OB_BASE, 16) {
        Ok(b) => b,
        Err(e) => return Err(OptProgError::Read(e)),
    };
    let ghost t2 = dm.trace();
    proof { assert(bytes_read(added(t1, t2), OB_BASE, 16, before@)); }
    match dm.flash_program_option_bytes(new) {
        Ok(()) => {},
        Err(e) => return Err(OptProgError::Program(e)),
    }
    proof {
        assert(halt_attempt(added(t0, t1)));
    }
    Ok(before)
}

} // verus!
