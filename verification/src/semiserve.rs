//! Servicing one halt of a program run under `run --exit-on semihosting`: read the pc and the
//! three words around it, and when they are the semihosting `slli/ebreak/srai` sequence, carry out
//! the call in `a0` with its argument in `a1` - end the run with the program's exit code, print a
//! string or a character, or skip an unsupported call - resuming past it where the run goes on.

use vstd::prelude::*;

use crate::dm::{bytes_of_words, read_word_count, reads_from, DebugModule};
use crate::dmi::{
    added, faulted_since, grows, group_grows, lemma_faulted_shift, lemma_grows_split, realizes, realizes_all, regno_of, DmOp, DmiOp,
    DtmAccess, RegName, DMCONTROL,
};
use crate::image::le32_at;
use crate::semihost::{call_spec, exit_code_spec, semihost_call, semihosting_exit_code, SemihostCall, SYS_EXIT_EXTENDED, SEMI_EBREAK, SEMI_SLLI, SEMI_SRAI};

verus! {

broadcast use group_grows;

/// `ops` read the `len` bytes at `addr` and found `bytes`.
pub open spec fn bytes_read(ops: Seq<DmiOp>, addr: u32, len: u32, bytes: Seq<u8>) -> bool {
    exists|words: Seq<u32>| {
        &&& words.len() == read_word_count(addr, len)
        &&& realizes_all(ops, #[trigger] reads_from((addr - addr % 4) as u32, words))
        &&& bytes == bytes_of_words(words).subrange((addr % 4) as int, addr % 4 + len)
    }
}

/// `ops` read the 32-bit little-endian word `v` at `addr`.
pub open spec fn word_read(ops: Seq<DmiOp>, addr: u32, v: u32) -> bool {
    exists|b: Seq<u8>| #[trigger] bytes_read(ops, addr, 4, b) && b.len() == 4 && le32_at(b, 0) == v
}

/// The word at `addr`, if it could be read.
fn read_word<T: DtmAccess>(dm: &mut DebugModule<'_, T>, addr: u32) -> (r: Option<u32>)
    ensures
        grows(old(dm).trace(), final(dm).trace()),
        r matches Some(v) ==> word_read(added(old(dm).trace(), final(dm).trace()), addr, v),
        r is None ==> faulted_since(old(dm).trace().len() as int, final(dm).trace()) || addr + 4 > 0xFFFF_FFFC,
{
    match dm.read_mem(addr, 4) {
        Ok(b) => {
            proof { assert(bytes_read(added(old(dm).trace(), dm.trace()), addr, 4, b@)); }
            if b.len() == 4 {
                proof { assert(b@.subrange(0, 4) =~= seq![b@[0], b@[1], b@[2], b@[3]]); }
                Some((b[0] as u32) | ((b[1] as u32) << 8) | ((b[2] as u32) << 16) | ((b[3] as u32) << 24))
            } else {
                None
            }
        },
        Err(_) => None,
    }
}

/// A register's value, 0 when it cannot be read.
fn read_or_zero<T: DtmAccess>(dm: &mut DebugModule<'_, T>, reg: RegName) -> (v: u32)
    ensures
        grows(old(dm).trace(), final(dm).trace()),
        realizes(added(old(dm).trace(), final(dm).trace()), DmOp::RegRead { regno: regno_of(reg), value: v })
            || (v == 0 && faulted_since(old(dm).trace().len() as int, final(dm).trace())),
{
    match dm.read_reg(reg) {
        Ok(v) => v,
        Err(_) => 0,
    }
}

/// Whether `s` holds a zero byte.
pub open spec fn has_nul(s: Seq<u8>) -> bool {
    exists|i: int| 0 <= i < s.len() && s[i] == 0
}

/// The address of the `k`-th 16-byte chunk of a string at `addr`, stepping with wrap-around.
pub open spec fn chunk_addr(addr: u32, k: nat) -> u32
    decreases k,
{
    if k == 0 {
        addr
    } else {
        let a = chunk_addr(addr, (k - 1) as nat);
        if a + 16 > u32::MAX { (a + 16 - 0x1_0000_0000) as u32 } else { (a + 16) as u32 }
    }
}

/// From position `n` of trace `t` on, some accesses read the 16 bytes `c` at `a`.
pub open spec fn chunk_seen(n: int, t: Seq<DmiOp>, a: u32, c: Seq<u8>) -> bool {
    exists|i: int, j: int| n <= i <= j <= t.len() && #[trigger] bytes_read(t.subrange(i, j), a, 16, c)
}

/// The chunks `cs` were read in turn from the string at `addr`, from position `n` of `t` on.
pub open spec fn chunks_seen(n: int, t: Seq<DmiOp>, addr: u32, cs: Seq<Seq<u8>>) -> bool {
    forall|k: int| #![trigger cs[k]] 0 <= k < cs.len() ==> cs[k].len() == 16
        && chunk_seen(n, t, chunk_addr(addr, k as nat), cs[k])
}

proof fn lemma_chunks_kept(n: int, a: Seq<DmiOp>, b: Seq<DmiOp>, addr: u32, cs: Seq<Seq<u8>>)
    requires
        0 <= n,
        chunks_seen(n, a, addr, cs),
        grows(a, b),
    ensures
        chunks_seen(n, b, addr, cs),
{
    assert forall|k: int| #![trigger cs[k]] 0 <= k < cs.len() implies cs[k].len() == 16
        && chunk_seen(n, b, chunk_addr(addr, k as nat), cs[k]) by {
        let c = cs[k];
        let x = chunk_addr(addr, k as nat);
        assert(cs[k].len() == 16 && chunk_seen(n, a, x, c));
        let (i, j) = choose|i: int, j: int| n <= i <= j <= a.len() && #[trigger] bytes_read(a.subrange(i, j), x, 16, c);
        assert forall|q: int| 0 <= q < j - i implies b.subrange(i, j)[q] == a.subrange(i, j)[q] by {
            assert(b.take(a.len() as int)[i + q] == b[i + q]);
        }
        assert(b.subrange(i, j) =~= a.subrange(i, j));
        assert(bytes_read(b.subrange(i, j), x, 16, c));
    }
}

/// From position `n` of `t` on, the NUL-terminated string `s` was read from `addr`: chunks
/// `cs` (at most 1024) were read in turn, `s` is their bytes up to the first NUL, and when no
/// NUL was read the reads stopped after 1024 chunks, at a fault, or at the end of the address
/// space.
pub open spec fn cstr_read(n: int, t: Seq<DmiOp>, addr: u32, s: Seq<u8>) -> bool {
    exists|cs: Seq<Seq<u8>>| {
        &&& cs.len() <= 1024
        &&& #[trigger] chunks_seen(n, t, addr, cs)
        &&& s.len() <= cs.flatten().len()
        &&& s == cs.flatten().take(s.len() as int)
        &&& s.len() < cs.flatten().len() ==> cs.flatten()[s.len() as int] == 0
        &&& s.len() == cs.flatten().len() ==> cs.len() == 1024 || faulted_since(n, t)
            || chunk_addr(addr, cs.len()) + 16 > 0xFFFF_FFFC
    }
}

/// The NUL-terminated string at `addr`, read 16 bytes at a time, at most 1024 reads; a failed
/// read ends it early. The string is the bytes read, in order, up to the first NUL; when no NUL
/// was read, the reads stopped after 1024 chunks, at a failed access, or at the end of the
/// address space.
fn read_cstr<T: DtmAccess>(dm: &mut DebugModule<'_, T>, addr: u32) -> (s: Vec<u8>)
    ensures
        grows(old(dm).trace(), final(dm).trace()),
        !has_nul(s@),
        s@.len() <= 16 * 1024,
        cstr_read(old(dm).trace().len() as int, final(dm).trace(), addr, s@),
{
    let ghost t0 = dm.trace();
    let ghost mut cs: Seq<Seq<u8>> = Seq::empty();
    proof { assert(cs.flatten() =~= Seq::<u8>::empty()); }
    let mut out: Vec<u8> = Vec::new();
    let mut a = addr;
    let mut n: u32 = 0;
    while n < 1024
        invariant
            n <= 1024,
            t0 == old(dm).trace(),
            grows(t0, dm.trace()),
            !has_nul(out@),
            out@.len() == 16 * n,
            cs.len() == n,
            a == chunk_addr(addr, n as nat),
            chunks_seen(t0.len() as int, dm.trace(), addr, cs),
            out@ == cs.flatten(),
        decreases 1024 - n,
    {
        let ghost before = dm.trace();
        let chunk = match dm.read_mem(a, 16) {
            Ok(c) => c,
            Err(_) => {
                proof { lemma_chunks_kept(t0.len() as int, before, dm.trace(), addr, cs); }
                assert(out@ == cs.flatten().take(out@.len() as int));
                return out;
            },
        };
        let ghost after = dm.trace();
        proof {
            lemma_chunks_kept(t0.len() as int, before, after, addr, cs);
            assert(added(before, after) =~= after.subrange(before.len() as int, after.len() as int));
            assert(bytes_read(added(before, after), a, 16, chunk@));
            assert(chunk_seen(t0.len() as int, after, a, chunk@));
            cs.lemma_flatten_push(chunk@);
        }
        let ghost cs2 = cs.push(chunk@);
        proof {
            assert forall|k: int| #![trigger cs2[k]] 0 <= k < cs2.len() implies cs2[k].len() == 16
                && chunk_seen(t0.len() as int, after, chunk_addr(addr, k as nat), cs2[k]) by {
                if k < cs.len() {
                    assert(cs2[k] == cs[k]);
                }
            }
        }
        let mut k: usize = 0;
        while k < chunk.len()
            invariant
                k <= chunk@.len() == 16,
                n < 1024,
                t0 == old(dm).trace(),
                grows(t0, dm.trace()),
                !has_nul(out@),
                out@.len() == 16 * n + k,
                cs.len() == n,
                cs2 == cs.push(chunk@),
                cs2.flatten() == cs.flatten() + chunk@,
                chunks_seen(t0.len() as int, dm.trace(), addr, cs2),
                out@ == cs.flatten() + chunk@.take(k as int),
                cs.flatten().len() == 16 * n,
            decreases chunk@.len() - k,
        {
            if chunk[k] == 0 {
                proof {
                    assert(out@ =~= cs2.flatten().take(out@.len() as int));
                    assert(cs2.flatten()[out@.len() as int] == chunk@[k as int]);
                }
                return out;
            }
            let ghost before_out = out@;
            out.push(chunk[k]);
            proof {
                assert forall|i: int| 0 <= i < out@.len() implies out@[i] != 0 by {
                    if i < before_out.len() {
                        assert(out@[i] == before_out[i]);
                    }
                }
                assert(out@ =~= cs.flatten() + chunk@.take(k + 1));
            }
            k = k + 1;
        }
        proof {
            assert(chunk@.take(16) =~= chunk@);
            cs = cs2;
        }
        a = a.wrapping_add(16);
        n = n + 1;
    }
    proof { assert(out@ =~= cs.flatten().take(out@.len() as int)); }
    out
}

/// What servicing one halt found.
#[derive(Debug)]
pub enum HaltOutcome {
    /// The program asked to end the run with this exit code.
    Exit(u32),
    /// A print call: these bytes go to the output; the hart was resumed past the call.
    Output(Vec<u8>),
    /// An unsupported call, skipped; the hart was resumed past it.
    Skipped,
    /// Halted at this pc, which is not a semihosting call (a breakpoint or a trap).
    Foreign(u32),
    /// The pc could not be read; the hart was resumed.
    Unreadable,
}

/// The points of the trace between the reads of a halt: after the pc, after the words at pc,
/// pc-4 and pc+4, after a0 and after a1.
pub struct ReadPoints {
    pub t1: Seq<DmiOp>,
    pub t2: Seq<DmiOp>,
    pub t3: Seq<DmiOp>,
    pub t4: Seq<DmiOp>,
    pub t5: Seq<DmiOp>,
    pub t6: Seq<DmiOp>,
}

/// What one word read between `a` and `b` gave: `Some` of the word read at `addr`, or `None`
/// after a fault or at the end of the address space.
pub open spec fn word_result(a: Seq<DmiOp>, b: Seq<DmiOp>, addr: u32, w: Option<u32>) -> bool {
    &&& grows(a, b)
    &&& match w {
        Some(v) => word_read(added(a, b), addr, v),
        None => faulted_since(a.len() as int, b) || addr + 4 > 0xFFFF_FFFC,
    }
}

/// A register read between `a` and `b` that found `v`, or failed and counts as 0.
pub open spec fn reg_or_zero(a: Seq<DmiOp>, b: Seq<DmiOp>, reg: RegName, v: u32) -> bool {
    realizes(added(a, b), DmOp::RegRead { regno: regno_of(reg), value: v })
        || (v == 0 && faulted_since(a.len() as int, b))
}

/// From `t`, the hart was sent on past the call: the pc write of `pc + 4` (carried out, or a
/// fault in the attempt), then one resume request, whatever their outcome.
pub open spec fn resumed_past(t: Seq<DmiOp>, t_end: Seq<DmiOp>, pc: u32) -> bool {
    exists|tm: Seq<DmiOp>| #![trigger added(t, tm)] {
        &&& grows(t, tm)
        &&& grows(tm, t_end)
        &&& (realizes(added(t, tm), DmOp::RegWrite { regno: regno_of(RegName::Pc), value: pc.wrapping_add(4) })
            || faulted_since(0, added(t, tm)))
        &&& resume_request(added(tm, t_end))
    }
}

/// Exactly one write of the resume request to DMCONTROL, acknowledged or not.
pub open spec fn resume_request(ops: Seq<DmiOp>) -> bool {
    &&& ops.len() == 1
    &&& ops[0] matches DmiOp::Write { addr, value, .. }
    &&& addr == DMCONTROL
    &&& value == 0x4000_0001
}

/// From `t0`, the reads found the pc `dpc`, the semihosting sequence around it, and the call
/// `op` with argument `arg` (each 0 when its read failed).
pub open spec fn call_read(t0: Seq<DmiOp>, p: ReadPoints, dpc: u32, op: u32, arg: u32) -> bool {
    &&& grows(t0, p.t1) && grows(p.t1, p.t2) && grows(p.t2, p.t3) && grows(p.t3, p.t4)
        && grows(p.t4, p.t5) && grows(p.t5, p.t6)
    &&& realizes(added(t0, p.t1), DmOp::RegRead { regno: regno_of(RegName::Pc), value: dpc })
    &&& word_read(added(p.t1, p.t2), dpc, SEMI_EBREAK)
    &&& word_read(added(p.t2, p.t3), dpc.wrapping_sub(4), SEMI_SLLI)
    &&& word_read(added(p.t3, p.t4), dpc.wrapping_add(4), SEMI_SRAI)
    &&& reg_or_zero(p.t4, p.t5, RegName::Gpr(10), op)
    &&& reg_or_zero(p.t5, p.t6, RegName::Gpr(11), arg)
}

/// What one serviced halt means, given the trace `t0` .. `t_end` it made.
pub open spec fn halt_ok(t0: Seq<DmiOp>, t_end: Seq<DmiOp>, r: HaltOutcome) -> bool {
    match r {
        HaltOutcome::Foreign(pc) => exists|p: ReadPoints, at: Option<u32>, before: Option<u32>, after: Option<u32>|
            #![trigger word_result(p.t1, p.t2, pc, at), word_result(p.t2, p.t3, pc.wrapping_sub(4), before), word_result(p.t3, t_end, pc.wrapping_add(4), after)]
        {
            &&& grows(t0, p.t1)
            &&& realizes(added(t0, p.t1), DmOp::RegRead { regno: regno_of(RegName::Pc), value: pc })
            &&& word_result(p.t1, p.t2, pc, at)
            &&& word_result(p.t2, p.t3, pc.wrapping_sub(4), before)
            &&& word_result(p.t3, t_end, pc.wrapping_add(4), after)
            &&& !(at == Some(SEMI_EBREAK) && before == Some(SEMI_SLLI) && after == Some(SEMI_SRAI))
        },
        HaltOutcome::Exit(code) => exists|p: ReadPoints, dpc: u32, op: u32, arg: u32, block: Option<Seq<u8>>|
            #![trigger call_read(t0, p, dpc, op, arg), exit_code_spec(op, arg, block)]
        {
            &&& call_read(t0, p, dpc, op, arg)
            &&& grows(p.t6, t_end)
            &&& call_spec(op) == SemihostCall::Exit
            &&& (op == SYS_EXIT_EXTENDED || block is None)
            &&& (block matches Some(b) ==> bytes_read(added(p.t6, t_end), arg, 8, b))
            &&& (op == SYS_EXIT_EXTENDED && block is None ==> faulted_since(p.t6.len() as int, t_end)
                || arg + 8 > 0xFFFF_FFFC)
            &&& code == exit_code_spec(op, arg, block)
        },
        HaltOutcome::Output(b) => exists|p: ReadPoints, dpc: u32, op: u32, arg: u32, t7: Seq<DmiOp>|
            #![trigger call_read(t0, p, dpc, op, arg), resumed_past(t7, t_end, dpc)]
        {
            &&& call_read(t0, p, dpc, op, arg)
            &&& grows(p.t6, t7)
            &&& resumed_past(t7, t_end, dpc)
            &&& match call_spec(op) {
                SemihostCall::Write0 => cstr_read(p.t6.len() as int, t7, arg, b@),
                SemihostCall::WriteC => (b@.len() == 1 && bytes_read(added(p.t6, t7), arg, 1, b@))
                    || (b@.len() == 0 && (faulted_since(p.t6.len() as int, t7) || arg + 1 > 0xFFFF_FFFC)),
                _ => false,
            }
        },
        HaltOutcome::Skipped => exists|p: ReadPoints, dpc: u32, op: u32, arg: u32| {
            &&& #[trigger] call_read(t0, p, dpc, op, arg)
            &&& grows(p.t6, t_end)
            &&& call_spec(op) == SemihostCall::Ignored
            &&& resumed_past(p.t6, t_end, dpc)
        },
        HaltOutcome::Unreadable => exists|t1: Seq<DmiOp>| {
            &&& grows(t0, t1)
            &&& grows(t1, t_end)
            &&& #[trigger] faulted_since(t0.len() as int, t1)
            &&& resume_request(added(t1, t_end))
        },
    }
}

/// Send the hart on past the call at `dpc`: write pc + 4, then request the resume. Neither
/// outcome is looked at.
fn resume_past<T: DtmAccess>(dm: &mut DebugModule<'_, T>, dpc: u32)
    ensures
        grows(old(dm).trace(), final(dm).trace()),
        resumed_past(old(dm).trace(), final(dm).trace(), dpc),
{
    let ghost t0 = dm.trace();
    let w = dm.write_reg(RegName::Pc, dpc.wrapping_add(4));
    let ghost tm = dm.trace();
    proof {
        if w is Err {
            lemma_faulted_shift(t0, tm);
        }
    }
    let _ = dm.resume();
    proof {
        assert(added(tm, dm.trace()) =~= seq![dm.trace().last()]);
        assert(resume_request(added(tm, dm.trace())));
        assert(realizes(added(t0, tm), DmOp::RegWrite { regno: regno_of(RegName::Pc), value: dpc.wrapping_add(4) })
            || faulted_since(0, added(t0, tm)));
        assert(grows(tm, dm.trace()));
        assert(grows(t0, tm));
        assert(resumed_past(t0, dm.trace(), dpc));
    }
}

/// Service the halt of a hart that was resumed with `ebreak` entering debug mode: read the pc and
/// the words at pc, pc-4 and pc+4; on the semihosting sequence, read the call (a0) and its
/// argument (a1, each 0 when unreadable) and carry it out: an exit call ends the run with its
/// code (for SYS_EXIT_EXTENDED from the parameter block at the argument); SYS_WRITE0 prints the
/// NUL-terminated string at the argument; SYS_WRITEC prints the byte at it; any other call is
/// skipped; the last three go on past the call (pc + 4) and resume. Anything else is a foreign
/// halt, reported with its pc.
pub fn service_halt<T: DtmAccess>(dm: &mut DebugModule<'_, T>) -> (r: HaltOutcome)
    ensures
        grows(old(dm).trace(), final(dm).trace()),
        halt_ok(old(dm).trace(), final(dm).trace(), r),
{
    let ghost t0 = dm.trace();
    let dpc = match dm.read_reg(RegName::Pc) {
        Ok(v) => v,
        Err(_) => {
            let ghost t1 = dm.trace();
            let _ = dm.resume();
            proof {
                assert(added(t1, dm.trace()) =~= seq![dm.trace().last()]);
                assert(resume_request(added(t1, dm.trace())));
            }
            return HaltOutcome::Unreadable;
        },
    };
    let ghost t1 = dm.trace();
    let at = read_word(dm, dpc);
    let ghost t2 = dm.trace();
    let before = read_word(dm, dpc.wrapping_sub(4));
    let ghost t3 = dm.trace();
    let after = read_word(dm, dpc.wrapping_add(4));
    let ghost t4 = dm.trace();
    let is_call = match (before, at, after) {
        (Some(b), Some(a), Some(af)) => crate::semihost::is_semihosting_seq(b, a, af),
        _ => false,
    };
    if !is_call {
        proof {
            let p = ReadPoints { t1, t2, t3, t4: t4, t5: t4, t6: t4 };
            assert(word_result(p.t1, p.t2, dpc, at));
            assert(word_result(p.t2, p.t3, dpc.wrapping_sub(4), before));
            assert(word_result(p.t3, t4, dpc.wrapping_add(4), after));
        }
        return HaltOutcome::Foreign(dpc);
    }
    let op = read_or_zero(dm, RegName::Gpr(10));
    let ghost t5 = dm.trace();
    let arg = read_or_zero(dm, RegName::Gpr(11));
    let ghost t6 = dm.trace();
    let ghost pts = ReadPoints { t1, t2, t3, t4, t5, t6 };
    assert(call_read(t0, pts, dpc, op, arg));
    match semihost_call(op) {
        SemihostCall::Exit => {
            let block = if op == SYS_EXIT_EXTENDED {
                match dm.read_mem(arg, 8) {
                    Ok(b) => {
                        assert(bytes_read(added(t6, dm.trace()), arg, 8, b@));
                        Some(b)
                    },
                    Err(_) => None,
                }
            } else {
                None
            };
            let code = match &block {
                Some(b) => semihosting_exit_code(op, arg, Some(b.as_slice())),
                None => semihosting_exit_code(op, arg, None),
            };
            let ghost bk = match block { Some(b) => Some(b@), None => None::<Seq<u8>> };
            assert(call_read(t0, pts, dpc, op, arg) && exit_code_spec(op, arg, bk) == code);
            HaltOutcome::Exit(code)
        },
        SemihostCall::Write0 => {
            let s = read_cstr(dm, arg);
            let ghost t7 = dm.trace();
            resume_past(dm, dpc);
            assert(resumed_past(t7, dm.trace(), dpc));
            HaltOutcome::Output(s)
        },
        SemihostCall::WriteC => {
            let mut out: Vec<u8> = Vec::new();
            match dm.read_mem(arg, 1) {
                Ok(c) => {
                    assert(bytes_read(added(t6, dm.trace()), arg, 1, c@));
                    if c.len() > 0 {
                        out.push(c[0]);
                    }
                    assert(out@ =~= c@);
                },
                Err(_) => {},
            }
            let ghost t7 = dm.trace();
            resume_past(dm, dpc);
            assert(resumed_past(t7, dm.trace(), dpc));
            HaltOutcome::Output(out)
        },
        SemihostCall::Ignored => {
            resume_past(dm, dpc);
            assert(resumed_past(t6, dm.trace(), dpc));
            HaltOutcome::Skipped
        },
    }
}

} // verus!
