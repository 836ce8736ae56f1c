//! `dbg regs` and `dbg step`: reading the general-purpose registers of a halted hart (only x0..x15
//! on an RV32E core, which faults on the others) and the pc, the listing they print, and single
//! steps repeated a given number of times.

use vstd::prelude::*;

use crate::dm::{stepped, DebugModule};
use crate::dmi::{added, grows, group_grows, lemma_log_concat, lemma_log_start, lemma_log_step, realizes, realizes_all, regno_of, DmOp, DmiError, DmiOp, DtmAccess, RegName};
use crate::dump::pad_right;
use crate::text::{dec, hex_fixed, push_dec, push_hex_fixed, push_str, string_of};

verus! {

broadcast use group_grows;

/// The `misa` CSR.
pub const MISA: u16 = 0x301;

/// The ABI name of register `x<i>`.
pub open spec fn abi_spec(i: int) -> Seq<char> {
    seq![
        "zero"@, "ra"@, "sp"@, "gp"@, "tp"@, "t0"@, "t1"@, "t2"@, "s0"@, "s1"@, "a0"@, "a1"@, "a2"@,
        "a3"@, "a4"@, "a5"@, "a6"@, "a7"@, "s2"@, "s3"@, "s4"@, "s5"@, "s6"@, "s7"@, "s8"@, "s9"@,
        "s10"@, "s11"@, "t3"@, "t4"@, "t5"@, "t6"@,
    ][i]
}

pub fn abi_name(i: usize) -> (s: &'static str)
    requires
        i < 32,
    ensures
        s@ == abi_spec(i as int),
{
    let names: [&'static str; 32] = [
        "zero", "ra", "sp", "gp", "tp", "t0", "t1", "t2", "s0", "s1", "a0", "a1", "a2", "a3", "a4",
        "a5", "a6", "a7", "s2", "s3", "s4", "s5", "s6", "s7", "s8", "s9", "s10", "s11", "t3", "t4",
        "t5", "t6",
    ];
    names[i]
}

/// The registers `dbg regs` read: x0 upward (16 on RV32E, else 32) and the pc when it could be read.
#[derive(Debug, Clone)]
pub struct RegDump {
    /// misa, when it could be read.
    pub misa: Option<u32>,
    pub gprs: Vec<u32>,
    pub pc: Option<u32>,
}

/// misa reports the E extension (bit 4): an RV32E core.
pub open spec fn is_rv32e(misa: u32) -> bool {
    misa & 0x10 != 0
}

/// The reads of x0..x(n-1) giving `vals`.
pub open spec fn gpr_reads(vals: Seq<u32>) -> Seq<DmOp> {
    Seq::new(vals.len(), |i: int| DmOp::RegRead { regno: regno_of(RegName::Gpr(i as u8)), value: vals[i] })
}

/// Read the GPRs and the pc of a halted hart. misa is read first: with the E bit set only x0..x15
/// are read (an unreadable misa reads all 32). A failed GPR read fails the whole read, reporting
/// which register; an unreadable pc is left out.
pub fn read_gprs<T: DtmAccess>(dm: &mut DebugModule<'_, T>) -> (r: Result<RegDump, (u8, DmiError)>)
    ensures
        grows(old(dm).trace(), final(dm).trace()),
        r matches Err((i, _)) ==> i < 32,
        r matches Ok(d) ==> exists|t1: Seq<DmiOp>, t2: Seq<DmiOp>| {
            &&& grows(old(dm).trace(), t1) && grows(t1, t2) && grows(t2, final(dm).trace())
            &&& d.gprs@.len() == (if d.misa matches Some(m) && is_rv32e(m) { 16int } else { 32int })
            &&& d.misa matches Some(m) ==> realizes(added(old(dm).trace(), t1), DmOp::RegRead { regno: MISA, value: m })
            &&& realizes_all(added(t1, t2), gpr_reads(d.gprs@))
            &&& d.pc matches Some(v) ==> realizes(added(t2, final(dm).trace()), DmOp::RegRead { regno: regno_of(RegName::Pc), value: v })
        },
{
    let ghost t0 = dm.trace();
    let misa = dm.read_reg(RegName::Csr(MISA));
    let ghost t1 = dm.trace();
    let count: u8 = match misa {
        Ok(m) => if m & 0x10 != 0 { 16 } else { 32 },
        Err(_) => 32,
    };
    let misa = match misa {
        Ok(m) => Some(m),
        Err(_) => None,
    };
    proof { assert(regno_of(RegName::Csr(MISA)) == MISA); }
    let mut gprs: Vec<u32> = Vec::new();
    proof {
        lemma_log_start(t1);
        assert(gpr_reads(gprs@) =~= Seq::<DmOp>::empty());
    }
    let mut i: u8 = 0;
    while i < count
        invariant
            i <= count,
            count == 16 || count == 32,
            t0 == old(dm).trace(),
            gprs@.len() == i,
            grows(t0, t1),
            grows(t1, dm.trace()),
            realizes_all(added(t1, dm.trace()), gpr_reads(gprs@)),
        decreases count - i,
    {
        let ghost before = dm.trace();
        match dm.read_reg(RegName::Gpr(i)) {
            Ok(v) => {
                proof {
                    lemma_log_step(t1, before, dm.trace(), gpr_reads(gprs@), DmOp::RegRead { regno: regno_of(RegName::Gpr(i)), value: v });
                    assert(gpr_reads(gprs@.push(v)) =~= gpr_reads(gprs@).push(DmOp::RegRead { regno: regno_of(RegName::Gpr(i)), value: v }));
                }
                gprs.push(v);
            },
            Err(e) => {
                proof {
                    crate::dmi::lemma_grows_trans(t1, before, dm.trace());
                    crate::dmi::lemma_grows_trans(t0, t1, dm.trace());
                }
                return Err((i, e));
            },
        }
        i = i + 1;
    }
    let ghost t2 = dm.trace();
    let pc = match dm.read_reg(RegName::Pc) {
        Ok(v) => Some(v),
        Err(_) => None,
    };
    Ok(RegDump { misa, gprs, pc })
}

/// One listing line: `x<i>` padded to 3 columns, the ABI name padded to 4, the value.
pub open spec fn reg_line(i: int, v: u32) -> Seq<char> {
    "x"@ + pad_right(dec(i as nat), 2) + " "@ + pad_right(abi_spec(i), 4) + " 0x"@ + hex_fixed(v as nat, 8) + "\n"@
}

pub open spec fn reg_lines(gprs: Seq<u32>, k: int) -> Seq<char>
    decreases k,
{
    if k <= 0 { Seq::empty() } else { reg_lines(gprs, k - 1) + reg_line(k - 1, gprs[k - 1]) }
}

/// The `dbg regs` listing: one line per register, then the pc (or that it was unavailable).
pub open spec fn regs_text_spec(gprs: Seq<u32>, pc: Option<u32>) -> Seq<char> {
    reg_lines(gprs, gprs.len() as int) + match pc {
        Some(v) => "pc       0x"@ + hex_fixed(v as nat, 8) + "\n"@,
        None => "pc       (unavailable)\n"@,
    }
}

fn push_padded(out: &mut Vec<char>, s: &[char], w: usize)
    ensures
        final(out)@ == old(out)@ + pad_right(s@, w as nat),
{
    let ghost start = out@;
    let mut k: usize = 0;
    while k < s.len()
        invariant
            k <= s@.len(),
            out@ == start + s@.take(k as int),
        decreases s@.len() - k,
    {
        out.push(s[k]);
        proof { assert(s@.take(k + 1) =~= s@.take(k as int).push(s@[k as int])); }
        k = k + 1;
    }
    proof { assert(s@.take(k as int) =~= s@); }
    let mut n = s.len();
    while n < w
        invariant
            s@.len() <= n <= w || (n == s@.len() && n >= w),
            out@ == start + s@ + Seq::new((n - s@.len()) as nat, |i: int| ' '),
        decreases w - n,
    {
        out.push(' ');
        proof {
            assert(Seq::new((n + 1 - s@.len()) as nat, |i: int| ' ') =~= Seq::new((n - s@.len()) as nat, |i: int| ' ').push(' '));
        }
        n = n + 1;
    }
    proof {
        if s@.len() >= w {
            assert(Seq::new((n - s@.len()) as nat, |i: int| ' ') =~= Seq::<char>::empty());
            assert(out@ =~= start + s@);
        }
    }
}

/// The `dbg regs` listing.
pub fn regs_text(gprs: &[u32], pc: Option<u32>) -> (s: String)
    requires
        gprs@.len() <= 32,
    ensures
        s@ == regs_text_spec(gprs@, pc),
{
    let mut v: Vec<char> = Vec::new();
    let mut k: usize = 0;
    while k < gprs.len()
        invariant
            k <= gprs@.len() <= 32,
            v@ == reg_lines(gprs@, k as int),
        decreases gprs@.len() - k,
    {
        let ghost before = v@;
        push_str(&mut v, "x");
        let mut d: Vec<char> = Vec::new();
        push_dec(&mut d, k as u64);
        push_padded(&mut v, d.as_slice(), 2);
        push_str(&mut v, " ");
        let abi: Vec<char> = crate::text::chars_of(abi_name(k));
        push_padded(&mut v, abi.as_slice(), 4);
        push_str(&mut v, " 0x");
        push_hex_fixed(&mut v, gprs[k] as u64, 8);
        push_str(&mut v, "\n");
        proof { assert(v@ =~= before + reg_line(k as int, gprs@[k as int])); }
        k = k + 1;
    }
    match pc {
        Some(x) => {
            push_str(&mut v, "pc       0x");
            push_hex_fixed(&mut v, x as u64, 8);
            push_str(&mut v, "\n");
        },
        None => push_str(&mut v, "pc       (unavailable)\n"),
    }
    proof {
        let tail = match pc {
            Some(x) => "pc       0x"@ + hex_fixed(x as nat, 8) + "\n"@,
            None => "pc       (unavailable)\n"@,
        };
        assert(v@ =~= reg_lines(gprs@, gprs@.len() as int) + tail);
    }
    string_of(v.as_slice())
}

/// How many single steps `dbg step [n]` takes: `n`, at least one.
pub fn step_count(n: Option<u32>) -> (c: u32)
    ensures
        c == match n { Some(k) => if k < 1 { 1 } else { k }, None => 1 },
{
    match n {
        Some(k) => if k < 1 { 1 } else { k },
        None => 1,
    }
}

/// `ops` are `n` single steps one after another.
pub open spec fn steps(ops: Seq<DmiOp>, n: nat) -> bool
    decreases n,
{
    if n == 0 {
        ops.len() == 0
    } else {
        exists|k: int| 0 <= k <= ops.len() && steps(ops.take(k), (n - 1) as nat)
            && exists|d: u32, pre: Seq<DmiOp>, polls: Seq<DmiOp>, post: Seq<DmiOp>| #[trigger] stepped(ops.skip(k), d, pre, polls, post)
    }
}

/// Single-step a halted hart `count` times, stopping at the first failed step, which is reported
/// by its number (from 1).
pub fn step_n<T: DtmAccess>(dm: &mut DebugModule<'_, T>, count: u32) -> (r: Result<(), (u32, DmiError)>)
    ensures
        r is Ok ==> grows(old(dm).trace(), final(dm).trace()) && steps(added(old(dm).trace(), final(dm).trace()), count as nat),
        r matches Err((i, _)) ==> 1 <= i <= count,
{
    let ghost t0 = dm.trace();
    proof {
        crate::dmi::lemma_grows_refl(t0);
        assert(added(t0, t0) =~= Seq::<DmiOp>::empty());
    }
    let mut i: u32 = 0;
    while i < count
        invariant
            i <= count,
            grows(t0, dm.trace()),
            steps(added(t0, dm.trace()), i as nat),
        decreases count - i,
    {
        let ghost before = dm.trace();
        match dm.step() {
            Ok(()) => {},
            Err(e) => {
                return Err((i + 1, e));
            },
        }
        proof {
            let after = dm.trace();
            let ops = added(t0, after);
            let k = added(t0, before).len() as int;
            assert(ops.take(k) =~= added(t0, before));
            assert(ops.skip(k) =~= added(before, after));
            let (d, pre, polls, post) = choose|d: u32, pre: Seq<DmiOp>, polls: Seq<DmiOp>, post: Seq<DmiOp>|
                #[trigger] stepped(added(before, after), d, pre, polls, post);
            assert(stepped(ops.skip(k), d, pre, polls, post));
            assert(steps(ops, (i + 1) as nat));
        }
        i = i + 1;
    }
    Ok(())
}

} // verus!
