//! Access to a RISC-V Debug Module over a Debug Transport Module.

use vstd::prelude::*;

use crate::text::{push_str, string_of};

verus! {

/// What one DMI access did, as recorded in a transport's trace.
pub enum DmiOp {
    /// A register read; `value` is None when the read failed.
    Read { addr: u8, value: Option<u32> },
    /// A register write and whether it went through.
    Write { addr: u8, value: u32, ok: bool },
    /// A nop and whether it went through.
    Nop { ok: bool },
}

/// A named register for register access.
#[derive(Debug, Clone, Copy, PartialEq, Eq, Structural)]
pub enum RegName {
    /// General-purpose register x0..x31 (abstract regno 0x1000 + n).
    Gpr(u8),
    /// Program counter, read as CSR dpc (0x7b1).
    Pc,
    /// Control/status register by number.
    Csr(u16),
}

/// The abstract-command register number of a register.
pub open spec fn regno_of(reg: RegName) -> u16 {
    match reg {
        RegName::Gpr(n) => (0x1000 + n) as u16,
        RegName::Pc => 0x7b1,
        RegName::Csr(c) => c,
    }
}

impl RegName {
    /// The abstract-command register number.
    pub fn abstract_regno(self) -> (r: u16)
        ensures
            r == regno_of(self),
    {
        match self {
            RegName::Gpr(n) => 0x1000 + n as u16,
            RegName::Pc => 0x7b1,
            RegName::Csr(c) => c,
        }
    }
}

/// Failures of a Debug Module operation.
#[derive(Debug)]
pub enum DmiError {
    Transport(String),
    OperationFailed(String),
    Timeout,
    Cancelled,
}

impl DmiError {
    /// How the error reads in a message.
    pub open spec fn text(&self) -> Seq<char> {
        match self {
            DmiError::Transport(m) => "transport error: "@ + m@,
            DmiError::OperationFailed(m) => "dmi operation failed (op state: "@ + m@ + ")"@,
            DmiError::Timeout => "timeout"@,
            DmiError::Cancelled => "cancelled"@,
        }
    }

    pub fn message(&self) -> (s: String)
        ensures
            s@ == self.text(),
    {
        let mut v: Vec<char> = Vec::new();
        match self {
            DmiError::Transport(m) => {
                push_str(&mut v, "transport error: ");
                push_str(&mut v, m.as_str());
            },
            DmiError::OperationFailed(m) => {
                push_str(&mut v, "dmi operation failed (op state: ");
                push_str(&mut v, m.as_str());
                push_str(&mut v, ")");
            },
            DmiError::Timeout => push_str(&mut v, "timeout"),
            DmiError::Cancelled => push_str(&mut v, "cancelled"),
        }
        string_of(v.as_slice())
    }
}

/// Minimal access to the DTM, implemented by probe backends. `trace` is the history of DMI
/// accesses, which every operation extends by exactly the access it made.
pub trait DtmAccess {
    spec fn trace(&self) -> Seq<DmiOp>;

    /// DMI register read.
    fn dmi_read(&mut self, addr: u8) -> (r: Result<u32, DmiError>)
        ensures
            final(self).trace() == old(self).trace().push(
                DmiOp::Read { addr: addr, value: match r { Ok(v) => Some(v), Err(_) => None } },
            ),
    ;

    /// DMI register write.
    fn dmi_write(&mut self, addr: u8, value: u32) -> (r: Result<(), DmiError>)
        ensures
            final(self).trace() == old(self).trace().push(
                DmiOp::Write { addr: addr, value: value, ok: r is Ok },
            ),
    ;

    /// DMI nop.
    fn dmi_nop(&mut self) -> (r: Result<(), DmiError>)
        ensures
            final(self).trace() == old(self).trace().push(DmiOp::Nop { ok: r is Ok }),
    ;
}

// Debug Module register addresses (DMI address space).
pub const DMDATA0: u8 = 0x04;
pub const DMDATA1: u8 = 0x05;
pub const DMCONTROL: u8 = 0x10;
pub const DMSTATUS: u8 = 0x11;
pub const DMABSTRACTCS: u8 = 0x16;
pub const DMCOMMAND: u8 = 0x17;
pub const DMPROGBUF0: u8 = 0x20;
pub const DMPROGBUF1: u8 = 0x21;

// DMSTATUS bit masks.
pub const DMSTATUS_ALLRUNNING: u32 = 0x800;
pub const DMSTATUS_ANYRUNNING: u32 = 0x400;
pub const DMSTATUS_ALLHALTED: u32 = 0x200;
pub const DMSTATUS_ANYHALTED: u32 = 0x100;

// ABSTRACTCS fields.
pub const ABSTRACTCS_BUSY: u32 = 0x1000;
pub const ABSTRACTCS_CMDERR_SHIFT: u32 = 8;
pub const ABSTRACTCS_CMDERR_MASK: u32 = 0x700;

/// A write that went through.
pub open spec fn wr(addr: u8, value: u32) -> DmiOp {
    DmiOp::Write { addr: addr, value: value, ok: true }
}

/// A read that returned `value`.
pub open spec fn rd(addr: u8, value: u32) -> DmiOp {
    DmiOp::Read { addr: addr, value: Some(value) }
}

/// `new` is `old` with more accesses appended.
pub open spec fn grows(old: Seq<DmiOp>, new: Seq<DmiOp>) -> bool {
    old.len() <= new.len() && new.take(old.len() as int) == old
}

pub broadcast proof fn lemma_grows_refl(a: Seq<DmiOp>)
    ensures
        #[trigger] grows(a, a),
{
    assert(a.take(a.len() as int) =~= a);
}

pub broadcast proof fn lemma_grows_push(a: Seq<DmiOp>, b: Seq<DmiOp>, op: DmiOp)
    requires
        grows(a, b),
    ensures
        #[trigger] grows(a, b.push(op)),
{
    assert(b.push(op).take(a.len() as int) =~= b.take(a.len() as int));
}

pub broadcast proof fn lemma_grows_trans(a: Seq<DmiOp>, b: Seq<DmiOp>, c: Seq<DmiOp>)
    requires
        #[trigger] grows(a, b),
        #[trigger] grows(b, c),
    ensures
        grows(a, c),
{
    assert(c.take(a.len() as int) =~= c.take(b.len() as int).take(a.len() as int));
}

/// A grown trace is the old one followed by what was added.
pub proof fn lemma_grows_split(a: Seq<DmiOp>, b: Seq<DmiOp>)
    requires
        grows(a, b),
    ensures
        b =~= a + added(a, b),
{
    assert(b =~= b.take(a.len() as int) + b.skip(a.len() as int));
}

/// `a + ext` grows `a` by exactly `ext`.
pub proof fn lemma_grows_by(a: Seq<DmiOp>, ext: Seq<DmiOp>)
    ensures
        grows(a, a + ext),
        added(a, a + ext) =~= ext,
{
    assert((a + ext).take(a.len() as int) =~= a);
}

pub broadcast group group_grows {
    lemma_grows_refl,
    lemma_grows_push,
    lemma_grows_trans,
}

/// The accesses appended to `old` to give `new`.
pub open spec fn added(old: Seq<DmiOp>, new: Seq<DmiOp>) -> Seq<DmiOp> {
    new.skip(old.len() as int)
}

/// The abstract-command error field of an ABSTRACTCS value.
pub open spec fn cmderr_of(cs: u32) -> u32 {
    (cs & ABSTRACTCS_CMDERR_MASK) >> ABSTRACTCS_CMDERR_SHIFT
}

/// A DMI transfer that failed: the transport returned no value for a read, or did not
/// acknowledge a write or an idle cycle; or an ABSTRACTCS read that found the abstract command
/// finished with an error code (cmderr). Busy polls and status reads are ordinary traffic and
/// are not faults.
pub open spec fn dm_fault(op: DmiOp) -> bool {
    match op {
        DmiOp::Read { addr, value } => match value {
            None => true,
            Some(v) => addr == DMABSTRACTCS && v & ABSTRACTCS_BUSY == 0 && cmderr_of(v) != 0,
        },
        DmiOp::Write { ok, .. } => !ok,
        DmiOp::Nop { ok } => !ok,
    }
}

/// Positions `i .. i + 64` of `t` are ABSTRACTCS reads that all found the command busy: an
/// abstract command that never finished within the poll budget.
pub open spec fn busy_run_at(t: Seq<DmiOp>, i: int) -> bool {
    &&& 0 <= i
    &&& i + 64 <= t.len()
    &&& forall|k: int| 0 <= k < 64 ==> is_busy_read(#[trigger] t[i + k])
}

/// From position `n` of trace `t` on, the Debug Module could not do its work: a transfer failed,
/// an abstract command reported an error, or one stayed busy for 64 polls in a row.
pub open spec fn faulted_since(n: int, t: Seq<DmiOp>) -> bool {
    ||| exists|i: int| n <= i < t.len() && #[trigger] dm_fault(t[i])
    ||| exists|i: int| n <= i && #[trigger] busy_run_at(t, i)
}

/// A fault in a trace stays one in every trace that grew from it.
pub proof fn lemma_faulted_kept(n: int, a: Seq<DmiOp>, b: Seq<DmiOp>)
    requires
        0 <= n,
        faulted_since(n, a),
        grows(a, b),
    ensures
        faulted_since(n, b),
{
    if exists|i: int| n <= i < a.len() && #[trigger] dm_fault(a[i]) {
        let i = choose|i: int| n <= i < a.len() && #[trigger] dm_fault(a[i]);
        assert(b.take(a.len() as int)[i] == b[i]);
        assert(dm_fault(b[i]));
    } else {
        let i = choose|i: int| n <= i && #[trigger] busy_run_at(a, i);
        assert forall|k: int| 0 <= k < 64 implies is_busy_read(#[trigger] b[i + k]) by {
            assert(b.take(a.len() as int)[i + k] == b[i + k]);
            assert(is_busy_read(a[i + k]));
        }
        assert(busy_run_at(b, i));
    }
}

/// A fault in the accesses appended to `a` is a fault of those accesses on their own.
pub proof fn lemma_faulted_shift(a: Seq<DmiOp>, b: Seq<DmiOp>)
    requires
        grows(a, b),
        faulted_since(a.len() as int, b),
    ensures
        faulted_since(0, added(a, b)),
{
    let n = a.len() as int;
    let x = added(a, b);
    if exists|i: int| n <= i < b.len() && #[trigger] dm_fault(b[i]) {
        let i = choose|i: int| n <= i < b.len() && #[trigger] dm_fault(b[i]);
        assert(x[i - n] == b[i]);
        assert(dm_fault(x[i - n]));
    } else {
        let i = choose|i: int| n <= i && #[trigger] busy_run_at(b, i);
        assert forall|k: int| 0 <= k < 64 implies is_busy_read(#[trigger] x[i - n + k]) by {
            assert(x[i - n + k] == b[i + k]);
            assert(is_busy_read(b[i + k]));
        }
        assert(busy_run_at(x, i - n));
    }
}

/// A read of ABSTRACTCS that found the command still busy.
pub open spec fn is_busy_read(op: DmiOp) -> bool {
    op matches DmiOp::Read { addr, value: Some(v) } && addr == DMABSTRACTCS && v & ABSTRACTCS_BUSY != 0
}

/// A successful wait for an abstract command: up to 63 busy reads of ABSTRACTCS, then one that
/// is idle and carries no command error.
pub open spec fn wait_ok(ops: Seq<DmiOp>) -> bool {
    &&& 1 <= ops.len() <= 64
    &&& forall|i: int| 0 <= i < ops.len() - 1 ==> is_busy_read(#[trigger] ops[i])
    &&& ops.last() matches DmiOp::Read { addr, value: Some(v) }
    &&& addr == DMABSTRACTCS
    &&& v & ABSTRACTCS_BUSY == 0
    &&& cmderr_of(v) == 0
}

/// The accesses of one word load through the program buffer (`lw x6, 0(x5)`).
pub open spec fn read32_ops(addr: u32, value: u32, w1: Seq<DmiOp>, w2: Seq<DmiOp>) -> Seq<DmiOp> {
    seq![
        wr(DMPROGBUF0, 0x0002_a303),
        wr(DMPROGBUF1, 0x0010_0073),
        wr(DMDATA0, addr),
        wr(DMABSTRACTCS, ABSTRACTCS_CMDERR_MASK),
        wr(DMCOMMAND, 0x0027_1005),
    ] + w1 + seq![wr(DMCOMMAND, 0x0022_1006)] + w2 + seq![rd(DMDATA0, value)]
}

/// The accesses of one store through the program buffer: `insn` is `sw x7, 0(x5)` (0x0072a023)
/// or `sh x7, 0(x5)` (0x00729023).
pub open spec fn store_ops(insn: u32, addr: u32, data: u32, w1: Seq<DmiOp>, w2: Seq<DmiOp>) -> Seq<DmiOp> {
    seq![
        wr(DMPROGBUF0, insn),
        wr(DMPROGBUF1, 0x0010_0073),
        wr(DMDATA0, addr),
        wr(DMABSTRACTCS, ABSTRACTCS_CMDERR_MASK),
        wr(DMCOMMAND, 0x0023_1005),
    ] + w1 + seq![
        wr(DMDATA0, data),
        wr(DMABSTRACTCS, ABSTRACTCS_CMDERR_MASK),
        wr(DMCOMMAND, 0x0027_1007),
    ] + w2
}

/// One Debug Module operation: a memory access through the program buffer or an
/// abstract-register access.
pub enum DmOp {
    Read32 { addr: u32, value: u32 },
    Write32 { addr: u32, value: u32 },
    Write16 { addr: u32, value: u16 },
    RegRead { regno: u16, value: u32 },
    RegWrite { regno: u16, value: u32 },
}

/// The accesses of an abstract register read (transfer, read).
pub open spec fn reg_read_ops(regno: u16, value: u32, w: Seq<DmiOp>) -> Seq<DmiOp> {
    seq![
        wr(DMABSTRACTCS, ABSTRACTCS_CMDERR_MASK),
        wr(DMDATA0, 0),
        wr(DMCOMMAND, 0x0022_0000u32 | (regno as u32)),
    ] + w + seq![rd(DMDATA0, value)]
}

/// The accesses of an abstract register write (transfer, write).
pub open spec fn reg_write_ops(regno: u16, value: u32, w: Seq<DmiOp>) -> Seq<DmiOp> {
    seq![
        wr(DMABSTRACTCS, ABSTRACTCS_CMDERR_MASK),
        wr(DMDATA0, value),
        wr(DMCOMMAND, 0x0023_0000u32 | (regno as u32)),
    ] + w
}

pub open spec fn is_reg_read(ops: Seq<DmiOp>, regno: u16, value: u32) -> bool {
    exists|w: Seq<DmiOp>| wait_ok(w) && ops == #[trigger] reg_read_ops(regno, value, w)
}

pub open spec fn is_reg_write(ops: Seq<DmiOp>, regno: u16, value: u32) -> bool {
    exists|w: Seq<DmiOp>| wait_ok(w) && ops == #[trigger] reg_write_ops(regno, value, w)
}

/// `ops` is one word load of `value` from `addr`.
pub open spec fn is_read32(ops: Seq<DmiOp>, addr: u32, value: u32) -> bool {
    exists|w1: Seq<DmiOp>, w2: Seq<DmiOp>|
        wait_ok(w1) && wait_ok(w2) && ops == #[trigger] read32_ops(addr, value, w1, w2)
}

/// `ops` is one program-buffer store with instruction `insn`.
pub open spec fn is_store(ops: Seq<DmiOp>, insn: u32, addr: u32, data: u32) -> bool {
    exists|w1: Seq<DmiOp>, w2: Seq<DmiOp>|
        wait_ok(w1) && wait_ok(w2) && ops == #[trigger] store_ops(insn, addr, data, w1, w2)
}

/// `ops` is how the Debug Module carries out one memory access.
pub open spec fn realizes(ops: Seq<DmiOp>, m: DmOp) -> bool {
    match m {
        DmOp::Read32 { addr, value } => is_read32(ops, addr, value),
        DmOp::Write32 { addr, value } => is_store(ops, 0x0072_a023, addr, value),
        DmOp::Write16 { addr, value } => is_store(ops, 0x0072_9023, addr, value as u32),
        DmOp::RegRead { regno, value } => is_reg_read(ops, regno, value),
        DmOp::RegWrite { regno, value } => is_reg_write(ops, regno, value),
    }
}

/// The concatenation of a sequence of access runs.
pub open spec fn flat(segs: Seq<Seq<DmiOp>>) -> Seq<DmiOp>
    decreases segs.len(),
{
    if segs.len() == 0 {
        Seq::empty()
    } else {
        flat(segs.drop_last()) + segs.last()
    }
}

/// `ops` carries out the memory accesses `ms`, one after another.
pub open spec fn realizes_all(ops: Seq<DmiOp>, ms: Seq<DmOp>) -> bool {
    exists|segs: Seq<Seq<DmiOp>>|
        segs.len() == ms.len() && ops == #[trigger] flat(segs)
            && forall|i: int| 0 <= i < ms.len() ==> realizes(#[trigger] segs[i], ms[i])
}

pub proof fn lemma_realizes_nothing()
    ensures
        realizes_all(Seq::empty(), Seq::empty()),
{
    let segs = Seq::<Seq<DmiOp>>::empty();
    assert(flat(segs) =~= Seq::<DmiOp>::empty());
}

pub proof fn lemma_realizes_push(o1: Seq<DmiOp>, m1: Seq<DmOp>, o2: Seq<DmiOp>, m: DmOp)
    requires
        realizes_all(o1, m1),
        realizes(o2, m),
    ensures
        realizes_all(o1 + o2, m1.push(m)),
{
    let segs = choose|segs: Seq<Seq<DmiOp>>|
        segs.len() == m1.len() && o1 == #[trigger] flat(segs)
            && forall|i: int| 0 <= i < m1.len() ==> realizes(#[trigger] segs[i], m1[i]);
    let segs2 = segs.push(o2);
    assert(segs2.drop_last() =~= segs);
    assert(flat(segs2) == o1 + o2);
    assert forall|i: int| 0 <= i < m1.push(m).len() implies realizes(#[trigger] segs2[i], m1.push(m)[i]) by {
        if i < m1.len() {
            assert(segs2[i] == segs[i]);
        }
    }
}

/// Extend a realized log by one more operation carried out after it.
pub proof fn lemma_log_step(
    t0: Seq<DmiOp>,
    t1: Seq<DmiOp>,
    t2: Seq<DmiOp>,
    log: Seq<DmOp>,
    m: DmOp,
)
    requires
        grows(t0, t1),
        realizes_all(added(t0, t1), log),
        grows(t1, t2),
        realizes(added(t1, t2), m),
    ensures
        grows(t0, t2),
        realizes_all(added(t0, t2), log.push(m)),
{
    lemma_grows_split(t0, t1);
    lemma_grows_split(t1, t2);
    lemma_realizes_push(added(t0, t1), log, added(t1, t2), m);
    assert(t2 =~= t0 + (added(t0, t1) + added(t1, t2)));
    lemma_grows_by(t0, added(t0, t1) + added(t1, t2));
}

/// Extend a realized log by a run of operations carried out after it.
pub proof fn lemma_log_concat(
    t0: Seq<DmiOp>,
    t1: Seq<DmiOp>,
    t2: Seq<DmiOp>,
    log: Seq<DmOp>,
    more: Seq<DmOp>,
)
    requires
        grows(t0, t1),
        realizes_all(added(t0, t1), log),
        grows(t1, t2),
        realizes_all(added(t1, t2), more),
    ensures
        grows(t0, t2),
        realizes_all(added(t0, t2), log + more),
{
    lemma_grows_split(t0, t1);
    lemma_grows_split(t1, t2);
    lemma_realizes_concat(added(t0, t1), log, added(t1, t2), more);
    assert(t2 =~= t0 + (added(t0, t1) + added(t1, t2)));
    lemma_grows_by(t0, added(t0, t1) + added(t1, t2));
}

/// Start a log with nothing done yet.
pub proof fn lemma_log_start(t0: Seq<DmiOp>)
    ensures
        grows(t0, t0),
        realizes_all(added(t0, t0), Seq::empty()),
{
    lemma_grows_by(t0, Seq::empty());
    assert(t0 + Seq::<DmiOp>::empty() =~= t0);
    lemma_realizes_nothing();
}

pub proof fn lemma_realizes_single(o: Seq<DmiOp>, m: DmOp)
    requires
        realizes(o, m),
    ensures
        realizes_all(o, seq![m]),
{
    lemma_realizes_nothing();
    lemma_realizes_push(Seq::empty(), Seq::empty(), o, m);
    assert(Seq::<DmiOp>::empty() + o =~= o);
    assert(Seq::<DmOp>::empty().push(m) =~= seq![m]);
}

pub proof fn lemma_realizes_concat(o1: Seq<DmiOp>, m1: Seq<DmOp>, o2: Seq<DmiOp>, m2: Seq<DmOp>)
    requires
        realizes_all(o1, m1),
        realizes_all(o2, m2),
    ensures
        realizes_all(o1 + o2, m1 + m2),
    decreases m2.len(),
{
    let segs = choose|segs: Seq<Seq<DmiOp>>|
        segs.len() == m2.len() && o2 == #[trigger] flat(segs)
            && forall|i: int| 0 <= i < m2.len() ==> realizes(#[trigger] segs[i], m2[i]);
    if m2.len() == 0 {
        assert(o2 =~= Seq::<DmiOp>::empty());
        assert(o1 + o2 =~= o1);
        assert(m1 + m2 =~= m1);
    } else {
        let sp = segs.drop_last();
        let mp = m2.drop_last();
        assert(flat(sp) == flat(segs.drop_last()));
        assert forall|i: int| 0 <= i < mp.len() implies realizes(#[trigger] sp[i], mp[i]) by {
            assert(sp[i] == segs[i]);
        }
        assert(realizes_all(flat(sp), mp));
        lemma_realizes_concat(o1, m1, flat(sp), mp);
        assert(realizes(segs.last(), m2.last()));
        lemma_realizes_push(o1 + flat(sp), m1 + mp, segs.last(), m2.last());
        assert(o1 + flat(sp) + segs.last() =~= o1 + o2);
        assert((m1 + mp).push(m2.last()) =~= m1 + m2);
    }
}

} // verus!
