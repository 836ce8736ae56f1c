//! The RISC-V Debug Module driver: hart control, abstract registers, memory access through the
//! program buffer, the DMDATA mailboxes and direct FLASH-controller programming, all over a
//! [`DtmAccess`] transport.

use vstd::prelude::*;

use crate::dmseq::{le_word, word_byte, lemma_word_bytes};
use crate::dmi::{
    faulted_since, dm_fault, busy_run_at, lemma_faulted_kept, lemma_faulted_shift, DmiOp, DmiError, DtmAccess, DMDATA0, DMDATA1, DMCONTROL, DMSTATUS, DMABSTRACTCS, DMCOMMAND, DMPROGBUF0, DMPROGBUF1, DMSTATUS_ALLRUNNING, DMSTATUS_ANYRUNNING, DMSTATUS_ALLHALTED, DMSTATUS_ANYHALTED, ABSTRACTCS_BUSY, ABSTRACTCS_CMDERR_SHIFT, ABSTRACTCS_CMDERR_MASK, wr, rd, grows, lemma_grows_refl, lemma_grows_push, lemma_grows_trans, lemma_grows_split, lemma_grows_by, group_grows, added, cmderr_of, is_busy_read, wait_ok, read32_ops, store_ops, DmOp, realizes, is_read32, is_reg_read, is_reg_write, reg_read_ops, reg_write_ops, RegName, regno_of, is_store, flat, realizes_all, lemma_realizes_nothing, lemma_realizes_push, lemma_realizes_single, lemma_realizes_concat, lemma_log_step, lemma_log_start, lemma_log_concat,
};

verus! {

broadcast use group_grows;

pub struct DebugModule<'a, T: DtmAccess> {
    dtm: &'a mut T,
}

/// Whether a DMSTATUS value reports the hart halted (all and any).
pub open spec fn status_halted(s: u32) -> bool {
    s & DMSTATUS_ALLHALTED != 0 && s & DMSTATUS_ANYHALTED != 0
}

/// Whether a DMSTATUS value reports the hart running (all and any).
pub open spec fn status_running(s: u32) -> bool {
    s & DMSTATUS_ALLRUNNING != 0 && s & DMSTATUS_ANYRUNNING != 0
}

/// `ops` is exactly one successful read of `addr`, whose value satisfies `p`.
pub open spec fn one_read(ops: Seq<DmiOp>, addr: u8) -> bool {
    &&& ops.len() == 1
    &&& ops[0] matches DmiOp::Read { addr: a, value: Some(_) }
    &&& a == addr
}

/// The value of a successful read.
pub open spec fn read_value(op: DmiOp) -> u32 {
    match op {
        DmiOp::Read { value: Some(v), .. } => v,
        _ => 0,
    }
}

/// A write to DMCONTROL (a halt, resume or reset request).
pub open spec fn ctl_write(op: DmiOp) -> bool {
    op matches DmiOp::Write { addr, .. } && addr == DMCONTROL
}

/// From position `n` of `t` on, nothing was written to DMCONTROL: the hart was neither halted
/// nor resumed.
pub open spec fn quiet_since(n: int, t: Seq<DmiOp>) -> bool {
    forall|i: int| n <= i < t.len() ==> !ctl_write(#[trigger] t[i])
}

proof fn lemma_quiet_join(n: int, a: Seq<DmiOp>, b: Seq<DmiOp>)
    requires
        0 <= n <= a.len(),
        quiet_since(n, a),
        grows(a, b),
        quiet_since(a.len() as int, b),
    ensures
        quiet_since(n, b),
{
    assert forall|i: int| n <= i < b.len() implies !ctl_write(#[trigger] b[i]) by {
        if i < a.len() {
            assert(b.take(a.len() as int)[i] == b[i]);
        }
    }
}

impl<'a, T: DtmAccess> DebugModule<'a, T> {
    pub closed spec fn trace(&self) -> Seq<DmiOp> {
        self.dtm.trace()
    }

    pub fn new(dtm: &'a mut T) -> (dm: Self)
        ensures
            dm.trace() == old(dtm).trace(),
    {
        DebugModule { dtm }
    }

    pub(crate) fn write(&mut self, addr: u8, value: u32) -> (r: Result<(), DmiError>)
        ensures
            final(self).trace() == old(self).trace().push(
                DmiOp::Write { addr: addr, value: value, ok: r is Ok },
            ),
            r is Err ==> faulted_since(old(self).trace().len() as int, final(self).trace()),
    {
        let r = self.dtm.dmi_write(addr, value);
        proof {
            if r is Err {
                assert(dm_fault(self.trace()[old(self).trace().len() as int]));
            }
        }
        r
    }

    pub(crate) fn read(&mut self, addr: u8) -> (r: Result<u32, DmiError>)
        ensures
            final(self).trace() == old(self).trace().push(
                DmiOp::Read { addr: addr, value: match r { Ok(v) => Some(v), Err(_) => None } },
            ),
            r is Err ==> faulted_since(old(self).trace().len() as int, final(self).trace()),
    {
        let r = self.dtm.dmi_read(addr);
        proof {
            if r is Err {
                assert(dm_fault(self.trace()[old(self).trace().len() as int]));
            }
        }
        r
    }

    /// Raw DMI read for diagnostics.
    pub fn raw_dmi_read(&mut self, addr: u8) -> (r: Result<u32, DmiError>)
        ensures
            final(self).trace() == old(self).trace().push(
                DmiOp::Read { addr: addr, value: match r { Ok(v) => Some(v), Err(_) => None } },
            ),
    {
        self.read(addr)
    }

    /// Clear a sticky abstract-command error (cmderr) by writing 1s to the field.
    fn clear_cmderr(&mut self) -> (r: Result<(), DmiError>)
        ensures
            final(self).trace() == old(self).trace().push(
                DmiOp::Write { addr: DMABSTRACTCS, value: ABSTRACTCS_CMDERR_MASK, ok: r is Ok },
            ),
            r is Err ==> faulted_since(old(self).trace().len() as int, final(self).trace()),
    {
        self.write(DMABSTRACTCS, ABSTRACTCS_CMDERR_MASK)
    }

    /// Wait until the abstract command is no longer busy, then surface cmderr.
    fn wait_abstract(&mut self) -> (r: Result<(), DmiError>)
        ensures
            old(self).trace().len() <= final(self).trace().len(),
            r is Err ==> faulted_since(old(self).trace().len() as int, final(self).trace()),
            grows(old(self).trace(), final(self).trace()),
            r is Ok ==> wait_ok(added(old(self).trace(), final(self).trace())),
            quiet_since(old(self).trace().len() as int, final(self).trace()),
    {
        let ghost t0 = self.trace();
        assert(grows(t0, t0));
        assert(added(t0, t0) =~= Seq::<DmiOp>::empty());
        let mut i: u32 = 0;
        while i < 64
            invariant
                i <= 64,
                t0 == old(self).trace(),
                grows(t0, self.trace()),
                added(t0, self.trace()).len() == i,
                forall|j: int| 0 <= j < i ==> is_busy_read(#[trigger] added(t0, self.trace())[j]),
                quiet_since(t0.len() as int, self.trace()),
            decreases 64 - i,
        {
            let ghost before = self.trace();
            let cs = self.read(DMABSTRACTCS)?;
            proof {
                lemma_grows_split(t0, before);
                assert(self.trace() =~= t0 + added(t0, before).push(rd(DMABSTRACTCS, cs)));
                lemma_grows_by(t0, added(t0, before).push(rd(DMABSTRACTCS, cs)));
            }
            if cs & ABSTRACTCS_BUSY == 0 {
                let cmderr = (cs & ABSTRACTCS_CMDERR_MASK) >> ABSTRACTCS_CMDERR_SHIFT;
                if cmderr != 0 {
                    let ghost k = before.len() as int;
                    proof {
                        assert(self.trace()[k] == rd(DMABSTRACTCS, cs));
                        assert(dm_fault(self.trace()[k]));
                    }
                    let ghost mid = self.trace();
                    self.clear_cmderr()?;
                    proof {
                        assert(self.trace()[k] == mid[k]);
                        assert(dm_fault(self.trace()[k]));
                    }
                    return Err(DmiError::OperationFailed(crate::text::with_number("cmderr ", cmderr as u64)));
                }
                return Ok(());
            }
            i = i + 1;
        }
        proof {
            let k = t0.len() as int;
            assert forall|j: int| 0 <= j < 64 implies is_busy_read(#[trigger] self.trace()[k + j]) by {
                assert(added(t0, self.trace())[j] == self.trace()[k + j]);
            }
            assert(busy_run_at(self.trace(), k));
        }
        Err(DmiError::Timeout)
    }

    /// Read one 32-bit word of target memory through the program buffer (`lw x6, 0(x5)`). The
    /// hart must be halted.
    pub fn read_mem32(&mut self, addr: u32) -> (r: Result<u32, DmiError>)
        ensures
            old(self).trace().len() <= final(self).trace().len(),
            r is Err ==> faulted_since(old(self).trace().len() as int, final(self).trace()),
            grows(old(self).trace(), final(self).trace()),
            r matches Ok(v) ==> realizes(
                added(old(self).trace(), final(self).trace()),
                DmOp::Read32 { addr: addr, value: v },
            ),
    {
        let ghost t0 = self.trace();
        self.write(DMPROGBUF0, 0x0002_a303)?;
        self.write(DMPROGBUF1, 0x0010_0073)?;
        self.write(DMDATA0, addr)?;
        self.clear_cmderr()?;
        self.write(DMCOMMAND, 0x0027_1005)?;
        let ghost t1 = self.trace();
        assert(grows(t0, t1));
        self.wait_abstract()?;
        let ghost w1 = added(t1, self.trace());
        let ghost t2 = self.trace();
        assert(grows(t0, t2));
        self.write(DMCOMMAND, 0x0022_1006)?;
        let ghost t3 = self.trace();
        assert(grows(t0, t3));
        self.wait_abstract()?;
        let ghost w2 = added(t3, self.trace());
        proof {
            lemma_grows_split(t3, self.trace());
        }
        assert(grows(t0, self.trace()));
        let v = self.read(DMDATA0)?;
        proof {
            lemma_grows_split(t1, t2);
            assert(self.trace() =~= t0 + read32_ops(addr, v, w1, w2));
            lemma_grows_by(t0, read32_ops(addr, v, w1, w2));
            assert(wait_ok(w1));
            assert(wait_ok(w2));
            assert(added(t0, self.trace()) == read32_ops(addr, v, w1, w2));
            assert(is_read32(added(t0, self.trace()), addr, v));
        }
        Ok(v)
    }

    /// One program-buffer store of `data` to `addr` with the store instruction `insn`.
    fn store(&mut self, insn: u32, addr: u32, data: u32) -> (r: Result<(), DmiError>)
        ensures
            old(self).trace().len() <= final(self).trace().len(),
            r is Err ==> faulted_since(old(self).trace().len() as int, final(self).trace()),
            r is Ok ==> grows(old(self).trace(), final(self).trace()),
            r is Ok ==> is_store(added(old(self).trace(), final(self).trace()), insn, addr, data),
    {
        let ghost t0 = self.trace();
        self.write(DMPROGBUF0, insn)?;
        self.write(DMPROGBUF1, 0x0010_0073)?;
        self.write(DMDATA0, addr)?;
        self.clear_cmderr()?;
        self.write(DMCOMMAND, 0x0023_1005)?;
        let ghost t1 = self.trace();
        self.wait_abstract()?;
        let ghost w1 = added(t1, self.trace());
        let ghost t2 = self.trace();
        self.write(DMDATA0, data)?;
        self.clear_cmderr()?;
        self.write(DMCOMMAND, 0x0027_1007)?;
        let ghost t3 = self.trace();
        self.wait_abstract()?;
        let ghost w2 = added(t3, self.trace());
        proof {
            lemma_grows_split(t3, self.trace());
            lemma_grows_split(t1, t2);
            assert(self.trace() =~= t0 + store_ops(insn, addr, data, w1, w2));
            lemma_grows_by(t0, store_ops(insn, addr, data, w1, w2));
            assert(is_store(added(t0, self.trace()), insn, addr, data));
        }
        Ok(())
    }

    /// Read an abstract register (GPR/CSR/PC). The hart must be halted.
    pub fn read_reg(&mut self, reg: RegName) -> (r: Result<u32, DmiError>)
        ensures
            old(self).trace().len() <= final(self).trace().len(),
            r is Err ==> faulted_since(old(self).trace().len() as int, final(self).trace()),
            grows(old(self).trace(), final(self).trace()),
            quiet_since(old(self).trace().len() as int, final(self).trace()),
            r matches Ok(v) ==> realizes(
                added(old(self).trace(), final(self).trace()),
                DmOp::RegRead { regno: regno_of(reg), value: v },
            ),
    {
        let ghost t0 = self.trace();
        self.clear_cmderr()?;
        self.write(DMDATA0, 0)?;
        self.write(DMCOMMAND, 0x0022_0000 | (reg.abstract_regno() as u32))?;
        let ghost t1 = self.trace();
        assert(t1.take(t0.len() as int) =~= t0);
        assert(grows(t0, t1));
        match self.wait_abstract() {
            Ok(()) => {},
            Err(e) => {
                proof { lemma_quiet_join(t0.len() as int, t1, self.trace()); }
                return Err(e);
            },
        }
        proof { lemma_quiet_join(t0.len() as int, t1, self.trace()); }
        let ghost w = added(t1, self.trace());
        proof {
            lemma_grows_split(t1, self.trace());
        }
        let v = self.read(DMDATA0)?;
        proof {
            assert(self.trace() =~= t0 + reg_read_ops(regno_of(reg), v, w));
            lemma_grows_by(t0, reg_read_ops(regno_of(reg), v, w));
            assert(is_reg_read(added(t0, self.trace()), regno_of(reg), v));
        }
        Ok(v)
    }

    /// Write an abstract register (GPR/CSR/PC). The hart must be halted.
    pub fn write_reg(&mut self, reg: RegName, value: u32) -> (r: Result<(), DmiError>)
        ensures
            old(self).trace().len() <= final(self).trace().len(),
            r is Err ==> faulted_since(old(self).trace().len() as int, final(self).trace()),
            grows(old(self).trace(), final(self).trace()),
            quiet_since(old(self).trace().len() as int, final(self).trace()),
            r is Ok ==> realizes(
                added(old(self).trace(), final(self).trace()),
                DmOp::RegWrite { regno: regno_of(reg), value: value },
            ),
    {
        let ghost t0 = self.trace();
        self.clear_cmderr()?;
        self.write(DMDATA0, value)?;
        self.write(DMCOMMAND, 0x0023_0000 | (reg.abstract_regno() as u32))?;
        let ghost t1 = self.trace();
        assert(t1.take(t0.len() as int) =~= t0);
        assert(grows(t0, t1));
        match self.wait_abstract() {
            Ok(()) => {},
            Err(e) => {
                proof { lemma_quiet_join(t0.len() as int, t1, self.trace()); }
                return Err(e);
            },
        }
        proof { lemma_quiet_join(t0.len() as int, t1, self.trace()); }
        let ghost w = added(t1, self.trace());
        proof {
            lemma_grows_split(t1, self.trace());
            assert(self.trace() =~= t0 + reg_write_ops(regno_of(reg), value, w));
            lemma_grows_by(t0, reg_write_ops(regno_of(reg), value, w));
            assert(is_reg_write(added(t0, self.trace()), regno_of(reg), value));
        }
        Ok(())
    }

    /// Write one 32-bit word of target memory through the program buffer (`sw x7, 0(x5)`). The
    /// hart must be halted.
    pub fn write_mem32(&mut self, addr: u32, data: u32) -> (r: Result<(), DmiError>)
        ensures
            old(self).trace().len() <= final(self).trace().len(),
            r is Err ==> faulted_since(old(self).trace().len() as int, final(self).trace()),
            r is Ok ==> grows(old(self).trace(), final(self).trace()),
            r is Ok ==> realizes(
                added(old(self).trace(), final(self).trace()),
                DmOp::Write32 { addr: addr, value: data },
            ),
    {
        self.store(0x0072_a023, addr, data)
    }

    /// Store one 16-bit halfword through the program buffer (`sh x7, 0(x5)`); CH32V103 standard
    /// flash programming latches the controller on each 16-bit store. The hart must be halted.
    pub fn write_mem16(&mut self, addr: u32, data: u16) -> (r: Result<(), DmiError>)
        ensures
            old(self).trace().len() <= final(self).trace().len(),
            r is Err ==> faulted_since(old(self).trace().len() as int, final(self).trace()),
            r is Ok ==> grows(old(self).trace(), final(self).trace()),
            r is Ok ==> realizes(
                added(old(self).trace(), final(self).trace()),
                DmOp::Write16 { addr: addr, value: data },
            ),
    {
        self.store(0x0072_9023, addr, data as u32)
    }

    /// True if the hart is halted (DMSTATUS all- and any-halted).
    pub fn is_halted(&mut self) -> (r: Result<bool, DmiError>)
        ensures
            old(self).trace().len() <= final(self).trace().len(),
            r is Err ==> faulted_since(old(self).trace().len() as int, final(self).trace()),
            grows(old(self).trace(), final(self).trace()),
            added(old(self).trace(), final(self).trace()).len() == 1,
            r matches Ok(b) ==> {
                let ops = added(old(self).trace(), final(self).trace());
                &&& one_read(ops, DMSTATUS)
                &&& b == status_halted(read_value(ops[0]))
            },
    {
        let ghost t0 = self.trace();
        let s = self.read(DMSTATUS)?;
        proof {
            lemma_grows_by(t0, seq![rd(DMSTATUS, s)]);
            assert(self.trace() =~= t0 + seq![rd(DMSTATUS, s)]);
        }
        Ok(s & DMSTATUS_ALLHALTED != 0 && s & DMSTATUS_ANYHALTED != 0)
    }

    /// True if the hart is running (DMSTATUS all- and any-running).
    pub fn is_running(&mut self) -> (r: Result<bool, DmiError>)
        ensures
            old(self).trace().len() <= final(self).trace().len(),
            r is Err ==> faulted_since(old(self).trace().len() as int, final(self).trace()),
            r is Ok ==> grows(old(self).trace(), final(self).trace()),
            r matches Ok(b) ==> {
                let ops = added(old(self).trace(), final(self).trace());
                &&& one_read(ops, DMSTATUS)
                &&& b == status_running(read_value(ops[0]))
            },
    {
        let ghost t0 = self.trace();
        let s = self.read(DMSTATUS)?;
        proof {
            lemma_grows_by(t0, seq![rd(DMSTATUS, s)]);
            assert(self.trace() =~= t0 + seq![rd(DMSTATUS, s)]);
        }
        Ok(s & DMSTATUS_ALLRUNNING != 0 && s & DMSTATUS_ANYRUNNING != 0)
    }

    /// Resume a halted hart (DMCONTROL resumereq).
    pub fn resume(&mut self) -> (r: Result<(), DmiError>)
        ensures
            final(self).trace() == old(self).trace().push(
                DmiOp::Write { addr: DMCONTROL, value: 0x4000_0001, ok: r is Ok },
            ),
            r is Err ==> faulted_since(old(self).trace().len() as int, final(self).trace()),
    {
        self.write(DMCONTROL, 0x4000_0001)
    }

    /// Make `ebreak` enter Debug Mode (halt) instead of trapping, by setting dcsr
    /// ebreakm/ebreaks/ebreaku. The hart must be halted.
    pub fn enable_ebreak_debug(&mut self) -> (r: Result<(), DmiError>)
        ensures
            old(self).trace().len() <= final(self).trace().len(),
            r is Err ==> faulted_since(old(self).trace().len() as int, final(self).trace()),
            r is Ok ==> grows(old(self).trace(), final(self).trace()),
            r is Ok ==> exists|d: u32| realizes_all(
                added(old(self).trace(), final(self).trace()),
                #[trigger] seq![
                    DmOp::RegRead { regno: DCSR, value: d },
                    DmOp::RegWrite { regno: DCSR, value: d | EBREAK_BITS },
                ],
            ),
    {
        let ghost t0 = self.trace();
        proof { lemma_log_start(t0); }
        let dcsr = self.read_reg(RegName::Csr(DCSR))?;
        let ghost t1 = self.trace();
        proof { lemma_log_step(t0, t0, t1, Seq::empty(), DmOp::RegRead { regno: DCSR, value: dcsr }); }
        self.write_reg(RegName::Csr(DCSR), dcsr | EBREAK_BITS)?;
        proof {
            lemma_log_step(t0, t1, self.trace(), seq![DmOp::RegRead { regno: DCSR, value: dcsr }],
                DmOp::RegWrite { regno: DCSR, value: dcsr | EBREAK_BITS });
            assert(Seq::<DmOp>::empty().push(DmOp::RegRead { regno: DCSR, value: dcsr }) =~= seq![DmOp::RegRead { regno: DCSR, value: dcsr }]);
            assert(seq![DmOp::RegRead { regno: DCSR, value: dcsr }].push(DmOp::RegWrite { regno: DCSR, value: dcsr | EBREAK_BITS })
                =~= seq![DmOp::RegRead { regno: DCSR, value: dcsr }, DmOp::RegWrite { regno: DCSR, value: dcsr | EBREAK_BITS }]);
        }
        Ok(())
    }

    /// Program hardware trigger `slot` as an execute breakpoint at `addr`. The hart must be
    /// halted.
    pub fn set_hw_breakpoint(&mut self, slot: u32, addr: u32) -> (r: Result<(), DmiError>)
        ensures
            old(self).trace().len() <= final(self).trace().len(),
            r is Err ==> faulted_since(old(self).trace().len() as int, final(self).trace()),
            r is Ok ==> grows(old(self).trace(), final(self).trace()),
            r is Ok ==> realizes_all(
                added(old(self).trace(), final(self).trace()),
                seq![
                    DmOp::RegWrite { regno: TSELECT, value: slot },
                    DmOp::RegWrite { regno: TDATA1, value: 0 },
                    DmOp::RegWrite { regno: TDATA2, value: addr },
                    DmOp::RegWrite { regno: TDATA1, value: MCONTROL_EXEC },
                ],
            ),
    {
        let ghost t0 = self.trace();
        proof { lemma_log_start(t0); }
        self.write_reg(RegName::Csr(TSELECT), slot)?;
        let ghost t1 = self.trace();
        let ghost l1 = seq![DmOp::RegWrite { regno: TSELECT, value: slot }];
        proof { lemma_log_step(t0, t0, t1, Seq::empty(), l1.last()); }
        self.write_reg(RegName::Csr(TDATA1), 0)?;
        let ghost t2 = self.trace();
        let ghost l2 = l1.push(DmOp::RegWrite { regno: TDATA1, value: 0 });
        proof { lemma_log_step(t0, t1, t2, l1, l2.last()); }
        self.write_reg(RegName::Csr(TDATA2), addr)?;
        let ghost t3 = self.trace();
        let ghost l3 = l2.push(DmOp::RegWrite { regno: TDATA2, value: addr });
        proof { lemma_log_step(t0, t2, t3, l2, l3.last()); }
        self.write_reg(RegName::Csr(TDATA1), MCONTROL_EXEC)?;
        proof {
            lemma_log_step(t0, t3, self.trace(), l3, DmOp::RegWrite { regno: TDATA1, value: MCONTROL_EXEC });
        }
        Ok(())
    }

    /// Read back a trigger slot's tdata1/tdata2. The hart must be halted.
    pub fn read_trigger(&mut self, slot: u32) -> (r: Result<(u32, u32), DmiError>)
        ensures
            old(self).trace().len() <= final(self).trace().len(),
            r is Err ==> faulted_since(old(self).trace().len() as int, final(self).trace()),
            r is Ok ==> grows(old(self).trace(), final(self).trace()),
            r matches Ok((t1, t2)) ==> realizes_all(
                added(old(self).trace(), final(self).trace()),
                seq![
                    DmOp::RegWrite { regno: TSELECT, value: slot },
                    DmOp::RegRead { regno: TDATA1, value: t1 },
                    DmOp::RegRead { regno: TDATA2, value: t2 },
                ],
            ),
    {
        let ghost t0 = self.trace();
        proof { lemma_log_start(t0); }
        self.write_reg(RegName::Csr(TSELECT), slot)?;
        let ghost s1 = self.trace();
        let ghost l1 = seq![DmOp::RegWrite { regno: TSELECT, value: slot }];
        proof { lemma_log_step(t0, t0, s1, Seq::empty(), l1.last()); }
        let t1 = self.read_reg(RegName::Csr(TDATA1))?;
        let ghost s2 = self.trace();
        let ghost l2 = l1.push(DmOp::RegRead { regno: TDATA1, value: t1 });
        proof { lemma_log_step(t0, s1, s2, l1, l2.last()); }
        let t2 = self.read_reg(RegName::Csr(TDATA2))?;
        proof { lemma_log_step(t0, s2, self.trace(), l2, DmOp::RegRead { regno: TDATA2, value: t2 }); }
        Ok((t1, t2))
    }

    /// Clear hardware trigger `slot`. The hart must be halted.
    pub fn clear_hw_breakpoint(&mut self, slot: u32) -> (r: Result<(), DmiError>)
        ensures
            old(self).trace().len() <= final(self).trace().len(),
            r is Err ==> faulted_since(old(self).trace().len() as int, final(self).trace()),
            r is Ok ==> grows(old(self).trace(), final(self).trace()),
            r is Ok ==> realizes_all(
                added(old(self).trace(), final(self).trace()),
                seq![
                    DmOp::RegWrite { regno: TSELECT, value: slot },
                    DmOp::RegWrite { regno: TDATA1, value: 0 },
                ],
            ),
    {
        let ghost t0 = self.trace();
        proof { lemma_log_start(t0); }
        self.write_reg(RegName::Csr(TSELECT), slot)?;
        let ghost t1 = self.trace();
        let ghost l1 = seq![DmOp::RegWrite { regno: TSELECT, value: slot }];
        proof { lemma_log_step(t0, t0, t1, Seq::empty(), l1.last()); }
        self.write_reg(RegName::Csr(TDATA1), 0)?;
        proof { lemma_log_step(t0, t1, self.trace(), l1, DmOp::RegWrite { regno: TDATA1, value: 0 }); }
        Ok(())
    }

    /// Request a halt and wait for it. Idempotent: a hart already halted only sees the halt
    /// request cleared. Otherwise up to 64 halt requests, each followed by a DMSTATUS read, stop
    /// at the first read showing the hart halted. The result is `Ok` exactly when the DMSTATUS
    /// read after clearing the request shows the hart halted, unless a transfer failed.
    pub fn halt(&mut self) -> (r: Result<(), DmiError>)
        ensures
            old(self).trace().len() <= final(self).trace().len(),
            r is Ok ==> grows(old(self).trace(), final(self).trace()),
            r is Ok ==> {
                let ops = added(old(self).trace(), final(self).trace());
                &&& halt_attempt(ops)
                &&& status_halted(read_value(ops.last()))
            },
            r is Err ==> faulted_since(old(self).trace().len() as int, final(self).trace()) || {
                let ops = added(old(self).trace(), final(self).trace());
                &&& grows(old(self).trace(), final(self).trace())
                &&& halt_attempt(ops)
                &&& !status_halted(read_value(ops.last()))
                &&& r matches Err(DmiError::OperationFailed(_))
            },
    {
        let ghost t0 = self.trace();
        proof { lemma_grows_by(t0, Seq::empty()); assert(t0 + Seq::<DmiOp>::empty() =~= t0); }
        let first = self.is_halted()?;
        let ghost t1 = self.trace();
        let ghost first_op = added(t0, t1)[0];
        proof {
            lemma_grows_split(t0, t1);
        }
        let ghost mut mid: Seq<DmiOp> = Seq::empty();
        proof { assert(t1 + mid =~= t1); }
        if !first {
            let mut i: u32 = 0;
            while i < 64
                invariant_except_break
                    mid.len() == 2 * i,
                    forall|j: int| 0 <= j < mid.len() && j % 2 == 1 ==> !status_halted(read_value(#[trigger] mid[j])),
                invariant
                    i <= 64,
                    t0 == old(self).trace(),
                    t1 == t0.push(first_op),
                    self.trace() == t1 + mid,
                    mid.len() % 2 == 0,
                    forall|j: int| 0 <= j < mid.len() ==> if j % 2 == 0 {
                        #[trigger] mid[j] == wr(DMCONTROL, 0x8000_0001)
                    } else {
                        status_read(mid[j])
                    },
                    forall|j: int| 0 <= j < mid.len() - 2 && j % 2 == 1 ==> !status_halted(read_value(#[trigger] mid[j])),
                ensures
                    self.trace() == t1 + mid,
                    mid.len() % 2 == 0,
                    mid.len() <= 128,
                    forall|j: int| 0 <= j < mid.len() ==> if j % 2 == 0 {
                        #[trigger] mid[j] == wr(DMCONTROL, 0x8000_0001)
                    } else {
                        status_read(mid[j])
                    },
                    forall|j: int| 0 <= j < mid.len() - 2 && j % 2 == 1 ==> !status_halted(read_value(#[trigger] mid[j])),
                    0 < mid.len() < 128 ==> status_halted(read_value(mid.last())),
                decreases 64 - i,
            {
                self.write(DMCONTROL, 0x8000_0001)?;
                let ghost m1 = self.trace();
                let now = self.is_halted()?;
                let ghost op = added(m1, self.trace())[0];
                proof {
                    lemma_grows_split(m1, self.trace());
                    assert(self.trace() =~= t1 + mid.push(wr(DMCONTROL, 0x8000_0001)).push(op));
                    let old_mid = mid;
                    mid = mid.push(wr(DMCONTROL, 0x8000_0001)).push(op);
                    assert forall|j: int| 0 <= j < mid.len() implies if j % 2 == 0 {
                        #[trigger] mid[j] == wr(DMCONTROL, 0x8000_0001)
                    } else {
                        status_read(mid[j])
                    } by {
                        if j < old_mid.len() { assert(mid[j] == old_mid[j]); }
                    }
                    assert forall|j: int| 0 <= j < mid.len() - 2 && j % 2 == 1 implies !status_halted(read_value(#[trigger] mid[j])) by {
                        assert(mid[j] == old_mid[j]);
                    }
                    assert(status_halted(read_value(op)) == now);
                }
                if now {
                    break;
                }
                proof {
                    assert forall|j: int| 0 <= j < mid.len() && j % 2 == 1 implies !status_halted(read_value(#[trigger] mid[j])) by {
                        if j < mid.len() - 2 {
                        } else {
                            assert(j == mid.len() - 1);
                        }
                    }
                }
                i = i + 1;
            }
        }
        let ghost t2 = self.trace();
        self.write(DMCONTROL, 0x0000_0001)?;
        let ghost t3 = self.trace();
        let done = self.is_halted()?;
        let ghost ops = seq![first_op] + mid + seq![wr(DMCONTROL, 1), added(t3, self.trace())[0]];
        proof {
            lemma_grows_split(t3, self.trace());
            assert(self.trace() =~= t0 + ops);
            lemma_grows_by(t0, ops);
            assert(added(t0, self.trace()) =~= ops);
            assert(ops.subrange(1, ops.len() - 2) =~= mid);
            assert(status_halted(read_value(first_op)) == first);
            if first {
                assert(mid.len() == 0);
            }
            assert(halt_attempt(ops));
            assert(status_halted(read_value(ops.last())) == done);
        }
        if done {
            Ok(())
        } else {
            Err(DmiError::OperationFailed("hart did not halt".to_owned()))
        }
    }

    /// One receive cycle of the SerialDMDATA terminal. The core keeps running: this only touches
    /// the DM data registers. A target frame has bit 7 set in DATA0, the payload count plus 4 in
    /// its low six bits, payload bytes 0..3 in its upper bytes and 3..7 in DATA1. A frame is
    /// acknowledged by writing DATA0 with bit 7 clear, carrying up to three bytes of host input;
    /// with no frame pending, host input (if any) is placed in DATA0 the same way.
    pub fn dmdata_poll(&mut self, host_input: &[u8]) -> (r: Result<Option<Vec<u8>>, DmiError>)
        ensures
            old(self).trace().len() <= final(self).trace().len(),
            r is Err ==> faulted_since(old(self).trace().len() as int, final(self).trace()),
            r is Ok ==> grows(old(self).trace(), final(self).trace()),
            r matches Ok(None) ==> {
                let ops = added(old(self).trace(), final(self).trace());
                &&& ops[0] matches DmiOp::Read { addr, value: Some(d0) }
                &&& addr == DMDATA0
                &&& d0 & 0x80 == 0
                &&& ops == if host_input@.len() == 0 {
                    seq![rd(DMDATA0, d0)]
                } else {
                    seq![rd(DMDATA0, d0), wr(DMDATA0, encode_host(host_input@))]
                }
            },
            r matches Ok(Some(out)) ==> exists|d0: u32, d1: u32| {
                &&& d0 & 0x80 != 0
                &&& added(old(self).trace(), final(self).trace())
                    == #[trigger] seq![rd(DMDATA0, d0), rd(DMDATA1, d1), wr(DMDATA0, encode_host(host_input@))]
                &&& out@ == dmdata_payload(d0, d1)
            },
    {
        let ghost t0 = self.trace();
        let d0 = self.read(DMDATA0)?;
        if d0 & 0x80 == 0 {
            if host_input.len() > 0 {
                self.write(DMDATA0, encode_host_input(host_input))?;
                proof {
                    assert(self.trace() =~= t0 + seq![rd(DMDATA0, d0), wr(DMDATA0, encode_host(host_input@))]);
                    lemma_grows_by(t0, seq![rd(DMDATA0, d0), wr(DMDATA0, encode_host(host_input@))]);
                }
            } else {
                proof {
                    assert(self.trace() =~= t0 + seq![rd(DMDATA0, d0)]);
                    lemma_grows_by(t0, seq![rd(DMDATA0, d0)]);
                }
            }
            return Ok(None);
        }
        let low = d0 & 0x3f;
        let biased = if low >= 4 { low - 4 } else { 0 };
        let count = if biased < 7 { biased as usize } else { 7 };
        let d1 = self.read(DMDATA1)?;
        let bytes: [u8; 7] = [
            ((d0 >> 8) & 0xff) as u8,
            ((d0 >> 16) & 0xff) as u8,
            ((d0 >> 24) & 0xff) as u8,
            (d1 & 0xff) as u8,
            ((d1 >> 8) & 0xff) as u8,
            ((d1 >> 16) & 0xff) as u8,
            ((d1 >> 24) & 0xff) as u8,
        ];
        let mut out: Vec<u8> = Vec::new();
        let mut i: usize = 0;
        while i < count
            invariant
                i <= count <= 7,
                bytes@.len() == 7,
                out@ == bytes@.take(i as int),
            decreases count - i,
        {
            out.push(bytes[i]);
            i = i + 1;
        }
        self.write(DMDATA0, encode_host_input(host_input))?;
        proof {
            let ops = seq![rd(DMDATA0, d0), rd(DMDATA1, d1), wr(DMDATA0, encode_host(host_input@))];
            assert(self.trace() =~= t0 + ops);
            lemma_grows_by(t0, ops);
            lemma_word_bytes(d0);
            lemma_word_bytes(d1);
            assert(bytes@ =~= dmdata_bytes(d0, d1));
            assert(out@ =~= dmdata_payload(d0, d1));
        }
        Ok(Some(out))
    }

    /// Single-step one instruction through dcsr.step: set the bit, resume, poll up to 64 times
    /// for the re-halt, then clear the bit again whatever happened, so that a later resume runs
    /// normally (the outcome of that clear is not looked at). The hart must be halted and stays
    /// halted.
    pub fn step(&mut self) -> (r: Result<(), DmiError>)
        ensures
            old(self).trace().len() <= final(self).trace().len(),
            r is Ok ==> grows(old(self).trace(), final(self).trace()),
            r is Ok ==> exists|d: u32, pre: Seq<DmiOp>, polls: Seq<DmiOp>, post: Seq<DmiOp>|
                #[trigger] stepped(added(old(self).trace(), final(self).trace()), d, pre, polls, post),
            r is Err ==> {
                ||| faulted_since(old(self).trace().len() as int, final(self).trace())
                    && quiet_since(old(self).trace().len() as int, final(self).trace())
                ||| r matches Err(DmiError::OperationFailed(_))
                    && exists|d: u32, pre: Seq<DmiOp>, polls: Seq<DmiOp>, post: Seq<DmiOp>|
                    #[trigger] step_missed(added(old(self).trace(), final(self).trace()), d, pre, polls, post)
                ||| exists|d: u32, pre: Seq<DmiOp>, mid: Seq<DmiOp>, post: Seq<DmiOp>|
                    #[trigger] step_broken(added(old(self).trace(), final(self).trace()), d, pre, mid, post)
            },
    {
        let ghost t0 = self.trace();
        proof { lemma_log_start(t0); }
        let dcsr = self.read_reg(RegName::Csr(DCSR))?;
        let ghost t1 = self.trace();
        proof { lemma_log_step(t0, t0, t1, Seq::empty(), DmOp::RegRead { regno: DCSR, value: dcsr }); }
        match self.write_reg(RegName::Csr(DCSR), dcsr | STEP_BIT) {
            Ok(()) => {},
            Err(e) => {
                proof { lemma_quiet_join(t0.len() as int, t1, self.trace()); }
                return Err(e);
            },
        }
        let ghost t2 = self.trace();
        let ghost log = seq![DmOp::RegRead { regno: DCSR, value: dcsr }, DmOp::RegWrite { regno: DCSR, value: dcsr | STEP_BIT }];
        proof {
            lemma_log_step(t0, t1, t2, seq![DmOp::RegRead { regno: DCSR, value: dcsr }], log.last());
            assert(seq![DmOp::RegRead { regno: DCSR, value: dcsr }].push(log.last()) =~= log);
            assert(Seq::<DmOp>::empty().push(DmOp::RegRead { regno: DCSR, value: dcsr }) =~= seq![DmOp::RegRead { regno: DCSR, value: dcsr }]);
            lemma_grows_split(t0, t2);
        }
        let ghost pre = added(t0, t2);
        let resumed = self.resume();
        let ghost t3 = self.trace();
        let ghost rop = t3.last();
        let mut halted = false;
        let mut failure: Option<DmiError> = None;
        let mut i: u32 = 0;
        let ghost mut polls: Seq<DmiOp> = Seq::empty();
        proof {
            assert(t3 =~= t2 + seq![rop]);
            assert(t3 + polls =~= t3);
            lemma_grows_by(t2, seq![rop]);
            assert(added(t2, t3) =~= seq![rop]);
        }
        match resumed {
            Ok(()) => {},
            Err(e) => {
                proof {
                    assert(dm_fault(added(t2, t3)[0]));
                }
                failure = Some(e);
            },
        }
        while !halted && i < 64 && failure.is_none()
            invariant
                t0 == old(self).trace(),
                grows(t0, t2),
                pre == added(t0, t2),
                t3 == t2.push(rop),
                rop matches DmiOp::Write { addr, value, .. } && addr == DMCONTROL && value == 0x4000_0001,
                i <= 64,
                grows(t2, self.trace()),
                added(t2, self.trace())[0] == rop,
                added(t2, self.trace()).len() >= 1,
                failure is Some ==> faulted_since(0, added(t2, self.trace())),
                failure is None ==> {
                    &&& rop == DmiOp::Write { addr: DMCONTROL, value: 0x4000_0001, ok: true }
                    &&& self.trace() == t3 + polls
                    &&& polls.len() == i
                    &&& forall|j: int| 0 <= j < polls.len() ==> status_read(#[trigger] polls[j])
                    &&& !halted ==> forall|j: int| 0 <= j < polls.len() ==> !status_halted(read_value(#[trigger] polls[j]))
                    &&& halted ==> step_polls(polls)
                },
            ensures
                t0 == old(self).trace(),
                grows(t0, t2),
                pre == added(t0, t2),
                t3 == t2.push(rop),
                rop matches DmiOp::Write { addr, value, .. } && addr == DMCONTROL && value == 0x4000_0001,
                i <= 64,
                grows(t2, self.trace()),
                added(t2, self.trace())[0] == rop,
                added(t2, self.trace()).len() >= 1,
                failure is Some ==> faulted_since(0, added(t2, self.trace())),
                failure is None ==> {
                    &&& rop == DmiOp::Write { addr: DMCONTROL, value: 0x4000_0001, ok: true }
                    &&& self.trace() == t3 + polls
                    &&& polls.len() == i
                    &&& forall|j: int| 0 <= j < polls.len() ==> status_read(#[trigger] polls[j])
                    &&& !halted ==> forall|j: int| 0 <= j < polls.len() ==> !status_halted(read_value(#[trigger] polls[j]))
                    &&& halted ==> step_polls(polls)
                },
                failure is None ==> halted || i == 64,
            decreases 64 - i,
        {
            let ghost b = self.trace();
            match self.is_halted() {
                Ok(h) => {
                    proof {
                        let ops = added(b, self.trace());
                        lemma_grows_split(b, self.trace());
                        assert(ops =~= seq![ops[0]]);
                        assert(self.trace() =~= t3 + polls.push(ops[0]));
                        polls = polls.push(ops[0]);
                        lemma_grows_by(t2, seq![rop] + polls);
                        assert(self.trace() =~= t2 + (seq![rop] + polls));
                        assert(added(t2, self.trace()) =~= seq![rop] + polls);
                    }
                    halted = h;
                },
                Err(e) => {
                    proof {
                        lemma_grows_split(b, self.trace());
                        lemma_grows_by(t2, seq![rop] + polls + added(b, self.trace()));
                        assert(self.trace() =~= t2 + (seq![rop] + polls + added(b, self.trace())));
                        assert(added(t2, self.trace()) =~= seq![rop] + polls + added(b, self.trace()));
                        lemma_faulted_shift(t2, self.trace());
                    }
                    failure = Some(e);
                    break;
                },
            }
            i = i + 1;
        }
        let ghost t4 = self.trace();
        let ghost mid = added(t2, t4);
        let restored = self.write_reg(RegName::Csr(DCSR), dcsr & !STEP_BIT);
        let ghost post = added(t4, self.trace());
        proof {
            lemma_grows_split(t4, self.trace());
            if restored is Err {
                lemma_faulted_shift(t4, self.trace());
            }
            assert(step_restore(post, dcsr));
            lemma_grows_split(t2, t4);
            assert(t4.take(t0.len() as int) =~= t0);
            assert(grows(t0, t4));
            assert(added(t0, self.trace()) =~= pre + mid + post);
        }
        match failure {
            Some(e) => {
                proof {
                    assert(step_broken(added(t0, self.trace()), dcsr, pre, mid, post));
                }
                Err(e)
            },
            None => {
                proof {
                    assert(mid =~= seq![rop] + polls);
                    assert(added(t0, self.trace()) =~= pre + seq![DmiOp::Write { addr: DMCONTROL, value: 0x4000_0001, ok: true }] + polls + post);
                }
                if halted {
                    proof {
                        assert(stepped(added(t0, self.trace()), dcsr, pre, polls, post));
                    }
                    Ok(())
                } else {
                    proof {
                        assert(step_missed(added(t0, self.trace()), dcsr, pre, polls, post));
                    }
                    Err(DmiError::OperationFailed("did not re-halt after step".to_owned()))
                }
            },
        }
    }

    /// Number of usable hardware triggers (at most 16): slot `i` counts when tselect accepts
    /// `i` and reads it back, and tdata1 reports a real trigger type; the probe stops at the
    /// first slot that fails. Finally tselect is written back to 0, whatever that returns. The
    /// hart must be halted.
    pub fn hw_trigger_count(&mut self) -> (count: u32)
        ensures
            count <= 16,
            grows(old(self).trace(), final(self).trace()),
            exists|pre: Seq<DmiOp>, probes: Seq<Seq<DmOp>>|
                #[trigger] probed(added(old(self).trace(), final(self).trace()), pre, probes, count),
    {
        let ghost t0 = self.trace();
        proof { lemma_log_start(t0); }
        let mut count: u32 = 0;
        let mut go = true;
        let ghost mut probes: Seq<Seq<DmOp>> = Seq::empty();
        let ghost mut tp = t0;
        proof { assert(probes.flatten() =~= Seq::<DmOp>::empty()); }
        while go && count < 16
            invariant
                count <= 16,
                probes.len() == count,
                grows(t0, tp),
                grows(tp, self.trace()),
                go ==> tp == self.trace(),
                realizes_all(added(t0, tp), probes.flatten()),
                forall|k: int| 0 <= k < count ==> slot_probe(#[trigger] probes[k], k as u32),
            decreases 16 - count, (if go { 1int } else { 0int }),
        {
            let ghost b = self.trace();
            proof { lemma_log_start(b); }
            match self.write_reg(RegName::Csr(TSELECT), count) {
                Err(_) => { go = false; }
                Ok(()) => {
                    let ghost b1 = self.trace();
                    proof { lemma_log_step(b, b, b1, Seq::empty(), DmOp::RegWrite { regno: TSELECT, value: count }); }
                    let ghost l1 = Seq::<DmOp>::empty().push(DmOp::RegWrite { regno: TSELECT, value: count });
                    match self.read_reg(RegName::Csr(TSELECT)) {
                        Err(_) => { go = false; }
                        Ok(v) => {
                            let ghost b2 = self.trace();
                            proof { lemma_log_step(b, b1, b2, l1, DmOp::RegRead { regno: TSELECT, value: v }); }
                            let ghost l2 = l1.push(DmOp::RegRead { regno: TSELECT, value: v });
                            if v != count {
                                go = false;
                            } else {
                                match self.read_reg(RegName::Csr(TDATA1)) {
                                    Err(_) => { go = false; }
                                    Ok(t) => {
                                        let ghost b3 = self.trace();
                                        proof { lemma_log_step(b, b2, b3, l2, DmOp::RegRead { regno: TDATA1, value: t }); }
                                        let ghost l3 = l2.push(DmOp::RegRead { regno: TDATA1, value: t });
                                        let ty = t >> 28;
                                        if ty == 0 || ty == 0xf {
                                            go = false;
                                        } else {
                                            proof {
                                                assert(l3 =~= seq![
                                                    DmOp::RegWrite { regno: TSELECT, value: count },
                                                    DmOp::RegRead { regno: TSELECT, value: count },
                                                    DmOp::RegRead { regno: TDATA1, value: t },
                                                ]);
                                                assert(slot_probe(l3, count));
                                                assert(grows(b, b3));
                                                assert(grows(tp, b3));
                                                lemma_log_concat(t0, tp, b3, probes.flatten(), l3);
                                                probes.lemma_flatten_push(l3);
                                                let old_probes = probes;
                                                probes = probes.push(l3);
                                                assert forall|k: int| 0 <= k < count + 1 implies slot_probe(#[trigger] probes[k], k as u32) by {
                                                    if k < count { assert(probes[k] == old_probes[k]); }
                                                }
                                                tp = b3;
                                            }
                                            count = count + 1;
                                        }
                                    }
                                }
                            }
                        }
                    }
                }
            }
        }
        let ghost t5 = self.trace();
        let _ = self.write_reg(RegName::Csr(TSELECT), 0);
        proof {
            assert(grows(t0, t5));
            assert(grows(tp, self.trace()));
            lemma_grows_split(t0, tp);
            lemma_grows_split(tp, self.trace());
            let pre = added(t0, tp);
            let ops = added(t0, self.trace());
            assert(ops =~= pre + added(tp, self.trace()));
            assert(ops.take(pre.len() as int) =~= pre);
            assert(probed(ops, pre, probes, count));
        }
        count
    }

    /// Read `len` bytes starting at `addr`: whole aligned words are read and the result is
    /// trimmed to the requested bytes. The hart must be halted.
    #[verifier::spinoff_prover]
    pub fn read_mem(&mut self, addr: u32, len: u32) -> (r: Result<Vec<u8>, DmiError>)
        ensures
            old(self).trace().len() <= final(self).trace().len(),
            r is Err ==> faulted_since(old(self).trace().len() as int, final(self).trace())
                || addr + len > 0xFFFF_FFFC,
            grows(old(self).trace(), final(self).trace()),
            r matches Ok(out) ==> out@.len() == len,
            r matches Ok(out) ==> exists|words: Seq<u32>| {
                &&& words.len() == read_word_count(addr, len)
                &&& realizes_all(
                    added(old(self).trace(), final(self).trace()),
                    #[trigger] reads_from((addr - addr % 4) as u32, words),
                )
                &&& out@ == bytes_of_words(words).subrange((addr % 4) as int, addr % 4 + len)
            },
    {
        let ghost t0 = self.trace();
        proof { lemma_log_start(t0); }
        let start = addr & 0xFFFF_FFFC;
        assert((addr & 0xFFFF_FFFCu32) == addr - addr % 4) by (bit_vector);
        let end = addr.saturating_add(len);
        let mut a = start;
        let mut all: Vec<u8> = Vec::new();
        let ghost mut words: Seq<u32> = Seq::empty();
        proof {
            assert(reads_from(start, words) =~= Seq::<DmOp>::empty());
        }
        while a < end
            invariant
                t0 == old(self).trace(),
                start == addr - addr % 4,
                end == (if addr + len > u32::MAX { u32::MAX as int } else { addr + len }),
                a == start + 4 * words.len(),
                a <= end + 3,
                grows(t0, self.trace()),
                realizes_all(added(t0, self.trace()), reads_from(start, words)),
                all@ == bytes_of_words(words),
            decreases end + 4 - a,
        {
            let ghost before = self.trace();
            let word = match self.read_mem32(a) {
                Ok(w) => w,
                Err(e) => {
                    assert(grows(t0, self.trace()));
                    return Err(e);
                },
            };
            proof {
                lemma_log_step(t0, before, self.trace(), reads_from(start, words), DmOp::Read32 { addr: a, value: word });
                assert(reads_from(start, words).push(DmOp::Read32 { addr: a, value: word }) =~= reads_from(start, words.push(word)));
                lemma_word_bytes(word);
                assert(words.push(word).drop_last() =~= words);
            }
            all.push((word & 0xff) as u8);
            all.push(((word >> 8) & 0xff) as u8);
            all.push(((word >> 16) & 0xff) as u8);
            all.push(((word >> 24) & 0xff) as u8);
            proof {
                words = words.push(word);
                assert(all@ =~= bytes_of_words(words));
            }
            a = match a.checked_add(4) {
                Some(next) => next,
                None => {
                    assert(grows(t0, self.trace()));
                    return Err(DmiError::OperationFailed("address overflow".to_owned()));
                }
            };
        }
        let head = (addr - start) as usize;
        proof {
            lemma_bytes_of_words_len(words);
            assert(words.len() == read_word_count(addr, len));
        }
        let mut out: Vec<u8> = Vec::new();
        let mut i: usize = 0;
        let total = all.len();
        while i < len as usize
            invariant
                total == all@.len(),
                head == addr % 4,
                all@.len() == 4 * words.len(),
                head + len <= all@.len(),
                i <= len,
                out@ == all@.subrange(head as int, head + i),
            decreases len - i,
        {
            out.push(all[head + i]);
            i = i + 1;
        }
        Ok(out)
    }

    /// Write `data` to target memory starting at `addr`. Whole aligned words are stored
    /// directly; a partial head or tail word is read, patched and written back, so bytes outside
    /// `data` keep their value. The hart must be halted.
    #[verifier::spinoff_prover]
    pub fn write_mem(&mut self, addr: u32, data: &[u8]) -> (r: Result<(), DmiError>)
        ensures
            old(self).trace().len() <= final(self).trace().len(),
            r is Err ==> faulted_since(old(self).trace().len() as int, final(self).trace())
                || addr + data@.len() > 0xFFFF_FFFC,
            r is Ok ==> grows(old(self).trace(), final(self).trace()),
            r is Ok ==> exists|log: Seq<DmOp>| {
                &&& realizes_all(added(old(self).trace(), final(self).trace()), log)
                &&& #[trigger] write_plan(addr as int, data@, log)
            },
    {
        let ghost t0 = self.trace();
        proof { lemma_log_start(t0); }
        let mut a = addr;
        let mut pos: usize = 0;
        let ghost mut log: Seq<DmOp> = Seq::empty();
        proof {
            assert forall|l2: Seq<DmOp>| write_plan(a as int, data@.skip(pos as int), l2) implies
                #[trigger] write_plan(addr as int, data@, log + l2) by {
                assert(data@.skip(0) =~= data@);
                assert(log + l2 =~= l2);
            }
        }
        while pos < data.len()
            invariant
                t0 == old(self).trace(),
                pos < data@.len() ==> a == addr + pos,
                pos <= data@.len(),
                grows(t0, self.trace()),
                realizes_all(added(t0, self.trace()), log),
                forall|l2: Seq<DmOp>| write_plan(a as int, data@.skip(pos as int), l2) ==>
                    #[trigger] write_plan(addr as int, data@, log + l2),
            decreases data.len() - pos,
        {
            let ghost rest = data@.skip(pos as int);
            let ghost a0 = a as int;
            let ghost log0 = log;
            let word_addr = a & 0xFFFF_FFFC;
            assert((a & 0xFFFF_FFFCu32) == a - a % 4) by (bit_vector);
            let off = (a - word_addr) as usize;
            let ghost before = self.trace();
            if off == 0 && data.len() - pos >= 4 {
                let w = (data[pos] as u32) | ((data[pos + 1] as u32) << 8) | ((data[pos + 2] as u32) << 16)
                    | ((data[pos + 3] as u32) << 24);
                proof {
                    assert(rest.take(4) =~= seq![data[pos as int], data[pos + 1], data[pos + 2], data[pos + 3]]);
                }
                self.write_mem32(word_addr, w)?;
                proof {
                    lemma_log_step(t0, before, self.trace(), log, DmOp::Write32 { addr: word_addr, value: w });
                    log = log.push(DmOp::Write32 { addr: word_addr, value: w });
                }
                a = match a.checked_add(4) {
                    Some(next) => next,
                    None => { return Err(DmiError::OperationFailed("overflow".to_owned())); }
                };
                pos = pos + 4;
                proof {
                    assert(data@.skip(pos as int) =~= rest.skip(4));
                    lemma_plan_full_step(a0, rest, w);
                    lemma_plan_chain(addr as int, data@, log0, a0, rest,
                        seq![DmOp::Write32 { addr: word_addr, value: w }], a as int, rest.skip(4));
                    assert(log0 + seq![DmOp::Write32 { addr: word_addr, value: w }] =~= log);
                }
            } else {
                let old = self.read_mem32(word_addr)?;
                let ghost mid = self.trace();
                proof {
                    lemma_log_step(t0, before, mid, log, DmOp::Read32 { addr: word_addr, value: old });
                }
                let n: usize = if 4 - off < data.len() - pos { 4 - off } else { data.len() - pos };
                let w = patch_word(old, off, data, pos, n);
                self.write_mem32(word_addr, w)?;
                proof {
                    lemma_log_step(t0, mid, self.trace(), log.push(DmOp::Read32 { addr: word_addr, value: old }),
                        DmOp::Write32 { addr: word_addr, value: w });
                    log = log.push(DmOp::Read32 { addr: word_addr, value: old }).push(DmOp::Write32 { addr: word_addr, value: w });
                }
                a = match word_addr.checked_add(4) {
                    Some(next) => next,
                    None => { return Err(DmiError::OperationFailed("overflow".to_owned())); }
                };
                pos = pos + n;
                proof {
                    assert(data@.skip(pos as int) =~= rest.skip(n as int));
                    assert(data@.subrange(pos - n, pos as int) =~= rest.take(n as int));
                    lemma_plan_partial_step(a0, rest, old, w, n as int);
                    let c = seq![DmOp::Read32 { addr: word_addr, value: old }, DmOp::Write32 { addr: word_addr, value: w }];
                    lemma_plan_chain(addr as int, data@, log0, a0, rest, c, a as int, rest.skip(n as int));
                    assert(log0 + c =~= log);
                }
            }
        }
        proof {
            assert(data@.skip(pos as int) =~= Seq::<u8>::empty());
            assert(write_plan(a as int, data@.skip(pos as int), Seq::empty()));
            assert(log + Seq::<DmOp>::empty() =~= log);
            assert(write_plan(addr as int, data@, log));
        }
        Ok(())
    }
}

/// The little-endian bytes of a word.
pub open spec fn bytes4(w: u32) -> Seq<u8> {
    seq![word_byte(w, 0), word_byte(w, 1), word_byte(w, 2), word_byte(w, 3)]
}

/// `old` with bytes `off..off + chunk.len()` replaced by `chunk`.
pub open spec fn splice_word(old: u32, off: int, chunk: Seq<u8>) -> u32 {
    le_word(bytes4(old).take(off) + chunk + bytes4(old).skip(off + chunk.len()))
}

/// How writing `data` at `a` is carried out: from the current position, a whole aligned word
/// is stored directly; otherwise the word holding the position is read, the bytes of `data` that
/// fall in it are patched in, and the word is written back. Every step stays below the top of
/// the address space.
pub open spec fn write_plan(a: int, data: Seq<u8>, log: Seq<DmOp>) -> bool
    decreases data.len(),
{
    if data.len() == 0 {
        log.len() == 0
    } else {
        let off = a % 4;
        let wa = a - off;
        if off == 0 && data.len() >= 4 {
            &&& log.len() >= 1
            &&& log[0] == DmOp::Write32 { addr: a as u32, value: le_word(data.take(4)) }
            &&& a + 4 <= u32::MAX
            &&& write_plan(a + 4, data.skip(4), log.skip(1))
        } else {
            let n = if 4 - off < data.len() { 4 - off } else { data.len() as int };
            &&& log.len() >= 2
            &&& log[0] matches DmOp::Read32 { addr: ra, value: old }
            &&& ra == wa
            &&& log[1] == DmOp::Write32 { addr: wa as u32, value: splice_word(old, off, data.take(n)) }
            &&& wa + 4 <= u32::MAX
            &&& write_plan(wa + 4, data.skip(n), log.skip(2))
        }
    }
}

/// The word `old` with bytes `off..off + n` replaced by `data[pos..pos + n]`.
fn patch_word(old: u32, off: usize, data: &[u8], pos: usize, n: usize) -> (w: u32)
    requires
        off < 4,
        1 <= n <= 4 - off,
        pos + n <= data@.len(),
    ensures
        w == splice_word(old, off as int, data@.subrange(pos as int, pos + n)),
{
    let wb: [u8; 4] = [
        (old & 0xff) as u8,
        ((old >> 8) & 0xff) as u8,
        ((old >> 16) & 0xff) as u8,
        ((old >> 24) & 0xff) as u8,
    ];
    let b0 = if off <= 0 && 0 < off + n { data[pos + (0 - off)] } else { wb[0] };
    let b1 = if off <= 1 && 1 < off + n { data[pos + (1 - off)] } else { wb[1] };
    let b2 = if off <= 2 && 2 < off + n { data[pos + (2 - off)] } else { wb[2] };
    let b3 = if off <= 3 && 3 < off + n { data[pos + (3 - off)] } else { wb[3] };
    proof {
        lemma_word_bytes(old);
        let chunk = data@.subrange(pos as int, pos + n);
        let spliced = bytes4(old).take(off as int) + chunk + bytes4(old).skip(off + n);
        assert(spliced =~= seq![b0, b1, b2, b3]);
    }
    (b0 as u32) | ((b1 as u32) << 8) | ((b2 as u32) << 16) | ((b3 as u32) << 24)
}

/// One whole-word step of a write plan.
proof fn lemma_plan_full_step(a0: int, rest: Seq<u8>, w: u32)
    requires
        a0 % 4 == 0,
        rest.len() >= 4,
        w == le_word(rest.take(4)),
        0 <= a0,
        a0 + 4 <= u32::MAX,
    ensures
        forall|l2: Seq<DmOp>| #[trigger] write_plan(a0 + 4, rest.skip(4), l2) ==>
            write_plan(a0, rest, seq![DmOp::Write32 { addr: a0 as u32, value: w }] + l2),
{
    assert forall|l2: Seq<DmOp>| #[trigger] write_plan(a0 + 4, rest.skip(4), l2) implies
        write_plan(a0, rest, seq![DmOp::Write32 { addr: a0 as u32, value: w }] + l2) by {
        let c = seq![DmOp::Write32 { addr: a0 as u32, value: w }];
        assert((c + l2).skip(1) =~= l2);
        assert((c + l2)[0] == c[0]);
    }
}

/// One read-patch-write step of a write plan.
proof fn lemma_plan_partial_step(a0: int, rest: Seq<u8>, old: u32, w: u32, n: int)
    requires
        0 <= a0 <= u32::MAX,
        rest.len() > 0,
        !(a0 % 4 == 0 && rest.len() >= 4),
        n == (if 4 - a0 % 4 < rest.len() { 4 - a0 % 4 } else { rest.len() as int }),
        w == splice_word(old, a0 % 4, rest.take(n)),
        a0 - a0 % 4 + 4 <= u32::MAX,
    ensures
        forall|l2: Seq<DmOp>| #[trigger] write_plan(a0 - a0 % 4 + 4, rest.skip(n), l2) ==>
            write_plan(a0, rest, seq![
                DmOp::Read32 { addr: (a0 - a0 % 4) as u32, value: old },
                DmOp::Write32 { addr: (a0 - a0 % 4) as u32, value: w },
            ] + l2),
{
    let wa = a0 - a0 % 4;
    assert forall|l2: Seq<DmOp>| #[trigger] write_plan(wa + 4, rest.skip(n), l2) implies
        write_plan(a0, rest, seq![
            DmOp::Read32 { addr: wa as u32, value: old },
            DmOp::Write32 { addr: wa as u32, value: w },
        ] + l2) by {
        let c = seq![DmOp::Read32 { addr: wa as u32, value: old }, DmOp::Write32 { addr: wa as u32, value: w }];
        assert((c + l2).skip(2) =~= l2);
        assert((c + l2)[0] == c[0]);
        assert((c + l2)[1] == c[1]);
    }
}

/// Chain the plan invariant through one step.
proof fn lemma_plan_chain(
    addr: int,
    data: Seq<u8>,
    log0: Seq<DmOp>,
    a0: int,
    rest: Seq<u8>,
    c: Seq<DmOp>,
    a1: int,
    rest1: Seq<u8>,
)
    requires
        forall|l2: Seq<DmOp>| write_plan(a0, rest, l2) ==> #[trigger] write_plan(addr, data, log0 + l2),
        forall|l2: Seq<DmOp>| #[trigger] write_plan(a1, rest1, l2) ==> write_plan(a0, rest, c + l2),
    ensures
        forall|l2: Seq<DmOp>| write_plan(a1, rest1, l2) ==> #[trigger] write_plan(addr, data, (log0 + c) + l2),
{
    assert forall|l2: Seq<DmOp>| write_plan(a1, rest1, l2) implies #[trigger] write_plan(addr, data, (log0 + c) + l2) by {
        assert(write_plan(a0, rest, c + l2));
        assert(write_plan(addr, data, log0 + (c + l2)));
        assert(log0 + (c + l2) =~= (log0 + c) + l2);
    }
}

/// The little-endian bytes of consecutive words.
pub open spec fn bytes_of_words(words: Seq<u32>) -> Seq<u8>
    decreases words.len(),
{
    if words.len() == 0 {
        Seq::empty()
    } else {
        bytes_of_words(words.drop_last()) + bytes4(words.last())
    }
}

pub proof fn lemma_bytes_of_words_len(words: Seq<u32>)
    ensures
        bytes_of_words(words).len() == 4 * words.len(),
    decreases words.len(),
{
    if words.len() > 0 {
        lemma_bytes_of_words_len(words.drop_last());
    }
}

/// Word loads of `words` from consecutive addresses starting at `start`.
pub open spec fn reads_from(start: u32, words: Seq<u32>) -> Seq<DmOp> {
    Seq::new(words.len(), |i: int| DmOp::Read32 { addr: (start + 4 * i) as u32, value: words[i] })
}

/// How many aligned words a read of `len` bytes at `addr` loads.
pub open spec fn read_word_count(addr: u32, len: u32) -> int {
    let start = addr - addr % 4;
    let end = if addr + len > u32::MAX { u32::MAX as int } else { addr + len };
    if end <= start { 0 } else { (end - start + 3) / 4 }
}

/// The DATA0 word carrying up to three bytes of host input, bit 7 clear: the count in the low
/// byte, the bytes above it.
pub open spec fn encode_host(input: Seq<u8>) -> u32 {
    let n: u8 = if input.len() < 3 { input.len() as u8 } else { 3 };
    le_word(seq![
        n,
        if input.len() > 0 { input[0] } else { 0 },
        if input.len() > 1 { input[1] } else { 0 },
        if input.len() > 2 { input[2] } else { 0 },
    ])
}

/// Encode up to three host -> target bytes into a DATA0 word with bit 7 clear. Empty input
/// encodes to 0 (a bare acknowledgement).
pub fn encode_host_input(input: &[u8]) -> (w: u32)
    ensures
        w == encode_host(input@),
{
    let n: u8 = if input.len() < 3 { input.len() as u8 } else { 3 };
    let b1: u8 = if input.len() > 0 { input[0] } else { 0 };
    let b2: u8 = if input.len() > 1 { input[1] } else { 0 };
    let b3: u8 = if input.len() > 2 { input[2] } else { 0 };
    (n as u32) | ((b1 as u32) << 8) | ((b2 as u32) << 16) | ((b3 as u32) << 24)
}

/// The seven payload positions of a DMDATA frame.
pub open spec fn dmdata_bytes(d0: u32, d1: u32) -> Seq<u8> {
    seq![
        word_byte(d0, 1), word_byte(d0, 2), word_byte(d0, 3),
        word_byte(d1, 0), word_byte(d1, 1), word_byte(d1, 2), word_byte(d1, 3),
    ]
}

/// The payload of a DMDATA frame: its count (low six bits of DATA0 minus 4, at least 0, at most 7)
/// of leading payload bytes.
pub open spec fn dmdata_payload(d0: u32, d1: u32) -> Seq<u8> {
    let low = d0 & 0x3f;
    let count: int = if low >= 4 { (low - 4) as int } else { 0 };
    dmdata_bytes(d0, d1).take(if count < 7 { count } else { 7 })
}

/// The requests and polls of a halt: even positions request the halt, odd positions read
/// DMSTATUS, at most 64 requests; every read but the last two positions found the hart still
/// running, and fewer than 64 requests means the last read found it halted.
pub open spec fn halt_polls(mid: Seq<DmiOp>) -> bool {
    &&& mid.len() % 2 == 0
    &&& mid.len() <= 128
    &&& forall|j: int| 0 <= j < mid.len() ==> if j % 2 == 0 {
        #[trigger] mid[j] == wr(DMCONTROL, 0x8000_0001)
    } else {
        status_read(mid[j])
    }
    &&& forall|j: int| 0 <= j < mid.len() - 2 && j % 2 == 1 ==> !status_halted(read_value(#[trigger] mid[j]))
    &&& 0 < mid.len() < 128 ==> status_halted(read_value(mid.last()))
}

/// What a halt did: read DMSTATUS; unless that showed the hart halted, request and poll; then
/// clear the request and read DMSTATUS again.
pub open spec fn halt_attempt(ops: Seq<DmiOp>) -> bool {
    &&& ops.len() >= 3
    &&& status_read(ops[0])
    &&& halt_polls(ops.subrange(1, ops.len() - 2))
    &&& status_halted(read_value(ops[0])) ==> ops.len() == 3
    &&& ops[ops.len() - 2] == wr(DMCONTROL, 0x0000_0001)
    &&& status_read(ops.last())
}

/// A successful DMSTATUS read.
pub open spec fn status_read(op: DmiOp) -> bool {
    op matches DmiOp::Read { addr, value: Some(_) } && addr == DMSTATUS
}

/// The polls after a single step: successful DMSTATUS reads (at most 64), where only the last
/// finds the hart halted.
pub open spec fn step_polls(p: Seq<DmiOp>) -> bool {
    &&& 1 <= p.len() <= 64
    &&& forall|i: int| 0 <= i < p.len() ==> status_read(#[trigger] p[i])
    &&& forall|i: int| 0 <= i < p.len() - 1 ==> !status_halted(read_value(#[trigger] p[i]))
    &&& status_halted(read_value(p.last()))
}

/// The polls of a step that never saw the hart halt again: 64 DMSTATUS reads, none halted.
pub open spec fn step_missed_polls(p: Seq<DmiOp>) -> bool {
    &&& p.len() == 64
    &&& forall|i: int| 0 <= i < p.len() ==> status_read(#[trigger] p[i]) && !status_halted(read_value(p[i]))
}

/// The clear of the step bit after a step: dcsr written back as `d & !STEP_BIT`, or a fault in
/// the attempt (its outcome does not decide the step's result).
pub open spec fn step_restore(post: Seq<DmiOp>, d: u32) -> bool {
    realizes(post, DmOp::RegWrite { regno: DCSR, value: d & !STEP_BIT }) || faulted_since(0, post)
}

/// The frame of a single step: `pre` read dcsr (`d`) and wrote it back with the step bit, the
/// resume request succeeded, `polls` waited for the re-halt, and `post` cleared the step bit.
pub open spec fn step_frame(ops: Seq<DmiOp>, d: u32, pre: Seq<DmiOp>, polls: Seq<DmiOp>, post: Seq<DmiOp>) -> bool {
    &&& ops == pre + seq![DmiOp::Write { addr: DMCONTROL, value: 0x4000_0001, ok: true }] + polls + post
    &&& realizes_all(pre, seq![
        DmOp::RegRead { regno: DCSR, value: d },
        DmOp::RegWrite { regno: DCSR, value: d | STEP_BIT },
    ])
    &&& step_restore(post, d)
}

/// A single step whose resume request or one of its polls failed: `pre` set the step bit, `mid`
/// began with the resume request and holds a fault, and `post` still cleared the step bit.
pub open spec fn step_broken(ops: Seq<DmiOp>, d: u32, pre: Seq<DmiOp>, mid: Seq<DmiOp>, post: Seq<DmiOp>) -> bool {
    &&& ops == pre + mid + post
    &&& realizes_all(pre, seq![
        DmOp::RegRead { regno: DCSR, value: d },
        DmOp::RegWrite { regno: DCSR, value: d | STEP_BIT },
    ])
    &&& mid.len() >= 1
    &&& mid[0] matches DmiOp::Write { addr, value, .. } && addr == DMCONTROL && value == 0x4000_0001
    &&& faulted_since(0, mid)
    &&& step_restore(post, d)
}

/// A single step that saw the hart halt again.
pub open spec fn stepped(ops: Seq<DmiOp>, d: u32, pre: Seq<DmiOp>, polls: Seq<DmiOp>, post: Seq<DmiOp>) -> bool {
    &&& step_frame(ops, d, pre, polls, post)
    &&& step_polls(polls)
}

/// A single step whose 64 polls never saw the hart halt again.
pub open spec fn step_missed(ops: Seq<DmiOp>, d: u32, pre: Seq<DmiOp>, polls: Seq<DmiOp>, post: Seq<DmiOp>) -> bool {
    &&& step_frame(ops, d, pre, polls, post)
    &&& step_missed_polls(polls)
}

/// Evidence that trigger slot `k` is usable: tselect accepted `k` and read it back, and tdata1
/// reported a trigger type other than none (0) or unavailable (0xf).
pub open spec fn slot_probe(p: Seq<DmOp>, k: u32) -> bool {
    exists|t: u32| #![trigger (t >> 28u32)] {
        &&& p == seq![
            DmOp::RegWrite { regno: TSELECT, value: k },
            DmOp::RegRead { regno: TSELECT, value: k },
            DmOp::RegRead { regno: TDATA1, value: t },
        ]
        &&& t >> 28u32 != 0
        &&& t >> 28u32 != 0xf
    }
}

/// The first accesses of `ops` probed slots `0..count`, one after the other, all usable.
pub open spec fn probed(ops: Seq<DmiOp>, pre: Seq<DmiOp>, probes: Seq<Seq<DmOp>>, count: u32) -> bool {
    &&& pre.len() <= ops.len()
    &&& ops.take(pre.len() as int) == pre
    &&& realizes_all(pre, probes.flatten())
    &&& probes.len() == count
    &&& forall|k: int| 0 <= k < count ==> slot_probe(#[trigger] probes[k], k as u32)
}


/// dcsr.
pub const DCSR: u16 = 0x7b0;
/// dcsr ebreakm | ebreaks | ebreaku.
pub const EBREAK_BITS: u32 = 0xb000;
/// dcsr.step.
pub const STEP_BIT: u32 = 0x4;
/// Trigger-select CSR.
pub const TSELECT: u16 = 0x7a0;
/// Trigger data 1 CSR.
pub const TDATA1: u16 = 0x7a1;
/// Trigger data 2 CSR.
pub const TDATA2: u16 = 0x7a2;
/// mcontrol: type 2, dmode, action enter-debug, exact match, m/s/u, execute.
pub const MCONTROL_EXEC: u32 = 0x2800_105c;

} // verus!
