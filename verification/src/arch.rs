//! The RV32 register file as GDB's `riscv:rv32` core description orders it: x0..x31, then pc,
//! each 32 bits little-endian.

use vstd::prelude::*;

use crate::boot::words_le;
use crate::dm::bytes4;
use crate::dmseq::{le_word, word_byte};

verus! {

/// RV32 core registers: x0..x31 and pc.
#[derive(Debug, Clone, Copy, PartialEq, Eq)]
pub struct Rv32CoreRegs {
    pub x: [u32; 32],
    pub pc: u32,
}

impl Default for Rv32CoreRegs {
    fn default() -> (r: Self)
        ensures
            forall|i: int| 0 <= i < 32 ==> r.x@[i] == 0,
            r.pc == 0,
    {
        Rv32CoreRegs { x: [0u32; 32], pc: 0 }
    }
}

/// The 33 register values in wire order.
pub open spec fn reg_words(r: Rv32CoreRegs) -> Seq<u32> {
    r.x@.push(r.pc)
}

/// Word `i` of a little-endian byte string.
pub open spec fn word_at(b: Seq<u8>, i: int) -> u32 {
    le_word(b.subrange(4 * i, 4 * i + 4))
}

proof fn lemma_le_bytes4(w: u32)
    ensures
        le_word(bytes4(w)) == w,
{
    let b0 = word_byte(w, 0);
    let b1 = word_byte(w, 1);
    let b2 = word_byte(w, 2);
    let b3 = word_byte(w, 3);
    crate::dmseq::lemma_word_bytes(w);
    assert(((w & 0xff) as u8 as u32) | ((((w >> 8) & 0xff) as u8 as u32) << 8u32)
        | ((((w >> 16) & 0xff) as u8 as u32) << 16u32) | ((((w >> 24) & 0xff) as u8 as u32) << 24u32) == w) by (bit_vector);
}

proof fn lemma_words_le_at(ws: Seq<u32>, i: int)
    requires
        0 <= i < ws.len(),
    ensures
        words_le(ws).len() == 4 * ws.len(),
        words_le(ws).subrange(4 * i, 4 * i + 4) == bytes4(ws[i]),
    decreases ws.len(),
{
    if i < ws.len() - 1 {
        lemma_words_le_at(ws.drop_last(), i);
        assert(words_le(ws).subrange(4 * i, 4 * i + 4) =~= words_le(ws.drop_last()).subrange(4 * i, 4 * i + 4));
    } else {
        lemma_words_le_len(ws.drop_last());
        assert(words_le(ws).subrange(4 * i, 4 * i + 4) =~= bytes4(ws[i]));
    }
}

proof fn lemma_words_le_len(ws: Seq<u32>)
    ensures
        words_le(ws).len() == 4 * ws.len(),
    decreases ws.len(),
{
    if ws.len() > 0 {
        lemma_words_le_len(ws.drop_last());
    }
}

impl Rv32CoreRegs {
    /// The program counter.
    pub fn pc(&self) -> (p: u32)
        ensures
            p == self.pc,
    {
        self.pc
    }

    /// The register file in wire order: x0..x31 then pc, 4 bytes each, little-endian.
    pub fn serialize(&self) -> (b: Vec<u8>)
        ensures
            b@ == words_le(reg_words(*self)),
    {
        let mut out: Vec<u8> = Vec::new();
        let ghost ws = reg_words(*self);
        let mut i: usize = 0;
        while i < 33
            invariant
                i <= 33,
                ws == reg_words(*self),
                ws.len() == 33,
                out@ == words_le(ws.take(i as int)),
            decreases 33 - i,
        {
            let w = if i < 32 { self.x[i] } else { self.pc };
            out.push((w & 0xff) as u8);
            out.push(((w >> 8) & 0xff) as u8);
            out.push(((w >> 16) & 0xff) as u8);
            out.push(((w >> 24) & 0xff) as u8);
            proof {
                crate::dmseq::lemma_word_bytes(w);
                assert(ws.take(i + 1).drop_last() =~= ws.take(i as int));
                assert(out@ =~= words_le(ws.take(i + 1)));
            }
            i = i + 1;
        }
        proof { assert(ws.take(33) =~= ws); }
        out
    }

    /// Load the register file from wire order; input shorter than 132 bytes is refused and
    /// leaves the registers as they were.
    pub fn deserialize(&mut self, bytes: &[u8]) -> (r: Result<(), ()>)
        ensures
            bytes@.len() < 132 ==> r is Err && *final(self) == *old(self),
            bytes@.len() >= 132 ==> {
                &&& r is Ok
                &&& forall|i: int| 0 <= i < 32 ==> #[trigger] final(self).x@[i] == word_at(bytes@, i)
                &&& final(self).pc == word_at(bytes@, 32)
            },
    {
        if bytes.len() < 132 {
            return Err(());
        }
        let mut i: usize = 0;
        while i < 33
            invariant
                i <= 33,
                bytes@.len() >= 132,
                forall|j: int| 0 <= j < i && j < 32 ==> #[trigger] self.x@[j] == word_at(bytes@, j),
                i == 33 ==> self.pc == word_at(bytes@, 32),
            decreases 33 - i,
        {
            let o = 4 * i;
            let v = (bytes[o] as u32) | ((bytes[o + 1] as u32) << 8) | ((bytes[o + 2] as u32) << 16) | ((bytes[o + 3] as u32) << 24);
            proof {
                assert(bytes@.subrange(4 * i, 4 * i + 4) =~= seq![bytes@[o as int], bytes@[o + 1], bytes@[o + 2], bytes@[o + 3]]);
            }
            if i < 32 {
                self.x.set(i, v);
            } else {
                self.pc = v;
            }
            i = i + 1;
        }
        Ok(())
    }
}

/// The register file read back from its own wire form is the register file it came from.
pub proof fn lemma_serialize_roundtrip(r: Rv32CoreRegs)
    ensures
        words_le(reg_words(r)).len() == 132,
        forall|i: int| 0 <= i < 32 ==> #[trigger] word_at(words_le(reg_words(r)), i) == r.x@[i],
        word_at(words_le(reg_words(r)), 32) == r.pc,
{
    let ws = reg_words(r);
    lemma_words_le_len(ws);
    assert forall|i: int| 0 <= i < 32 implies #[trigger] word_at(words_le(ws), i) == r.x@[i] by {
        lemma_words_le_at(ws, i);
        lemma_le_bytes4(ws[i]);
    }
    lemma_words_le_at(ws, 32);
    lemma_le_bytes4(ws[32]);
}

/// A register identifier: a GPR index 0..31, or the PC (id 32).
#[derive(Debug, Clone, Copy, PartialEq, Eq, Structural)]
pub enum Rv32RegId {
    Gpr(u8),
    Pc,
}

/// The register with GDB id `id`, if any.
pub open spec fn reg_of_id(id: usize) -> Option<Rv32RegId> {
    if id <= 31 { Some(Rv32RegId::Gpr(id as u8)) } else if id == 32 { Some(Rv32RegId::Pc) } else { None }
}

/// The GDB id of a register.
pub open spec fn id_of_reg(r: Rv32RegId) -> usize {
    match r {
        Rv32RegId::Gpr(n) => n as usize,
        Rv32RegId::Pc => 32,
    }
}

impl Rv32RegId {
    /// The register with GDB id `id`, with its size in bytes (4).
    pub fn from_raw_id(id: usize) -> (r: Option<(Rv32RegId, usize)>)
        ensures
            match reg_of_id(id) {
                Some(reg) => r == Some((reg, 4usize)),
                None => r is None,
            },
    {
        if id <= 31 {
            Some((Rv32RegId::Gpr(id as u8), 4))
        } else if id == 32 {
            Some((Rv32RegId::Pc, 4))
        } else {
            None
        }
    }

    /// The GDB id of this register.
    pub fn to_raw_id(&self) -> (id: usize)
        ensures
            id == id_of_reg(*self),
    {
        match self {
            Rv32RegId::Gpr(n) => *n as usize,
            Rv32RegId::Pc => 32,
        }
    }
}

/// Ids and registers correspond one to one: every id that names a register is that register's
/// id, and every register with an index 0..31 (or the PC) reads back from its id.
pub proof fn lemma_reg_id_roundtrip(id: usize, r: Rv32RegId)
    ensures
        reg_of_id(id) matches Some(x) ==> id_of_reg(x) == id,
        (r matches Rv32RegId::Gpr(n) ==> n <= 31) ==> reg_of_id(id_of_reg(r)) == Some(r),
{
}

/// The RV32 architecture marker, used at the type level.
#[derive(Debug, Clone, Copy)]
pub struct Rv32;

/// GDB's target description: the architecture, so no `set architecture` is needed.
pub fn target_description_xml() -> (s: &'static str)
    ensures
        s@ == "<target version=\"1.0\"><architecture>riscv:rv32</architecture></target>"@,
{
    "<target version=\"1.0\"><architecture>riscv:rv32</architecture></target>"
}

} // verus!
