//! The runtime output sources read over the Debug Module: the `dmdata` mailbox and SEGGER RTT
//! ring buffers in target RAM. Here: finding and validating an RTT control block in a RAM
//! snapshot, the ring arithmetic, and the text that a source's output becomes.

use vstd::prelude::*;

use crate::contract::Warning;
use crate::image::le32_at;
use vstd::utf8::{decode_utf8, valid_utf8};

use crate::text::{utf8_check, utf8_error_len, utf8_valid_len, chars_of, dec, hex_fixed, push_dec, push_hex_fixed, push_str, string_of};

verus! {

/// All CH32 parts map SRAM at this base.
pub const RTT_RAM_BASE: u32 = 0x2000_0000;
/// Sanity cap on a ring-buffer size read out of RAM.
pub const RTT_MAX_BUF: u32 = 0x1_0000;
/// Sanity cap on the channel counts in the header.
pub const RTT_MAX_CHANNELS: u32 = 16;
/// Scan length when the target's SRAM size is unknown.
pub const RTT_DEFAULT_SCAN: u32 = 8192;
/// The size of one memory read while scanning.
pub const RTT_READ_CHUNK: u32 = 8192;
/// Header: id[16] + max_up(4) + max_down(4); then `max_up` up descriptors, then the down ones.
pub const RTT_HEADER_LEN: u32 = 24;
/// One ring descriptor: name(+0) buffer(+4) size(+8) write_off(+12) read_off(+16) flags(+20).
pub const RTT_DESC_LEN: u32 = 24;
pub const RTT_DESC_WRITE_OFF: u32 = 12;
pub const RTT_DESC_READ_OFF: u32 = 16;

/// The control-block id string, `SEGGER RTT`.
pub open spec fn rtt_magic() -> Seq<u8> {
    seq![0x53u8, 0x45, 0x47, 0x47, 0x45, 0x52, 0x20, 0x52, 0x54, 0x54]
}

/// The little-endian word at `off`.
pub fn le32(b: &[u8], off: usize) -> (r: u32)
    requires
        off + 4 <= b@.len(),
    ensures
        r == le32_at(b@, off as int),
{
    proof {
        assert(b@.subrange(off as int, off + 4) =~= seq![b@[off as int], b@[off + 1], b@[off + 2], b@[off + 3]]);
    }
    (b[off] as u32) | ((b[off + 1] as u32) << 8) | ((b[off + 2] as u32) << 16) | ((b[off + 3] as u32) << 24)
}

/// A control block found in a RAM snapshot: its offset and channel counts.
#[derive(Debug, Clone, Copy, PartialEq, Eq, Structural)]
pub struct RttHeader {
    pub offset: usize,
    pub max_up: u32,
    pub max_down: u32,
}

/// The live fields of one ring descriptor.
#[derive(Debug, Clone, Copy, PartialEq, Eq, Structural)]
pub struct RingDesc {
    pub buffer: u32,
    pub size: u32,
    pub wr: u32,
    pub rd: u32,
}

/// A descriptor that can be trusted: buffer in RAM, a sane size, both offsets inside it.
pub open spec fn ring_ok(d: RingDesc) -> bool {
    &&& d.size > 0
    &&& d.size <= RTT_MAX_BUF
    &&& d.wr < d.size
    &&& d.rd < d.size
    &&& d.buffer >= RTT_RAM_BASE
}

/// The descriptor fields at offset `o`.
pub open spec fn desc_at(b: Seq<u8>, o: int) -> RingDesc {
    RingDesc { buffer: le32_at(b, o + 4), size: le32_at(b, o + 8), wr: le32_at(b, o + 12), rd: le32_at(b, o + 16) }
}

/// A descriptor at the start of `d`, when there is a whole one and it can be trusted.
pub open spec fn parse_desc(d: Seq<u8>) -> Option<RingDesc> {
    if d.len() < 24 {
        None
    } else if ring_ok(desc_at(d, 0)) {
        Some(desc_at(d, 0))
    } else {
        None
    }
}

/// The bytes waiting in a ring: from the read offset up to the write offset, across the end.
pub open spec fn used_spec(d: RingDesc) -> int {
    if d.wr >= d.rd { d.wr - d.rd } else { d.size - d.rd + d.wr }
}

impl RingDesc {
    /// Parse and validate a 24-byte descriptor.
    pub fn parse(d: &[u8]) -> (r: Option<RingDesc>)
        ensures
            r == parse_desc(d@),
    {
        if d.len() < 24 {
            return None;
        }
        let desc = RingDesc { buffer: le32(d, 4), size: le32(d, 8), wr: le32(d, 12), rd: le32(d, 16) };
        let ok = desc.size > 0 && desc.size <= RTT_MAX_BUF && desc.wr < desc.size && desc.rd < desc.size
            && desc.buffer >= RTT_RAM_BASE;
        if ok { Some(desc) } else { None }
    }

    /// The bytes waiting in the ring.
    pub fn used(&self) -> (n: u32)
        requires
            self.wr >= self.rd || self.rd <= self.size,
        ensures
            n == used_spec(*self),
    {
        if self.wr >= self.rd {
            self.wr - self.rd
        } else {
            self.size - self.rd + self.wr
        }
    }
}

/// A well-formed ring never holds more than `size - 1` bytes in the sense of [`used_spec`]:
/// the waiting bytes stay below the size, so one slot always tells full from empty.
pub proof fn lemma_used_below_size(d: RingDesc)
    requires
        ring_ok(d),
    ensures
        0 <= used_spec(d) < d.size,
{
}

/// The magic starts at `p`.
pub open spec fn magic_at(s: Seq<u8>, p: int) -> bool {
    0 <= p && p + 10 <= s.len() && s.subrange(p, p + 10) == rtt_magic()
}

/// The control block at `p`: the magic, a header with sane channel counts, and an up[0]
/// descriptor that validates.
pub open spec fn block_at(s: Seq<u8>, p: int) -> Option<RttHeader> {
    if magic_at(s, p) && p + 48 <= s.len() {
        let up = le32_at(s, p + 16);
        let down = le32_at(s, p + 20);
        if 1 <= up <= RTT_MAX_CHANNELS && down <= RTT_MAX_CHANNELS && parse_desc(s.skip(p + 24)) is Some {
            Some(RttHeader { offset: p as usize, max_up: up, max_down: down })
        } else {
            None
        }
    } else {
        None
    }
}

/// The first control block at or after `p`.
pub open spec fn block_from(s: Seq<u8>, p: int) -> Option<RttHeader>
    decreases s.len() - p,
{
    if p < 0 || p >= s.len() {
        None
    } else if block_at(s, p) is Some {
        block_at(s, p)
    } else {
        block_from(s, p + 1)
    }
}

fn magic_here(snap: &[u8], p: usize) -> (r: bool)
    requires
        p + 10 <= snap.len(),
    ensures
        r == magic_at(snap@, p as int),
{
    let magic: [u8; 10] = [0x53, 0x45, 0x47, 0x47, 0x45, 0x52, 0x20, 0x52, 0x54, 0x54];
    proof { assert(magic@ =~= rtt_magic()); }
    let mut k: usize = 0;
    while k < 10
        invariant
            k <= 10,
            p + 10 <= snap.len(),
            magic@ == rtt_magic(),
            forall|j: int| 0 <= j < k ==> snap@[p + j] == magic@[j],
        decreases 10 - k,
    {
        if snap[p + k] != magic[k] {
            proof { assert(snap@.subrange(p as int, p + 10)[k as int] != rtt_magic()[k as int]); }
            return false;
        }
        k = k + 1;
    }
    proof { assert(snap@.subrange(p as int, p + 10) =~= rtt_magic()); }
    true
}

fn desc_after(snap: &[u8], o: usize) -> (r: Option<RingDesc>)
    requires
        o + 24 <= snap.len(),
    ensures
        r == parse_desc(snap@.skip(o as int)),
{
    let ghost t = snap@.skip(o as int);
    proof {
        assert forall|k: int| 0 <= k <= 20 implies #[trigger] le32_at(t, k) == le32_at(snap@, o + k) by {
            assert(t.subrange(k, k + 4) =~= snap@.subrange(o + k, o + k + 4));
        }
        assert(le32_at(t, 4) == le32_at(snap@, o + 4));
        assert(le32_at(t, 8) == le32_at(snap@, o + 8));
        assert(le32_at(t, 12) == le32_at(snap@, o + 12));
        assert(le32_at(t, 16) == le32_at(snap@, o + 16));
    }
    let desc = RingDesc {
        buffer: le32(snap, o + 4),
        size: le32(snap, o + 8),
        wr: le32(snap, o + 12),
        rd: le32(snap, o + 16),
    };
    let ok = desc.size > 0 && desc.size <= RTT_MAX_BUF && desc.wr < desc.size && desc.rd < desc.size
        && desc.buffer >= RTT_RAM_BASE;
    if ok { Some(desc) } else { None }
}

/// Find a SEGGER RTT control block in a RAM snapshot: the first offset holding the magic, a
/// header with sane channel counts and a valid up[0] descriptor. A stray copy of the magic in a
/// ring buffer's own contents fails the checks and is skipped.
pub fn find_control_block(snap: &[u8]) -> (r: Option<RttHeader>)
    ensures
        r == block_from(snap@, 0),
{
    let n = snap.len();
    let mut p: usize = 0;
    while p < n
        invariant
            p <= n,
            n == snap@.len(),
            block_from(snap@, 0) == block_from(snap@, p as int),
        decreases n - p,
    {
        if n - p >= 48 && magic_here(snap, p) {
            let max_up = le32(snap, p + 16);
            let max_down = le32(snap, p + 20);
            if 1 <= max_up && max_up <= RTT_MAX_CHANNELS && max_down <= RTT_MAX_CHANNELS {
                if desc_after(snap, p + 24).is_some() {
                    return Some(RttHeader { offset: p, max_up, max_down });
                }
            }
        }
        proof {
            if !(n - p >= 48) {
                assert(block_at(snap@, p as int) is None);
            }
        }
        p = p + 1;
    }
    None
}

/// Target addresses of the ring descriptors a session streams (channel 0 each way).
#[derive(Debug, Clone, Copy, PartialEq, Eq, Structural)]
pub struct RttChannels {
    pub up: u32,
    pub down: Option<u32>,
}

/// The channel addresses for a control block found at `h.offset` in RAM: up[0] right after the
/// header, down[0] after all the up descriptors (when there is a down channel).
pub open spec fn channels_spec(h: RttHeader) -> RttChannels {
    let up = RTT_RAM_BASE + h.offset + RTT_HEADER_LEN;
    RttChannels {
        up: up as u32,
        down: if h.max_down >= 1 { Some((up + RTT_DESC_LEN * h.max_up) as u32) } else { None },
    }
}

/// The warning for a block with more than one channel in a direction (only channel 0 streams).
pub open spec fn channels_warning(h: RttHeader) -> Option<(Seq<char>, Seq<char>)> {
    if h.max_up > 1 || h.max_down > 1 {
        Some(("rtt-channels"@, "the RTT control block has "@ + dec(h.max_up as nat) + " up / "@
            + dec(h.max_down as nat) + " down channels; only channel 0 is streamed"@))
    } else {
        None
    }
}

/// What streaming from a found control block uses: its channel addresses, and a warning when
/// it has more channels than the one streamed each way.
pub fn rtt_setup(h: &RttHeader) -> (r: (RttChannels, Option<Warning>))
    requires
        RTT_RAM_BASE + h.offset + RTT_HEADER_LEN + RTT_DESC_LEN * h.max_up <= u32::MAX,
    ensures
        r.0 == channels_spec(*h),
        match channels_warning(*h) {
            None => r.1 is None,
            Some((c, m)) => r.1 matches Some(w) && w.code@ == c && w.msg@ == m,
        },
{
    let base = RTT_RAM_BASE + h.offset as u32;
    let up = base + RTT_HEADER_LEN;
    let down = if h.max_down >= 1 { Some(up + RTT_DESC_LEN * h.max_up) } else { None };
    let warning = if h.max_up > 1 || h.max_down > 1 {
        let mut c: Vec<char> = Vec::new();
        push_str(&mut c, "rtt-channels");
        let mut m: Vec<char> = Vec::new();
        push_str(&mut m, "the RTT control block has ");
        push_dec(&mut m, h.max_up as u64);
        push_str(&mut m, " up / ");
        push_dec(&mut m, h.max_down as u64);
        push_str(&mut m, " down channels; only channel 0 is streamed");
        Some(Warning { code: string_of(c.as_slice()), msg: string_of(m.as_slice()) })
    } else {
        None
    };
    (RttChannels { up, down }, warning)
}

/// An opened runtime output source over the Debug Module.
#[derive(Debug, Clone, Copy, PartialEq, Eq, Structural)]
pub enum DmiSource {
    Dmdata,
    Rtt(RttChannels),
}

impl DmiSource {
    pub open spec fn name_spec(self) -> Seq<char> {
        match self {
            DmiSource::Dmdata => "dmdata"@,
            DmiSource::Rtt(_) => "rtt"@,
        }
    }

    /// The source's name as the command line spells it.
    pub fn name(&self) -> (s: &'static str)
        ensures
            s@ == self.name_spec(),
    {
        match self {
            DmiSource::Dmdata => "dmdata",
            DmiSource::Rtt(_) => "rtt",
        }
    }

    /// How long to wait, in milliseconds, between polls that returned nothing: the mailbox is
    /// cheap to poll, an RTT poll halts the core.
    pub fn idle(&self) -> (ms: u64)
        ensures
            ms == (match self {
                DmiSource::Dmdata => 2u64,
                DmiSource::Rtt(_) => 50u64,
            }),
    {
        match self {
            DmiSource::Dmdata => 2,
            DmiSource::Rtt(_) => 50,
        }
    }

    /// One-line description for the human banner.
    pub fn describe(&self) -> (s: String)
        requires
            self matches DmiSource::Rtt(ch) ==> ch.up >= RTT_HEADER_LEN,
        ensures
            s@ == (match self {
                DmiSource::Dmdata => "dmdata (DMI mailbox, core runs)"@,
                DmiSource::Rtt(ch) => "rtt (RAM ring @ 0x"@ + hex_fixed((ch.up - RTT_HEADER_LEN) as nat, 8)
                    + ", core briefly halts per poll)"@,
            }),
    {
        let mut v: Vec<char> = Vec::new();
        match self {
            DmiSource::Dmdata => {
                push_str(&mut v, "dmdata (DMI mailbox, core runs)");
            },
            DmiSource::Rtt(ch) => {
                push_str(&mut v, "rtt (RAM ring @ 0x");
                push_hex_fixed(&mut v, (ch.up - RTT_HEADER_LEN) as u64, 8);
                push_str(&mut v, ", core briefly halts per poll)");
            },
        }
        string_of(v.as_slice())
    }
}

// ---- ring exchanges ----

/// The target memory reads that drain an up ring: the waiting bytes from the read offset, in
/// one piece, or in two when they wrap past the end of the buffer.
pub open spec fn up_reads_spec(d: RingDesc) -> Seq<(u32, u32)> {
    if d.wr == d.rd {
        Seq::empty()
    } else if d.wr > d.rd {
        seq![((d.buffer + d.rd) as u32, (d.wr - d.rd) as u32)]
    } else if d.wr > 0 {
        seq![((d.buffer + d.rd) as u32, (d.size - d.rd) as u32), (d.buffer, d.wr)]
    } else {
        seq![((d.buffer + d.rd) as u32, (d.size - d.rd) as u32)]
    }
}

/// The reads (address, length) that drain the up ring `d`; afterwards its read offset becomes
/// its write offset.
pub fn up_reads(d: &RingDesc) -> (r: Vec<(u32, u32)>)
    requires
        ring_ok(*d),
        d.buffer + d.size <= u32::MAX,
    ensures
        r@ == up_reads_spec(*d),
{
    let mut r: Vec<(u32, u32)> = Vec::new();
    if d.wr == d.rd {
    } else if d.wr > d.rd {
        r.push((d.buffer + d.rd, d.wr - d.rd));
    } else {
        r.push((d.buffer + d.rd, d.size - d.rd));
        if d.wr > 0 {
            r.push((d.buffer, d.wr));
        }
    }
    proof { assert(r@ =~= up_reads_spec(*d)); }
    r
}

/// The total length of some reads.
pub open spec fn read_total(r: Seq<(u32, u32)>) -> int
    decreases r.len(),
{
    if r.len() == 0 { 0 } else { read_total(r.drop_last()) + r.last().1 }
}

/// Draining an up ring reads exactly the bytes waiting in it, each read inside the buffer.
pub proof fn lemma_up_reads_cover_used(d: RingDesc)
    requires
        ring_ok(d),
        d.buffer + d.size <= u32::MAX,
    ensures
        read_total(up_reads_spec(d)) == used_spec(d),
        forall|k: int| 0 <= k < up_reads_spec(d).len() ==> d.buffer <= #[trigger] up_reads_spec(d)[k].0
            && up_reads_spec(d)[k].0 + up_reads_spec(d)[k].1 <= d.buffer + d.size,
{
    let r = up_reads_spec(d);
    reveal_with_fuel(read_total, 3);
    if r.len() == 2 {
        assert(r.drop_last().drop_last() =~= Seq::<(u32, u32)>::empty());
        assert(read_total(r) == r[0].1 + r[1].1);
    } else if r.len() == 1 {
        assert(r.drop_last() =~= Seq::<(u32, u32)>::empty());
        assert(read_total(r) == r[0].1);
    }
}

/// How host input goes into a down ring: how many bytes, how many of them before the end of
/// the buffer (the rest go to its start), and the write offset to publish afterwards.
#[derive(Debug, Clone, Copy, PartialEq, Eq, Structural)]
pub struct DownPlan {
    pub n: usize,
    pub first: usize,
    pub new_wr: u32,
}

/// The room a ring has: one slot is kept free to tell full from empty.
pub open spec fn room_spec(d: RingDesc) -> int {
    d.size - 1 - used_spec(d)
}

/// The plan for `pending` bytes of host input and the down ring `d`.
pub open spec fn down_plan_spec(d: RingDesc, pending: nat) -> DownPlan {
    let n = if pending <= room_spec(d) { pending as int } else { room_spec(d) };
    let first = if n <= d.size - d.wr { n } else { d.size - d.wr };
    DownPlan { n: n as usize, first: first as usize, new_wr: ((d.wr + n) % (d.size as int)) as u32 }
}

/// Plan a write of `pending` bytes of host input into the down ring `d`.
pub fn down_plan(d: &RingDesc, pending: usize) -> (p: DownPlan)
    requires
        ring_ok(*d),
    ensures
        p == down_plan_spec(*d, pending as nat),
{
    let room = (d.size - 1 - d.used()) as usize;
    let n = if pending <= room { pending } else { room };
    let tail = (d.size - d.wr) as usize;
    let first = if n <= tail { n } else { tail };
    let new_wr = ((d.wr as u64 + n as u64) % d.size as u64) as u32;
    DownPlan { n, first, new_wr }
}

/// Writing by plan never overruns the target's unread bytes: the ring afterwards holds exactly
/// the bytes it held plus the ones written, still below its size, and the two pieces fit the
/// buffer.
pub proof fn lemma_down_plan_keeps_ring(d: RingDesc, pending: nat)
    requires
        ring_ok(d),
    ensures
        ({
            let p = down_plan_spec(d, pending);
            let after = RingDesc { wr: p.new_wr, ..d };
            &&& p.n <= pending
            &&& p.n <= room_spec(d)
            &&& (p.n < pending ==> p.n == room_spec(d))
            &&& p.first <= p.n
            &&& d.wr + p.first <= d.size
            &&& p.n - p.first <= d.rd
            &&& ring_ok(after)
            &&& used_spec(after) == used_spec(d) + p.n
        }),
{
    let p = down_plan_spec(d, pending);
    let n = p.n as int;
    let s = d.size as int;
    assert(0 <= n < s);
    if d.wr + n < s {
        assert((d.wr + n) % s == d.wr + n) by (nonlinear_arith)
            requires 0 <= d.wr + n < s;
    } else {
        assert((d.wr + n) % s == d.wr + n - s) by (nonlinear_arith)
            requires s <= d.wr + n < 2 * s;
    }
}

// ---- text out of a byte stream ----

/// The text at the front of `b` and how many bytes it takes: the longest run of complete UTF-8
/// characters, each invalid sequence replaced by U+FFFD; an incomplete sequence at the end is
/// not taken.
pub open spec fn lossy_front(b: Seq<u8>) -> (Seq<char>, nat)
    decreases b.len(),
{
    if valid_utf8(b) {
        (decode_utf8(b), b.len())
    } else {
        let v = utf8_valid_len(b);
        match utf8_error_len(b) {
            Some(k) => if 1 <= k && v + k <= b.len() {
                let rest = lossy_front(b.skip((v + k) as int));
                (decode_utf8(b.take(v as int)) + seq!['\u{FFFD}'] + rest.0, v + k + rest.1)
            } else {
                (decode_utf8(b.take(v as int)), v)
            },
            None => (decode_utf8(b.take(v as int)), v),
        }
    }
}

proof fn lemma_valid_len(b: Seq<u8>, v: nat)
    requires
        v <= b.len(),
        valid_utf8(b.take(v as int)),
        forall|w: nat| v < w <= b.len() ==> !valid_utf8(#[trigger] b.take(w as int)),
    ensures
        utf8_valid_len(b) == v,
{
    let c = utf8_valid_len(b);
    assert(c <= b.len() && valid_utf8(b.take(c as int))
        && forall|w: nat| c < w <= b.len() ==> !valid_utf8(#[trigger] b.take(w as int)));
    if c < v {
        assert(!valid_utf8(b.take(v as int)));
    }
    if v < c {
        assert(!valid_utf8(b.take(c as int)));
    }
}

/// Take the longest run of complete UTF-8 characters off the front of `buf`, replacing invalid
/// sequences with U+FFFD; an incomplete multi-byte sequence at the end stays in `buf` for the
/// next chunk to complete.
pub fn take_text(buf: &mut Vec<u8>) -> (s: String)
    ensures
        s@ == lossy_front(old(buf)@).0,
        final(buf)@ == old(buf)@.skip(lossy_front(old(buf)@).1 as int),
{
    let ghost b = buf@;
    let n = buf.len();
    let mut out: Vec<char> = Vec::new();
    let mut i: usize = 0;
    proof { assert(b.skip(0) =~= b); }
    loop
        invariant_except_break
            out@ + lossy_front(b.skip(i as int)).0 == lossy_front(b).0,
            i + lossy_front(b.skip(i as int)).1 == lossy_front(b).1,
        invariant
            buf@ == b,
            n == b.len(),
            i <= n,
        ensures
            i <= n,
            out@ == lossy_front(b).0,
            i == lossy_front(b).1,
        decreases n - i,
    {
        let rest = vstd::slice::slice_subrange(buf.as_slice(), i, n);
        let ghost r = rest@;
        proof { assert(r =~= b.skip(i as int)); }
        match utf8_check(rest) {
            Ok(t) => {
                push_str(&mut out, t);
                proof { assert(out@ == lossy_front(b).0); }
                i = n;
                break;
            },
            Err((v, e)) => {
                proof { lemma_valid_len(r, v as nat); }
                let ghost before = out@;
                let valid = vstd::slice::slice_subrange(rest, 0, v);
                proof { assert(valid@ =~= r.take(v as int)); }
                match utf8_check(valid) {
                    Ok(t) => push_str(&mut out, t),
                    Err(_) => {},
                }
                proof { assert(out@ == before + decode_utf8(r.take(v as int))); }
                match e {
                    Some(k) => {
                        out.push('\u{FFFD}');
                        proof {
                            assert(r.skip(v + k) =~= b.skip(i + v + k));
                            let tail = lossy_front(r.skip(v + k));
                            assert(lossy_front(r) == (decode_utf8(r.take(v as int)) + seq!['\u{FFFD}'] + tail.0,
                                (v + k) as nat + tail.1));
                            assert(out@ + tail.0 =~= before + lossy_front(r).0);
                        }
                        i = i + v + k;
                    },
                    None => {
                        proof {
                            assert(lossy_front(r) == (decode_utf8(r.take(v as int)), v as nat));
                        }
                        i = i + v;
                        break;
                    },
                }
            },
        }
    }
    let left = vstd::slice::slice_subrange(buf.as_slice(), i, n);
    let mut kept: Vec<u8> = Vec::new();
    let mut k: usize = 0;
    while k < left.len()
        invariant
            k <= left@.len(),
            kept@ == left@.take(k as int),
        decreases left@.len() - k,
    {
        kept.push(left[k]);
        proof { assert(kept@ =~= left@.take(k + 1)); }
        k = k + 1;
    }
    proof {
        assert(kept@ =~= b.skip(i as int));
    }
    *buf = kept;
    string_of(out.as_slice())
}

} // verus!
