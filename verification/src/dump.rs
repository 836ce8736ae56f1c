//! Text renderings of memory read from the target: the classic hex dump (address, sixteen hex
//! bytes, their printable ASCII) and a minimal Intel HEX writer.

use vstd::prelude::*;

use crate::text::{hex2, hex2_upper, hex_fixed, push_hex2, push_hex2_upper, push_hex_fixed, push_str, string_of};

verus! {

/// The number of 16-byte chunks `data` splits into (the last may be shorter).
pub open spec fn chunk_count(len: nat) -> nat {
    ((len + 15) / 16) as nat
}

/// Chunk `i` of `data`: 16 bytes from `16 * i`, fewer at the end.
pub open spec fn chunk(data: Seq<u8>, i: nat) -> Seq<u8> {
    let from: int = 16 * (i as int);
    let to: int = if from + 16 <= data.len() { from + 16 } else { data.len() as int };
    data.subrange(from, to)
}

/// A byte as the dump shows it: itself when printable ASCII, `.` otherwise.
pub open spec fn shown(b: u8) -> char {
    if 0x20 <= b < 0x7f { b as char } else { '.' }
}

/// The hex bytes of a line, separated by single spaces.
pub open spec fn hex_join(b: Seq<u8>) -> Seq<char>
    decreases b.len(),
{
    if b.len() == 0 {
        Seq::empty()
    } else if b.len() == 1 {
        hex2(b[0])
    } else {
        hex_join(b.drop_last()) + seq![' '] + hex2(b.last())
    }
}

/// `s` padded with spaces on the right to at least `w` characters.
pub open spec fn pad_right(s: Seq<char>, w: nat) -> Seq<char> {
    if s.len() >= w { s } else { s + Seq::new((w - s.len()) as nat, |i: int| ' ') }
}

/// One dump line: 8-digit address, the hex bytes padded to 48 columns, the ASCII column.
pub open spec fn dump_line(addr: nat, c: Seq<u8>) -> Seq<char> {
    hex_fixed(addr, 8) + seq![' ', ' '] + pad_right(hex_join(c), 48) + seq![' ', ' ']
        + Seq::new(c.len(), |i: int| shown(c[i])) + seq!['\n']
}

/// The first `k` lines of the dump of `data` at `start`; addresses wrap at 32 bits.
pub open spec fn dump_lines(start: u32, data: Seq<u8>, k: nat) -> Seq<char>
    decreases k,
{
    if k == 0 {
        Seq::empty()
    } else {
        let i = (k - 1) as nat;
        dump_lines(start, data, i) + dump_line(((start + (16 * i) % 0x1_0000_0000) % 0x1_0000_0000) as nat, chunk(data, i))
    }
}

/// The whole hex dump.
pub open spec fn hex_dump_spec(start: u32, data: Seq<u8>) -> Seq<char> {
    dump_lines(start, data, chunk_count(data.len()))
}

fn push_line(out: &mut Vec<char>, addr: u32, data: &[u8], from: usize, to: usize)
    requires
        from <= to <= data@.len(),
        to - from <= 16,
    ensures
        final(out)@ == old(out)@ + dump_line(addr as nat, data@.subrange(from as int, to as int)),
{
    let ghost c = data@.subrange(from as int, to as int);
    let ghost before = out@;
    push_hex_fixed(out, addr as u64, 8);
    out.push(' ');
    out.push(' ');
    let ghost at_hex = out@;
    let mut k = from;
    while k < to
        invariant
            from <= k <= to,
            to <= data@.len(),
            c == data@.subrange(from as int, to as int),
            out@ == at_hex + hex_join(data@.subrange(from as int, k as int)),
        decreases to - k,
    {
        let ghost prev = data@.subrange(from as int, k as int);
        proof {
            assert(data@.subrange(from as int, k + 1).drop_last() =~= prev);
        }
        if k > from {
            out.push(' ');
        }
        push_hex2(out, data[k]);
        proof {
            if k == from {
                assert(out@ =~= at_hex + hex_join(data@.subrange(from as int, k + 1)));
            } else {
                assert(out@ =~= at_hex + hex_join(data@.subrange(from as int, k + 1)));
            }
        }
        k = k + 1;
    }
    let ghost joined = hex_join(c);
    proof { lemma_hex_join_len(c); }
    let width = if to > from { 3 * (to - from) - 1 } else { 0 };
    let mut w = width;
    while w < 48
        invariant
            width <= w <= 48,
            width == joined.len(),
            out@ == at_hex + joined + Seq::new((w - width) as nat, |i: int| ' '),
        decreases 48 - w,
    {
        out.push(' ');
        proof {
            assert(out@ =~= at_hex + joined + Seq::new((w + 1 - width) as nat, |i: int| ' '));
        }
        w = w + 1;
    }
    proof {
        if width >= 48 {
            assert(out@ =~= at_hex + pad_right(joined, 48));
        } else {
            assert(out@ =~= at_hex + pad_right(joined, 48));
        }
    }
    out.push(' ');
    out.push(' ');
    let ghost at_ascii = out@;
    let mut j = from;
    while j < to
        invariant
            from <= j <= to,
            to <= data@.len(),
            c == data@.subrange(from as int, to as int),
            out@ == at_ascii + Seq::new((j - from) as nat, |i: int| shown(c[i])),
        decreases to - j,
    {
        let b = data[j];
        let ch = if 0x20 <= b && b < 0x7f { b as char } else { '.' };
        out.push(ch);
        proof {
            assert(out@ =~= at_ascii + Seq::new((j + 1 - from) as nat, |i: int| shown(c[i])));
        }
        j = j + 1;
    }
    out.push('\n');
    proof {
        assert(out@ =~= before + dump_line(addr as nat, c));
    }
}

proof fn lemma_hex_join_len(b: Seq<u8>)
    ensures
        hex_join(b).len() == if b.len() == 0 { 0 } else { 3 * b.len() - 1 },
    decreases b.len(),
{
    if b.len() > 1 {
        lemma_hex_join_len(b.drop_last());
    }
}

/// The classic hex dump: one line per 16 bytes.
pub fn hex_dump(start: u32, data: &[u8]) -> (s: String)
    ensures
        s@ == hex_dump_spec(start, data@),
{
    let mut out: Vec<char> = Vec::new();
    let n = data.len();
    let count: usize = n / 16 + if n % 16 == 0 { 0 } else { 1 };
    proof { assert(count == chunk_count(n as nat)); }
    let mut i: usize = 0;
    while i < count
        invariant
            i <= count,
            n == data@.len(),
            count == chunk_count(n as nat),
            out@ == dump_lines(start, data@, i as nat),
        decreases count - i,
    {
        let pos = 16 * i;
        let to = if n - pos > 16 { pos + 16 } else { n };
        let off = (pos as u64 % 0x1_0000_0000) as u32;
        let addr = start.wrapping_add(off);
        proof {
            assert(chunk(data@, i as nat) == data@.subrange(pos as int, to as int));
            assert(addr == ((start + (16 * i) % 0x1_0000_0000) % 0x1_0000_0000));
        }
        push_line(&mut out, addr, data, pos, to);
        i = i + 1;
    }
    string_of(out.as_slice())
}

// ---- Intel HEX ----

/// The bytes of a record before its checksum: length, address (big-endian), type, data.
pub open spec fn record_bytes(addr: u16, rtype: u8, data: Seq<u8>) -> Seq<u8> {
    seq![(data.len() % 256) as u8, (addr / 256) as u8, (addr % 256) as u8, rtype] + data
}

/// The sum of some bytes.
pub open spec fn sum_bytes(b: Seq<u8>) -> nat
    decreases b.len(),
{
    if b.len() == 0 { 0 } else { sum_bytes(b.drop_last()) + b.last() as nat }
}

/// The checksum that makes a record's bytes sum to zero modulo 256.
pub open spec fn checksum(b: Seq<u8>) -> u8 {
    ((256 - sum_bytes(b) % 256) % 256) as u8
}

/// Upper-case hex of some bytes, two digits each.
pub open spec fn hex_upper_bytes(b: Seq<u8>) -> Seq<char>
    decreases b.len(),
{
    if b.len() == 0 { Seq::empty() } else { hex_upper_bytes(b.drop_last()) + hex2_upper(b.last()) }
}

/// One Intel HEX record line.
pub open spec fn record_line(addr: u16, rtype: u8, data: Seq<u8>) -> Seq<char> {
    let b = record_bytes(addr, rtype, data);
    seq![':'] + hex_upper_bytes(b.push(checksum(b))) + seq!['\n']
}

/// One Intel HEX record: `:`, the record bytes and their checksum in upper-case hex, newline.
/// The length byte holds the data length modulo 256.
pub fn ihex_record(addr: u16, rtype: u8, data: &[u8]) -> (s: String)
    ensures
        s@ == record_line(addr, rtype, data@),
{
    let mut bytes: Vec<u8> = Vec::new();
    bytes.push((data.len() % 256) as u8);
    bytes.push((addr / 256) as u8);
    bytes.push((addr % 256) as u8);
    bytes.push(rtype);
    let mut k: usize = 0;
    while k < data.len()
        invariant
            k <= data@.len(),
            bytes@ == seq![(data@.len() % 256) as u8, (addr / 256) as u8, (addr % 256) as u8, rtype]
                + data@.take(k as int),
        decreases data@.len() - k,
    {
        bytes.push(data[k]);
        proof {
            assert(data@.take(k + 1) =~= data@.take(k as int).push(data@[k as int]));
        }
        k = k + 1;
    }
    proof { assert(data@.take(k as int) =~= data@); }
    let ghost b = bytes@;
    let mut sum: u8 = 0;
    let mut j: usize = 0;
    while j < bytes.len()
        invariant
            j <= bytes@.len(),
            sum == sum_bytes(bytes@.take(j as int)) % 256,
        decreases bytes@.len() - j,
    {
        proof { assert(bytes@.take(j + 1).drop_last() =~= bytes@.take(j as int)); }
        sum = sum.wrapping_add(bytes[j]);
        j = j + 1;
    }
    proof { assert(bytes@.take(j as int) =~= bytes@); }
    let ck: u8 = if sum == 0 { 0 } else { (256 - sum as u16) as u8 };
    bytes.push(ck);
    let mut out: Vec<char> = Vec::new();
    out.push(':');
    let mut q: usize = 0;
    while q < bytes.len()
        invariant
            q <= bytes@.len(),
            out@ == seq![':'] + hex_upper_bytes(bytes@.take(q as int)),
        decreases bytes@.len() - q,
    {
        proof { assert(bytes@.take(q + 1).drop_last() =~= bytes@.take(q as int)); }
        push_hex2_upper(&mut out, bytes[q]);
        q = q + 1;
    }
    proof { assert(bytes@.take(q as int) =~= bytes@); }
    out.push('\n');
    proof { assert(out@ =~= record_line(addr, rtype, data@)); }
    string_of(out.as_slice())
}

/// The records for the first `k` chunks, and the upper address half last announced (the
/// writer starts from `0xffff` so that an initial extended-address record is written, unless
/// the data starts in that very block); nothing once a chunk's address passes 32 bits.
pub open spec fn ihex_body(start: u32, data: Seq<u8>, k: nat) -> Option<(Seq<char>, nat)>
    decreases k,
{
    if k == 0 {
        Some((Seq::empty(), 0xffff))
    } else {
        let i = (k - 1) as nat;
        match ihex_body(start, data, i) {
            None => None,
            Some((out, up)) => {
                let a = start + (16 * i) % 0x1_0000_0000;
                if a > u32::MAX {
                    None
                } else {
                    let hi = (a / 0x10000) as nat;
                    let with_ext = if hi != up {
                        out + record_line(0, 4, seq![(hi / 256) as u8, (hi % 256) as u8])
                    } else {
                        out
                    };
                    Some((with_ext + record_line((a % 0x10000) as u16, 0, chunk(data, i)), hi))
                }
            },
        }
    }
}

/// The Intel HEX text of `data` at `start` (data records of 16 bytes, extended linear address
/// records where the upper half changes, and the end record), or the error when an address
/// passes 32 bits.
pub open spec fn ihex_dump_spec(start: u32, data: Seq<u8>) -> Result<Seq<char>, Seq<char>> {
    match ihex_body(start, data, chunk_count(data.len())) {
        None => Err("address overflow"@),
        Some((out, _)) => Ok(out + record_line(0, 1, Seq::empty())),
    }
}

/// Minimal Intel HEX writer (record types 00 data, 04 extended linear address, 01 end).
pub fn ihex_dump(start: u32, data: &[u8]) -> (r: Result<String, String>)
    ensures
        match ihex_dump_spec(start, data@) {
            Ok(t) => r matches Ok(s) && s@ == t,
            Err(m) => r matches Err(e) && e@ == m,
        },
{
    let mut out: Vec<char> = Vec::new();
    let mut upper: u32 = 0xffff;
    let n = data.len();
    let count: usize = n / 16 + if n % 16 == 0 { 0 } else { 1 };
    proof { assert(count == chunk_count(n as nat)); }
    let mut i: usize = 0;
    while i < count
        invariant
            i <= count,
            n == data@.len(),
            count == chunk_count(n as nat),
            ihex_body(start, data@, i as nat) == Some((out@, upper as nat)),
        decreases count - i,
    {
        let pos = 16 * i;
        let to = if n - pos > 16 { pos + 16 } else { n };
        let off = pos as u64 % 0x1_0000_0000;
        let a64 = start as u64 + off;
        if a64 > 0xffff_ffff {
            proof {
                assert(ihex_body(start, data@, (i + 1) as nat) is None);
                lemma_body_stays_none(start, data@, (i + 1) as nat, count as nat);
            }
            let mut v: Vec<char> = Vec::new();
            push_str(&mut v, "address overflow");
            return Err(string_of(v.as_slice()));
        }
        proof {
            assert(chunk(data@, i as nat) == data@.subrange(pos as int, to as int));
        }
        let body = slice_of(data, pos, to);
        upper = ihex_chunk(&mut out, upper, a64 as u32, body.as_slice());
        i = i + 1;
    }
    let none: Vec<u8> = Vec::new();
    let end = ihex_record(0, 1, none.as_slice());
    push_str(&mut out, end.as_str());
    Ok(string_of(out.as_slice()))
}

/// Append the records of one chunk at `addr`: an extended address record when its upper half
/// differs from `upper`, then the data record; the upper half it leaves announced is returned.
fn ihex_chunk(out: &mut Vec<char>, upper: u32, addr: u32, body: &[u8]) -> (up: u32)
    ensures
        up == addr / 0x10000,
        final(out)@ == (if (addr / 0x10000) as nat != upper as nat {
            old(out)@ + record_line(0, 4, seq![((addr / 0x10000) as nat / 256) as u8, ((addr / 0x10000) as nat % 256) as u8])
        } else {
            old(out)@
        }) + record_line((addr % 0x10000) as u16, 0, body@),
{
    let hi = addr / 0x10000;
    if hi != upper {
        let ext = [(hi / 256) as u8, (hi % 256) as u8];
        proof { assert(ext@ =~= seq![(hi as nat / 256) as u8, (hi as nat % 256) as u8]); }
        let rec = ihex_record(0, 4, &ext);
        push_str(out, rec.as_str());
    }
    let rec = ihex_record((addr % 0x10000) as u16, 0, body);
    push_str(out, rec.as_str());
    hi
}

proof fn lemma_body_stays_none(start: u32, data: Seq<u8>, k: nat, m: nat)
    requires
        k <= m,
        ihex_body(start, data, k) is None,
    ensures
        ihex_body(start, data, m) is None,
    decreases m - k,
{
    if k < m {
        lemma_body_stays_none(start, data, k + 1, m);
    }
}

/// A copy of `data[from..to]`.
fn slice_of(data: &[u8], from: usize, to: usize) -> (v: Vec<u8>)
    requires
        from <= to <= data@.len(),
    ensures
        v@ == data@.subrange(from as int, to as int),
{
    let mut v: Vec<u8> = Vec::new();
    let mut k = from;
    while k < to
        invariant
            from <= k <= to,
            to <= data@.len(),
            v@ == data@.subrange(from as int, k as int),
        decreases to - k,
    {
        v.push(data[k]);
        proof { assert(v@ =~= data@.subrange(from as int, k + 1)); }
        k = k + 1;
    }
    v
}


/// The text of the first `k` chunks' records (empty when an address passed 32 bits).
pub open spec fn body_text(start: u32, data: Seq<u8>, k: nat) -> Seq<char> {
    match ihex_body(start, data, k) {
        Some((o, _)) => o,
        None => Seq::empty(),
    }
}

/// The upper address half announced after the first `k` chunks.
pub open spec fn body_upper(start: u32, data: Seq<u8>, k: nat) -> nat {
    match ihex_body(start, data, k) {
        Some((_, u)) => u,
        None => 0,
    }
}

proof fn lemma_ihex_upper(start: u32, data: Seq<u8>, k: nat)
    requires
        ihex_body(start, data, k) is Some,
    ensures
        body_upper(start, data, k) == if k == 0 {
            0xffffnat
        } else {
            ((start + (16 * (k - 1)) % 0x1_0000_0000) / 0x10000) as nat
        },
    decreases k,
{
    if k > 0 {
        lemma_ihex_upper(start, data, (k - 1) as nat);
    }
}

/// Each data record of the Intel HEX text lands at its true address: the text of the first
/// `i + 1` chunks is that of the first `i`, then an extended linear address record naming the
/// 64 KiB block of chunk `i` exactly when that block differs from the previous chunk's (for the
/// first chunk: from 0xffff, the writer's starting value), then the data record of chunk `i` at
/// its offset in that block - so block * 0x10000 + offset is `start + 16 * i`.
pub proof fn lemma_ihex_block_records(start: u32, data: Seq<u8>, i: nat)
    requires
        start + 16 * i <= u32::MAX,
        ihex_body(start, data, i) is Some,
    ensures
        ({
            let out = body_text(start, data, i);
            let a = start + 16 * i;
            let blk = a / 0x10000;
            let prev = if i == 0 { 0xffffint } else { (start + 16 * (i - 1)) / 0x10000 };
            &&& blk * 0x10000 + a % 0x10000 == a
            &&& ihex_body(start, data, i + 1) == Some((
                out + (if blk != prev {
                    record_line(0, 4, seq![(blk / 256) as u8, (blk % 256) as u8])
                } else {
                    Seq::empty()
                }) + record_line((a % 0x10000) as u16, 0, chunk(data, i)),
                blk as nat,
            ))
        }),
{
    lemma_ihex_upper(start, data, i);
    assert((16 * i) % 0x1_0000_0000 == 16 * i);
    if i > 0 {
        assert((16 * (i - 1)) % 0x1_0000_0000 == 16 * (i - 1));
    }
    let a = start + 16 * i;
    let out = body_text(start, data, i);
    let blk = a / 0x10000;
    let prev = if i == 0 { 0xffffint } else { (start + 16 * (i - 1)) / 0x10000 };
    let ext = if blk != prev { record_line(0, 4, seq![(blk / 256) as u8, (blk % 256) as u8]) } else { Seq::empty() };
    assert(out + ext + record_line((a % 0x10000) as u16, 0, chunk(data, i)) =~=
        (if blk != prev { out + record_line(0, 4, seq![(blk / 256) as u8, (blk % 256) as u8]) } else { out })
            + record_line((a % 0x10000) as u16, 0, chunk(data, i)));
}

} // verus!
