//! Firmware images: ELF32 / Intel HEX / UF2 / raw binary parsed into flash [`Segment`]s, and the
//! blocks that are actually programmed. Link-time addresses are normalised into the flash
//! window, so a 0x0000_0000-based image lands at the family's flash base.

use vstd::prelude::*;

use crate::blocks::{key_before, reorder, sort_by_addr, sorted_order};
use crate::dmseq::le_word;
use crate::ihex::{ihex_spec, parse_ihex};
use crate::policy::ImageFormat;

verus! {

/// Why an image could not be used.
#[derive(Debug)]
pub enum ImageError {
    Empty,
    UnknownFormat,
    Malformed(&'static str),
    Hex { line: usize, reason: String },
    NoFlashContent,
    OutOfFlash { addr: u32, len: usize },
}

/// One contiguous chunk of bytes to program at `addr` (an absolute flash address).
#[derive(Debug, Clone, PartialEq, Eq)]
pub struct Segment {
    pub addr: u32,
    pub data: Vec<u8>,
}

/// A parsed image: flash segments, sorted by address.
#[derive(Debug, Clone)]
pub struct Image {
    pub segments: Vec<Segment>,
}

impl Default for Image {
    fn default() -> (img: Image)
        ensures
            img.segments@.len() == 0,
    {
        Image { segments: Vec::new() }
    }
}

/// The address just past a segment.
pub open spec fn seg_end(s: Segment) -> int {
    s.addr + s.data@.len()
}

/// The sum of the segments' lengths.
pub open spec fn total(segs: Seq<Segment>) -> int
    decreases segs.len(),
{
    if segs.len() == 0 {
        0
    } else {
        total(segs.drop_last()) + segs.last().data@.len()
    }
}

/// The end address that a bounds check computes for a segment: its length taken modulo 2^32,
/// added to its address with saturation.
pub open spec fn checked_end(s: Segment) -> int {
    let e = s.addr + (s.data@.len() % 0x1_0000_0000);
    if e > u32::MAX { u32::MAX as int } else { e }
}

/// A segment lies in `[start, start + size)`, the end saturating at 2^32 - 1.
pub open spec fn within_flash(s: Segment, start: u32, size: u32) -> bool {
    let end = if start + size > u32::MAX { u32::MAX as int } else { start + size };
    s.addr >= start && checked_end(s) <= end
}

impl Image {
    /// Total programmed byte count across all segments.
    pub fn total_len(&self) -> (n: usize)
        requires
            total(self.segments@) <= usize::MAX,
        ensures
            n == total(self.segments@),
    {
        let mut n: usize = 0;
        let mut i: usize = 0;
        while i < self.segments.len()
            invariant
                i <= self.segments@.len(),
                total(self.segments@) <= usize::MAX,
                n == total(self.segments@.take(i as int)),
            decreases self.segments@.len() - i,
        {
            proof {
                lemma_total_prefix_le(self.segments@, i as int + 1);
                assert(self.segments@.take(i as int + 1).drop_last() =~= self.segments@.take(i as int));
            }
            n = n + self.segments[i].data.len();
            i = i + 1;
        }
        proof { assert(self.segments@.take(i as int) =~= self.segments@); }
        n
    }

    /// Lowest segment address, if any.
    pub fn base_addr(&self) -> (r: Option<u32>)
        ensures
            r is None <==> self.segments@.len() == 0,
            r matches Some(m) ==> {
                &&& exists|i: int| 0 <= i < self.segments@.len() && #[trigger] self.segments@[i].addr == m
                &&& forall|i: int| 0 <= i < self.segments@.len() ==> m <= #[trigger] self.segments@[i].addr
            },
    {
        if self.segments.len() == 0 {
            return None;
        }
        let mut m = self.segments[0].addr;
        let mut i: usize = 1;
        while i < self.segments.len()
            invariant
                1 <= i <= self.segments@.len(),
                exists|j: int| 0 <= j < i && #[trigger] self.segments@[j].addr == m,
                forall|j: int| 0 <= j < i ==> m <= #[trigger] self.segments@[j].addr,
            decreases self.segments@.len() - i,
        {
            if self.segments[i].addr < m {
                m = self.segments[i].addr;
            }
            i = i + 1;
        }
        Some(m)
    }

    /// Reject the first segment that falls outside `[code_flash_start, code_flash_start +
    /// flash_size)` (the end saturating at 2^32 - 1).
    pub fn check_within_flash(&self, code_flash_start: u32, flash_size: u32) -> (r: Result<(), ImageError>)
        ensures
            r is Ok <==> forall|i: int| 0 <= i < self.segments@.len()
                ==> within_flash(#[trigger] self.segments@[i], code_flash_start, flash_size),
            r matches Err(e) ==> exists|i: int| {
                &&& 0 <= i < self.segments@.len()
                &&& !within_flash(#[trigger] self.segments@[i], code_flash_start, flash_size)
                &&& forall|j: int| 0 <= j < i ==> within_flash(#[trigger] self.segments@[j], code_flash_start, flash_size)
                &&& e matches ImageError::OutOfFlash { addr, len }
                &&& addr == self.segments@[i].addr && len == self.segments@[i].data@.len()
            },
    {
        let end = code_flash_start.saturating_add(flash_size);
        let mut i: usize = 0;
        while i < self.segments.len()
            invariant
                i <= self.segments@.len(),
                end == (if code_flash_start + flash_size > u32::MAX { u32::MAX as int } else { code_flash_start + flash_size }),
                forall|j: int| 0 <= j < i ==> within_flash(#[trigger] self.segments@[j], code_flash_start, flash_size),
            decreases self.segments@.len() - i,
        {
            let s = &self.segments[i];
            let n: usize = s.data.len();
            let n64 = n as u64;
            let n32 = n64 as u32;
            proof {
                assert(n32 == n64 % 0x1_0000_0000) by (bit_vector)
                    requires n32 == n64 as u32;
            }
            let seg_end = s.addr.saturating_add(n32);
            if s.addr < code_flash_start || seg_end > end {
                return Err(ImageError::OutOfFlash { addr: s.addr, len: s.data.len() });
            }
            i = i + 1;
        }
        Ok(())
    }
}

proof fn lemma_total_prefix_le(segs: Seq<Segment>, k: int)
    requires
        0 <= k <= segs.len(),
    ensures
        total(segs.take(k)) <= total(segs),
        total(segs.take(k)) >= 0,
    decreases segs.len() - k,
{
    if k < segs.len() {
        lemma_total_prefix_le(segs, k + 1);
        assert(segs.take(k + 1).drop_last() =~= segs.take(k));
    } else {
        assert(segs.take(k) =~= segs);
    }
    lemma_total_nonneg(segs.take(k));
}

proof fn lemma_total_nonneg(segs: Seq<Segment>)
    ensures
        total(segs) >= 0,
    decreases segs.len(),
{
    if segs.len() > 0 {
        lemma_total_nonneg(segs.drop_last());
    }
}

/// The format that a magic prefix announces: ELF (`\x7fELF`), Intel HEX (`:` then hex digits or
/// line ends), UF2 (its first magic word); none for anything else.
pub open spec fn detect_spec(b: Seq<u8>) -> Option<ImageFormat> {
    if b.len() >= 4 && b[0] == 0x7f && b[1] == 0x45 && b[2] == 0x4c && b[3] == 0x46 {
        Some(ImageFormat::Elf)
    } else if b.len() >= 8 && b[0] == 0x3a && (forall|i: int| 1 <= i < 9 && i < b.len() ==> is_hex_or_crlf_spec(#[trigger] b[i])) {
        Some(ImageFormat::Hex)
    } else if b.len() >= 8 && b[0] == 0x55 && b[1] == 0x46 && b[2] == 0x32 && b[3] == 0x0a {
        Some(ImageFormat::Uf2)
    } else {
        None
    }
}

/// An ASCII hex digit, CR or LF.
pub open spec fn is_hex_or_crlf_spec(b: u8) -> bool {
    (0x30 <= b <= 0x39) || (0x41 <= b <= 0x46) || (0x61 <= b <= 0x66) || b == 0x0d || b == 0x0a
}

fn is_hex_or_crlf(b: u8) -> (r: bool)
    ensures
        r == is_hex_or_crlf_spec(b),
{
    (0x30 <= b && b <= 0x39) || (0x41 <= b && b <= 0x46) || (0x61 <= b && b <= 0x66) || b == 0x0d || b == 0x0a
}

/// Detect the image format from its magic prefix.
pub fn detect(bytes: &[u8]) -> (r: Option<ImageFormat>)
    ensures
        r == detect_spec(bytes@),
{
    if bytes.len() >= 4 && bytes[0] == 0x7f && bytes[1] == 0x45 && bytes[2] == 0x4c && bytes[3] == 0x46 {
        return Some(ImageFormat::Elf);
    }
    if bytes.len() >= 8 && bytes[0] == 0x3a {
        let mut all = true;
        let mut i: usize = 1;
        while i < 9 && i < bytes.len()
            invariant
                1 <= i <= 9,
                all <==> forall|j: int| 1 <= j < i && j < bytes@.len() ==> is_hex_or_crlf_spec(#[trigger] bytes@[j]),
            decreases 9 - i,
        {
            if !is_hex_or_crlf(bytes[i]) {
                all = false;
            }
            i = i + 1;
        }
        if all {
            return Some(ImageFormat::Hex);
        }
    }
    if bytes.len() >= 8 && bytes[0] == 0x55 && bytes[1] == 0x46 && bytes[2] == 0x32 && bytes[3] == 0x0a {
        return Some(ImageFormat::Uf2);
    }
    None
}

/// The flash-window image of a link-time address: `start + addr` (mod 2^32), moved down by
/// 0x0800_0000 when it lands at or above 0x1000_0000.
pub open spec fn fix_flash_addr_spec(addr: u32, start: u32) -> u32 {
    let a = ((start + addr) % 0x1_0000_0000) as u32;
    if a >= 0x1000_0000 { (a - 0x0800_0000) as u32 } else { a }
}

/// Map a link-time address into the flash window: 0x0000_0000-based addresses move to the
/// flash base, absolute flash addresses stay put, RAM stays RAM.
pub fn fix_flash_addr(addr: u32, code_flash_start: u32) -> (r: u32)
    ensures
        r == fix_flash_addr_spec(addr, code_flash_start),
{
    let a = code_flash_start.wrapping_add(addr);
    if a >= 0x1000_0000 {
        a.wrapping_sub(0x0800_0000)
    } else {
        a
    }
}


// ---- segment views ----

/// What a segment holds, as plain values.
pub open spec fn seg_view(s: Segment) -> (u32, Seq<u8>) {
    (s.addr, s.data@)
}

pub open spec fn segs_view(v: Seq<Segment>) -> Seq<(u32, Seq<u8>)> {
    Seq::new(v.len(), |i: int| seg_view(v[i]))
}

/// A segment that is kept for flashing: non-empty, at or above the flash base and below the
/// RAM window at 0x1000_0000.
pub open spec fn keep_v(s: (u32, Seq<u8>), start: u32) -> bool {
    s.1.len() > 0 && s.0 >= start && s.0 < 0x1000_0000
}

/// The kept segments, in their order.
pub open spec fn kept_v(vs: Seq<(u32, Seq<u8>)>, start: u32) -> Seq<(u32, Seq<u8>)>
    decreases vs.len(),
{
    if vs.len() == 0 {
        vs
    } else if keep_v(vs.last(), start) {
        kept_v(vs.drop_last(), start).push(vs.last())
    } else {
        kept_v(vs.drop_last(), start)
    }
}

/// `p` lists the indices of `vs` in the order of a stable sort by address.
pub open spec fn sorted_by_addr(p: Seq<usize>, vs: Seq<(u32, Seq<u8>)>) -> bool {
    &&& p.len() == vs.len()
    &&& forall|i: int| 0 <= i < p.len() ==> #[trigger] p[i] < vs.len()
    &&& forall|i: int, j: int| #![trigger p[i], p[j]] 0 <= i < j < p.len() ==> (vs[p[i] as int].0 < vs[p[j] as int].0
        || (vs[p[i] as int].0 == vs[p[j] as int].0 && p[i] < p[j]))
}

/// The image that the raw segments `raw` give: the kept ones, stably sorted by address.
pub open spec fn flashed(img: Seq<Segment>, raw: Seq<(u32, Seq<u8>)>, start: u32) -> bool {
    exists|p: Seq<usize>| #![trigger sorted_by_addr(p, kept_v(raw, start))] {
        &&& sorted_by_addr(p, kept_v(raw, start))
        &&& segs_view(img) == Seq::new(p.len(), |i: int| kept_v(raw, start)[p[i] as int])
    }
}

/// Keep only the segments that lie in the flash window (dropping RAM ones and empty ones) and
/// sort them by address.
pub(crate) fn flash_only(segs: Vec<Segment>, code_flash_start: u32) -> (img: Image)
    ensures
        flashed(img.segments@, segs_view(segs@), code_flash_start),
{
    let ghost raw = segs_view(segs@);
    let ghost orig = segs@;
    let mut rest = segs;
    let mut kept: Vec<Segment> = Vec::new();
    let mut k: usize = 0;
    let n = rest.len();
    proof { assert(raw.take(0) =~= Seq::<(u32, Seq<u8>)>::empty()); }
    while k < n
        invariant
            n == orig.len(),
            k <= n,
            raw == segs_view(orig),
            rest@ =~= orig.skip(k as int),
            segs_view(kept@) == kept_v(raw.take(k as int), code_flash_start),
        decreases n - k,
    {
        let s = rest.remove(0);
        proof {
            assert(s == orig[k as int]);
            assert(raw.take(k + 1).drop_last() =~= raw.take(k as int));
            assert(raw.take(k + 1).last() == seg_view(s));
        }
        if s.data.len() > 0 && s.addr >= code_flash_start && s.addr < 0x1000_0000 {
            let ghost kv = kept@;
            kept.push(s);
            proof { assert(segs_view(kept@) =~= segs_view(kv).push(seg_view(s))); }
        }
        k = k + 1;
    }
    proof { assert(raw.take(n as int) =~= raw); }
    let ghost before = kept@;
    sort_by_addr(&mut kept);
    proof {
        let p = choose|p: Seq<usize>| sorted_order(p, before) && #[trigger] reorder(before, p) == kept@;
        let kv = kept_v(raw, code_flash_start);
        assert(segs_view(before) == kv);
        assert forall|i: int, j: int| #![trigger p[i], p[j]] 0 <= i < j < p.len() implies (kv[p[i] as int].0 < kv[p[j] as int].0
            || (kv[p[i] as int].0 == kv[p[j] as int].0 && p[i] < p[j])) by {
            assert(key_before(before, p[i] as int, p[j] as int));
            assert(kv[p[i] as int] == seg_view(before[p[i] as int]));
            assert(kv[p[j] as int] == seg_view(before[p[j] as int]));
        }
        assert(sorted_by_addr(p, kv));
        assert(segs_view(kept@) =~= Seq::new(p.len(), |i: int| kv[p[i] as int]));
    }
    Image { segments: kept }
}

// ---- ELF32 ----

/// The little-endian halfword at `o`.
pub open spec fn le16_at(b: Seq<u8>, o: int) -> u16 {
    ((b[o] as u16) | ((b[o + 1] as u16) << 8u16)) as u16
}

/// The little-endian word at `o`.
pub open spec fn le32_at(b: Seq<u8>, o: int) -> u32 {
    le_word(b.subrange(o, o + 4))
}

fn u16le(b: &[u8], o: usize) -> (r: Option<u16>)
    ensures
        r is Some <==> o + 2 <= b@.len(),
        r matches Some(v) ==> v == le16_at(b@, o as int),
{
    if o < b.len() && o + 1 < b.len() {
        Some((b[o] as u16) | ((b[o + 1] as u16) << 8))
    } else {
        None
    }
}

fn u32le(b: &[u8], o: usize) -> (r: Option<u32>)
    ensures
        r is Some <==> o + 4 <= b@.len(),
        r matches Some(v) ==> v == le32_at(b@, o as int),
{
    if o < b.len() && o + 1 < b.len() && o + 2 < b.len() && o + 3 < b.len() {
        proof {
            assert(b@.subrange(o as int, o + 4) =~= seq![b@[o as int], b@[o + 1], b@[o + 2], b@[o + 3]]);
        }
        Some((b[o] as u32) | ((b[o + 1] as u32) << 8) | ((b[o + 2] as u32) << 16) | ((b[o + 3] as u32) << 24))
    } else {
        None
    }
}

pub open spec fn elf_phoff(b: Seq<u8>) -> int {
    le32_at(b, 0x1c) as int
}

pub open spec fn elf_phentsize(b: Seq<u8>) -> int {
    le16_at(b, 0x2a) as int
}

pub open spec fn elf_phnum(b: Seq<u8>) -> int {
    le16_at(b, 0x2c) as int
}

/// What program header `i` contributes: nothing (not PT_LOAD, or empty), a load at its
/// physical address mapped into the flash window, or the reason the file is malformed.
pub open spec fn elf_ph(b: Seq<u8>, start: u32, i: int) -> Result<Option<(u32, Seq<u8>)>, Seq<char>> {
    let ph = elf_phoff(b) + i * elf_phentsize(b);
    if i * elf_phentsize(b) > usize::MAX || ph > usize::MAX {
        Err("ELF"@)
    } else if ph + 4 > b.len() {
        Err("ELF program header"@)
    } else if le32_at(b, ph) != 1 {
        Ok(None)
    } else if ph + 20 > b.len() {
        Err("ELF"@)
    } else {
        let off = le32_at(b, ph + 4) as int;
        let filesz = le32_at(b, ph + 16) as int;
        if filesz == 0 {
            Ok(None)
        } else if off + filesz > usize::MAX {
            Err("ELF"@)
        } else if off + filesz > b.len() {
            Err("ELF segment out of file"@)
        } else {
            Ok(Some((fix_flash_addr_spec(le32_at(b, ph + 12), start), b.subrange(off, off + filesz))))
        }
    }
}

/// The loads of the first `n` program headers, or the first reason the file is malformed.
pub open spec fn elf_loads(b: Seq<u8>, start: u32, n: int) -> Result<Seq<(u32, Seq<u8>)>, Seq<char>>
    decreases n,
{
    if n <= 0 {
        Ok(Seq::empty())
    } else {
        match elf_loads(b, start, n - 1) {
            Err(e) => Err(e),
            Ok(v) => match elf_ph(b, start, n - 1) {
                Err(e) => Err(e),
                Ok(None) => Ok(v),
                Ok(Some(s)) => Ok(v.push(s)),
            },
        }
    }
}

/// An ELF32 little-endian file: its loadable segments, or why it is malformed.
pub open spec fn elf_spec(b: Seq<u8>, start: u32) -> Result<Seq<(u32, Seq<u8>)>, Seq<char>> {
    if b.len() < 52 || !(b[0] == 0x7f && b[1] == 0x45 && b[2] == 0x4c && b[3] == 0x46) {
        Err("ELF"@)
    } else if b[4] != 1 || b[5] != 1 {
        Err("ELF (need 32-bit little-endian)"@)
    } else if elf_phentsize(b) < 32 {
        Err("ELF program header"@)
    } else {
        elf_loads(b, start, elf_phnum(b))
    }
}

/// The image an ELF32 file loads into flash: the PT_LOAD program headers with data, at their
/// physical (load) address mapped into the flash window.
pub fn parse_elf(bytes: &[u8], code_flash_start: u32) -> (r: Result<Image, ImageError>)
    ensures
        match elf_spec(bytes@, code_flash_start) {
            Err(m) => r matches Err(ImageError::Malformed(e)) && e@ == m,
            Ok(raw) => r matches Ok(img) && flashed(img.segments@, raw, code_flash_start),
        },
{
    if bytes.len() < 52 || !(bytes[0] == 0x7f && bytes[1] == 0x45 && bytes[2] == 0x4c && bytes[3] == 0x46) {
        return Err(ImageError::Malformed("ELF"));
    }
    if bytes[4] != 1 || bytes[5] != 1 {
        return Err(ImageError::Malformed("ELF (need 32-bit little-endian)"));
    }
    let phoff = u32le(bytes, 0x1c).unwrap() as usize;
    let phentsize = u16le(bytes, 0x2a).unwrap() as usize;
    let phnum = u16le(bytes, 0x2c).unwrap() as usize;
    if phentsize < 32 {
        return Err(ImageError::Malformed("ELF program header"));
    }
    let mut segs: Vec<Segment> = Vec::new();
    proof { assert(segs_view(segs@) =~= Seq::<(u32, Seq<u8>)>::empty()); }
    let mut i: usize = 0;
    while i < phnum
        invariant
            bytes@.len() >= 52,
            phoff == elf_phoff(bytes@),
            phentsize == elf_phentsize(bytes@),
            phnum == elf_phnum(bytes@),
            elf_spec(bytes@, code_flash_start) == elf_loads(bytes@, code_flash_start, elf_phnum(bytes@)),
            i <= phnum,
            elf_loads(bytes@, code_flash_start, i as int) == Ok::<Seq<(u32, Seq<u8>)>, Seq<char>>(segs_view(segs@)),
        decreases phnum - i,
    {
        let step = elf_header(bytes, code_flash_start, phoff, phentsize, i);
        match step {
            Err(m) => {
                proof {
                    assert(elf_loads(bytes@, code_flash_start, i as int + 1) == Err::<Seq<(u32, Seq<u8>)>, Seq<char>>(m@));
                    lemma_elf_loads_err(bytes@, code_flash_start, i as int + 1, elf_phnum(bytes@));
                }
                return Err(ImageError::Malformed(m));
            }
            Ok(None) => {}
            Ok(Some(seg)) => {
                let ghost sv = segs@;
                segs.push(seg);
                proof { assert(segs_view(segs@) =~= segs_view(sv).push(seg_view(seg))); }
            }
        }
        i = i + 1;
    }
    Ok(flash_only(segs, code_flash_start))
}

/// Once the loads fail, they fail with the same reason for every longer prefix.
proof fn lemma_elf_loads_err(b: Seq<u8>, start: u32, k: int, n: int)
    requires
        0 <= k <= n,
        elf_loads(b, start, k) is Err,
    ensures
        elf_loads(b, start, n) == elf_loads(b, start, k),
    decreases n - k,
{
    if k < n {
        lemma_elf_loads_err(b, start, k + 1, n);
    }
}

/// Program header `i`.
fn elf_header(bytes: &[u8], code_flash_start: u32, phoff: usize, phentsize: usize, i: usize)
    -> (r: Result<Option<Segment>, &'static str>)
    requires
        bytes@.len() >= 52,
        phoff == elf_phoff(bytes@),
        phentsize == elf_phentsize(bytes@),
    ensures
        match elf_ph(bytes@, code_flash_start, i as int) {
            Err(m) => r matches Err(e) && e@ == m,
            Ok(None) => r matches Ok(None),
            Ok(Some(v)) => r matches Ok(Some(s)) && seg_view(s) == v,
        },
{
    let ph = match i.checked_mul(phentsize) {
        Some(x) => match phoff.checked_add(x) {
            Some(y) => y,
            None => { return Err("ELF"); }
        },
        None => { return Err("ELF"); }
    };
    let p_type = match u32le(bytes, ph) {
        Some(v) => v,
        None => { return Err("ELF program header"); }
    };
    if p_type != 1 {
        return Ok(None);
    }
    if bytes.len() - ph < 20 {
        return Err("ELF");
    }
    let p_offset = u32le(bytes, ph + 4).unwrap();
    let p_paddr = u32le(bytes, ph + 12).unwrap();
    let p_filesz = u32le(bytes, ph + 16).unwrap();
    if p_filesz == 0 {
        return Ok(None);
    }
    let off = p_offset as usize;
    let end = match off.checked_add(p_filesz as usize) {
        Some(e) => e,
        None => { return Err("ELF"); }
    };
    if end > bytes.len() {
        return Err("ELF segment out of file");
    }
    let mut data: Vec<u8> = Vec::new();
    let mut k = off;
    while k < end
        invariant
            off <= k <= end,
            end <= bytes@.len(),
            data@ == bytes@.subrange(off as int, k as int),
        decreases end - k,
    {
        data.push(bytes[k]);
        proof { assert(data@ =~= bytes@.subrange(off as int, k + 1)); }
        k = k + 1;
    }
    Ok(Some(Segment { addr: fix_flash_addr(p_paddr, code_flash_start), data }))
}

// ---- runs of consecutive data ----

/// Append `data` at `addr`: extend the last run when it ends exactly at `addr` (addresses
/// wrapping at 2^32, lengths taken modulo 2^32), else start a new run.
pub open spec fn append_run_v(runs: Seq<(u32, Seq<u8>)>, addr: u32, data: Seq<u8>) -> Seq<(u32, Seq<u8>)> {
    if runs.len() > 0 && (runs.last().0 + runs.last().1.len() % 0x1_0000_0000) % 0x1_0000_0000 == addr {
        runs.drop_last().push((runs.last().0, runs.last().1 + data))
    } else {
        runs.push((addr, data))
    }
}

pub(crate) fn append_run(runs: &mut Vec<Segment>, addr: u32, data: &[u8])
    ensures
        segs_view(final(runs)@) == append_run_v(segs_view(old(runs)@), addr, data@),
{
    let ghost r0 = runs@;
    let n = runs.len();
    if n > 0 {
        let last_len = runs[n - 1].data.len();
        let l64 = last_len as u64;
        let l32 = l64 as u32;
        proof {
            assert(l32 == l64 % 0x1_0000_0000) by (bit_vector) requires l32 == l64 as u32;
            assert(segs_view(r0).last() == seg_view(r0[n - 1]));
        }
        if runs[n - 1].addr.wrapping_add(l32) == addr {
            let mut last = runs.pop().unwrap();
            let ghost r1 = runs@;
            proof { assert(r1 =~= r0.drop_last()); assert(last == r0[n - 1]); }
            let ghost d0 = last.data@;
            let mut k: usize = 0;
            while k < data.len()
                invariant
                    k <= data@.len(),
                    last.addr == r0[n - 1].addr,
                    last.data@ == d0 + data@.take(k as int),
                decreases data@.len() - k,
            {
                last.data.push(data[k]);
                proof { assert(last.data@ =~= d0 + data@.take(k + 1)); }
                k = k + 1;
            }
            let ghost lastv = last;
            runs.push(last);
            proof {
                assert(runs@ =~= r1.push(lastv));
                assert(data@.take(data@.len() as int) =~= data@);
                assert(segs_view(runs@) =~= segs_view(r0).drop_last().push((r0[n - 1].addr, d0 + data@)));
            }
            return;
        }
    }
    let mut v: Vec<u8> = Vec::new();
    let mut k: usize = 0;
    while k < data.len()
        invariant
            k <= data@.len(),
            v@ == data@.take(k as int),
        decreases data@.len() - k,
    {
        v.push(data[k]);
        proof { assert(v@ =~= data@.take(k + 1)); }
        k = k + 1;
    }
    proof { assert(data@.take(data@.len() as int) =~= data@); }
    runs.push(Segment { addr, data: v });
    proof { assert(segs_view(runs@) =~= segs_view(r0).push((addr, data@))); }
}

// ---- UF2 ----

/// One 512-byte UF2 block at byte `o`: nothing (flagged "not main flash"), its payload at its
/// target address mapped into the flash window, or why it is malformed.
pub open spec fn uf2_block(b: Seq<u8>, start: u32, o: int) -> Result<Option<(u32, Seq<u8>)>, Seq<char>> {
    if le32_at(b, o) != 0x0A32_4655 || le32_at(b, o + 4) != 0x9E5D_5157 || le32_at(b, o + 508) != 0x0AB1_6F30 {
        Err("UF2 (bad magic)"@)
    } else if le32_at(b, o + 8) & 1 != 0 {
        Ok(None)
    } else if le32_at(b, o + 16) > 476 {
        Err("UF2 (payload too large)"@)
    } else {
        Ok(Some((fix_flash_addr_spec(le32_at(b, o + 12), start), b.subrange(o + 32, o + 32 + le32_at(b, o + 16)))))
    }
}

/// The runs of the first `n` blocks, or the first reason the file is malformed.
pub open spec fn uf2_runs(b: Seq<u8>, start: u32, n: int) -> Result<Seq<(u32, Seq<u8>)>, Seq<char>>
    decreases n,
{
    if n <= 0 {
        Ok(Seq::empty())
    } else {
        match uf2_runs(b, start, n - 1) {
            Err(e) => Err(e),
            Ok(v) => match uf2_block(b, start, 512 * (n - 1)) {
                Err(e) => Err(e),
                Ok(None) => Ok(v),
                Ok(Some(s)) => Ok(append_run_v(v, s.0, s.1)),
            },
        }
    }
}

/// A UF2 file: whole 512-byte blocks, their payloads merged into runs, or why it is malformed.
pub open spec fn uf2_spec(b: Seq<u8>, start: u32) -> Result<Seq<(u32, Seq<u8>)>, Seq<char>> {
    if b.len() % 512 != 0 {
        Err("UF2 (size not a multiple of 512)"@)
    } else {
        uf2_runs(b, start, (b.len() / 512) as int)
    }
}

proof fn lemma_uf2_runs_err(b: Seq<u8>, start: u32, k: int, n: int)
    requires
        0 <= k <= n,
        uf2_runs(b, start, k) is Err,
    ensures
        uf2_runs(b, start, n) == uf2_runs(b, start, k),
    decreases n - k,
{
    if k < n {
        lemma_uf2_runs_err(b, start, k + 1, n);
    }
}

/// Block `k` of a UF2 file.
fn uf2_block_at(bytes: &[u8], code_flash_start: u32, o: usize) -> (r: Result<Option<(u32, Vec<u8>)>, &'static str>)
    requires
        o + 512 <= bytes@.len(),
    ensures
        match uf2_block(bytes@, code_flash_start, o as int) {
            Err(m) => r matches Err(e) && e@ == m,
            Ok(None) => r matches Ok(None),
            Ok(Some(v)) => r matches Ok(Some((a, d))) && a == v.0 && d@ == v.1,
        },
{
    let len = bytes.len();
    assert(o + 512 <= len);
    let magic0 = u32le(bytes, o).unwrap();
    let magic1 = u32le(bytes, o + 4).unwrap();
    let magic_end = u32le(bytes, o + 508).unwrap();
    if magic0 != 0x0A32_4655 || magic1 != 0x9E5D_5157 || magic_end != 0x0AB1_6F30 {
        return Err("UF2 (bad magic)");
    }
    let flags = u32le(bytes, o + 8).unwrap();
    if flags & 1 != 0 {
        return Ok(None);
    }
    let target = u32le(bytes, o + 12).unwrap();
    let payload = u32le(bytes, o + 16).unwrap();
    if payload > 476 {
        return Err("UF2 (payload too large)");
    }
    let from = o + 32;
    let to = from + payload as usize;
    let mut data: Vec<u8> = Vec::new();
    let mut k = from;
    while k < to
        invariant
            from <= k <= to,
            to <= bytes@.len(),
            data@ == bytes@.subrange(from as int, k as int),
        decreases to - k,
    {
        data.push(bytes[k]);
        proof { assert(data@ =~= bytes@.subrange(from as int, k + 1)); }
        k = k + 1;
    }
    Ok(Some((fix_flash_addr(target, code_flash_start), data)))
}

/// The image a UF2 file carries: the payloads of its main-flash blocks, contiguous ones merged.
pub fn parse_uf2(bytes: &[u8], code_flash_start: u32) -> (r: Result<Image, ImageError>)
    ensures
        match uf2_spec(bytes@, code_flash_start) {
            Err(m) => r matches Err(ImageError::Malformed(e)) && e@ == m,
            Ok(raw) => r matches Ok(img) && flashed(img.segments@, raw, code_flash_start),
        },
{
    if bytes.len() % 512 != 0 {
        return Err(ImageError::Malformed("UF2 (size not a multiple of 512)"));
    }
    let blen = bytes.len();
    let nblocks = blen / 512;
    let mut runs: Vec<Segment> = Vec::new();
    proof { assert(segs_view(runs@) =~= Seq::<(u32, Seq<u8>)>::empty()); }
    let mut i: usize = 0;
    while i < nblocks
        invariant
            blen == bytes@.len(),
            nblocks == bytes@.len() / 512,
            bytes@.len() % 512 == 0,
            uf2_spec(bytes@, code_flash_start) == uf2_runs(bytes@, code_flash_start, nblocks as int),
            i <= nblocks,
            uf2_runs(bytes@, code_flash_start, i as int) == Ok::<Seq<(u32, Seq<u8>)>, Seq<char>>(segs_view(runs@)),
        decreases nblocks - i,
    {
        proof {
            assert((i as int) * 512 + 512 <= bytes@.len()) by (nonlinear_arith)
                requires i < nblocks, nblocks == bytes@.len() / 512, bytes@.len() % 512 == 0;
        }
        let step = uf2_block_at(bytes, code_flash_start, i * 512);
        match step {
            Err(m) => {
                proof {
                    assert(uf2_runs(bytes@, code_flash_start, i as int + 1) == Err::<Seq<(u32, Seq<u8>)>, Seq<char>>(m@));
                    lemma_uf2_runs_err(bytes@, code_flash_start, i as int + 1, nblocks as int);
                }
                return Err(ImageError::Malformed(m));
            }
            Ok(None) => {}
            Ok(Some((a, d))) => {
                append_run(&mut runs, a, d.as_slice());
            }
        }
        i = i + 1;
    }
    Ok(flash_only(runs, code_flash_start))
}

// ---- any format ----

/// The format to parse as: the one given, or the one the magic prefix announces for `Auto`.
pub open spec fn resolved(format: ImageFormat, b: Seq<u8>) -> Option<ImageFormat> {
    if format == ImageFormat::Auto { detect_spec(b) } else { Some(format) }
}

/// The result of parsing a file whose raw segments are `raw`: no flash content when nothing is
/// kept, else the kept segments sorted by address.
pub open spec fn from_raw(r: Result<Image, ImageError>, raw: Seq<(u32, Seq<u8>)>, start: u32) -> bool {
    if kept_v(raw, start).len() == 0 {
        r matches Err(ImageError::NoFlashContent)
    } else {
        r matches Ok(img) && flashed(img.segments@, raw, start)
    }
}

/// Every segment is empty (or there is none).
fn no_data(img: &Image) -> (r: bool)
    ensures
        r <==> forall|i: int| 0 <= i < img.segments@.len() ==> (#[trigger] img.segments@[i]).data@.len() == 0,
{
    let mut i: usize = 0;
    while i < img.segments.len()
        invariant
            i <= img.segments@.len(),
            forall|j: int| 0 <= j < i ==> (#[trigger] img.segments@[j]).data@.len() == 0,
        decreases img.segments@.len() - i,
    {
        if img.segments[i].data.len() > 0 {
            return false;
        }
        i = i + 1;
    }
    true
}

/// Parse outcome of a flashed image: empty exactly when nothing was kept.
fn finish(img: Image, Ghost(raw): Ghost<Seq<(u32, Seq<u8>)>>, start: u32) -> (r: Result<Image, ImageError>)
    requires
        flashed(img.segments@, raw, start),
    ensures
        from_raw(r, raw, start),
{
    proof {
        let p = choose|p: Seq<usize>| #![trigger sorted_by_addr(p, kept_v(raw, start))] sorted_by_addr(p, kept_v(raw, start))
            && segs_view(img.segments@) == Seq::new(p.len(), |i: int| kept_v(raw, start)[p[i] as int]);
        lemma_kept_nonempty(raw, start);
        assert(segs_view(img.segments@).len() == img.segments@.len());
        assert forall|i: int| 0 <= i < img.segments@.len() implies (#[trigger] img.segments@[i]).data@.len() > 0 by {
            assert(segs_view(img.segments@)[i] == seg_view(img.segments@[i]));
            assert(keep_v(kept_v(raw, start)[p[i] as int], start));
        }
    }
    if no_data(&img) {
        proof {
            if img.segments@.len() > 0 {
                assert(img.segments@[0].data@.len() > 0);
            }
        }
        Err(ImageError::NoFlashContent)
    } else {
        Ok(img)
    }
}

proof fn lemma_kept_nonempty(vs: Seq<(u32, Seq<u8>)>, start: u32)
    ensures
        forall|i: int| 0 <= i < kept_v(vs, start).len() ==> keep_v(#[trigger] kept_v(vs, start)[i], start),
    decreases vs.len(),
{
    if vs.len() > 0 {
        lemma_kept_nonempty(vs.drop_last(), start);
        let k0 = kept_v(vs.drop_last(), start);
        if keep_v(vs.last(), start) {
            assert forall|i: int| 0 <= i < k0.push(vs.last()).len() implies keep_v(#[trigger] k0.push(vs.last())[i], start) by {
                if i < k0.len() { assert(k0.push(vs.last())[i] == k0[i]); }
            }
        }
    }
}

impl Image {
    /// Parse `bytes` in `format` (detected from the magic prefix for `Auto`). A raw binary loads
    /// at `bin_offset`, by default at `code_flash_start`, the family's flash base.
    pub fn parse(bytes: &[u8], format: ImageFormat, bin_offset: Option<u32>, code_flash_start: u32)
        -> (r: Result<Image, ImageError>)
        ensures
            bytes@.len() == 0 ==> r matches Err(ImageError::Empty),
            bytes@.len() > 0 ==> match resolved(format, bytes@) {
                None => r matches Err(ImageError::UnknownFormat),
                Some(ImageFormat::Elf) => match elf_spec(bytes@, code_flash_start) {
                    Err(m) => r matches Err(ImageError::Malformed(e)) && e@ == m,
                    Ok(raw) => from_raw(r, raw, code_flash_start),
                },
                Some(ImageFormat::Uf2) => match uf2_spec(bytes@, code_flash_start) {
                    Err(m) => r matches Err(ImageError::Malformed(e)) && e@ == m,
                    Ok(raw) => from_raw(r, raw, code_flash_start),
                },
                Some(ImageFormat::Hex) => match ihex_spec(bytes@, code_flash_start) {
                    Err(None) => r matches Err(ImageError::Malformed(e)) && e@ == "Intel HEX (not ASCII)"@,
                    Err(Some((l, m))) => r matches Err(ImageError::Hex { line, reason }) && line == l && reason@ == m,
                    Ok(raw) => from_raw(r, raw, code_flash_start),
                },
                Some(_) => r matches Ok(img) && img.segments@.len() == 1
                    && img.segments@[0].addr == (match bin_offset { Some(o) => o, None => code_flash_start })
                    && img.segments@[0].data@ == bytes@,
            },
    {
        if bytes.len() == 0 {
            return Err(ImageError::Empty);
        }
        let fmt = match format {
            ImageFormat::Auto => match detect(bytes) {
                Some(f) => f,
                None => { return Err(ImageError::UnknownFormat); }
            },
            other => other,
        };
        match fmt {
            ImageFormat::Elf => {
                let img = parse_elf(bytes, code_flash_start)?;
                let ghost raw = elf_spec(bytes@, code_flash_start)->Ok_0;
                finish(img, Ghost(raw), code_flash_start)
            }
            ImageFormat::Uf2 => {
                let img = parse_uf2(bytes, code_flash_start)?;
                let ghost raw = uf2_spec(bytes@, code_flash_start)->Ok_0;
                finish(img, Ghost(raw), code_flash_start)
            }
            ImageFormat::Hex => {
                let img = parse_ihex(bytes, code_flash_start)?;
                let ghost raw = ihex_spec(bytes@, code_flash_start)->Ok_0;
                finish(img, Ghost(raw), code_flash_start)
            }
            _ => {
                let mut data: Vec<u8> = Vec::new();
                let mut k: usize = 0;
                while k < bytes.len()
                    invariant
                        k <= bytes@.len(),
                        data@ == bytes@.take(k as int),
                    decreases bytes@.len() - k,
                {
                    data.push(bytes[k]);
                    proof { assert(data@ =~= bytes@.take(k + 1)); }
                    k = k + 1;
                }
                proof { assert(bytes@.take(bytes@.len() as int) =~= bytes@); }
                let addr = match bin_offset {
                    Some(o) => o,
                    None => code_flash_start,
                };
                let mut segments: Vec<Segment> = Vec::new();
                segments.push(Segment { addr, data });
                Ok(Image { segments })
            }
        }
    }
}

/// A loadable program header is flashed at its load (physical) address - the word at offset 12
/// of the header - mapped into the flash window, with the file bytes that its offset (word at 4)
/// and file size (word at 16) select.
pub proof fn lemma_elf_load_at_paddr(b: Seq<u8>, start: u32, i: int)
    requires
        elf_ph(b, start, i) is Ok,
        elf_ph(b, start, i)->Ok_0 is Some,
    ensures
        ({
            let ph = elf_phoff(b) + i * elf_phentsize(b);
            let off = le32_at(b, ph + 4) as int;
            &&& le32_at(b, ph) == 1
            &&& elf_ph(b, start, i) == Ok::<Option<(u32, Seq<u8>)>, Seq<char>>(Some((
                fix_flash_addr_spec(le32_at(b, ph + 12), start),
                b.subrange(off, off + le32_at(b, ph + 16)),
            )))
        }),
{
}

/// The virtual address of a program header (the word at offset 8) plays no part: two files that
/// differ only there load the same (as long as those bytes are not themselves part of the
/// segment's data).
pub proof fn lemma_elf_ignores_vaddr(b: Seq<u8>, b2: Seq<u8>, start: u32, i: int)
    requires
        b.len() >= 52,
        b2.len() == b.len(),
        i >= 0,
        elf_phoff(b) + i * elf_phentsize(b) + 8 >= 52,
        forall|k: int| 0 <= k < b.len() && !(elf_phoff(b) + i * elf_phentsize(b) + 8 <= k
            < elf_phoff(b) + i * elf_phentsize(b) + 12) ==> b2[k] == b[k],
        ({
            let ph = elf_phoff(b) + i * elf_phentsize(b);
            let off = le32_at(b, ph + 4) as int;
            ph + 20 <= b.len() ==> off + le32_at(b, ph + 16) <= ph + 8 || off >= ph + 12
        }),
    ensures
        elf_ph(b2, start, i) == elf_ph(b, start, i),
{
    assert(b2.subrange(0x1c, 0x20) =~= b.subrange(0x1c, 0x20));
    assert(b2[0x2a] == b[0x2a] && b2[0x2b] == b[0x2b]);
    let ph = elf_phoff(b) + i * elf_phentsize(b);
    assert(elf_phoff(b2) == elf_phoff(b));
    assert(elf_phentsize(b2) == elf_phentsize(b));
    if ph + 4 <= b.len() {
        assert(b2.subrange(ph, ph + 4) =~= b.subrange(ph, ph + 4));
    }
    if ph + 20 <= b.len() {
        assert(b2.subrange(ph + 4, ph + 8) =~= b.subrange(ph + 4, ph + 8));
        assert(b2.subrange(ph + 12, ph + 16) =~= b.subrange(ph + 12, ph + 16));
        assert(b2.subrange(ph + 16, ph + 20) =~= b.subrange(ph + 16, ph + 20));
        let off = le32_at(b, ph + 4) as int;
        let end = off + le32_at(b, ph + 16);
        if end <= b.len() && off <= end {
            assert(b2.subrange(off, end) =~= b.subrange(off, end));
        }
    }
}

} // verus!
