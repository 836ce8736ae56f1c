//! `write`, the raw memory/flash write: which addresses are flash, the low flash alias that is
//! refused, and the page read-modify-write that puts bytes into flash through the direct FLASH
//! controller without disturbing the rest of each page.

use vstd::prelude::*;

use crate::cliargs::WriteErase;
use crate::dm::{bytes_of_words, read_word_count, reads_from, DebugModule};
use crate::dmi::{added, grows, group_grows, lemma_log_concat, lemma_log_start, realizes_all, DmOp, DmiError, DmiOp, DtmAccess};
use crate::erase::{covered_pages, overlay_page, page_covered, strictly_sorted};
use crate::flashcfg::FlashCtrlProfile;
use crate::flashctl::{erase_parts_ok, erase_seq, flash_failed, program_parts_ok, program_seq, FlashProgMode};
use crate::image::Segment;
use crate::rangeerase::page_erase_log;
use crate::text::{hex2, hex_fixed, push_hex2, push_hex_fixed, push_str, string_of};

verus! {

broadcast use group_grows;

/// Start of the flash window that `write` treats as flash.
pub const FLASH_BASE: u32 = 0x0800_0000;
/// End (exclusive) of that window.
pub const FLASH_END: u32 = 0x0810_0000;

/// An address inside the flash window.
pub fn is_flash(addr: u32) -> (r: bool)
    ensures
        r == (FLASH_BASE <= addr < FLASH_END),
{
    FLASH_BASE <= addr && addr < FLASH_END
}

/// Why a write to `addr` is refused before anything is opened: an address below 0x0010_0000 is
/// the low alias of flash, and writes must name the physical address.
pub open spec fn alias_refusal(addr: u32) -> Option<Seq<char>> {
    if !(FLASH_BASE <= addr < FLASH_END) && addr < 0x0010_0000 {
        Some("0x"@ + hex_fixed(addr as nat, 8) + " is the low flash alias; write to the physical flash address 0x"@
            + hex_fixed((FLASH_BASE + addr) as nat, 8) + " instead"@)
    } else {
        None
    }
}

pub fn low_alias_refusal(addr: u32) -> (r: Option<String>)
    ensures
        match alias_refusal(addr) {
            Some(m) => r matches Some(s) && s@ == m,
            None => r is None,
        },
{
    if !is_flash(addr) && addr < 0x0010_0000 {
        let mut v: Vec<char> = Vec::new();
        push_str(&mut v, "0x");
        push_hex_fixed(&mut v, addr as u64, 8);
        push_str(&mut v, " is the low flash alias; write to the physical flash address 0x");
        push_hex_fixed(&mut v, (FLASH_BASE + addr) as u64, 8);
        push_str(&mut v, " instead");
        Some(string_of(v.as_slice()))
    } else {
        None
    }
}

/// `l` reads the `page` bytes at `pg` and finds `content`.
pub open spec fn page_read_log(l: Seq<DmOp>, pg: u32, page: u32, content: Seq<u8>) -> bool {
    exists|words: Seq<u32>| {
        &&& words.len() == read_word_count(pg, page)
        &&& l == #[trigger] reads_from((pg - pg % 4) as u32, words)
        &&& content == bytes_of_words(words).subrange((pg % 4) as int, pg % 4 + page)
    }
}

/// `l` programs `data` into the page at `pg`.
pub open spec fn page_program_log(l: Seq<DmOp>, pg: u32, data: Seq<u8>, mode: FlashProgMode) -> bool {
    exists|u: Seq<DmOp>, s0: u32, c: u32, wb: Seq<DmOp>, pieces: Seq<Seq<DmOp>>, c2: u32, wt: Seq<DmOp>,
        st: u32, cm: Seq<DmOp>, lk: Seq<DmOp>|
        program_parts_ok(mode, pg, data, u, s0, wb, pieces, wt, st, cm, lk)
            && l == #[trigger] program_seq(mode, pg, u, s0, c, wb, pieces.flatten(), c2, wt, st, cm, lk)
}

/// A page's content at `pg` with the bytes `data` (written at `addr`) laid over it.
pub open spec fn overlaid(content: Seq<u8>, pg: u32, addr: u32, data: Seq<u8>) -> Seq<u8> {
    Seq::new(content.len(), |i: int| if addr <= pg + i < addr + data.len() { data[pg + i - addr] } else { content[i] })
}

/// `l` is one page's read-modify-write: read the page, erase it when asked, program it back with
/// the new bytes laid over what was read.
pub open spec fn page_rmw_log(
    l: Seq<DmOp>, pg: u32, page: u32, addr: u32, data: Seq<u8>, erase: bool, mode: FlashProgMode,
) -> bool {
    exists|rd: Seq<DmOp>, content: Seq<u8>, er: Seq<DmOp>, pr: Seq<DmOp>|
        #![trigger page_read_log(rd, pg, page, content), rd + er + pr]
    {
        &&& page_read_log(rd, pg, page, content)
        &&& if erase { page_erase_log(er, pg, mode) } else { er.len() == 0 }
        &&& page_program_log(pr, pg, overlaid(content, pg, addr, data), mode)
        &&& l == rd + er + pr
    }
}

/// Why a flash write failed.
#[derive(Debug)]
pub enum FlashWriteError {
    /// No FLASH-controller profile is known for the family.
    NoProfile(u8),
    Transfer(DmiError),
}

impl FlashWriteError {
    pub open spec fn text(&self) -> Seq<char> {
        match self {
            FlashWriteError::NoProfile(b) => "no FLASH-controller profile for family 0x"@ + hex2(*b),
            FlashWriteError::Transfer(e) => e.text(),
        }
    }

    pub fn message(&self) -> (s: String)
        ensures
            s@ == self.text(),
    {
        match self {
            FlashWriteError::NoProfile(b) => {
                let mut v: Vec<char> = Vec::new();
                push_str(&mut v, "no FLASH-controller profile for family 0x");
                push_hex2(&mut v, *b);
                string_of(v.as_slice())
            },
            FlashWriteError::Transfer(e) => e.message(),
        }
    }
}

/// One page read-modify-write.
fn rmw_page<T: DtmAccess>(
    dm: &mut DebugModule<'_, T>,
    pg: u32,
    page: u32,
    seg: &[Segment],
    erase: bool,
    mode: FlashProgMode,
) -> (r: Result<(), DmiError>)
    requires
        seg@.len() == 1,
        pg + page <= u32::MAX,
        seg_end_ok(seg@[0]),
    ensures
        old(dm).trace().len() <= final(dm).trace().len(),
        r is Err ==> flash_failed(old(dm).trace().len() as int, final(dm).trace())
            || pg + page > 0xFFFF_FFFC || page % 4 != 0,
        r is Ok ==> grows(old(dm).trace(), final(dm).trace()),
        r is Ok ==> exists|l: Seq<DmOp>| #[trigger] page_rmw_log(l, pg, page, seg@[0].addr, seg@[0].data@, erase, mode)
            && realizes_all(added(old(dm).trace(), final(dm).trace()), l),
{
    let ghost t0 = dm.trace();
    let mut buf = match dm.read_mem(pg, page) {
        Ok(b) => b,
        Err(e) => return Err(e),
    };
    let ghost t1 = dm.trace();
    let ghost content = buf@;
    let ghost words = choose|words: Seq<u32>| {
        &&& words.len() == read_word_count(pg, page)
        &&& realizes_all(added(t0, t1), #[trigger] reads_from((pg - pg % 4) as u32, words))
        &&& content == bytes_of_words(words).subrange((pg % 4) as int, pg % 4 + page)
    };
    let ghost rd = reads_from((pg - pg % 4) as u32, words);
    proof {
        assert(page_read_log(rd, pg, page, content));
        assert(buf@.len() == page);
    }
    overlay_page(pg, &mut buf, seg);
    proof {
        assert(buf@ =~= overlaid(content, pg, seg@[0].addr, seg@[0].data@)) by {
            assert(seg@ =~= seq![seg@[0]]);
            assert forall|i: int| 0 <= i < content.len() implies #[trigger] buf@[i]
                == overlaid(content, pg, seg@[0].addr, seg@[0].data@)[i] by {
                reveal_with_fuel(crate::blocks::overlay, 2);
                assert(seq![seg@[0]].drop_last() =~= Seq::<Segment>::empty());
                assert(seq![seg@[0]].last() == seg@[0]);
                assert(crate::blocks::covers(seg@[0], pg + i) <==> (seg@[0].addr <= pg + i < seg@[0].addr + seg@[0].data@.len()));
            }
        }
    }
    let ghost mut er: Seq<DmOp> = Seq::empty();
    if erase {
        match dm.flash_page_erase(pg, mode) {
            Ok(()) => {},
            Err(e) => return Err(e),
        }
        proof {
            let t2 = dm.trace();
            let (u, s0, c1, c2, wt, st, c3, cm, lk) = choose|u: Seq<DmOp>, s0: u32, c1: u32, c2: u32,
                wt: Seq<DmOp>, st: u32, c3: u32, cm: Seq<DmOp>, lk: Seq<DmOp>|
                erase_parts_ok(u, s0, wt, st, cm, lk, pg, mode)
                    && realizes_all(added(t1, t2), #[trigger] erase_seq(u, s0, c1, c2, wt, st, c3, cm, lk, pg));
            er = erase_seq(u, s0, c1, c2, wt, st, c3, cm, lk, pg);
            assert(page_erase_log(er, pg, mode));
            lemma_log_concat(t0, t1, t2, rd, er);
        }
    } else {
        proof {
            lemma_log_start(t1);
            lemma_log_concat(t0, t1, t1, rd, er);
            assert(rd + er =~= rd);
        }
    }
    let ghost t2 = dm.trace();
    match dm.flash_program_page(pg, buf.as_slice(), mode) {
        Ok(()) => {},
        Err(e) => return Err(e),
    }
    proof {
        let t3 = dm.trace();
        let (u, s0, c, wb, pieces, c2, wt, st, cm, lk) = choose|u: Seq<DmOp>, s0: u32, c: u32, wb: Seq<DmOp>,
            pieces: Seq<Seq<DmOp>>, c2: u32, wt: Seq<DmOp>, st: u32, cm: Seq<DmOp>, lk: Seq<DmOp>| {
            &&& program_parts_ok(mode, pg, buf@, u, s0, wb, pieces, wt, st, cm, lk)
            &&& realizes_all(added(t2, t3), #[trigger] program_seq(mode, pg, u, s0, c, wb, pieces.flatten(), c2, wt, st, cm, lk))
        };
        let pr = program_seq(mode, pg, u, s0, c, wb, pieces.flatten(), c2, wt, st, cm, lk);
        assert(page_program_log(pr, pg, overlaid(content, pg, seg@[0].addr, seg@[0].data@), mode));
        lemma_log_concat(t0, t2, t3, rd + er, pr);
        assert(page_rmw_log(rd + er + pr, pg, page, seg@[0].addr, seg@[0].data@, erase, mode));
    }
    Ok(())
}

/// A segment whose end fits the address space.
pub open spec fn seg_end_ok(s: Segment) -> bool {
    s.addr + s.data@.len() <= u32::MAX
}

/// Write `bytes` at flash address `addr` by page read-modify-write: each page the bytes touch, in
/// address order, is read, erased when `erase` is `Auto`, and programmed back whole with the new
/// bytes laid over what was read, so the rest of the page keeps its content. The hart must be
/// halted. Without a FLASH-controller profile for the family nothing is done.
pub fn write_flash<T: DtmAccess>(
    dm: &mut DebugModule<'_, T>,
    profile: Option<FlashCtrlProfile>,
    family_byte: u8,
    addr: u32,
    bytes: &[u8],
    erase: WriteErase,
) -> (r: Result<(), FlashWriteError>)
    requires
        profile matches Some(p) ==> p.page_size > 0 && addr + bytes@.len() + p.page_size <= u32::MAX,
    ensures
        profile is None ==> (r matches Err(FlashWriteError::NoProfile(b)) && b == family_byte
            && final(dm).trace() == old(dm).trace()),
        r is Ok ==> grows(old(dm).trace(), final(dm).trace()),
        r is Err ==> profile is None || (profile matches Some(p)
            && exists|pages: Seq<u32>, pieces: Seq<Seq<DmOp>>, mid: Seq<DmiOp>|
            #![trigger strictly_sorted(pages), realizes_all(added(old(dm).trace(), mid), pieces.flatten())] {
            &&& strictly_sorted(pages)
            &&& forall|q: u32| pages.contains(q) <==> page_covered(seq![(addr, bytes@.len() as u32)], p.page_size as int, q as int)
            &&& pieces.len() < pages.len()
            &&& forall|k: int| 0 <= k < pieces.len() ==> page_rmw_log(#[trigger] pieces[k], pages[k], p.page_size,
                addr, bytes@, erase == WriteErase::Auto, p.mode)
            &&& grows(old(dm).trace(), mid)
            &&& realizes_all(added(old(dm).trace(), mid), pieces.flatten())
            &&& mid.len() <= final(dm).trace().len()
            &&& flash_failed(mid.len() as int, final(dm).trace())
                || pages[pieces.len() as int] + p.page_size > 0xFFFF_FFFC || p.page_size % 4 != 0
        }),
        r is Ok ==> (profile matches Some(p) && exists|pages: Seq<u32>, pieces: Seq<Seq<DmOp>>| {
            &&& strictly_sorted(pages)
            &&& forall|q: u32| pages.contains(q) <==> page_covered(seq![(addr, bytes@.len() as u32)], p.page_size as int, q as int)
            &&& pieces.len() == pages.len()
            &&& forall|k: int| 0 <= k < pages.len() ==> page_rmw_log(#[trigger] pieces[k], pages[k], p.page_size,
                addr, bytes@, erase == WriteErase::Auto, p.mode)
            &&& realizes_all(added(old(dm).trace(), final(dm).trace()), pieces.flatten())
        }),
{
    let p = match profile {
        Some(p) => p,
        None => return Err(FlashWriteError::NoProfile(family_byte)),
    };
    let page = p.page_size;
    let ranges: Vec<(u32, u32)> = vec![(addr, bytes.len() as u32)];
    let pages = covered_pages(ranges.as_slice(), page);
    let seg = vec![Segment { addr, data: vstd::slice::slice_to_vec(bytes) }];
    let do_erase = match erase {
        WriteErase::Auto => true,
        WriteErase::Off => false,
    };
    let ghost t0 = dm.trace();
    let ghost mut pieces: Seq<Seq<DmOp>> = Seq::empty();
    proof {
        lemma_log_start(t0);
        assert(pieces.flatten() =~= Seq::<DmOp>::empty());
    }
    let mut k: usize = 0;
    while k < pages.len()
        invariant
            k <= pages@.len(),
            t0 == old(dm).trace(),
            grows(t0, dm.trace()),
            pieces.len() == k,
            profile == Some(p),
            seg@.len() == 1,
            seg@[0].addr == addr,
            seg@[0].data@ == bytes@,
            page == p.page_size,
            page > 0,
            addr + bytes@.len() + page <= u32::MAX,
            do_erase == (erase == WriteErase::Auto),
            strictly_sorted(pages@),
            forall|q: u32| pages@.contains(q) <==> page_covered(ranges@, page as int, q as int),
            ranges@ == seq![(addr, bytes@.len() as u32)],
            forall|j: int| 0 <= j < k ==> #[trigger] page_rmw_log(pieces[j], pages@[j], page, addr, bytes@, do_erase, p.mode),
            realizes_all(added(t0, dm.trace()), pieces.flatten()),
        decreases pages@.len() - k,
    {
        let pg = pages[k];
        proof {
            assert(pages@.contains(pg));
            assert(page_covered(ranges@, page as int, pg as int));
            assert(ranges@[0] == (addr, bytes@.len() as u32));
        }
        let ghost t1 = dm.trace();
        match rmw_page(dm, pg, page, seg.as_slice(), do_erase, p.mode) {
            Ok(()) => {},
            Err(e) => {
                proof {
                    assert(pages@[k as int] == pg);
                    assert(realizes_all(added(t0, t1), pieces.flatten()));
                    assert(strictly_sorted(pages@));
                    assert(ranges@ =~= seq![(addr, bytes@.len() as u32)]);
                }
                return Err(FlashWriteError::Transfer(e));
            },
        }
        proof {
            let t2 = dm.trace();
            let l = choose|l: Seq<DmOp>| #[trigger] page_rmw_log(l, pg, page, addr, bytes@, do_erase, p.mode)
                && realizes_all(added(t1, t2), l);
            lemma_log_concat(t0, t1, t2, pieces.flatten(), l);
            pieces.lemma_flatten_push(l);
            let np = pieces.push(l);
            assert forall|j: int| 0 <= j < k + 1 implies #[trigger] page_rmw_log(np[j], pages@[j], page, addr, bytes@, do_erase, p.mode) by {
                if j < k {
                    assert(np[j] == pieces[j]);
                }
            }
            pieces = np;
        }
        k = k + 1;
    }
    Ok(())
}

} // verus!
