//! `erase --range` / `--region`: resolving what to erase, checking it against the flash page, and
//! erasing it page by page through the direct FLASH controller. Erase is per page, so the span
//! must be page-aligned: a neighbouring page is never wiped silently.

use vstd::prelude::*;

use crate::dm::DebugModule;
use crate::dmi::{added, grows, group_grows, lemma_log_concat, lemma_log_start, realizes_all, DmOp, DmiError, DtmAccess};
use crate::flashcfg::CODE_FLASH_START;
use crate::flashctl::{erase_parts_ok, erase_seq, FlashProgMode};
use crate::parse::{byte_len, byte_len_spec, eq_str, find_char, first_of, range, range_spec};
use crate::selector::string_range;
use crate::text::{chars_of, dec, hex_fixed, hex_min, push_dec, push_hex_fixed, push_hex_min, push_str, string_of};

verus! {

broadcast use group_grows;

/// `s` up to its first `c` (all of `s` when there is none).
pub open spec fn before(s: Seq<char>, c: char) -> Seq<char> {
    match first_of(s, c) {
        Some(p) => s.take(p),
        None => s,
    }
}

/// `s` after its first `c`, if there is one.
pub open spec fn after(s: Seq<char>, c: char) -> Option<Seq<char>> {
    match first_of(s, c) {
        Some(p) => Some(s.skip(p + 1)),
        None => None,
    }
}

/// What `code[+off[+len]]` resolves to on a part with `flash_kb` KiB of code flash: (start, len)
/// inside the code-flash window, the whole window by default; or why not.
pub open spec fn region_spec(s: Seq<char>, flash_kb: Option<u16>) -> Result<(nat, nat), Seq<char>> {
    let name = before(s, '+');
    if name != "code"@ {
        Err("region `"@ + name + "` is not supported yet (only `code`); use --range for an explicit range"@)
    } else {
        match flash_kb {
            None => Err("code region needs the flash size, which the probe did not report"@),
            Some(kb) => {
                let flash_len: nat = kb as nat * 1024;
                let rest = after(s, '+');
                let off_r: Result<nat, Seq<char>> = match rest {
                    None => Ok(0nat),
                    Some(r) => byte_len_spec(before(r, '+')),
                };
                match off_r {
                    Err(m) => Err(m),
                    Ok(off) => {
                        let dflt: nat = if off <= flash_len { (flash_len - off) as nat } else { 0nat };
                        let len_r: Result<nat, Seq<char>> = match rest {
                            Some(r) => match after(r, '+') {
                                Some(r2) => byte_len_spec(before(r2, '+')),
                                None => Ok(dflt),
                            },
                            None => Ok(dflt),
                        };
                        match len_r {
                            Err(m) => Err(m),
                            Ok(len) => if off + len > flash_len {
                                Err("region extends past the "@ + dec(flash_len) + "-byte code flash"@)
                            } else {
                                Ok(((CODE_FLASH_START + off) as nat, len))
                            },
                        }
                    },
                }
            },
        }
    }
}

/// Split `cs` at its first `c`: the part before it, and the part after it if there is one.
fn split_first(cs: &[char], c: char) -> (r: (String, Option<Vec<char>>))
    ensures
        r.0@ == before(cs@, c),
        match after(cs@, c) {
            Some(t) => r.1 matches Some(v) && v@ == t,
            None => r.1 is None,
        },
{
    let n = cs.len();
    match find_char(cs, c) {
        Some(p) => {
            assert(p < n);
            let head = string_range(cs, 0, p);
            let tail = string_range(cs, p + 1, n);
            proof {
                assert(cs@.subrange(0, p as int) =~= cs@.take(p as int));
                assert(cs@.subrange(p + 1, cs@.len() as int) =~= cs@.skip(p + 1));
            }
            (head, Some(chars_of(tail.as_str())))
        },
        None => {
            proof { assert(cs@.subrange(0, cs@.len() as int) =~= cs@); }
            (string_range(cs, 0, cs.len()), None)
        },
    }
}

/// Resolve a `--region` spec into (start, len). `code[+off[+len]]` is supported; the bare name is
/// the whole code-flash window of `flash_kb` KiB, as the probe reported it.
pub fn resolve_region(spec: &str, flash_kb: Option<u16>) -> (r: Result<(u32, u32), String>)
    ensures
        match region_spec(spec@, flash_kb) {
            Ok((a, l)) => r == Ok::<(u32, u32), String>((a as u32, l as u32)),
            Err(m) => r matches Err(e) && e@ == m,
        },
{
    let cs = chars_of(spec);
    let (name, rest) = split_first(cs.as_slice(), '+');
    let ncs = chars_of(name.as_str());
    if !eq_str(ncs.as_slice(), "code") {
        let mut v: Vec<char> = Vec::new();
        push_str(&mut v, "region `");
        push_str(&mut v, name.as_str());
        push_str(&mut v, "` is not supported yet (only `code`); use --range for an explicit range");
        return Err(string_of(v.as_slice()));
    }
    let kb = match flash_kb {
        Some(kb) => kb,
        None => {
            let m = chars_of("code region needs the flash size, which the probe did not report");
            return Err(string_of(m.as_slice()));
        },
    };
    let flash_len: u32 = kb as u32 * 1024;
    let (off, after_off): (u32, Option<Vec<char>>) = match &rest {
        None => (0, None),
        Some(r) => {
            let (p, r2) = split_first(r.as_slice(), '+');
            match byte_len(p.as_str()) {
                Ok(v) => (v, r2),
                Err(m) => return Err(m),
            }
        },
    };
    let len: u32 = match &after_off {
        Some(r2) => {
            let (p, _) = split_first(r2.as_slice(), '+');
            match byte_len(p.as_str()) {
                Ok(v) => v,
                Err(m) => return Err(m),
            }
        },
        None => flash_len.saturating_sub(off),
    };
    if off.saturating_add(len) > flash_len {
        let mut v: Vec<char> = Vec::new();
        push_str(&mut v, "region extends past the ");
        push_dec(&mut v, flash_len as u64);
        push_str(&mut v, "-byte code flash");
        return Err(string_of(v.as_slice()));
    }
    Ok((CODE_FLASH_START + off, len))
}

/// The span `erase` works on: from `--range` when given, else from `--region`; never empty.
pub open spec fn span_spec(
    range_arg: Option<Seq<char>>,
    region_arg: Option<Seq<char>>,
    flash_kb: Option<u16>,
) -> Result<(nat, nat), Seq<char>> {
    let r = match range_arg {
        Some(s) => range_spec(s),
        None => match region_arg {
            Some(s) => region_spec(s, flash_kb),
            None => Err("no --range or --region"@),
        },
    };
    match r {
        Ok((a, l)) => if l == 0 { Err("empty range"@) } else { Ok((a, l)) },
        Err(m) => Err(m),
    }
}

/// Resolve the span of `erase --range` / `--region`.
pub fn erase_span(range_arg: Option<&str>, region_arg: Option<&str>, flash_kb: Option<u16>)
    -> (r: Result<(u32, u32), String>)
    ensures
        match span_spec(
            match range_arg { Some(s) => Some(s@), None => None },
            match region_arg { Some(s) => Some(s@), None => None },
            flash_kb,
        ) {
            Ok((a, l)) => r == Ok::<(u32, u32), String>((a as u32, l as u32)),
            Err(m) => r matches Err(e) && e@ == m,
        },
{
    let (start, len) = match range_arg {
        Some(s) => range(s)?,
        None => match region_arg {
            Some(s) => resolve_region(s, flash_kb)?,
            None => return Err(string_of(chars_of("no --range or --region").as_slice())),
        },
    };
    if len == 0 {
        return Err(string_of(chars_of("empty range").as_slice()));
    }
    Ok((start, len))
}

/// How many pages a span covers, when both its start and its length are page-aligned.
pub open spec fn pages_spec(start: u32, len: u32, page: u32) -> Result<nat, Seq<char>> {
    if start % page != 0 || len % page != 0 {
        Err("range 0x"@ + hex_fixed(start as nat, 8) + "+0x"@ + hex_min(len as nat)
            + " is not aligned to the "@ + dec(page as nat) + "-byte flash page"@)
    } else {
        Ok((len / page) as nat)
    }
}

/// The number of pages to erase, or the alignment error (erase is per page, so a misaligned span
/// would wipe its neighbours).
pub fn page_count(start: u32, len: u32, page: u32) -> (r: Result<u32, String>)
    requires
        page > 0,
    ensures
        match pages_spec(start, len, page) {
            Ok(n) => r == Ok::<u32, String>(n as u32),
            Err(m) => r matches Err(e) && e@ == m,
        },
{
    if start % page != 0 || len % page != 0 {
        let mut v: Vec<char> = Vec::new();
        push_str(&mut v, "range 0x");
        push_hex_fixed(&mut v, start as u64, 8);
        push_str(&mut v, "+0x");
        push_hex_min(&mut v, len as u64);
        push_str(&mut v, " is not aligned to the ");
        push_dec(&mut v, page as u64);
        push_str(&mut v, "-byte flash page");
        return Err(string_of(v.as_slice()));
    }
    Ok(len / page)
}

/// `l` is one successful fast page erase of the page at `addr`.
pub open spec fn page_erase_log(l: Seq<DmOp>, addr: u32, mode: FlashProgMode) -> bool {
    exists|u: Seq<DmOp>, s0: u32, c1: u32, c2: u32, wt: Seq<DmOp>, st: u32, c3: u32,
        cm: Seq<DmOp>, lk: Seq<DmOp>|
        erase_parts_ok(u, s0, wt, st, cm, lk, addr, mode)
            && l == #[trigger] erase_seq(u, s0, c1, c2, wt, st, c3, cm, lk, addr)
}

/// Page `k` of the span.
pub open spec fn page_addr(start: u32, page: u32, k: int) -> u32 {
    (start + k * page) as u32
}

/// `pieces` erase the first `pieces.len()` pages of the span, in order.
pub open spec fn pages_erased(pieces: Seq<Seq<DmOp>>, start: u32, page: u32, mode: FlashProgMode) -> bool {
    forall|k: int| 0 <= k < pieces.len() ==> page_erase_log(#[trigger] pieces[k], page_addr(start, page, k), mode)
}

/// Erase `pages` pages of `page` bytes from `start`, in address order, stopping at the first
/// failure, which is reported with the address of the page that failed. The hart must be halted.
pub fn erase_pages<T: DtmAccess>(
    dm: &mut DebugModule<'_, T>,
    start: u32,
    pages: u32,
    page: u32,
    mode: FlashProgMode,
) -> (r: Result<(), (u32, DmiError)>)
    requires
        pages > 0 ==> start + (pages - 1) * page <= u32::MAX,
    ensures
        r is Ok ==> grows(old(dm).trace(), final(dm).trace()),
        r is Ok ==> exists|pieces: Seq<Seq<DmOp>>| {
            &&& pieces.len() == pages
            &&& pages_erased(pieces, start, page, mode)
            &&& realizes_all(added(old(dm).trace(), final(dm).trace()), #[trigger] pieces.flatten())
        },
        r matches Err((a, _)) ==> exists|k: int| 0 <= k < pages && a == #[trigger] page_addr(start, page, k),
{
    let ghost t0 = dm.trace();
    let ghost mut pieces: Seq<Seq<DmOp>> = Seq::empty();
    proof {
        lemma_log_start(t0);
        assert(pieces.flatten() =~= Seq::<DmOp>::empty());
    }
    let mut i: u32 = 0;
    while i < pages
        invariant
            i <= pages,
            pages > 0 ==> start + (pages - 1) * page <= u32::MAX,
            grows(t0, dm.trace()),
            pieces.len() == i,
            pages_erased(pieces, start, page, mode),
            realizes_all(added(t0, dm.trace()), pieces.flatten()),
        decreases pages - i,
    {
        proof {
            assert(i * page <= (pages - 1) * page) by (nonlinear_arith)
                requires i < pages;
        }
        let addr = start + i * page;
        let ghost t1 = dm.trace();
        match dm.flash_page_erase(addr, mode) {
            Ok(()) => {},
            Err(e) => {
                proof { assert(addr == page_addr(start, page, i as int)); }
                return Err((addr, e));
            },
        }
        proof {
            let t2 = dm.trace();
            let (u, s0, c1, c2, wt, st, c3, cm, lk) = choose|u: Seq<DmOp>, s0: u32, c1: u32, c2: u32,
                wt: Seq<DmOp>, st: u32, c3: u32, cm: Seq<DmOp>, lk: Seq<DmOp>|
                erase_parts_ok(u, s0, wt, st, cm, lk, addr, mode)
                    && realizes_all(added(t1, t2), #[trigger] erase_seq(u, s0, c1, c2, wt, st, c3, cm, lk, addr));
            let l = erase_seq(u, s0, c1, c2, wt, st, c3, cm, lk, addr);
            assert(page_erase_log(l, addr, mode));
            lemma_log_concat(t0, t1, t2, pieces.flatten(), l);
            pieces.lemma_flatten_push(l);
            let np = pieces.push(l);
            assert(addr == page_addr(start, page, i as int));
            assert forall|k: int| 0 <= k < np.len() implies
                page_erase_log(#[trigger] np[k], page_addr(start, page, k), mode) by {
                if k < i {
                    assert(np[k] == pieces[k]);
                }
            }
            pieces = np;
        }
        i = i + 1;
    }
    Ok(())
}

} // verus!
