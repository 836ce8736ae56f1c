//! Erase planning for the flash commands: the pages a sector erase must clear, the effective
//! erase scope, the page overlay that keeps unwritten bytes, and the family byte of a chip name.

use vstd::prelude::*;

use crate::blocks::overlay;
use crate::image::{seg_end, Segment};
use crate::policy::EraseMode;
use crate::text::{ascii_upper, chars_of, to_ascii_upper};

verus! {

/// Page `p` (a multiple of `page`) shares a byte with the range `[addr, addr + len)`, the end
/// saturating at 2^32 - 1.
pub open spec fn page_touches(p: int, page: int, addr: int, len: int) -> bool {
    let end = if addr + len > u32::MAX { u32::MAX as int } else { addr + len };
    p % page == 0 && addr - addr % page <= p && p < end
}

/// Some range of `segs` touches page `p`.
pub open spec fn page_covered(segs: Seq<(u32, u32)>, page: int, p: int) -> bool {
    exists|i: int| 0 <= i < segs.len() && page_touches(p, page, segs[i].0 as int, segs[i].1 as int)
}

proof fn lemma_aligned_step(p: int, x: int, page: int)
    requires
        page > 0,
        p >= 0,
        p % page == 0,
        x % page == 0,
        p < x,
    ensures
        x >= p + page,
{
    vstd::arithmetic::div_mod::lemma_fundamental_div_mod(x, page);
    vstd::arithmetic::div_mod::lemma_fundamental_div_mod(p, page);
    let qx = x / page;
    let qp = p / page;
    assert(x >= p + page) by (nonlinear_arith)
        requires x == page * qx, p == page * qp, p < x, page > 0;
}

/// The values are strictly increasing.
pub open spec fn strictly_sorted(v: Seq<u32>) -> bool {
    forall|i: int, j: int| 0 <= i < j < v.len() ==> v[i] < v[j]
}

/// Insert `p` into a strictly increasing vector, unless present.
fn insert_sorted(v: Vec<u32>, p: u32) -> (r: Vec<u32>)
    requires
        strictly_sorted(v@),
    ensures
        strictly_sorted(r@),
        forall|x: u32| #[trigger] r@.contains(x) <==> (v@.contains(x) || x == p),
{
    let ghost vin = v@;
    let mut v = v;
    let mut i: usize = 0;
    while i < v.len() && v[i] < p
        invariant
            v@ == vin,
            i <= v@.len(),
            strictly_sorted(v@),
            forall|j: int| 0 <= j < i ==> v@[j] < p,
        decreases v@.len() - i,
    {
        i = i + 1;
    }
    if i < v.len() && v[i] == p {
        proof {
            assert(v@[i as int] == p);
            assert(v@.contains(p));
        }
        return v;
    }
    let ghost v0 = v@;
    v.insert(i, p);
    proof {
        assert forall|a: int, b: int| 0 <= a < b < v@.len() implies v@[a] < v@[b] by {
            if b < i {
            } else if b == i {
                assert(v@[a] == v0[a]);
            } else if a == i {
                assert(v@[b] == v0[b - 1]);
                assert(v0[i as int] > p);
                if b - 1 > i { assert(v0[i as int] < v0[b - 1]); }
            } else if a < i {
                assert(v@[b] == v0[b - 1]);
            } else {
                assert(v@[a] == v0[a - 1] && v@[b] == v0[b - 1]);
            }
        }
        assert(v0 == vin);
        assert forall|x: u32| #[trigger] v@.contains(x) <==> (vin.contains(x) || x == p) by {
            if v0.contains(x) {
                let k = choose|k: int| 0 <= k < v0.len() && v0[k] == x;
                if k < i { assert(v@[k] == x); } else { assert(v@[k + 1] == x); }
                assert(v@.contains(x));
            }
            if x == p { assert(v@[i as int] == p); assert(v@.contains(x)); }
            if v@.contains(x) {
                let k = choose|k: int| 0 <= k < v@.len() && v@[k] == x;
                if k < i { assert(v0[k] == x); assert(v0.contains(x)); }
                else if k > i { assert(v0[k - 1] == x); assert(v0.contains(x)); }
            }
        }
    }
    v
}

/// The flash pages (page-aligned start addresses, in increasing order) that the `(addr, len)`
/// ranges touch for a `page`-byte page: what a sector erase must clear, and nothing outside the
/// image. A range that starts mid-page pulls in its whole page; ranges sharing a page give it once.
pub fn covered_pages(segments: &[(u32, u32)], page: u32) -> (pages: Vec<u32>)
    requires
        page > 0,
    ensures
        strictly_sorted(pages@),
        forall|p: u32| pages@.contains(p) <==> page_covered(segments@, page as int, p as int),
{
    let mut pages: Vec<u32> = Vec::new();
    let mut k: usize = 0;
    while k < segments.len()
        invariant
            page > 0,
            k <= segments@.len(),
            strictly_sorted(pages@),
            forall|p: u32| pages@.contains(p) <==> page_covered(segments@.take(k as int), page as int, p as int),
        decreases segments@.len() - k,
    {
        let (addr, len) = segments[k];
        proof {
            vstd::arithmetic::div_mod::lemma_fundamental_div_mod(addr as int, page as int);
            vstd::arithmetic::div_mod::lemma_mod_pos_bound(addr as int, page as int);
            vstd::arithmetic::div_mod::lemma_div_pos_is_pos(addr as int, page as int);
            let q = addr as int / page as int;
            assert(page * q >= 0) by (nonlinear_arith) requires page > 0, q >= 0;
        }
        let first = addr - addr % page;
        let end = addr.saturating_add(len);
        let mut p = first;
        let ghost before = pages@;
        proof {
            vstd::arithmetic::div_mod::lemma_fundamental_div_mod(addr as int, page as int);
            vstd::arithmetic::div_mod::lemma_mod_bound(addr as int, page as int);
            vstd::arithmetic::div_mod::lemma_mod_multiples_basic(addr as int / page as int, page as int);
            assert(first as int == (addr as int / page as int) * page) by (nonlinear_arith)
                requires addr as int == page * (addr as int / page as int) + addr as int % page as int,
                    first == addr - addr % page;
        }
        while p < end
            invariant
                page > 0,
                first <= p,
                (p as int) % (page as int) == 0 || p == u32::MAX,
                end == (if addr + len > u32::MAX { u32::MAX as int } else { addr + len }),
                first == addr - addr % page,
                (first as int) % (page as int) == 0,
                strictly_sorted(pages@),
                forall|x: u32| pages@.contains(x) <==> (before.contains(x)
                    || ((x as int) % (page as int) == 0 && first <= x && x < p && x < end)),
            decreases u32::MAX - p,
        {
            let ghost pg0 = pages@;
            pages = insert_sorted(pages, p);
            let next = p.saturating_add(page);
            assert((p as int) % (page as int) == 0);
            assert(p < next);
            proof {
                assert forall|x: u32| #[trigger] pages@.contains(x) && !before.contains(x)
                    implies (x as int) % (page as int) == 0 && first <= x && x < next && x < end by {
                    if x != p {
                        assert(pg0.contains(x));
                    }
                }
                assert forall|x: u32| (before.contains(x) || ((x as int) % (page as int) == 0 && first <= x && x < next
                    && x < end)) implies #[trigger] pages@.contains(x) by {
                    if before.contains(x) {
                        assert(pg0.contains(x));
                    } else if x != p {
                        if p < x {
                            lemma_aligned_step(p as int, x as int, page as int);
                        }
                        assert(pg0.contains(x));
                    }
                }
                if (p as int) + (page as int) <= u32::MAX {
                    vstd::arithmetic::div_mod::lemma_fundamental_div_mod(p as int, page as int);
                    let q = p as int / page as int;
                    assert((p as int) + (page as int) == (q + 1) * (page as int)) by (nonlinear_arith)
                        requires p as int == page * q + 0;
                    vstd::arithmetic::div_mod::lemma_mod_multiples_basic(q + 1, page as int);
                }
            }
            p = next;
        }
        proof {
            let s2 = segments@.take(k + 1);
            assert(s2.drop_last() =~= segments@.take(k as int));
            assert forall|x: u32| pages@.contains(x) <==> page_covered(s2, page as int, x as int) by {
                if page_covered(s2, page as int, x as int) {
                    let i = choose|i: int| 0 <= i < s2.len() && page_touches(x as int, page as int, s2[i].0 as int, s2[i].1 as int);
                    if i < k {
                        assert(segments@.take(k as int)[i] == s2[i]);
                        assert(page_covered(segments@.take(k as int), page as int, x as int));
                    }
                }
                if before.contains(x) {
                    let i = choose|i: int| 0 <= i < k && page_touches(x as int, page as int, segments@.take(k as int)[i].0 as int, segments@.take(k as int)[i].1 as int);
                    assert(s2[i] == segments@.take(k as int)[i]);
                }
                if (x as int) % (page as int) == 0 && first <= x && x < end {
                    assert(s2[k as int] == (addr, len));
                    assert(page_touches(x as int, page as int, addr as int, len as int));
                }
            }
        }
        k = k + 1;
    }
    proof { assert(segments@.take(k as int) =~= segments@); }
    pages
}

/// The effective erase scope: `Auto` is a whole-chip erase for an image loaded from the flash
/// base, else (or when unwritten bytes must be restored, which needs page granularity) a
/// sector erase; every explicit mode passes through.
pub open spec fn erase_scope(requested: EraseMode, base_addr: Option<u32>, start: u32, restore: bool) -> EraseMode {
    if requested == EraseMode::Auto {
        if base_addr == Some(start) && !restore { EraseMode::Chip } else { EraseMode::Sector }
    } else {
        requested
    }
}

pub fn resolve_erase(requested: EraseMode, base_addr: Option<u32>, code_flash_start: u32, restore_unwritten: bool)
    -> (m: EraseMode)
    ensures
        m == erase_scope(requested, base_addr, code_flash_start, restore_unwritten),
{
    match requested {
        EraseMode::Auto => {
            let full = match base_addr {
                Some(b) => b == code_flash_start,
                None => false,
            };
            if full && !restore_unwritten { EraseMode::Chip } else { EraseMode::Sector }
        }
        other => other,
    }
}

/// Overlay `segments` onto one page's pre-read `content` (starting at `page_addr`): each byte a
/// segment covers takes the last such segment's value, the others keep their content. A page can
/// then be programmed whole without losing bytes the image does not touch.
pub fn overlay_page(page_addr: u32, content: &mut Vec<u8>, segments: &[Segment])
    requires
        page_addr + old(content)@.len() <= u32::MAX,
        forall|i: int| 0 <= i < segments@.len() ==> seg_end(#[trigger] segments@[i]) <= u32::MAX,
    ensures
        final(content)@.len() == old(content)@.len(),
        forall|i: int| 0 <= i < old(content)@.len() ==> #[trigger] final(content)@[i] == match overlay(segments@, page_addr + i) {
            Some(b) => b,
            None => old(content)@[i],
        },
{
    let ghost c0 = content@;
    let page_end = page_addr + content.len() as u32;
    let mut k: usize = 0;
    proof { assert(segments@.take(0) =~= Seq::<Segment>::empty()); }
    while k < segments.len()
        invariant
            k <= segments@.len(),
            page_end == page_addr + c0.len(),
            content@.len() == c0.len(),
            forall|i: int| 0 <= i < segments@.len() ==> seg_end(#[trigger] segments@[i]) <= u32::MAX,
            forall|i: int| 0 <= i < c0.len() ==> #[trigger] content@[i] == match overlay(segments@.take(k as int), page_addr + i) {
                Some(b) => b,
                None => c0[i],
            },
        decreases segments@.len() - k,
    {
        let seg = &segments[k];
        let seg_hi = seg.addr + seg.data.len() as u32;
        let lo = if seg.addr > page_addr { seg.addr } else { page_addr };
        let hi = if seg_hi < page_end { seg_hi } else { page_end };
        let ghost cb = content@;
        let mut a = lo;
        while a < hi
            invariant
                lo <= a,
                a <= hi || a == lo,
                lo == (if seg.addr > page_addr { seg.addr } else { page_addr }),
                hi <= page_end,
                hi <= seg_hi,
                seg_hi == seg.addr + seg.data@.len(),
                page_end == page_addr + cb.len(),
                content@.len() == cb.len(),
                forall|i: int| 0 <= i < cb.len() ==> #[trigger] content@[i] == if lo <= page_addr + i < a {
                    seg.data@[page_addr + i - seg.addr]
                } else {
                    cb[i]
                },
            decreases hi - a,
        {
            content.set((a - page_addr) as usize, seg.data[(a - seg.addr) as usize]);
            a = a + 1;
        }
        proof {
            let t2 = segments@.take(k + 1);
            assert(t2.drop_last() =~= segments@.take(k as int));
            assert(t2.last() == *seg);
            assert forall|i: int| 0 <= i < c0.len() implies #[trigger] content@[i] == match overlay(t2, page_addr + i) {
                Some(b) => b,
                None => c0[i],
            } by {
                let x = page_addr + i;
                assert(crate::blocks::covers(*seg, x) <==> (lo <= x < hi));
            }
        }
        k = k + 1;
    }
    proof { assert(segments@.take(k as int) =~= segments@); }
}

/// The family byte that a chip name selects: the upper-cased name without a `CH32` prefix,
/// matched by its first characters.
pub open spec fn family_byte_spec(name: Seq<char>) -> Option<u8> {
    let up = Seq::new(name.len(), |i: int| ascii_upper(name[i]));
    let n = if up.len() >= 4 && up.take(4) == "CH32"@ { up.skip(4) } else { up };
    if starts(n, "V103"@) { Some(0x01) }
    else if starts(n, "V20"@) { Some(0x05) }
    else if starts(n, "V30"@) { Some(0x06) }
    else if starts(n, "V003"@) { Some(0x09) }
    else if starts(n, "V00"@) { Some(0x4E) }
    else if starts(n, "X03"@) { Some(0x0D) }
    else if starts(n, "L103"@) { Some(0x0E) }
    else if starts(n, "643"@) || starts(n, "CH643"@) { Some(0x0C) }
    else if starts(n, "641"@) || starts(n, "CH641"@) { Some(0x49) }
    else if starts(n, "H4"@) { Some(0xC6) }
    else { None }
}

/// `s` begins with `p`.
pub open spec fn starts(s: Seq<char>, p: Seq<char>) -> bool {
    p.len() <= s.len() && s.take(p.len() as int) == p
}

fn starts_at(cs: &[char], from: usize, p: &str) -> (r: bool)
    requires
        from <= cs@.len(),
    ensures
        r == starts(cs@.skip(from as int), p@),
{
    let pc = chars_of(p);
    let n = cs.len();
    if pc.len() > n - from {
        return false;
    }
    let mut i: usize = 0;
    while i < pc.len()
        invariant
            n == cs@.len(),
            i <= pc@.len(),
            from + pc@.len() <= cs@.len(),
            from <= cs@.len(),
            pc@ == p@,
            forall|j: int| 0 <= j < i ==> cs@[from + j] == pc@[j],
        decreases pc@.len() - i,
    {
        if cs[from + i] != pc[i] {
            proof { assert(cs@.skip(from as int).take(pc@.len() as int)[i as int] != pc@[i as int]); }
            return false;
        }
        i = i + 1;
    }
    proof { assert(cs@.skip(from as int).take(pc@.len() as int) =~= pc@); }
    true
}

/// Map a chip name to its attach family byte.
pub fn family_byte_from_name(name: &str) -> (r: Option<u8>)
    ensures
        r == family_byte_spec(name@),
{
    let cs = chars_of(name);
    let mut up: Vec<char> = Vec::new();
    let mut i: usize = 0;
    while i < cs.len()
        invariant
            i <= cs@.len(),
            cs@ == name@,
            up@ == Seq::new(i as nat, |j: int| ascii_upper(cs@[j])),
        decreases cs@.len() - i,
    {
        up.push(to_ascii_upper(cs[i]));
        proof { assert(up@ =~= Seq::new((i + 1) as nat, |j: int| ascii_upper(cs@[j]))); }
        i = i + 1;
    }
    proof {
        assert(up@ =~= Seq::new(name@.len(), |j: int| ascii_upper(name@[j])));
        assert(up@.skip(0) =~= up@);
        reveal_strlit("CH32");
    }
    let from: usize = if starts_at(up.as_slice(), 0, "CH32") { 4 } else { 0 };
    let u = up.as_slice();
    if starts_at(u, from, "V103") { Some(0x01) }
    else if starts_at(u, from, "V20") { Some(0x05) }
    else if starts_at(u, from, "V30") { Some(0x06) }
    else if starts_at(u, from, "V003") { Some(0x09) }
    else if starts_at(u, from, "V00") { Some(0x4E) }
    else if starts_at(u, from, "X03") { Some(0x0D) }
    else if starts_at(u, from, "L103") { Some(0x0E) }
    else if starts_at(u, from, "643") || starts_at(u, from, "CH643") { Some(0x0C) }
    else if starts_at(u, from, "641") || starts_at(u, from, "CH641") { Some(0x49) }
    else if starts_at(u, from, "H4") { Some(0xC6) }
    else { None }
}

/// The device-data family name of an attach family byte, for the families whose flash
/// controller path has been driven on real silicon (CH641 shares the CH32V003 controller,
/// CH643 the CH32X035 one); other bytes are unsupported.
pub open spec fn db_family_spec(family_byte: u8) -> Option<Seq<char>> {
    if family_byte == 0x01 {
        Some("CH32V103"@)
    } else if family_byte == 0x05 {
        Some("CH32V20x"@)
    } else if family_byte == 0x06 {
        Some("CH32V307"@)
    } else if family_byte == 0x09 || family_byte == 0x49 {
        Some("CH32V003"@)
    } else if family_byte == 0x0C || family_byte == 0x0D {
        Some("CH32X035"@)
    } else if family_byte == 0x0E {
        Some("CH32L103"@)
    } else {
        None
    }
}

/// The family name for an attach family byte.
pub fn db_family(family_byte: u8) -> (r: Option<&'static str>)
    ensures
        match db_family_spec(family_byte) {
            Some(n) => r matches Some(s) && s@ == n,
            None => r is None,
        },
{
    match family_byte {
        0x01 => Some("CH32V103"),
        0x05 => Some("CH32V20x"),
        0x06 => Some("CH32V307"),
        0x09 | 0x49 => Some("CH32V003"),
        0x0C | 0x0D => Some("CH32X035"),
        0x0E => Some("CH32L103"),
        _ => None,
    }
}

} // verus!
