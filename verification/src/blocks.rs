//! The blocks that are actually programmed from an [`Image`]: segments are taken in address
//! order (a stable sort), runs that are contiguous, overlapping or merely share an aligned
//! programming unit are merged, and each block is grown to whole units padded with `0xff`.
//! Programming `0xff` clears no cell, so the padding is harmless on the silicon; without it the
//! programmer would be handed a block at an address where the flash cannot start a write.

use vstd::prelude::*;
use vstd::arithmetic::div_mod::{lemma_fundamental_div_mod, lemma_mod_bound, lemma_mod_multiples_basic};

use crate::image::{seg_end, Image, Segment};

verus! {

/// The programming unit for an alignment request: `align`, or 1 for 0.
pub open spec fn unit(align: u32) -> int {
    if align == 0 { 1 } else { align as int }
}

pub open spec fn round_down(x: int, a: int) -> int {
    x - x % a
}

pub open spec fn round_up(x: int, a: int) -> int {
    round_down(x + a - 1, a)
}

/// Segment `a` comes before segment `b` in a stable sort by address.
pub open spec fn key_before(segs: Seq<Segment>, a: int, b: int) -> bool {
    segs[a].addr < segs[b].addr || (segs[a].addr == segs[b].addr && a < b)
}

/// `p` lists every segment index once, in the order that a stable sort by address gives (a
/// strictly increasing list of `segs.len()` indices below `segs.len()` is a permutation).
pub open spec fn sorted_order(p: Seq<usize>, segs: Seq<Segment>) -> bool {
    &&& p.len() == segs.len()
    &&& forall|i: int| 0 <= i < p.len() ==> #[trigger] p[i] < segs.len()
    &&& forall|i: int, j: int| #![trigger p[i], p[j]] 0 <= i < j < p.len() ==> key_before(segs, p[i] as int, p[j] as int)
}

/// The segments in the order `p`.
pub open spec fn reorder(segs: Seq<Segment>, p: Seq<usize>) -> Seq<Segment> {
    Seq::new(p.len(), |i: int| segs[p[i] as int])
}

/// Byte address `x` lies in segment `s`.
pub open spec fn covers(s: Segment, x: int) -> bool {
    s.addr <= x < seg_end(s)
}

/// The aligned unit starting at `p` shares a byte with segment `s`.
pub open spec fn unit_touches(s: Segment, a: int, p: int) -> bool {
    s.data@.len() > 0 && p < seg_end(s) && s.addr < p + a
}

/// Some segment of `t` shares a byte with the aligned unit at `p`.
pub open spec fn touched(t: Seq<Segment>, a: int, p: int) -> bool
    decreases t.len(),
{
    if t.len() == 0 {
        false
    } else {
        unit_touches(t.last(), a, p) || touched(t.drop_last(), a, p)
    }
}

/// The byte at `x` after writing the segments of `t` in order, later ones over earlier ones.
pub open spec fn overlay(t: Seq<Segment>, x: int) -> Option<u8>
    decreases t.len(),
{
    if t.len() == 0 {
        None
    } else if covers(t.last(), x) {
        Some(t.last().data@[x - t.last().addr])
    } else {
        overlay(t.drop_last(), x)
    }
}

/// The byte at `x` in a block: the overlaid image byte, or the erased value `0xff`.
pub open spec fn fill(t: Seq<Segment>, x: int) -> u8 {
    match overlay(t, x) {
        Some(b) => b,
        None => 0xff,
    }
}

/// A block starts on a unit and is a non-zero number of whole units long.
pub open spec fn block_shape(b: Segment, a: int) -> bool {
    (b.addr as int) % a == 0 && (b.data@.len() as int) % a == 0 && b.data@.len() > 0
}

/// `blocks` are the maximal runs of touched units of `t`, in address order with at least one
/// untouched unit between neighbours, each holding the overlaid bytes of `t` and `0xff`
/// elsewhere.
pub open spec fn blocks_ok(blocks: Seq<Segment>, t: Seq<Segment>, a: int) -> bool {
    &&& forall|j: int| 0 <= j < blocks.len() ==> block_shape(#[trigger] blocks[j], a)
    &&& forall|i: int, j: int| 0 <= i < j < blocks.len() ==> seg_end(#[trigger] blocks[i]) < (#[trigger] blocks[j]).addr
    &&& forall|j: int, p: int| 0 <= j < blocks.len() && p % a == 0 && #[trigger] covers(blocks[j], p)
        ==> touched(t, a, p)
    &&& forall|p: int| p % a == 0 && #[trigger] touched(t, a, p)
        ==> exists|j: int| 0 <= j < blocks.len() && #[trigger] covers(blocks[j], p)
    &&& forall|j: int, x: int| 0 <= j < blocks.len() && #[trigger] covers(blocks[j], x)
        ==> blocks[j].data@[x - blocks[j].addr] == fill(t, x)
}

/// The blocks fit in memory: from the lowest unit of any segment to the highest is at most
/// `usize::MAX` bytes, and each segment end leaves room for rounding up in 64 bits.
pub open spec fn blocks_fit(segs: Seq<Segment>, a: int) -> bool {
    &&& forall|i: int| 0 <= i < segs.len() ==> seg_end(#[trigger] segs[i]) <= u64::MAX - u32::MAX
    &&& forall|i: int, j: int| #![trigger segs[i], segs[j]] 0 <= i < segs.len() && 0 <= j < segs.len()
        ==> round_up(seg_end(segs[j]), a) - round_down(segs[i].addr as int, a) <= usize::MAX
}

// ---- arithmetic on units ----

proof fn lemma_round_down(x: int, a: int)
    requires
        a > 0,
        x >= 0,
    ensures
        round_down(x, a) % a == 0,
        round_down(x, a) <= x < round_down(x, a) + a,
        round_down(x, a) >= 0,
        round_down(x, a) == (x / a) * a,
{
    lemma_fundamental_div_mod(x, a);
    lemma_mod_bound(x, a);
    lemma_mod_multiples_basic(x / a, a);
    assert(a * (x / a) == (x / a) * a) by (nonlinear_arith);
}

proof fn lemma_round_up(x: int, a: int)
    requires
        a > 0,
        x >= 0,
    ensures
        round_up(x, a) % a == 0,
        x <= round_up(x, a) < x + a,
        round_up(x, a) == ((x + a - 1) / a) * a,
{
    lemma_round_down(x + a - 1, a);
}

/// Two aligned addresses in order are a whole unit apart.
proof fn lemma_aligned_gap(p: int, q: int, a: int)
    requires
        a > 0,
        p % a == 0,
        q % a == 0,
        p < q,
    ensures
        p + a <= q,
{
    lemma_fundamental_div_mod(p, a);
    lemma_fundamental_div_mod(q, a);
    let m = p / a;
    let n = q / a;
    assert(p == a * m);
    assert(q == a * n);
    assert(m < n) by (nonlinear_arith)
        requires a > 0, a * m < a * n;
    assert(a * m + a <= a * n) by (nonlinear_arith)
        requires a > 0, m < n;
}

/// The aligned units that segment `s` touches are exactly those in
/// `[round_down(addr), round_up(end))`.
proof fn lemma_touch_range(s: Segment, a: int, p: int)
    requires
        a > 0,
        p % a == 0,
        s.data@.len() > 0,
    ensures
        unit_touches(s, a, p) <==> round_down(s.addr as int, a) <= p < round_up(seg_end(s), a),
{
    lemma_round_down(s.addr as int, a);
    lemma_round_up(seg_end(s), a);
    let rd = round_down(s.addr as int, a);
    let ru = round_up(seg_end(s), a);
    if unit_touches(s, a, p) {
        if p < rd {
            lemma_aligned_gap(p, rd, a);
        }
        if p >= ru {
        }
    }
    if rd <= p && p < ru {
        lemma_aligned_gap(p, ru, a);
    }
}

// ---- the overlay and touch relations under one more segment ----

proof fn lemma_push(t: Seq<Segment>, s: Segment)
    ensures
        t.push(s).drop_last() == t,
        t.push(s).last() == s,
{
    assert(t.push(s).drop_last() =~= t);
}

/// Segments in `t` cover only bytes below `e`, and touch only units below `e`.
pub open spec fn all_below(t: Seq<Segment>, a: int, e: int) -> bool {
    &&& forall|x: int| #[trigger] overlay(t, x) is Some ==> x < e
    &&& forall|p: int| #[trigger] touched(t, a, p) ==> p < e
}

// ---- sorting ----

/// The indices of `segs` in stable address order.
fn sort_order(segs: &Vec<Segment>) -> (p: Vec<usize>)
    ensures
        sorted_order(p@, segs@),
{
    let mut p: Vec<usize> = Vec::new();
    let mut k: usize = 0;
    while k < segs.len()
        invariant
            k <= segs@.len(),
            p@.len() == k,
            forall|i: int| 0 <= i < p@.len() ==> #[trigger] p@[i] < k,
            forall|i: int, j: int| #![trigger p@[i], p@[j]] 0 <= i < j < p@.len()
                ==> key_before(segs@, p@[i] as int, p@[j] as int),
        decreases segs@.len() - k,
    {
        let key = segs[k].addr;
        let mut pos: usize = 0;
        while pos < p.len() && segs[p[pos]].addr <= key
            invariant
                pos <= p@.len(),
                p@.len() == k,
                k < segs@.len(),
                key == segs@[k as int].addr,
                forall|i: int| 0 <= i < p@.len() ==> #[trigger] p@[i] < k,
                forall|q: int| 0 <= q < pos ==> segs@[#[trigger] p@[q] as int].addr <= key,
            decreases p@.len() - pos,
        {
            pos = pos + 1;
        }
        let ghost old_p = p@;
        p.insert(pos, k);
        proof {
            assert forall|q: int| pos < q < p@.len() implies segs@[#[trigger] p@[q] as int].addr > key by {
                assert(p@[q] == old_p[q - 1]);
                assert(old_p[pos as int] == p@[pos + 1]);
                if q - 1 > pos {
                    assert(key_before(segs@, old_p[pos as int] as int, old_p[q - 1] as int));
                }
            }
            assert forall|i: int, j: int| #![trigger p@[i], p@[j]] 0 <= i < j < p@.len()
                implies key_before(segs@, p@[i] as int, p@[j] as int) by {
                if j < pos {
                    assert(p@[i] == old_p[i] && p@[j] == old_p[j]);
                } else if j == pos {
                    assert(p@[i] == old_p[i]);
                } else if i == pos {
                } else if i < pos {
                    assert(p@[i] == old_p[i] && p@[j] == old_p[j - 1]);
                } else {
                    assert(p@[i] == old_p[i - 1] && p@[j] == old_p[j - 1]);
                }
            }
        }
        k = k + 1;
    }
    p
}


/// Sort segments by address, in place and stably.
pub fn sort_by_addr(v: &mut Vec<Segment>)
    ensures
        exists|p: Seq<usize>| sorted_order(p, old(v)@) && #[trigger] reorder(old(v)@, p) == final(v)@,
{
    let ghost orig = v@;
    let ghost mut p: Seq<usize> = Seq::empty();
    let n = v.len();
    let mut k: usize = 0;
    while k < n
        invariant
            n == orig.len(),
            v@.len() == n,
            k <= n,
            p.len() == k,
            forall|i: int| 0 <= i < k ==> #[trigger] p[i] < k,
            forall|i: int, j: int| #![trigger p[i], p[j]] 0 <= i < j < k ==> key_before(orig, p[i] as int, p[j] as int),
            forall|i: int| 0 <= i < k ==> #[trigger] v@[i] == orig[p[i] as int],
            forall|i: int| k <= i < n ==> #[trigger] v@[i] == orig[i],
        decreases n - k,
    {
        let ghost v0 = v@;
        let s = v.remove(k);
        let key = s.addr;
        let mut pos: usize = 0;
        while pos < k && v[pos].addr <= key
            invariant
                pos <= k,
                k < n,
                v0.len() == n,
                n == orig.len(),
                v@ == v0.remove(k as int),
                key == orig[k as int].addr,
                forall|i: int| 0 <= i < k ==> #[trigger] v0[i] == orig[p[i] as int],
                forall|q: int| 0 <= q < pos ==> orig[#[trigger] p[q] as int].addr <= key,
            decreases k - pos,
        {
            proof { assert(v@[pos as int] == v0[pos as int]); }
            pos = pos + 1;
        }
        let ghost v1 = v@;
        v.insert(pos, s);
        proof {
            let old_p = p;
            if pos < k {
                assert(v1[pos as int] == v0[pos as int]);
            }
            assert forall|q: int| pos <= q < k implies orig[#[trigger] old_p[q] as int].addr > key by {
                assert(orig[old_p[pos as int] as int].addr > key);
                if q > pos {
                    assert(key_before(orig, old_p[pos as int] as int, old_p[q] as int));
                }
            }
            p = old_p.insert(pos as int, k);
            assert forall|i: int, j: int| #![trigger p[i], p[j]] 0 <= i < j < k + 1
                implies key_before(orig, p[i] as int, p[j] as int) by {
                if j < pos {
                    assert(p[i] == old_p[i] && p[j] == old_p[j]);
                } else if j == pos {
                    assert(p[i] == old_p[i]);
                } else if i == pos {
                    assert(p[j] == old_p[j - 1]);
                } else if i < pos {
                    assert(p[i] == old_p[i] && p[j] == old_p[j - 1]);
                } else {
                    assert(p[i] == old_p[i - 1] && p[j] == old_p[j - 1]);
                }
            }
            assert forall|i: int| 0 <= i < k + 1 implies #[trigger] v@[i] == orig[p[i] as int] by {
                if i < pos {
                    assert(v@[i] == v1[i]);
                    assert(v1[i] == v0[i]);
                } else if i > pos {
                    assert(v@[i] == v1[i - 1]);
                    assert(v1[i - 1] == v0[i - 1]);
                    assert(p[i] == old_p[i - 1]);
                }
            }
            assert forall|i: int| k + 1 <= i < n implies #[trigger] v@[i] == orig[i] by {
                assert(v@[i] == v1[i - 1]);
                assert(v1[i - 1] == v0[i]);
            }
            assert forall|i: int| 0 <= i < k + 1 implies #[trigger] p[i] < k + 1 by {
                if i < pos { assert(p[i] == old_p[i]); } else if i > pos { assert(p[i] == old_p[i - 1]); }
            }
        }
        k = k + 1;
    }
    proof {
        assert(reorder(orig, p) =~= v@);
    }
}

// ---- byte helpers ----

/// Grow `data` to `want` bytes with `0xff`; a longer `data` is left as it is.
fn pad_to(data: &mut Vec<u8>, want: usize)
    ensures
        final(data)@.len() == if want > old(data)@.len() { want as int } else { old(data)@.len() as int },
        forall|i: int| 0 <= i < old(data)@.len() ==> #[trigger] final(data)@[i] == old(data)@[i],
        forall|i: int| old(data)@.len() <= i < final(data)@.len() ==> #[trigger] final(data)@[i] == 0xff,
{
    let ghost d0 = data@;
    while data.len() < want
        invariant
            d0.len() <= data@.len(),
            want > d0.len() ==> data@.len() <= want,
            want <= d0.len() ==> data@.len() == d0.len(),
            forall|i: int| 0 <= i < d0.len() ==> #[trigger] data@[i] == d0[i],
            forall|i: int| d0.len() <= i < data@.len() ==> #[trigger] data@[i] == 0xff,
        decreases want - data@.len(),
    {
        data.push(0xff);
    }
}

/// Copy `src` into `data` starting at `at`.
fn write_at(data: &mut Vec<u8>, at: usize, src: &[u8])
    requires
        at + src@.len() <= old(data)@.len(),
    ensures
        final(data)@.len() == old(data)@.len(),
        forall|i: int| 0 <= i < old(data)@.len() ==> #[trigger] final(data)@[i] == if at <= i < at + src@.len() {
            src@[i - at]
        } else {
            old(data)@[i]
        },
{
    let ghost d0 = data@;
    let n = data.len();
    let mut k: usize = 0;
    while k < src.len()
        invariant
            n == d0.len(),
            at + src@.len() <= d0.len(),
            k <= src@.len(),
            data@.len() == d0.len(),
            forall|i: int| 0 <= i < d0.len() ==> #[trigger] data@[i] == if at <= i < at + k {
                src@[i - at]
            } else {
                d0[i]
            },
        decreases src@.len() - k,
    {
        data.set(at + k, src[k]);
        k = k + 1;
    }
}

// ---- one step of the merge ----

/// The end of the last block, or 0 when there is none.
pub open spec fn end_of(bs: Seq<Segment>) -> int {
    if bs.len() > 0 { seg_end(bs.last()) } else { 0 }
}

proof fn lemma_aligned_diff(p: int, q: int, a: int)
    requires
        a > 0,
        p % a == 0,
        q % a == 0,
    ensures
        (q - p) % a == 0,
{
    lemma_fundamental_div_mod(p, a);
    lemma_fundamental_div_mod(q, a);
    let m = p / a;
    let n = q / a;
    assert(q - p == (n - m) * a) by (nonlinear_arith)
        requires p == a * m, q == a * n;
    lemma_mod_multiples_basic(n - m, a);
}

proof fn lemma_aligned_add(p: int, d: int, a: int)
    requires
        a > 0,
        p % a == 0,
        d % a == 0,
    ensures
        (p + d) % a == 0,
{
    lemma_fundamental_div_mod(p, a);
    lemma_fundamental_div_mod(d, a);
    let m = p / a;
    let n = d / a;
    assert(p + d == (m + n) * a) by (nonlinear_arith)
        requires p == a * m, d == a * n;
    lemma_mod_multiples_basic(m + n, a);
}

proof fn lemma_unfold_push(t: Seq<Segment>, s: Segment, a: int)
    ensures
        forall|x: int| #[trigger] overlay(t.push(s), x) == if covers(s, x) {
            Some(s.data@[x - s.addr])
        } else {
            overlay(t, x)
        },
        forall|p: int| #[trigger] touched(t.push(s), a, p) == (unit_touches(s, a, p) || touched(t, a, p)),
{
    lemma_push(t, s);
}

/// Earlier blocks all end at or before the last one.
proof fn lemma_ends_below_last(bs: Seq<Segment>, a: int)
    requires
        blocks_ok(bs, Seq::empty(), a) || true,
        bs.len() > 0,
        forall|i: int, j: int| 0 <= i < j < bs.len() ==> seg_end(#[trigger] bs[i]) < (#[trigger] bs[j]).addr,
        forall|j: int| 0 <= j < bs.len() ==> #[trigger] bs[j].addr <= seg_end(bs[j]),
    ensures
        forall|i: int| 0 <= i < bs.len() ==> seg_end(#[trigger] bs[i]) <= seg_end(bs.last()),
{
    assert forall|i: int| 0 <= i < bs.len() implies seg_end(#[trigger] bs[i]) <= seg_end(bs.last()) by {
        if i < bs.len() - 1 {
            assert(seg_end(bs[i]) < bs[bs.len() - 1].addr);
            assert(bs[bs.len() - 1].addr <= seg_end(bs[bs.len() - 1]));
        }
    }
}

/// A segment that starts past every block becomes a block of its own.
proof fn lemma_step_new(bs: Seq<Segment>, t: Seq<Segment>, s: Segment, a: int, b: Segment)
    requires
        a > 0,
        blocks_ok(bs, t, a),
        s.data@.len() > 0,
        b.addr == round_down(s.addr as int, a),
        seg_end(b) == round_up(seg_end(s), a),
        bs.len() > 0 ==> seg_end(bs.last()) < b.addr,
        all_below(t, a, b.addr as int),
        forall|x: int| #[trigger] covers(b, x) ==> b.data@[x - b.addr] == if covers(s, x) {
            s.data@[x - s.addr]
        } else {
            0xff
        },
    ensures
        blocks_ok(bs.push(b), t.push(s), a),
        all_below(t.push(s), a, seg_end(b)),
{
    lemma_round_down(s.addr as int, a);
    lemma_round_up(seg_end(s), a);
    lemma_unfold_push(t, s, a);
    lemma_aligned_diff(b.addr as int, seg_end(b), a);
    let bs2 = bs.push(b);
    let t2 = t.push(s);
    assert(block_shape(b, a));
    if bs.len() > 0 {
        assert forall|j: int| 0 <= j < bs.len() implies #[trigger] bs[j].addr <= seg_end(bs[j]) by {
            assert(block_shape(bs[j], a));
        }
        lemma_ends_below_last(bs, a);
    }
    assert forall|j: int| 0 <= j < bs2.len() implies block_shape(#[trigger] bs2[j], a) by {
        if j < bs.len() { assert(bs2[j] == bs[j]); }
    }
    assert forall|i: int, j: int| 0 <= i < j < bs2.len() implies seg_end(#[trigger] bs2[i]) < (#[trigger] bs2[j]).addr by {
        assert(bs2[i] == bs[i]);
        if j < bs.len() { assert(bs2[j] == bs[j]); }
    }
    assert forall|j: int, p: int| 0 <= j < bs2.len() && p % a == 0 && #[trigger] covers(bs2[j], p)
        implies touched(t2, a, p) by {
        if j < bs.len() {
            assert(bs2[j] == bs[j]);
            assert(covers(bs[j], p));
        } else {
            lemma_touch_range(s, a, p);
        }
    }
    assert forall|p: int| p % a == 0 && #[trigger] touched(t2, a, p)
        implies exists|j: int| 0 <= j < bs2.len() && #[trigger] covers(bs2[j], p) by {
        if unit_touches(s, a, p) {
            lemma_touch_range(s, a, p);
            assert(covers(bs2[bs.len() as int], p));
        } else {
            assert(touched(t, a, p));
            let j = choose|j: int| 0 <= j < bs.len() && #[trigger] covers(bs[j], p);
            assert(bs2[j] == bs[j]);
            assert(covers(bs2[j], p));
        }
    }
    assert forall|j: int, x: int| 0 <= j < bs2.len() && #[trigger] covers(bs2[j], x)
        implies bs2[j].data@[x - bs2[j].addr] == fill(t2, x) by {
        if j < bs.len() {
            assert(bs2[j] == bs[j]);
            assert(covers(bs[j], x));
            assert(!covers(s, x));
        } else {
            if !covers(s, x) {
                assert(overlay(t, x) is None);
            }
        }
    }
    assert forall|x: int| #[trigger] overlay(t2, x) is Some implies x < seg_end(b) by {
        if !covers(s, x) {
            assert(overlay(t, x) is Some);
        }
    }
    assert forall|p: int| #[trigger] touched(t2, a, p) implies p < seg_end(b) by {
        if !unit_touches(s, a, p) {
            assert(touched(t, a, p));
        }
    }
}

/// A segment that starts inside the last block's units (or right after them) extends it.
proof fn lemma_step_merge(bs: Seq<Segment>, t: Seq<Segment>, s: Segment, a: int, b: Segment)
    requires
        a > 0,
        blocks_ok(bs, t, a),
        bs.len() > 0,
        s.data@.len() > 0,
        bs.last().addr <= round_down(s.addr as int, a) <= seg_end(bs.last()),
        all_below(t, a, seg_end(bs.last())),
        b.addr == bs.last().addr,
        seg_end(b) == if round_up(seg_end(s), a) > seg_end(bs.last()) {
            round_up(seg_end(s), a)
        } else {
            seg_end(bs.last())
        },
        forall|x: int| #[trigger] covers(b, x) ==> b.data@[x - b.addr] == if covers(s, x) {
            s.data@[x - s.addr]
        } else if x < seg_end(bs.last()) {
            bs.last().data@[x - b.addr]
        } else {
            0xff
        },
    ensures
        blocks_ok(bs.drop_last().push(b), t.push(s), a),
        all_below(t.push(s), a, seg_end(b)),
{
    lemma_round_down(s.addr as int, a);
    lemma_round_up(seg_end(s), a);
    lemma_unfold_push(t, s, a);
    let n = bs.len() - 1;
    let last = bs.last();
    assert(block_shape(bs[n], a));
    lemma_aligned_add(last.addr as int, last.data@.len() as int, a);
    lemma_aligned_diff(b.addr as int, seg_end(b), a);
    let bs2 = bs.drop_last().push(b);
    let t2 = t.push(s);
    assert forall|j: int| 0 <= j < n implies #[trigger] bs2[j] == bs[j] by {}
    assert forall|j: int| 0 <= j < bs2.len() implies block_shape(#[trigger] bs2[j], a) by {
        if j < n { assert(bs2[j] == bs[j]); }
    }
    assert forall|i: int, j: int| 0 <= i < j < bs2.len() implies seg_end(#[trigger] bs2[i]) < (#[trigger] bs2[j]).addr by {
        assert(bs2[i] == bs[i]);
        if j < n { assert(bs2[j] == bs[j]); } else { assert(seg_end(bs[i]) < bs[n].addr); }
    }
    assert forall|j: int, p: int| 0 <= j < bs2.len() && p % a == 0 && #[trigger] covers(bs2[j], p)
        implies touched(t2, a, p) by {
        if j < n {
            assert(bs2[j] == bs[j]);
            assert(covers(bs[j], p));
        } else if p < seg_end(last) {
            assert(covers(bs[n], p));
        } else {
            lemma_touch_range(s, a, p);
        }
    }
    assert forall|p: int| p % a == 0 && #[trigger] touched(t2, a, p)
        implies exists|j: int| 0 <= j < bs2.len() && #[trigger] covers(bs2[j], p) by {
        if unit_touches(s, a, p) {
            lemma_touch_range(s, a, p);
            assert(covers(bs2[n], p));
        } else {
            assert(touched(t, a, p));
            let j = choose|j: int| 0 <= j < bs.len() && #[trigger] covers(bs[j], p);
            if j < n {
                assert(bs2[j] == bs[j]);
                assert(covers(bs2[j], p));
            } else {
                assert(covers(bs2[n], p));
            }
        }
    }
    assert forall|j: int, x: int| 0 <= j < bs2.len() && #[trigger] covers(bs2[j], x)
        implies bs2[j].data@[x - bs2[j].addr] == fill(t2, x) by {
        if j < n {
            assert(bs2[j] == bs[j]);
            assert(covers(bs[j], x));
            assert(seg_end(bs[j]) < bs[n].addr);
            assert(!covers(s, x));
        } else {
            if !covers(s, x) {
                if x < seg_end(last) {
                    assert(covers(bs[n], x));
                } else {
                    assert(overlay(t, x) is None);
                }
            }
        }
    }
    assert forall|x: int| #[trigger] overlay(t2, x) is Some implies x < seg_end(b) by {
        if !covers(s, x) {
            assert(overlay(t, x) is Some);
        }
    }
    assert forall|p: int| #[trigger] touched(t2, a, p) implies p < seg_end(b) by {
        if !unit_touches(s, a, p) {
            assert(touched(t, a, p));
        }
    }
}

/// Nothing is programmed for an empty segment.
proof fn lemma_step_skip(bs: Seq<Segment>, t: Seq<Segment>, s: Segment, a: int, e: int)
    requires
        blocks_ok(bs, t, a),
        all_below(t, a, e),
        s.data@.len() == 0,
    ensures
        blocks_ok(bs, t.push(s), a),
        all_below(t.push(s), a, e),
{
    lemma_unfold_push(t, s, a);
    let t2 = t.push(s);
    assert forall|j: int, p: int| 0 <= j < bs.len() && p % a == 0 && #[trigger] covers(bs[j], p)
        implies touched(t2, a, p) by {}
    assert forall|p: int| p % a == 0 && #[trigger] touched(t2, a, p)
        implies exists|j: int| 0 <= j < bs.len() && #[trigger] covers(bs[j], p) by {
        assert(touched(t, a, p));
    }
    assert forall|j: int, x: int| 0 <= j < bs.len() && #[trigger] covers(bs[j], x)
        implies bs[j].data@[x - bs[j].addr] == fill(t2, x) by {}
    assert forall|x: int| #[trigger] overlay(t2, x) is Some implies x < e by {
        assert(overlay(t, x) is Some);
    }
    assert forall|p: int| #[trigger] touched(t2, a, p) implies p < e by {
        assert(touched(t, a, p));
    }
}

impl Image {
    /// The blocks to actually program: the segments in address order, with runs that are
    /// contiguous, overlapping or merely share an `align`-sized unit merged into one, and every
    /// block grown to whole units padded with `0xff`.
    pub fn program_blocks(&self, align: u32) -> (out: Vec<Segment>)
        requires
            blocks_fit(self.segments@, unit(align)),
        ensures
            exists|p: Seq<usize>| sorted_order(p, self.segments@)
                && #[trigger] blocks_ok(out@, reorder(self.segments@, p), unit(align)),
    {
        let a: u64 = if align == 0 { 1 } else { align as u64 };
        let order = sort_order(&self.segments);
        let ghost segs = self.segments@;
        let ghost t = reorder(segs, order@);
        let ghost ai = a as int;
        let mut out: Vec<Segment> = Vec::new();
        proof {
            assert(t.take(0) =~= Seq::<Segment>::empty());
            assert forall|x: int| #[trigger] overlay(t.take(0), x) is Some implies x < 0 by {}
            assert forall|p: int| #[trigger] touched(t.take(0), ai, p) implies p < 0 by {}
        }
        let mut k: usize = 0;
        while k < order.len()
            invariant
                ai == a,
                ai == unit(align),
                ai > 0,
                segs == self.segments@,
                sorted_order(order@, segs),
                t == reorder(segs, order@),
                blocks_fit(segs, ai),
                k <= t.len(),
                blocks_ok(out@, t.take(k as int), ai),
                all_below(t.take(k as int), ai, end_of(out@)),
                out@.len() > 0 ==> k > 0 && out@.last().addr <= t[k - 1].addr,
                out@.len() > 0 ==> seg_end(out@.last()) <= u64::MAX,
                out@.len() > 0 ==> exists|i: int| 0 <= i < k && (#[trigger] order@[i] as int) >= 0
                    && out@.last().addr == round_down(segs[order@[i] as int].addr as int, ai),
            decreases t.len() - k,
        {
            let ghost tk = t.take(k as int);
            let ghost bs = out@;
            proof {
                assert(t.take(k + 1) =~= tk.push(t[k as int]));
                assert(t[k as int] == segs[order@[k as int] as int]);
                if k > 0 {
                    assert(key_before(segs, order@[k - 1] as int, order@[k as int] as int));
                }
            }
            let seg = &self.segments[order[k]];
            let n = seg.data.len();
            if n == 0 {
                proof { lemma_step_skip(bs, tk, *seg, ai, end_of(bs)); }
            } else {
                let addr64 = seg.addr as u64;
                let end = addr64 + n as u64;
                proof {
                    assert(seg_end(segs[order@[k as int] as int]) <= u64::MAX - u32::MAX);
                    lemma_round_down(addr64 as int, ai);
                    lemma_round_up(end as int, ai);
                }
                let us = (addr64 / a) * a;
                let ue = ((end + a - 1) / a) * a;
                let merge = if out.len() > 0 {
                    let li = out.len() - 1;
                    us <= out[li].addr as u64 + out[li].data.len() as u64
                } else {
                    false
                };
                if merge {
                    let mut last = out.pop().unwrap();
                    proof {
                        assert(bs.last() == last);
                        assert(out@ == bs.drop_last());
                        lemma_round_down(last.addr as int, ai);
                        let i = choose|i: int| 0 <= i < k && (#[trigger] order@[i] as int) >= 0
                            && bs.last().addr == round_down(segs[order@[i] as int].addr as int, ai);
                        assert(round_up(seg_end(segs[order@[k as int] as int]), ai)
                            - round_down(segs[order@[i] as int].addr as int, ai) <= usize::MAX);
                        assert(block_shape(bs[bs.len() - 1], ai));
                        assert(last.addr as int % ai == 0);
                        assert(round_down(last.addr as int, ai) == last.addr);
                        assert(last.addr <= us) by {
                            if last.addr > us {
                                lemma_aligned_gap(us as int, last.addr as int, ai);
                            }
                        }
                    }
                    let base = last.addr as u64;
                    let want = (ue - base) as usize;
                    let ghost old_data = last.data@;
                    pad_to(&mut last.data, want);
                    let at = (addr64 - base) as usize;
                    write_at(&mut last.data, at, seg.data.as_slice());
                    proof {
                        let b = last;
                        assert forall|x: int| #[trigger] covers(b, x) implies b.data@[x - b.addr] == if covers(*seg, x) {
                            seg.data@[x - seg.addr]
                        } else if x < seg_end(bs.last()) {
                            bs.last().data@[x - b.addr]
                        } else {
                            0xff
                        } by {}
                        lemma_step_merge(bs, tk, *seg, ai, b);
                    }
                    out.push(last);
                    proof {
                        assert(out@ =~= bs.drop_last().push(last));
                    }
                } else {
                    let len = (ue - us) as usize;
                    let mut data: Vec<u8> = Vec::new();
                    pad_to(&mut data, len);
                    let at = (addr64 - us) as usize;
                    write_at(&mut data, at, seg.data.as_slice());
                    let b = Segment { addr: us as u32, data };
                    proof {
                        assert(round_up(seg_end(segs[order@[k as int] as int]), ai)
                            - round_down(segs[order@[k as int] as int].addr as int, ai) <= usize::MAX);
                        assert forall|x: int| #[trigger] covers(b, x) implies b.data@[x - b.addr] == if covers(*seg, x) {
                            seg.data@[x - seg.addr]
                        } else {
                            0xff
                        } by {}
                        lemma_step_new(bs, tk, *seg, ai, b);
                    }
                    out.push(b);
                }
            }
            k = k + 1;
        }
        proof {
            assert(t.take(k as int) =~= t);
        }
        out
    }
}

/// `sp` is the whole image as one block: from the first touched unit to the end of the last,
/// every byte the overlaid image byte or `0xff`, no touched unit outside it.
pub open spec fn span_ok(sp: Segment, t: Seq<Segment>, a: int) -> bool {
    &&& block_shape(sp, a)
    &&& touched(t, a, sp.addr as int)
    &&& touched(t, a, seg_end(sp) - a)
    &&& forall|p: int| p % a == 0 && #[trigger] touched(t, a, p) ==> covers(sp, p)
    &&& forall|x: int| #[trigger] covers(sp, x) ==> sp.data@[x - sp.addr] == fill(t, x)
}

/// Some block of `bs` holds byte `x`.
pub open spec fn in_some(bs: Seq<Segment>, x: int) -> bool {
    exists|q: int| 0 <= q < bs.len() && covers(#[trigger] bs[q], x)
}

/// Every segment of `t` is empty.
pub open spec fn all_empty(t: Seq<Segment>) -> bool {
    forall|i: int| 0 <= i < t.len() ==> (#[trigger] t[i]).data@.len() == 0
}

proof fn lemma_touched_witness(t: Seq<Segment>, a: int, p: int)
    requires
        touched(t, a, p),
    ensures
        exists|i: int| 0 <= i < t.len() && unit_touches(#[trigger] t[i], a, p),
    decreases t.len(),
{
    if unit_touches(t.last(), a, p) {
        assert(unit_touches(t[t.len() - 1], a, p));
    } else {
        lemma_touched_witness(t.drop_last(), a, p);
        let i = choose|i: int| 0 <= i < t.drop_last().len() && unit_touches(#[trigger] t.drop_last()[i], a, p);
        assert(t.drop_last()[i] == t[i]);
    }
}

proof fn lemma_touched_of(t: Seq<Segment>, a: int, p: int, i: int)
    requires
        0 <= i < t.len(),
        unit_touches(t[i], a, p),
    ensures
        touched(t, a, p),
    decreases t.len(),
{
    if i < t.len() - 1 {
        assert(t.drop_last()[i] == t[i]);
        lemma_touched_of(t.drop_last(), a, p, i);
    }
}

proof fn lemma_overlay_witness(t: Seq<Segment>, x: int)
    requires
        overlay(t, x) is Some,
    ensures
        exists|i: int| 0 <= i < t.len() && covers(#[trigger] t[i], x),
    decreases t.len(),
{
    if covers(t.last(), x) {
        assert(covers(t[t.len() - 1], x));
    } else {
        lemma_overlay_witness(t.drop_last(), x);
        let i = choose|i: int| 0 <= i < t.drop_last().len() && covers(#[trigger] t.drop_last()[i], x);
        assert(t.drop_last()[i] == t[i]);
    }
}

/// A byte whose unit lies in a block lies in that block.
proof fn lemma_block_covers_unit(b: Segment, a: int, x: int)
    requires
        a > 0,
        x >= 0,
        block_shape(b, a),
        covers(b, round_down(x, a)),
    ensures
        covers(b, x),
{
    lemma_round_down(x, a);
    lemma_aligned_add(b.addr as int, b.data@.len() as int, a);
    if x >= seg_end(b) {
        lemma_aligned_gap(round_down(x, a), seg_end(b), a);
    }
}

/// A byte outside every block is not covered by any segment.
proof fn lemma_outside_blocks(bs: Seq<Segment>, t: Seq<Segment>, a: int, x: int)
    requires
        a > 0,
        x >= 0,
        blocks_ok(bs, t, a),
        forall|j: int| 0 <= j < bs.len() ==> !covers(#[trigger] bs[j], x),
    ensures
        overlay(t, x) is None,
{
    if overlay(t, x) is Some {
        lemma_overlay_witness(t, x);
        let i = choose|i: int| 0 <= i < t.len() && covers(#[trigger] t[i], x);
        lemma_round_down(x, a);
        let p = round_down(x, a);
        assert(unit_touches(t[i], a, p));
        lemma_touched_of(t, a, p, i);
        let j = choose|j: int| 0 <= j < bs.len() && #[trigger] covers(bs[j], p);
        assert(block_shape(bs[j], a));
        lemma_block_covers_unit(bs[j], a, x);
    }
}

/// The first and last units of the blocks, and where the blocks lie relative to them.
proof fn lemma_span_bounds(segs: Seq<Segment>, p: Seq<usize>, a: int, bs: Seq<Segment>)
    requires
        0 < a <= u32::MAX,
        sorted_order(p, segs),
        blocks_fit(segs, a),
        blocks_ok(bs, reorder(segs, p), a),
        bs.len() > 0,
    ensures
        seg_end(bs.last()) <= u64::MAX,
        seg_end(bs.last()) - bs[0].addr <= usize::MAX,
        bs[0].addr < seg_end(bs.last()),
        forall|q: int| 0 <= q < bs.len() ==> #[trigger] bs[q].addr >= bs[0].addr && seg_end(bs[q]) <= seg_end(bs.last()),
        touched(reorder(segs, p), a, bs[0].addr as int),
        touched(reorder(segs, p), a, seg_end(bs.last()) - a),
        (bs[0].addr as int) % a == 0,
        (seg_end(bs.last()) - bs[0].addr) % a == 0,
{
    let t = reorder(segs, p);
    let nb = bs.len();
    let base = bs[0].addr as int;
    let gend = seg_end(bs[nb - 1]);
    assert forall|j: int| 0 <= j < bs.len() implies #[trigger] bs[j].addr <= seg_end(bs[j]) by {
        assert(block_shape(bs[j], a));
    }
    lemma_ends_below_last(bs, a);
    assert forall|q: int| 0 <= q < bs.len() implies #[trigger] bs[q].addr >= bs[0].addr && seg_end(bs[q]) <= seg_end(bs.last()) by {
        if q > 0 {
            assert(seg_end(bs[0]) < bs[q].addr);
        }
    }
    assert(block_shape(bs[0], a));
    assert(block_shape(bs[nb - 1], a));
    lemma_aligned_add(bs[nb - 1].addr as int, bs[nb - 1].data@.len() as int, a);
    assert(covers(bs[0], base));
    assert(touched(t, a, base));
    lemma_touched_witness(t, a, base);
    let i = choose|i: int| 0 <= i < t.len() && unit_touches(#[trigger] t[i], a, base);
    lemma_touch_range(t[i], a, base);
    let lastu = gend - a;
    lemma_aligned_gap(bs[nb - 1].addr as int, gend, a);
    lemma_mod_multiples_basic(1, a);
    lemma_aligned_diff(a, gend, a);
    assert(covers(bs[nb - 1], lastu));
    assert(touched(t, a, lastu));
    lemma_touched_witness(t, a, lastu);
    let j = choose|j: int| 0 <= j < t.len() && unit_touches(#[trigger] t[j], a, lastu);
    lemma_touch_range(t[j], a, lastu);
    lemma_round_up(seg_end(t[j]), a);
    if gend > round_up(seg_end(t[j]), a) {
        lemma_aligned_gap(round_up(seg_end(t[j]), a), gend, a);
    }
    assert(t[i] == segs[p[i] as int]);
    assert(t[j] == segs[p[j] as int]);
    assert(seg_end(segs[p[j] as int]) <= u64::MAX - u32::MAX);
    assert(round_up(seg_end(segs[p[j] as int]), a) - round_down(segs[p[i] as int].addr as int, a) <= usize::MAX);
    lemma_aligned_diff(base, gend, a);
}

/// `blocks` laid out from `base` to `end`, the gaps filled with `0xff`.
fn lay_out(blocks: &Vec<Segment>, base: u32, end: u64) -> (data: Vec<u8>)
    requires
        blocks@.len() > 0,
        base <= end,
        end - base <= usize::MAX,
        forall|q: int| 0 <= q < blocks@.len() ==> #[trigger] blocks@[q].addr >= base && seg_end(blocks@[q]) <= end,
        forall|q: int, r: int| 0 <= q < r < blocks@.len() ==> seg_end(#[trigger] blocks@[q]) < (#[trigger] blocks@[r]).addr,
    ensures
        data@.len() == end - base,
        forall|q: int, x: int| 0 <= q < blocks@.len() && #[trigger] covers(blocks@[q], x)
            ==> data@[x - base] == blocks@[q].data@[x - blocks@[q].addr],
        forall|x: int| base <= x < end && !#[trigger] in_some(blocks@, x) ==> data@[x - base] == 0xff,
{
    let ghost bs = blocks@;
    let nb = blocks.len();
    let len = (end - base as u64) as usize;
    let mut data: Vec<u8> = Vec::new();
    pad_to(&mut data, len);
    let mut j: usize = 0;
    while j < nb
        invariant
            bs == blocks@,
            nb == bs.len(),
            j <= nb,
            base <= end,
            data@.len() == end - base,
            forall|q: int| 0 <= q < nb ==> #[trigger] bs[q].addr >= base && seg_end(bs[q]) <= end,
            forall|q: int, r: int| 0 <= q < r < nb ==> seg_end(#[trigger] bs[q]) < (#[trigger] bs[r]).addr,
            forall|q: int, x: int| 0 <= q < j && #[trigger] covers(bs[q], x)
                ==> data@[x - base] == bs[q].data@[x - bs[q].addr],
            forall|x: int| base <= x < end && !#[trigger] in_some(bs.take(j as int), x) ==> data@[x - base] == 0xff,
        decreases nb - j,
    {
        let at = (blocks[j].addr - base) as usize;
        write_at(&mut data, at, blocks[j].data.as_slice());
        proof {
            let bj = bs[j as int];
            assert forall|q: int, x: int| 0 <= q < j + 1 && #[trigger] covers(bs[q], x)
                implies data@[x - base] == bs[q].data@[x - bs[q].addr] by {
                if q < j {
                    assert(seg_end(bs[q]) < bj.addr);
                }
            }
            assert forall|x: int| base <= x < end && !#[trigger] in_some(bs.take(j + 1), x)
                implies data@[x - base] == 0xff by {
                if in_some(bs.take(j as int), x) {
                    let q = choose|q: int| 0 <= q < bs.take(j as int).len() && covers(#[trigger] bs.take(j as int)[q], x);
                    assert(bs.take(j + 1)[q] == bs.take(j as int)[q]);
                    assert(covers(bs.take(j + 1)[q], x));
                }
                if covers(bj, x) {
                    assert(bs.take(j + 1)[j as int] == bj);
                    assert(covers(bs.take(j + 1)[j as int], x));
                }
            }
        }
        j = j + 1;
    }
    proof { assert(bs.take(nb as int) =~= bs); }
    data
}

/// The laid-out blocks form the span of the image.
proof fn lemma_span_final(bs: Seq<Segment>, t: Seq<Segment>, a: int, sp: Segment)
    requires
        a > 0,
        blocks_ok(bs, t, a),
        bs.len() > 0,
        sp.addr == bs[0].addr,
        seg_end(sp) == seg_end(bs.last()),
        (sp.addr as int) % a == 0,
        (sp.data@.len() as int) % a == 0,
        touched(t, a, sp.addr as int),
        touched(t, a, seg_end(sp) - a),
        forall|q: int| 0 <= q < bs.len() ==> #[trigger] bs[q].addr >= sp.addr && seg_end(bs[q]) <= seg_end(sp),
        forall|q: int, x: int| 0 <= q < bs.len() && #[trigger] covers(bs[q], x)
            ==> sp.data@[x - sp.addr] == bs[q].data@[x - bs[q].addr],
        forall|x: int| sp.addr <= x < seg_end(sp) && !#[trigger] in_some(bs, x) ==> sp.data@[x - sp.addr] == 0xff,
    ensures
        span_ok(sp, t, a),
{
    assert(block_shape(bs[0], a));
    assert forall|x: int| #[trigger] covers(sp, x) implies sp.data@[x - sp.addr] == fill(t, x) by {
        if in_some(bs, x) {
            let q = choose|q: int| 0 <= q < bs.len() && covers(#[trigger] bs[q], x);
        } else {
            assert forall|q: int| 0 <= q < bs.len() implies !covers(#[trigger] bs[q], x) by {}
            lemma_outside_blocks(bs, t, a, x);
        }
    }
    assert forall|pp: int| pp % a == 0 && #[trigger] touched(t, a, pp) implies covers(sp, pp) by {
        let q = choose|q: int| 0 <= q < bs.len() && #[trigger] covers(bs[q], pp);
    }
}

/// The program span and the program blocks of one segment list agree: the span runs from the
/// first block's start to the last block's end, holds every block's bytes in place, and holds
/// `0xff` wherever no block lies.
pub proof fn lemma_span_of_blocks(bl: Seq<Segment>, sp: Segment, t: Seq<Segment>, a: int)
    requires
        a > 0,
        blocks_ok(bl, t, a),
        span_ok(sp, t, a),
    ensures
        bl.len() > 0,
        sp.addr == bl[0].addr,
        seg_end(sp) == seg_end(bl.last()),
        forall|j: int, x: int| 0 <= j < bl.len() && #[trigger] covers(bl[j], x)
            ==> sp.data@[x - sp.addr] == bl[j].data@[x - bl[j].addr],
        forall|x: int| covers(sp, x) && !#[trigger] in_some(bl, x) ==> sp.data@[x - sp.addr] == 0xff,
{
    let j0 = choose|j: int| 0 <= j < bl.len() && #[trigger] covers(bl[j], sp.addr as int);
    let n = bl.len() - 1;
    let b0 = bl[0];
    let bn = bl[n];
    assert(block_shape(b0, a));
    assert(block_shape(bn, a));
    assert(covers(b0, b0.addr as int));
    assert(touched(t, a, b0.addr as int));
    assert(covers(sp, b0.addr as int));
    if j0 > 0 {
        assert(seg_end(bl[0]) < bl[j0].addr);
    }
    assert(sp.addr == b0.addr);
    let e = seg_end(bn);
    lemma_aligned_add(bn.addr as int, bn.data@.len() as int, a);
    lemma_aligned_gap(bn.addr as int, e, a);
    let u = e - a;
    assert(a % a == 0) by (nonlinear_arith) requires a > 0;
    lemma_aligned_diff(a, e, a);
    assert(u % a == 0);
    assert(covers(bn, u));
    assert(touched(t, a, u));
    assert(covers(sp, u));
    assert(block_shape(sp, a));
    lemma_aligned_add(sp.addr as int, sp.data@.len() as int, a);
    let v = seg_end(sp) - a;
    lemma_aligned_diff(a, seg_end(sp), a);
    assert(v % a == 0);
    let j1 = choose|j: int| 0 <= j < bl.len() && #[trigger] covers(bl[j], v);
    if j1 < n {
        assert(seg_end(bl[j1]) < bl[n].addr);
    }
    if seg_end(sp) < e {
        lemma_aligned_gap(seg_end(sp), e, a);
    }
    if e < seg_end(sp) {
        lemma_aligned_gap(e, seg_end(sp), a);
    }
    assert(seg_end(sp) == e);
    assert forall|j: int, x: int| 0 <= j < bl.len() && #[trigger] covers(bl[j], x)
        implies sp.data@[x - sp.addr] == bl[j].data@[x - bl[j].addr] by {
        if j > 0 {
            assert(seg_end(bl[0]) < bl[j].addr);
        }
        if j < n {
            assert(seg_end(bl[j]) < bl[n].addr);
        }
        assert(covers(sp, x));
    }
    assert forall|x: int| covers(sp, x) && !#[trigger] in_some(bl, x) implies sp.data@[x - sp.addr] == 0xff by {
        assert forall|q: int| 0 <= q < bl.len() implies !covers(#[trigger] bl[q], x) by {}
        lemma_outside_blocks(bl, t, a, x);
    }
}

/// There are no program blocks exactly when every segment is empty, which is when there is no
/// program span.
pub proof fn lemma_no_blocks_iff_empty(bl: Seq<Segment>, t: Seq<Segment>, a: int)
    requires
        a > 0,
        blocks_ok(bl, t, a),
    ensures
        bl.len() == 0 <==> all_empty(t),
{
    if bl.len() > 0 {
        assert(block_shape(bl[0], a));
        assert(covers(bl[0], bl[0].addr as int));
        assert(touched(t, a, bl[0].addr as int));
        lemma_touched_witness(t, a, bl[0].addr as int);
        let i = choose|i: int| 0 <= i < t.len() && unit_touches(#[trigger] t[i], a, bl[0].addr as int);
        assert(t[i].data@.len() > 0);
    } else {
        assert forall|i: int| 0 <= i < t.len() implies (#[trigger] t[i]).data@.len() == 0 by {
            if t[i].data@.len() > 0 {
                lemma_round_down(t[i].addr as int, a);
                assert(unit_touches(t[i], a, round_down(t[i].addr as int, a)));
                lemma_touched_of(t, a, round_down(t[i].addr as int, a), i);
            }
        }
    }
}

/// A stable sorting order lists every index: its values are `segs.len()` distinct indices below
/// `segs.len()`.
proof fn lemma_order_covers(p: Seq<usize>, segs: Seq<Segment>, k: int)
    requires
        sorted_order(p, segs),
        0 <= k < segs.len(),
    ensures
        exists|i: int| 0 <= i < p.len() && p[i] as int == k,
{
    let m = p.map_values(|v: usize| v as int);
    assert forall|i: int, j: int| 0 <= i < m.len() && 0 <= j < m.len() && i != j implies m[i] != m[j] by {
        if i < j {
            assert(key_before(segs, p[i] as int, p[j] as int));
        } else {
            assert(key_before(segs, p[j] as int, p[i] as int));
        }
    }
    assert(m.no_duplicates());
    m.unique_seq_to_set();
    let r = vstd::set_lib::set_int_range(0, segs.len() as int);
    vstd::set_lib::lemma_int_range(0, segs.len() as int);
    assert forall|x: int| m.to_set().contains(x) implies r.contains(x) by {
        let i = choose|i: int| 0 <= i < m.len() && m[i] == x;
        assert(p[i] < segs.len());
    }
    vstd::set_lib::lemma_subset_equality(m.to_set(), r);
    assert(r.contains(k));
    assert(m.to_set().contains(k));
    let i = choose|i: int| 0 <= i < m.len() && m[i] == k;
    assert(p[i] as int == k);
}

/// There is one stable sorting order of a segment list.
proof fn lemma_order_unique(p: Seq<usize>, q: Seq<usize>, segs: Seq<Segment>)
    requires
        sorted_order(p, segs),
        sorted_order(q, segs),
    ensures
        p == q,
{
    assert forall|i: int| 0 <= i < p.len() implies p[i] == q[i] by {
        lemma_order_prefix(p, q, segs, i);
    }
    assert(p =~= q);
}

proof fn lemma_order_prefix(p: Seq<usize>, q: Seq<usize>, segs: Seq<Segment>, i: int)
    requires
        sorted_order(p, segs),
        sorted_order(q, segs),
        0 <= i < p.len(),
    ensures
        p[i] == q[i],
    decreases i,
{
    if i > 0 {
        lemma_order_prefix(p, q, segs, i - 1);
    }
    assert forall|k: int| 0 <= k < i implies p[k] == q[k] by {
        lemma_order_prefix(p, q, segs, k);
    }
    lemma_order_covers(q, segs, p[i] as int);
    let j = choose|j: int| 0 <= j < q.len() && q[j] as int == p[i] as int;
    lemma_order_covers(p, segs, q[i] as int);
    let j2 = choose|j: int| 0 <= j < p.len() && p[j] as int == q[i] as int;
    if j < i {
        assert(p[j] == q[j]);
        assert(key_before(segs, p[j] as int, p[i] as int));
    }
    if j2 < i {
        assert(p[j2] == q[j2]);
        assert(key_before(segs, q[j2] as int, q[i] as int));
    }
    if j > i && j2 > i {
        assert(key_before(segs, q[i] as int, q[j] as int));
        assert(key_before(segs, p[i] as int, p[j2] as int));
    }
}

/// `program_span` and `program_blocks` of one image agree: whatever the two calls returned
/// (each as its contract states it), there is no span exactly when there are no blocks, and a
/// span runs from the first block's start to the last block's end, holds every block's bytes in
/// place and `0xff` wherever no block lies.
pub proof fn lemma_program_span_law(segs: Seq<Segment>, align: u32, bl: Seq<Segment>, r: Option<Segment>)
    requires
        exists|p: Seq<usize>| sorted_order(p, segs) && #[trigger] blocks_ok(bl, reorder(segs, p), unit(align)),
        exists|p: Seq<usize>| #![trigger reorder(segs, p)] {
            &&& sorted_order(p, segs)
            &&& (r is None <==> all_empty(reorder(segs, p)))
            &&& (r matches Some(sp) ==> span_ok(sp, reorder(segs, p), unit(align)))
        },
    ensures
        r is None <==> bl.len() == 0,
        r matches Some(sp) ==> {
            &&& bl.len() > 0
            &&& sp.addr == bl[0].addr
            &&& seg_end(sp) == seg_end(bl.last())
            &&& forall|j: int, x: int| 0 <= j < bl.len() && #[trigger] covers(bl[j], x)
                ==> sp.data@[x - sp.addr] == bl[j].data@[x - bl[j].addr]
            &&& forall|x: int| covers(sp, x) && !#[trigger] in_some(bl, x) ==> sp.data@[x - sp.addr] == 0xff
        },
{
    let p = choose|p: Seq<usize>| sorted_order(p, segs) && #[trigger] blocks_ok(bl, reorder(segs, p), unit(align));
    let q = choose|p: Seq<usize>| #![trigger reorder(segs, p)] {
        &&& sorted_order(p, segs)
        &&& (r is None <==> all_empty(reorder(segs, p)))
        &&& (r matches Some(sp) ==> span_ok(sp, reorder(segs, p), unit(align)))
    };
    lemma_order_unique(p, q, segs);
    let t = reorder(segs, p);
    lemma_no_blocks_iff_empty(bl, t, unit(align));
    if let Some(sp) = r {
        lemma_span_of_blocks(bl, sp, t, unit(align));
    }
}

impl Image {
    /// The whole image as one contiguous block of whole `align` units, the gaps between
    /// segments filled with `0xff`: what a full-region programmer must be handed, since only
    /// its first write of a session takes effect. The caller must erase the whole span. None
    /// for an image without data.
    pub fn program_span(&self, align: u32) -> (r: Option<Segment>)
        requires
            blocks_fit(self.segments@, unit(align)),
        ensures
            exists|p: Seq<usize>| #![trigger reorder(self.segments@, p)] {
                &&& sorted_order(p, self.segments@)
                &&& (r is None <==> all_empty(reorder(self.segments@, p)))
                &&& (r matches Some(sp) ==> span_ok(sp, reorder(self.segments@, p), unit(align)))
            },
    {
        let blocks = self.program_blocks(align);
        let ghost a = unit(align);
        let ghost p = choose|p: Seq<usize>| sorted_order(p, self.segments@)
            && #[trigger] blocks_ok(blocks@, reorder(self.segments@, p), unit(align));
        let ghost t = reorder(self.segments@, p);
        if blocks.len() == 0 {
            proof {
                assert forall|i: int| 0 <= i < t.len() implies (#[trigger] t[i]).data@.len() == 0 by {
                    if t[i].data@.len() > 0 {
                        lemma_round_down(t[i].addr as int, a);
                        assert(unit_touches(t[i], a, round_down(t[i].addr as int, a)));
                        lemma_touched_of(t, a, round_down(t[i].addr as int, a), i);
                    }
                }
            }
            return None;
        }
        proof { lemma_span_bounds(self.segments@, p, a, blocks@); }
        let nb = blocks.len();
        let base = blocks[0].addr;
        let end = blocks[nb - 1].addr as u64 + blocks[nb - 1].data.len() as u64;
        proof {
            assert forall|q: int, r: int| 0 <= q < r < blocks@.len() implies seg_end(#[trigger] blocks@[q]) < (#[trigger] blocks@[r]).addr by {}
        }
        let data = lay_out(&blocks, base, end);
        let sp = Segment { addr: base, data };
        proof {
            lemma_span_final(blocks@, t, a, sp);
            lemma_touched_witness(t, a, base as int);
            let q = choose|q: int| 0 <= q < t.len() && unit_touches(#[trigger] t[q], a, base as int);
            assert(t[q].data@.len() > 0);
        }
        Some(sp)
    }
}

} // verus!
