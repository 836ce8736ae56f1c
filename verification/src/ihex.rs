//! Intel HEX: records `:LLAAAATT<data>CC`, one per line, with extended linear (04) and extended
//! segment (02) address records; data records are collected into runs of consecutive bytes.

use vstd::prelude::*;

use crate::image::{append_run, append_run_v, fix_flash_addr, fix_flash_addr_spec, flashed, flash_only, segs_view, Image, ImageError, Segment};
use vstd::utf8::{decode_utf8, valid_utf8};
use crate::text::{utf8_check, chars_of, hex2, push_hex2, push_str, string_of, trim, trim_bounds};

verus! {

/// What UTF-8 decoding makes of a byte string: its characters, or nothing when the bytes are
/// not valid UTF-8.
pub open spec fn utf8_decode(b: Seq<u8>) -> Option<Seq<char>> {
    if valid_utf8(b) { Some(decode_utf8(b)) } else { None }
}

/// The value of a hexadecimal digit.
pub open spec fn hex_val(c: char) -> Option<u8> {
    let v = c as u32;
    if 0x30 <= v <= 0x39 {
        Some((v - 0x30) as u8)
    } else if 0x61 <= v <= 0x66 {
        Some((v - 0x57) as u8)
    } else if 0x41 <= v <= 0x46 {
        Some((v - 0x37) as u8)
    } else {
        None
    }
}

pub(crate) fn hex_value(c: char) -> (r: Option<u8>)
    ensures
        r == hex_val(c),
{
    let v = c as u32;
    if 0x30 <= v && v <= 0x39 {
        Some((v - 0x30) as u8)
    } else if 0x61 <= v && v <= 0x66 {
        Some((v - 0x57) as u8)
    } else if 0x41 <= v && v <= 0x46 {
        Some((v - 0x37) as u8)
    } else {
        None
    }
}

/// The bytes that pairs of hex digits spell; nothing for an odd length or a non-hex character.
pub open spec fn decode_hex_spec(cs: Seq<char>) -> Option<Seq<u8>>
    decreases cs.len(),
{
    if cs.len() == 0 {
        Some(Seq::empty())
    } else if cs.len() == 1 {
        None
    } else {
        match (hex_val(cs[0]), hex_val(cs[1]), decode_hex_spec(cs.skip(2))) {
            (Some(h), Some(l), Some(rest)) => Some(seq![(h * 16 + l) as u8] + rest),
            _ => None,
        }
    }
}

/// Decode `cs[from..to]` as pairs of hex digits.
pub fn decode_hex(cs: &[char], from: usize, to: usize) -> (r: Option<Vec<u8>>)
    requires
        from <= to <= cs@.len(),
    ensures
        match decode_hex_spec(cs@.subrange(from as int, to as int)) {
            Some(b) => r matches Some(v) && v@ == b,
            None => r is None,
        },
{
    let ghost whole = cs@.subrange(from as int, to as int);
    if (to - from) % 2 != 0 {
        proof { lemma_decode_odd(whole); }
        return None;
    }
    let mut out: Vec<u8> = Vec::new();
    let mut i = from;
    while i < to
        invariant
            from <= i <= to,
            to <= cs@.len(),
            (to - i) % 2 == 0,
            whole == cs@.subrange(from as int, to as int),
            decode_hex_spec(whole) == match decode_hex_spec(cs@.subrange(i as int, to as int)) {
                Some(rest) => Some(out@ + rest),
                None => None::<Seq<u8>>,
            },
        decreases to - i,
    {
        let ghost cur = cs@.subrange(i as int, to as int);
        proof { assert(cur.skip(2) =~= cs@.subrange(i + 2, to as int)); }
        let h = match hex_value(cs[i]) {
            Some(h) => h,
            None => { return None; }
        };
        let l = match hex_value(cs[i + 1]) {
            Some(l) => l,
            None => { return None; }
        };
        let ghost before = out@;
        out.push(h * 16 + l);
        proof {
            match decode_hex_spec(cs@.subrange(i + 2, to as int)) {
                Some(rest) => { assert(before + (seq![(h * 16 + l) as u8] + rest) =~= out@ + rest); }
                None => {}
            }
        }
        i = i + 2;
    }
    proof { assert(cs@.subrange(to as int, to as int) =~= Seq::<char>::empty()); assert(out@ + Seq::<u8>::empty() =~= out@); }
    Some(out)
}

proof fn lemma_decode_odd(cs: Seq<char>)
    requires
        cs.len() % 2 == 1,
    ensures
        decode_hex_spec(cs) is None,
    decreases cs.len(),
{
    if cs.len() > 1 {
        lemma_decode_odd(cs.skip(2));
    }
}

/// The sum of some bytes.
pub open spec fn byte_sum(b: Seq<u8>) -> int
    decreases b.len(),
{
    if b.len() == 0 { 0 } else { byte_sum(b.drop_last()) + b.last() }
}

/// The parser's state between lines: the upper address bits, the runs so far, and whether the
/// end-of-file record was seen.
pub type HexState = (u32, Seq<(u32, Seq<u8>)>, bool);

/// The message for a record type that is not supported.
pub open spec fn unsupported_msg(t: u8) -> Seq<char> {
    "unsupported record type 0x"@ + hex2(t)
}

/// The effect of one line (numbered `ln`): the next state, or the line number and reason of the
/// error. Blank lines are skipped; after the end-of-file record every line is ignored.
pub open spec fn hex_line(st: HexState, line: Seq<char>, ln: int, start: u32) -> Result<HexState, (int, Seq<char>)> {
    let l = trim(line);
    if st.2 || l.len() == 0 {
        Ok(st)
    } else if l[0] != ':' {
        Err((ln, "record does not start with ':'"@))
    } else {
        match decode_hex_spec(l.skip(1)) {
            None => Err((ln, "odd length or non-hex"@)),
            Some(raw) => if raw.len() < 5 {
                Err((ln, "record too short"@))
            } else if raw.len() != raw[0] + 5 {
                Err((ln, "length byte mismatch"@))
            } else if byte_sum(raw) % 256 != 0 {
                Err((ln, "checksum mismatch"@))
            } else {
                let len = raw[0] as int;
                let offset = (raw[1] as u32) * 256 + raw[2] as u32;
                let data = raw.subrange(4, 4 + len);
                let hi = ((data[0] as u32) * 256 + data[1] as u32) as u32;
                if raw[3] == 0 {
                    Ok((st.0, append_run_v(st.1, fix_flash_addr_spec(st.0 | (offset as u32), start), data), false))
                } else if raw[3] == 1 {
                    Ok((st.0, st.1, true))
                } else if raw[3] == 4 {
                    if len != 2 { Err((ln, "type 04 needs 2 bytes"@)) } else { Ok(((hi << 16u32) as u32, st.1, false)) }
                } else if raw[3] == 2 {
                    if len != 2 { Err((ln, "type 02 needs 2 bytes"@)) } else { Ok(((hi << 4u32) as u32, st.1, false)) }
                } else if raw[3] == 3 || raw[3] == 5 {
                    Ok(st)
                } else {
                    Err((ln, unsupported_msg(raw[3])))
                }
            },
        }
    }
}

/// The length of the first line of `cs` (up to the first `'\n'`, or all of it).
pub open spec fn nl_pos(cs: Seq<char>) -> nat
    decreases cs.len(),
{
    if cs.len() == 0 || cs[0] == '\n' { 0 } else { 1 + nl_pos(cs.skip(1)) }
}

/// The lines of `cs` (split after each `'\n'`, no empty line after a final one), numbered from
/// `ln`, run through [`hex_line`] from state `st`.
pub open spec fn hex_scan(cs: Seq<char>, st: HexState, ln: int, start: u32) -> Result<HexState, (int, Seq<char>)>
    decreases cs.len(),
{
    if cs.len() == 0 {
        Ok(st)
    } else {
        let e = nl_pos(cs);
        let rest = if e < cs.len() { cs.skip(e as int + 1) } else { Seq::empty() };
        match hex_line(st, cs.take(e as int), ln, start) {
            Err(x) => Err(x),
            Ok(s2) => hex_scan(rest, s2, ln + 1, start),
        }
    }
}

/// Why an Intel HEX file could not be read: it is not UTF-8 (None), or a line number and reason.
pub open spec fn ihex_spec(b: Seq<u8>, start: u32) -> Result<Seq<(u32, Seq<u8>)>, Option<(int, Seq<char>)>> {
    match utf8_decode(b) {
        None => Err(None),
        Some(cs) => match hex_scan(cs, (0u32, Seq::empty(), false), 1, start) {
            Err(x) => Err(Some(x)),
            Ok(st) => Ok(st.1),
        },
    }
}

proof fn lemma_nl_pos_bound(cs: Seq<char>)
    ensures
        nl_pos(cs) <= cs.len(),
        nl_pos(cs) < cs.len() ==> cs[nl_pos(cs) as int] == '\n',
        forall|i: int| 0 <= i < nl_pos(cs) ==> cs[i] != '\n',
    decreases cs.len(),
{
    if cs.len() > 0 && cs[0] != '\n' {
        lemma_nl_pos_bound(cs.skip(1));
        assert forall|i: int| 0 <= i < nl_pos(cs) implies cs[i] != '\n' by {
            if i > 0 { assert(cs.skip(1)[i - 1] == cs[i]); }
        }
    }
}

/// A scan that has seen the end-of-file record accepts the rest unchanged.
proof fn lemma_scan_done(cs: Seq<char>, st: HexState, ln: int, start: u32)
    requires
        st.2,
    ensures
        hex_scan(cs, st, ln, start) == Ok::<HexState, (int, Seq<char>)>(st),
    decreases cs.len(),
{
    if cs.len() > 0 {
        lemma_nl_pos_bound(cs);
        let e = nl_pos(cs);
        let rest = if e < cs.len() { cs.skip(e as int + 1) } else { Seq::empty() };
        lemma_scan_done(rest, st, ln + 1, start);
    }
}

/// Where line `[from, to)` ends: the index of the next `'\n'` at or after `from`, or `to`.
fn line_end(cs: &[char], from: usize) -> (e: usize)
    requires
        from <= cs@.len(),
    ensures
        e == from + nl_pos(cs@.skip(from as int)),
        e <= cs@.len(),
{
    let mut j = from;
    while j < cs.len() && cs[j] != '\n'
        invariant
            from <= j <= cs@.len(),
            nl_pos(cs@.skip(from as int)) == (j - from) + nl_pos(cs@.skip(j as int)),
        decreases cs@.len() - j,
    {
        proof { assert(cs@.skip(j as int).skip(1) =~= cs@.skip(j + 1)); }
        j = j + 1;
    }
    j
}

/// One record line `cs[from..to]` (numbered `ln`) applied to the state `upper`, `runs`.
fn hex_record(cs: &[char], from: usize, to: usize, ln: usize, upper: u32, runs: &mut Vec<Segment>, start: u32)
    -> (r: Result<(u32, bool), (usize, String)>)
    requires
        from <= to <= cs@.len(),
    ensures
        match hex_line((upper, segs_view(old(runs)@), false), cs@.subrange(from as int, to as int), ln as int, start) {
            Ok(st) => r matches Ok((u, d)) && u == st.0 && d == st.2 && segs_view(final(runs)@) == st.1,
            Err((l, m)) => r matches Err((el, em)) && el == l && em@ == m,
        },
{
    let (a, b) = trim_bounds(cs, from, to);
    if a == b {
        return Ok((upper, false));
    }
    if cs[a] != ':' {
        return Err((ln, string_of_str("record does not start with ':'")));
    }
    proof {
        assert(cs@.subrange(a as int, b as int).skip(1) =~= cs@.subrange(a + 1, b as int));
    }
    let raw = match decode_hex(cs, a + 1, b) {
        Some(r) => r,
        None => { return Err((ln, string_of_str("odd length or non-hex"))); }
    };
    if raw.len() < 5 {
        return Err((ln, string_of_str("record too short")));
    }
    let len = raw[0] as usize;
    if raw.len() != len + 5 {
        return Err((ln, string_of_str("length byte mismatch")));
    }
    let mut sum: u8 = 0;
    let mut k: usize = 0;
    while k < raw.len()
        invariant
            k <= raw@.len(),
            sum == byte_sum(raw@.take(k as int)) % 256,
        decreases raw@.len() - k,
    {
        proof {
            assert(raw@.take(k + 1).drop_last() =~= raw@.take(k as int));
        }
        sum = sum.wrapping_add(raw[k]);
        k = k + 1;
    }
    proof { assert(raw@.take(raw@.len() as int) =~= raw@); }
    if sum != 0 {
        return Err((ln, string_of_str("checksum mismatch")));
    }
    let offset = (raw[1] as u32) * 256 + raw[2] as u32;
    let rtype = raw[3];
    let ghost data = raw@.subrange(4, 4 + len);
    if rtype == 0 {
        let addr = fix_flash_addr(upper | offset, start);
        append_run(runs, addr, slice_of(&raw, 4, 4 + len).as_slice());
        return Ok((upper, false));
    } else if rtype == 1 {
        return Ok((upper, true));
    } else if rtype == 4 || rtype == 2 {
        if len != 2 {
            if rtype == 4 {
                return Err((ln, string_of_str("type 04 needs 2 bytes")));
            } else {
                return Err((ln, string_of_str("type 02 needs 2 bytes")));
            }
        }
        let hi = (raw[4] as u32) * 256 + raw[5] as u32;
        if rtype == 4 {
            return Ok((hi << 16, false));
        } else {
            return Ok((hi << 4, false));
        }
    } else if rtype == 3 || rtype == 5 {
        return Ok((upper, false));
    }
    let mut msg: Vec<char> = Vec::new();
    push_str(&mut msg, "unsupported record type 0x");
    push_hex2(&mut msg, rtype);
    Err((ln, string_of(msg.as_slice())))
}

/// The string made of `s`.
fn string_of_str(s: &str) -> (r: String)
    ensures
        r@ == s@,
{
    let cs = chars_of(s);
    string_of(cs.as_slice())
}

/// A copy of `v[from..to]`.
fn slice_of(v: &Vec<u8>, from: usize, to: usize) -> (r: Vec<u8>)
    requires
        from <= to <= v@.len(),
    ensures
        r@ == v@.subrange(from as int, to as int),
{
    let mut out: Vec<u8> = Vec::new();
    let mut k = from;
    while k < to
        invariant
            from <= k <= to,
            to <= v@.len(),
            out@ == v@.subrange(from as int, k as int),
        decreases to - k,
    {
        out.push(v[k]);
        proof { assert(out@ =~= v@.subrange(from as int, k + 1)); }
        k = k + 1;
    }
    out
}

/// The image an Intel HEX file describes: its data records collected into runs of consecutive
/// bytes, addresses mapped into the flash window; reading stops at the end-of-file record.
pub fn parse_ihex(bytes: &[u8], code_flash_start: u32) -> (r: Result<Image, ImageError>)
    ensures
        match ihex_spec(bytes@, code_flash_start) {
            Err(None) => r matches Err(ImageError::Malformed(e)) && e@ == "Intel HEX (not ASCII)"@,
            Err(Some((l, m))) => r matches Err(ImageError::Hex { line, reason }) && line == l && reason@ == m,
            Ok(raw) => r matches Ok(img) && flashed(img.segments@, raw, code_flash_start),
        },
{
    let text = match utf8_check(bytes) {
        Ok(t) => t,
        Err(_) => { return Err(ImageError::Malformed("Intel HEX (not ASCII)")); }
    };
    let cs = chars_of(text);
    let ghost init: HexState = (0u32, Seq::empty(), false);
    let mut upper: u32 = 0;
    let mut runs: Vec<Segment> = Vec::new();
    proof {
        assert(segs_view(runs@) =~= Seq::<(u32, Seq<u8>)>::empty());
        assert(cs@.skip(0) =~= cs@);
    }
    let mut pos: usize = 0;
    let mut lines: usize = 0;
    while pos < cs.len()
        invariant
            pos <= cs@.len(),
            lines <= pos,
            utf8_decode(bytes@) == Some(cs@),
            init == (0u32, Seq::<(u32, Seq<u8>)>::empty(), false),
            hex_scan(cs@, init, 1, code_flash_start) == hex_scan(cs@.skip(pos as int), (upper, segs_view(runs@), false), lines + 1, code_flash_start),
        decreases cs@.len() - pos,
    {
        let ghost cur = cs@.skip(pos as int);
        let e = line_end(cs.as_slice(), pos);
        proof {
            lemma_nl_pos_bound(cur);
            assert(cur.take(nl_pos(cur) as int) =~= cs@.subrange(pos as int, e as int));
            if e < cs.len() {
                assert(cur.skip(nl_pos(cur) as int + 1) =~= cs@.skip(e + 1));
            } else {
                assert(cs@.skip(e as int) =~= Seq::<char>::empty());
            }
        }
        let ghost st0: HexState = (upper, segs_view(runs@), false);
        let ln = lines + 1;
        match hex_record(cs.as_slice(), pos, e, ln, upper, &mut runs, code_flash_start) {
            Err((l, m)) => {
                proof {
                    assert(cur.len() > 0);
                    assert(hex_line(st0, cur.take(nl_pos(cur) as int), ln as int, code_flash_start) == Err::<HexState, (int, Seq<char>)>((l as int, m@)));
                    assert(hex_scan(cur, st0, ln as int, code_flash_start) == Err::<HexState, (int, Seq<char>)>((l as int, m@)));
                    assert(hex_scan(cs@, init, 1, code_flash_start) == Err::<HexState, (int, Seq<char>)>((l as int, m@)));
                    assert(ihex_spec(bytes@, code_flash_start) == Err::<Seq<(u32, Seq<u8>)>, Option<(int, Seq<char>)>>(Some((l as int, m@))));
                }
                return Err(ImageError::Hex { line: l, reason: m });
            }
            Ok((u, done)) => {
                upper = u;
                if done {
                    proof {
                        let rest = if e < cs.len() { cs@.skip(e + 1) } else { Seq::empty() };
                        let st1: HexState = (upper, segs_view(runs@), true);
                        assert(hex_line(st0, cur.take(nl_pos(cur) as int), ln as int, code_flash_start) == Ok::<HexState, (int, Seq<char>)>(st1));
                        lemma_scan_done(rest, st1, ln + 1, code_flash_start);
                        assert(hex_scan(cur, st0, ln as int, code_flash_start) == Ok::<HexState, (int, Seq<char>)>(st1));
                    }
                    return Ok(flash_only(runs, code_flash_start));
                }
            }
        }
        if e < cs.len() {
            pos = e + 1;
        } else {
            pos = e;
        }
        lines = lines + 1;
    }
    proof { assert(cs@.skip(pos as int) =~= Seq::<char>::empty()); }
    Ok(flash_only(runs, code_flash_start))
}

} // verus!
