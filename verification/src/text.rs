//! Small text builders: decimal and hexadecimal digits, and the conversions between strings and
//! character vectors that the formatting code works on.

use vstd::prelude::*;
use vstd::utf8::{decode_utf8, valid_utf8};

verus! {

/// The characters of `s`.
#[verifier::external_body]
pub fn chars_of(s: &str) -> (v: Vec<char>)
    ensures
        v@ == s@,
{
    s.chars().collect()
}

/// The string made of the characters `v`.
#[verifier::external_body]
pub fn string_of(v: &[char]) -> (s: String)
    ensures
        s@ == v@,
{
    v.iter().collect()
}

/// The decimal digit for `d < 10`.
pub open spec fn digit_char(d: nat) -> char {
    ((d + 48) as u8) as char
}

/// Decimal notation of `n` (no leading zeros; "0" for zero).
pub open spec fn dec(n: nat) -> Seq<char>
    decreases n,
{
    if n < 10 {
        seq![digit_char(n)]
    } else {
        dec(n / 10).push(digit_char(n % 10))
    }
}

/// Lower-case hexadecimal digit for `d < 16`.
pub open spec fn hex_lower(d: nat) -> char {
    if d < 10 { ((d + 48) as u8) as char } else { ((d + 87) as u8) as char }
}

/// Upper-case hexadecimal digit for `d < 16`.
pub open spec fn hex_upper(d: nat) -> char {
    if d < 10 { ((d + 48) as u8) as char } else { ((d + 55) as u8) as char }
}

/// Two lower-case hex digits of a byte.
pub open spec fn hex2(b: u8) -> Seq<char> {
    seq![hex_lower((b / 16) as nat), hex_lower((b % 16) as nat)]
}

/// Two upper-case hex digits of a byte.
pub open spec fn hex2_upper(b: u8) -> Seq<char> {
    seq![hex_upper((b / 16) as nat), hex_upper((b % 16) as nat)]
}

/// The `width` low hex digits of `n`, lower case, most significant first.
pub open spec fn hex_fixed(n: nat, width: nat) -> Seq<char>
    decreases width,
{
    if width == 0 {
        Seq::empty()
    } else {
        hex_fixed(n / 16, (width - 1) as nat).push(hex_lower(n % 16))
    }
}

/// Lower-case hexadecimal digit.
pub fn hex_digit(d: u8) -> (c: char)
    requires
        d < 16,
    ensures
        c == hex_lower(d as nat),
{
    if d < 10 { (d + 48) as char } else { (d + 87) as char }
}

/// Upper-case hexadecimal digit.
pub fn hex_digit_upper(d: u8) -> (c: char)
    requires
        d < 16,
    ensures
        c == hex_upper(d as nat),
{
    if d < 10 { (d + 48) as char } else { (d + 55) as char }
}

/// Append the two lower-case hex digits of `b`.
pub fn push_hex2(out: &mut Vec<char>, b: u8)
    ensures
        final(out)@ == old(out)@ + hex2(b),
{
    out.push(hex_digit(b / 16));
    out.push(hex_digit(b % 16));
}

/// Append the two upper-case hex digits of `b`.
pub fn push_hex2_upper(out: &mut Vec<char>, b: u8)
    ensures
        final(out)@ == old(out)@ + hex2_upper(b),
{
    out.push(hex_digit_upper(b / 16));
    out.push(hex_digit_upper(b % 16));
}

/// Append the `width` low hex digits of `n`.
pub fn push_hex_fixed(out: &mut Vec<char>, n: u64, width: u32)
    requires
        width <= 16,
    ensures
        final(out)@ == old(out)@ + hex_fixed(n as nat, width as nat),
    decreases width,
{
    if width > 0 {
        push_hex_fixed(out, n / 16, width - 1);
        out.push(hex_digit((n % 16) as u8));
    }
}

/// Append the decimal notation of `n`.
pub fn push_dec(out: &mut Vec<char>, n: u64)
    ensures
        final(out)@ == old(out)@ + dec(n as nat),
    decreases n,
{
    if n >= 10 {
        push_dec(out, n / 10);
    }
    out.push(((n % 10) as u8 + 48) as char);
}

/// Append the characters of `s`.
pub fn push_str(out: &mut Vec<char>, s: &str)
    ensures
        final(out)@ == old(out)@ + s@,
{
    let cs = chars_of(s);
    let mut i: usize = 0;
    let ghost start = out@;
    while i < cs.len()
        invariant
            i <= cs@.len(),
            cs@ == s@,
            out@ == start + cs@.take(i as int),
        decreases cs.len() - i,
    {
        out.push(cs[i]);
        i = i + 1;
    }
    assert(cs@.take(cs@.len() as int) =~= cs@);
}

/// `prefix` followed by the decimal notation of `n`, as a string.
pub fn with_number(prefix: &str, n: u64) -> (s: String)
    ensures
        s@ == prefix@ + dec(n as nat),
{
    let mut v: Vec<char> = Vec::new();
    push_str(&mut v, prefix);
    push_dec(&mut v, n);
    string_of(v.as_slice())
}


/// Unicode `White_Space`, as `char::is_whitespace` has it.
pub open spec fn is_ws(c: char) -> bool {
    let v = c as u32;
    (0x09 <= v <= 0x0d) || v == 0x20 || v == 0x85 || v == 0xa0 || v == 0x1680
        || (0x2000 <= v <= 0x200a) || v == 0x2028 || v == 0x2029 || v == 0x202f || v == 0x205f
        || v == 0x3000
}

pub fn is_whitespace(c: char) -> (r: bool)
    ensures
        r == is_ws(c),
{
    let v = c as u32;
    (0x09 <= v && v <= 0x0d) || v == 0x20 || v == 0x85 || v == 0xa0 || v == 0x1680
        || (0x2000 <= v && v <= 0x200a) || v == 0x2028 || v == 0x2029 || v == 0x202f || v == 0x205f
        || v == 0x3000
}

/// `cs` without leading whitespace.
pub open spec fn trim_start(cs: Seq<char>) -> Seq<char>
    decreases cs.len(),
{
    if cs.len() > 0 && is_ws(cs[0]) { trim_start(cs.skip(1)) } else { cs }
}

/// `cs` without trailing whitespace.
pub open spec fn trim_end(cs: Seq<char>) -> Seq<char>
    decreases cs.len(),
{
    if cs.len() > 0 && is_ws(cs.last()) { trim_end(cs.drop_last()) } else { cs }
}

/// `cs` without leading or trailing whitespace, as `str::trim` gives it.
pub open spec fn trim(cs: Seq<char>) -> Seq<char> {
    trim_end(trim_start(cs))
}

/// The bounds of `trim(cs[from..to])`.
pub fn trim_bounds(cs: &[char], from: usize, to: usize) -> (r: (usize, usize))
    requires
        from <= to <= cs@.len(),
    ensures
        from <= r.0 <= r.1 <= to,
        trim(cs@.subrange(from as int, to as int)) == cs@.subrange(r.0 as int, r.1 as int),
{
    let mut i = from;
    while i < to && is_whitespace(cs[i])
        invariant
            from <= i <= to,
            to <= cs@.len(),
            trim_start(cs@.subrange(from as int, to as int)) == trim_start(cs@.subrange(i as int, to as int)),
        decreases to - i,
    {
        proof {
            assert(cs@.subrange(i as int, to as int).skip(1) =~= cs@.subrange(i + 1, to as int));
        }
        i = i + 1;
    }
    let mut j = to;
    while j > i && is_whitespace(cs[j - 1])
        invariant
            from <= i <= j <= to,
            to <= cs@.len(),
            trim_end(cs@.subrange(i as int, to as int)) == trim_end(cs@.subrange(i as int, j as int)),
        decreases j - i,
    {
        proof {
            assert(cs@.subrange(i as int, j as int).drop_last() =~= cs@.subrange(i as int, j - 1));
        }
        j = j - 1;
    }
    (i, j)
}

/// Lower-case hexadecimal notation of `n` without leading zeros ("0" for zero).
pub open spec fn hex_min(n: nat) -> Seq<char>
    decreases n,
{
    if n < 16 {
        seq![hex_lower(n)]
    } else {
        hex_min(n / 16).push(hex_lower(n % 16))
    }
}

/// Append the lower-case hexadecimal notation of `n`.
pub fn push_hex_min(out: &mut Vec<char>, n: u64)
    ensures
        final(out)@ == old(out)@ + hex_min(n as nat),
    decreases n,
{
    if n >= 16 {
        push_hex_min(out, n / 16);
    }
    out.push(hex_digit((n % 16) as u8));
}

/// ASCII upper-case letters lowered, everything else kept.
pub open spec fn ascii_lower(c: char) -> char {
    if 'A' <= c && c <= 'Z' { ((c as u32) + 32) as char } else { c }
}

pub fn to_ascii_lower(c: char) -> (r: char)
    ensures
        r == ascii_lower(c),
{
    if 'A' <= c && c <= 'Z' { ((c as u32 + 32) as u8) as char } else { c }
}

/// ASCII lower-case letters raised, everything else kept.
pub open spec fn ascii_upper(c: char) -> char {
    if 'a' <= c && c <= 'z' { ((c as u32) - 32) as char } else { c }
}

pub fn to_ascii_upper(c: char) -> (r: char)
    ensures
        r == ascii_upper(c),
{
    if 'a' <= c && c <= 'z' { ((c as u32 - 32) as u8) as char } else { c }
}
/// The length of the longest prefix of `b` that is valid UTF-8.
pub open spec fn utf8_valid_len(b: Seq<u8>) -> nat {
    choose|v: nat| v <= b.len() && valid_utf8(b.take(v as int))
        && forall|w: nat| v < w <= b.len() ==> !valid_utf8(#[trigger] b.take(w as int))
}

/// What `Utf8Error::error_len` reports for invalid bytes `b`: the length of the invalid
/// sequence after the valid prefix, or nothing when the input ends inside a sequence.
pub uninterp spec fn utf8_error_len(b: Seq<u8>) -> Option<nat>;

/// `std::str::from_utf8`: the string when all of `b` is valid UTF-8 (as `vstd::utf8` defines
/// it: no overlong forms, no surrogates, nothing past U+10FFFF); otherwise its error taken apart
/// into `valid_up_to` (the longest valid prefix, as documented) and `error_len`.
#[verifier::external_body]
pub(crate) fn utf8_check(b: &[u8]) -> (r: Result<&str, (usize, Option<usize>)>)
    ensures
        r is Ok <==> valid_utf8(b@),
        r matches Ok(s) ==> s@ == decode_utf8(b@),
        r matches Err((v, e)) ==> v < b@.len() && valid_utf8(b@.take(v as int))
            && (forall|w: nat| v < w <= b@.len() ==> !valid_utf8(#[trigger] b@.take(w as int)))
            && (e matches Some(k) ==> utf8_error_len(b@) == Some(k as nat) && 1 <= k && v + k <= b@.len())
            && (e is None ==> utf8_error_len(b@) is None)
            && (e is None ==> b@.len() - v <= 3),
{
    match std::str::from_utf8(b) {
        Ok(s) => Ok(s),
        Err(e) => Err((e.valid_up_to(), e.error_len())),
    }
}

/// Strings joined by `sep`.
pub open spec fn join_with(ps: Seq<Seq<char>>, sep: Seq<char>) -> Seq<char>
    decreases ps.len(),
{
    if ps.len() == 0 {
        Seq::empty()
    } else if ps.len() == 1 {
        ps[0]
    } else {
        join_with(ps.drop_last(), sep) + sep + ps.last()
    }
}

/// The views of some strings.
pub open spec fn string_views(v: Seq<String>) -> Seq<Seq<char>> {
    Seq::new(v.len(), |i: int| v[i]@)
}

/// Append `ps` joined by `sep`.
pub fn push_joined(out: &mut Vec<char>, ps: &[String], sep: &str)
    ensures
        final(out)@ == old(out)@ + join_with(string_views(ps@), sep@),
{
    let ghost start = out@;
    let mut k: usize = 0;
    proof { assert(string_views(ps@.take(0)) =~= Seq::<Seq<char>>::empty()); }
    while k < ps.len()
        invariant
            k <= ps@.len(),
            out@ == start + join_with(string_views(ps@.take(k as int)), sep@),
        decreases ps@.len() - k,
    {
        proof {
            assert(string_views(ps@.take(k + 1)).drop_last() =~= string_views(ps@.take(k as int)));
        }
        if k > 0 {
            push_str(out, sep);
        }
        push_str(out, ps[k].as_str());
        proof {
            let w = string_views(ps@.take(k + 1));
            assert(w.last() == ps@[k as int]@);
            if k == 0 {
                assert(out@ =~= start + join_with(w, sep@));
            } else {
                assert(out@ =~= start + join_with(w, sep@));
            }
        }
        k = k + 1;
    }
    proof { assert(ps@.take(k as int) =~= ps@); }
}

} // verus!
