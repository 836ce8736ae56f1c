//! Shared argument parsing: the debug speed and numeric addresses, lengths and ranges.

use vstd::prelude::*;

use crate::contract::Warning;
use crate::selector::{has_prefix, parse_unsigned, parse_unsigned_range, string_range};
use crate::text::{ascii_lower, chars_of, dec, hex_min, push_dec, push_hex_min, push_str, string_of, to_ascii_lower, trim, trim_bounds};

verus! {

/// The three debug speed steps of the probe (400 kHz, 4 MHz, 6 MHz).
#[derive(Debug, Clone, Copy, PartialEq, Eq, Structural)]
pub enum Speed {
    Low,
    Medium,
    High,
}

/// The number that `s` spells, if it is at most `max`: `0x`/`0X` and hex digits, or decimal
/// digits, after trimming whitespace; each may start with `+`.
pub open spec fn radix_num(s: Seq<char>, max: nat) -> Option<nat> {
    let t = trim(s);
    if has_prefix(t, "0x"@) || has_prefix(t, "0X"@) {
        parse_unsigned(t.skip(2), 16, max)
    } else {
        parse_unsigned(t, 10, max)
    }
}

/// The 32-bit number that `s` spells (see [`radix_num`]).
pub open spec fn u32_addr_spec(s: Seq<char>) -> Option<nat> {
    radix_num(s, u32::MAX as nat)
}

/// The message for an unreadable number.
pub open spec fn bad_number_msg(s: Seq<char>) -> Seq<char> {
    "invalid address/number `"@ + s + "` (use 0x-hex or decimal)"@
}

pub(crate) fn num_of_chars(cs: &[char], from: usize, to: usize, max: u64) -> (r: Option<u64>)
    requires
        from <= to <= cs@.len(),
    ensures
        r == match radix_num(cs@.subrange(from as int, to as int), max as nat) {
            Some(v) => Some(v as u64),
            None => None::<u64>,
        },
        r matches Some(v) ==> v <= max,
{
    let (a, b) = trim_bounds(cs, from, to);
    let ghost t = cs@.subrange(a as int, b as int);
    proof {
        reveal_strlit("0x");
        reveal_strlit("0X");
    }
    if b - a >= 2 && cs[a] == '0' && (cs[a + 1] == 'x' || cs[a + 1] == 'X') {
        proof {
            assert(t.take(2) =~= seq!['0', cs@[a + 1]]);
            assert(t.skip(2) =~= cs@.subrange(a + 2, b as int));
            assert("0x"@ =~= seq!['0', 'x']);
            assert("0X"@ =~= seq!['0', 'X']);
            assert(has_prefix(t, "0x"@) || has_prefix(t, "0X"@));
        }
        parse_unsigned_range(cs, a + 2, b, 16, max)
    } else {
        proof {
            if has_prefix(t, "0x"@) {
                assert(t.take(2)[0] == '0' && t.take(2)[1] == 'x');
            }
            if has_prefix(t, "0X"@) {
                assert(t.take(2)[0] == '0' && t.take(2)[1] == 'X');
            }
        }
        parse_unsigned_range(cs, a, b, 10, max)
    }
}

pub(crate) fn addr_of_chars(cs: &[char], from: usize, to: usize) -> (r: Option<u32>)
    requires
        from <= to <= cs@.len(),
    ensures
        r == match u32_addr_spec(cs@.subrange(from as int, to as int)) {
            Some(v) => Some(v as u32),
            None => None::<u32>,
        },
{
    match num_of_chars(cs, from, to, 0xffff_ffff) {
        Some(v) => Some(v as u32),
        None => None,
    }
}

/// A 32-bit address or number in hex (`0x...`) or decimal.
pub fn u32_addr(s: &str) -> (r: Result<u32, String>)
    ensures
        match u32_addr_spec(s@) {
            Some(v) => r == Ok::<u32, String>(v as u32),
            None => r matches Err(m) && m@ == bad_number_msg(s@),
        },
{
    let cs = chars_of(s);
    proof { assert(cs@.subrange(0, cs@.len() as int) =~= cs@); }
    match addr_of_chars(cs.as_slice(), 0, cs.len()) {
        Some(v) => Ok(v),
        None => Err(bad_number_msg_of(s)),
    }
}

fn bad_number_msg_of(s: &str) -> (m: String)
    ensures
        m@ == bad_number_msg(s@),
{
    let mut v: Vec<char> = Vec::new();
    push_str(&mut v, "invalid address/number `");
    push_str(&mut v, s);
    push_str(&mut v, "` (use 0x-hex or decimal)");
    string_of(v.as_slice())
}

/// `s` with ASCII letters lowered.
pub open spec fn lower(s: Seq<char>) -> Seq<char> {
    Seq::new(s.len(), |i: int| ascii_lower(s[i]))
}

/// The multiplier suffix of a length and the number before it: `k` is KiB, `m` MiB.
pub open spec fn len_parts(s: Seq<char>) -> (Seq<char>, nat) {
    let t = lower(trim(s));
    if t.len() > 0 && t.last() == 'k' {
        (t.drop_last(), 1024)
    } else if t.len() > 0 && t.last() == 'm' {
        (t.drop_last(), 1024 * 1024)
    } else {
        (t, 1)
    }
}

/// What a length reads as: the number times the multiplier, or why it is rejected.
pub open spec fn byte_len_spec(s: Seq<char>) -> Result<nat, Seq<char>> {
    let (num, mult) = len_parts(s);
    match u32_addr_spec(num) {
        None => Err(bad_number_msg(num)),
        Some(v) => if v * mult <= u32::MAX {
            Ok(v * mult)
        } else {
            Err("length `"@ + s + "` overflows u32"@)
        },
    }
}

/// A byte length, with an optional `k` (KiB) or `m` (MiB) suffix.
pub fn byte_len(s: &str) -> (r: Result<u32, String>)
    ensures
        match byte_len_spec(s@) {
            Ok(v) => r == Ok::<u32, String>(v as u32),
            Err(m) => r matches Err(e) && e@ == m,
        },
{
    let cs = chars_of(s);
    let (a, b) = trim_bounds(cs.as_slice(), 0, cs.len());
    proof { assert(cs@.subrange(0, cs@.len() as int) =~= cs@); }
    let mut t: Vec<char> = Vec::new();
    let mut k = a;
    while k < b
        invariant
            a <= k <= b,
            b <= cs@.len(),
            t@ == lower(cs@.subrange(a as int, k as int)),
        decreases b - k,
    {
        t.push(to_ascii_lower(cs[k]));
        proof { assert(t@ =~= lower(cs@.subrange(a as int, k + 1))); }
        k = k + 1;
    }
    let n = t.len();
    let (end, mult): (usize, u32) = if n > 0 && t[n - 1] == 'k' {
        (n - 1, 1024)
    } else if n > 0 && t[n - 1] == 'm' {
        (n - 1, 1024 * 1024)
    } else {
        (n, 1)
    };
    proof {
        assert(t@.subrange(0, end as int) =~= len_parts(s@).0);
    }
    let base = match addr_of_chars(t.as_slice(), 0, end) {
        Some(v) => v,
        None => {
            let mut v: Vec<char> = Vec::new();
            push_str(&mut v, "invalid address/number `");
            let num = string_range(t.as_slice(), 0, end);
            push_str(&mut v, num.as_str());
            push_str(&mut v, "` (use 0x-hex or decimal)");
            return Err(string_of(v.as_slice()));
        }
    };
    match base.checked_mul(mult) {
        Some(v) => Ok(v),
        None => {
            let mut v: Vec<char> = Vec::new();
            push_str(&mut v, "length `");
            push_str(&mut v, s);
            push_str(&mut v, "` overflows u32");
            Err(string_of(v.as_slice()))
        }
    }
}

/// The first occurrence of `c` in `s`, if any.
pub open spec fn first_of(s: Seq<char>, c: char) -> Option<int> {
    if exists|i: int| 0 <= i < s.len() && s[i] == c {
        Some(choose|i: int| 0 <= i < s.len() && s[i] == c && forall|j: int| 0 <= j < i ==> s[j] != c)
    } else {
        None
    }
}

/// `s` holds `..` at `i`.
pub open spec fn dots_at(s: Seq<char>, i: int) -> bool {
    0 <= i < s.len() - 1 && s[i] == '.' && s[i + 1] == '.'
}

/// The first `..` in `s`, if any.
pub open spec fn first_dots(s: Seq<char>) -> Option<int> {
    if exists|i: int| #[trigger] dots_at(s, i) {
        Some(choose|i: int| #[trigger] dots_at(s, i) && forall|j: int| 0 <= j < i ==> !dots_at(s, j))
    } else {
        None
    }
}

/// What a range `<addr>+<len>` or `<addr>..<end>` reads as: (start, length), or why not.
pub open spec fn range_spec(s: Seq<char>) -> Result<(nat, nat), Seq<char>> {
    match first_of(s, '+') {
        Some(p) => match u32_addr_spec(s.take(p)) {
            None => Err(bad_number_msg(s.take(p))),
            Some(a) => match byte_len_spec(s.skip(p + 1)) {
                Err(m) => Err(m),
                Ok(l) => Ok((a, l)),
            },
        },
        None => match first_dots(s) {
            Some(p) => match (u32_addr_spec(s.take(p)), u32_addr_spec(s.skip(p + 2))) {
                (None, _) => Err(bad_number_msg(s.take(p))),
                (Some(_), None) => Err(bad_number_msg(s.skip(p + 2))),
                (Some(a), Some(e)) => if e < a {
                    Err("range end 0x"@ + hex_min(e) + " is before start 0x"@ + hex_min(a))
                } else {
                    Ok((a, (e - a) as nat))
                },
            },
            None => Err("invalid range `"@ + s + "` (use <addr>+<len> or <addr>..<end>)"@),
        },
    }
}

pub(crate) fn find_char(cs: &[char], c: char) -> (r: Option<usize>)
    ensures
        r matches Some(i) ==> first_of(cs@, c) == Some(i as int) && i < cs@.len(),
        r is None ==> first_of(cs@, c) is None,
{
    let mut i: usize = 0;
    while i < cs.len()
        invariant
            i <= cs@.len(),
            forall|j: int| 0 <= j < i ==> cs@[j] != c,
        decreases cs@.len() - i,
    {
        if cs[i] == c {
            proof {
                let w = choose|k: int| 0 <= k < cs@.len() && cs@[k] == c && forall|j: int| 0 <= j < k ==> cs@[j] != c;
                if w < i { } else if w > i { assert(cs@[i as int] == c); }
            }
            return Some(i);
        }
        i = i + 1;
    }
    None
}

fn find_dots(cs: &[char]) -> (r: Option<usize>)
    ensures
        r matches Some(i) ==> first_dots(cs@) == Some(i as int) && i + 1 < cs@.len(),
        r is None ==> first_dots(cs@) is None,
{
    let n = cs.len();
    if n < 2 {
        return None;
    }
    let mut i: usize = 0;
    while i < n - 1
        invariant
            n == cs@.len(),
            n >= 2,
            forall|j: int| 0 <= j < i ==> !#[trigger] dots_at(cs@, j),
        decreases cs@.len() - i,
    {
        if cs[i] == '.' && cs[i + 1] == '.' {
            proof {
                assert(dots_at(cs@, i as int));
                let w = choose|k: int| #[trigger] dots_at(cs@, k) && forall|j: int| 0 <= j < k ==> !dots_at(cs@, j);
                if w > i { assert(dots_at(cs@, i as int)); }
            }
            return Some(i);
        }
        i = i + 1;
    }
    None
}

/// A range `<addr>[+len|..end]`, as (start, length).
pub fn range(s: &str) -> (r: Result<(u32, u32), String>)
    ensures
        match range_spec(s@) {
            Ok((a, l)) => r == Ok::<(u32, u32), String>((a as u32, l as u32)),
            Err(m) => r matches Err(e) && e@ == m,
        },
{
    let cs = chars_of(s);
    let n = cs.len();
    match find_char(cs.as_slice(), '+') {
        Some(p) => {
            proof {
                assert(cs@.subrange(0, p as int) =~= cs@.take(p as int));
            }
            let start = match addr_of_chars(cs.as_slice(), 0, p) {
                Some(v) => v,
                None => {
                    let a = string_range(cs.as_slice(), 0, p);
                    return Err(bad_number_msg_of(a.as_str()));
                }
            };
            let l = string_range(cs.as_slice(), p + 1, n);
            proof { assert(l@ =~= s@.skip(p + 1)); }
            let len = byte_len(l.as_str())?;
            Ok((start, len))
        }
        None => match find_dots(cs.as_slice()) {
            Some(p) => {
                proof {
                    assert(cs@.subrange(0, p as int) =~= cs@.take(p as int));
                    assert(cs@.subrange(p + 2, n as int) =~= cs@.skip(p + 2));
                }
                let start = match addr_of_chars(cs.as_slice(), 0, p) {
                    Some(v) => v,
                    None => {
                        let a = string_range(cs.as_slice(), 0, p);
                        return Err(bad_number_msg_of(a.as_str()));
                    }
                };
                let end = match addr_of_chars(cs.as_slice(), p + 2, n) {
                    Some(v) => v,
                    None => {
                        let b = string_range(cs.as_slice(), p + 2, n);
                        return Err(bad_number_msg_of(b.as_str()));
                    }
                };
                if end < start {
                    let mut v: Vec<char> = Vec::new();
                    push_str(&mut v, "range end 0x");
                    push_hex_min(&mut v, end as u64);
                    push_str(&mut v, " is before start 0x");
                    push_hex_min(&mut v, start as u64);
                    return Err(string_of(v.as_slice()));
                }
                Ok((start, end - start))
            }
            None => {
                let mut v: Vec<char> = Vec::new();
                push_str(&mut v, "invalid range `");
                push_str(&mut v, s);
                push_str(&mut v, "` (use <addr>+<len> or <addr>..<end>)");
                Err(string_of(v.as_slice()))
            }
        },
    }
}

/// What `--speed` reads as: a named step, or kHz rounded down to a step (at least 400).
pub open spec fn speed_spec(s: Seq<char>) -> Result<(Speed, Option<(nat, nat)>), Seq<char>> {
    if s == "low"@ {
        Ok((Speed::Low, None))
    } else if s == "medium"@ {
        Ok((Speed::Medium, None))
    } else if s == "high"@ {
        Ok((Speed::High, None))
    } else {
        match parse_unsigned(s, 10, u32::MAX as nat) {
            None => Err("invalid --speed `"@ + s + "` (low|medium|high|<kHz>)"@),
            Some(khz) => {
                let (sp, actual) = if khz >= 6000 {
                    (Speed::High, 6000nat)
                } else if khz >= 4000 {
                    (Speed::Medium, 4000nat)
                } else {
                    (Speed::Low, 400nat)
                };
                if khz < 400 {
                    Err("--speed "@ + dec(khz) + " kHz is below the minimum step (400 kHz)"@)
                } else if actual != khz {
                    Ok((sp, Some((khz, actual))))
                } else {
                    Ok((sp, None))
                }
            },
        }
    }
}

/// Parse `--speed` (low|medium|high|<kHz>); a kHz value is rounded down to a step, and the
/// rounding is reported as a `speed-rounded` warning.
pub fn speed(s: &str) -> (r: Result<(Speed, Vec<Warning>), String>)
    ensures
        match speed_spec(s@) {
            Err(m) => r matches Err(e) && e@ == m,
            Ok((sp, None)) => r matches Ok((v, w)) && v == sp && w@.len() == 0,
            Ok((sp, Some((khz, actual)))) => r matches Ok((v, w)) && v == sp && w@.len() == 1
                && w@[0].code@ == "speed-rounded"@
                && w@[0].msg@ == "requested "@ + dec(khz) + " kHz rounded to the "@ + dec(actual) + " kHz step"@,
        },
{
    let cs = chars_of(s);
    let n = cs.len();
    proof {
        reveal_strlit("low");
        reveal_strlit("medium");
        reveal_strlit("high");
        assert(cs@.subrange(0, n as int) =~= cs@);
    }
    if eq_str(cs.as_slice(), "low") {
        return Ok((Speed::Low, Vec::new()));
    }
    if eq_str(cs.as_slice(), "medium") {
        return Ok((Speed::Medium, Vec::new()));
    }
    if eq_str(cs.as_slice(), "high") {
        return Ok((Speed::High, Vec::new()));
    }
    let khz = match parse_unsigned_range(cs.as_slice(), 0, n, 10, 0xffff_ffff) {
        Some(v) => v as u32,
        None => {
            let mut v: Vec<char> = Vec::new();
            push_str(&mut v, "invalid --speed `");
            push_str(&mut v, s);
            push_str(&mut v, "` (low|medium|high|<kHz>)");
            return Err(string_of(v.as_slice()));
        }
    };
    let (sp, actual): (Speed, u32) = if khz >= 6000 {
        (Speed::High, 6000)
    } else if khz >= 4000 {
        (Speed::Medium, 4000)
    } else if khz >= 400 {
        (Speed::Low, 400)
    } else {
        let mut v: Vec<char> = Vec::new();
        push_str(&mut v, "--speed ");
        push_dec(&mut v, khz as u64);
        push_str(&mut v, " kHz is below the minimum step (400 kHz)");
        return Err(string_of(v.as_slice()));
    };
    let mut warnings: Vec<Warning> = Vec::new();
    if actual != khz {
        let mut code: Vec<char> = Vec::new();
        push_str(&mut code, "speed-rounded");
        let mut msg: Vec<char> = Vec::new();
        push_str(&mut msg, "requested ");
        push_dec(&mut msg, khz as u64);
        push_str(&mut msg, " kHz rounded to the ");
        push_dec(&mut msg, actual as u64);
        push_str(&mut msg, " kHz step");
        warnings.push(Warning { code: string_of(code.as_slice()), msg: string_of(msg.as_slice()) });
    }
    Ok((sp, warnings))
}

/// `cs` spells exactly `p`.
pub(crate) fn eq_str(cs: &[char], p: &str) -> (r: bool)
    ensures
        r == (cs@ == p@),
{
    let pc = chars_of(p);
    if pc.len() != cs.len() {
        return false;
    }
    let mut i: usize = 0;
    while i < pc.len()
        invariant
            i <= pc@.len(),
            pc@.len() == cs@.len(),
            pc@ == p@,
            forall|j: int| 0 <= j < i ==> cs@[j] == pc@[j],
        decreases pc@.len() - i,
    {
        if cs[i] != pc[i] {
            return false;
        }
        i = i + 1;
    }
    proof { assert(cs@ =~= pc@); }
    true
}


/// A range written `<start>..<end>` is the span from `start` up to `end`: the result is the pair
/// (start, length) with start + length == end, whatever the two numbers are.
pub proof fn lemma_dots_range_ends_at_end(s: Seq<char>, p: int, a: nat, e: nat)
    requires
        first_of(s, '+') is None,
        first_dots(s) == Some(p),
        u32_addr_spec(s.take(p)) == Some(a),
        u32_addr_spec(s.skip(p + 2)) == Some(e),
        a <= e,
    ensures
        range_spec(s) matches Ok((x, l)) && x == a && x + l == e,
{
}

/// A range written `<start>+<len>` is (start, len): the length is taken as written.
pub proof fn lemma_plus_range_is_start_and_len(s: Seq<char>, p: int, a: nat, l: nat)
    requires
        first_of(s, '+') == Some(p),
        u32_addr_spec(s.take(p)) == Some(a),
        byte_len_spec(s.skip(p + 1)) == Ok::<nat, Seq<char>>(l),
    ensures
        range_spec(s) == Ok::<(nat, nat), Seq<char>>((a, l)),
{
}

} // verus!
