//! The small argument readers of individual commands: plain numbers, a `major.minor` version,
//! a `--at` destination, a USB `VID:PID` pair and a core register name.

use vstd::prelude::*;

use crate::dmi::RegName;
use crate::parse::{addr_of_chars, eq_str, find_char, lower, num_of_chars, radix_num, u32_addr_spec};
use crate::selector::{parse_unsigned, parse_unsigned_range, string_range};
use crate::text::{chars_of, push_str, string_of, to_ascii_lower, trim, trim_bounds};

verus! {

/// A `0x`-hex or decimal u32 (surrounding whitespace ignored), or nothing.
pub fn parse_u32(s: &str) -> (r: Option<u32>)
    ensures
        r == match u32_addr_spec(s@) {
            Some(v) => Some(v as u32),
            None => None::<u32>,
        },
{
    let cs = chars_of(s);
    proof { assert(cs@.subrange(0, cs@.len() as int) =~= cs@); }
    addr_of_chars(cs.as_slice(), 0, cs.len())
}

/// A byte as decimal or `0x`-hex (surrounding whitespace ignored), or nothing.
pub fn parse_u8(s: &str) -> (r: Option<u8>)
    ensures
        r == match radix_num(s@, 255) {
            Some(v) => Some(v as u8),
            None => None::<u8>,
        },
{
    let cs = chars_of(s);
    proof { assert(cs@.subrange(0, cs@.len() as int) =~= cs@); }
    match num_of_chars(cs.as_slice(), 0, cs.len(), 255) {
        Some(v) => Some(v as u8),
        None => None,
    }
}

/// The first `c` in `cs[from..to]`, as an index into `cs`.
fn find_char_in(cs: &[char], from: usize, to: usize, c: char) -> (r: Option<usize>)
    requires
        from <= to <= cs@.len(),
    ensures
        r matches Some(i) ==> from <= i < to && crate::parse::first_of(cs@.subrange(from as int, to as int), c)
            == Some(i - from),
        r is None ==> crate::parse::first_of(cs@.subrange(from as int, to as int), c) is None,
{
    let ghost sub = cs@.subrange(from as int, to as int);
    let mut i = from;
    while i < to
        invariant
            from <= i <= to,
            to <= cs@.len(),
            sub == cs@.subrange(from as int, to as int),
            forall|j: int| 0 <= j < i - from ==> sub[j] != c,
        decreases to - i,
    {
        if cs[i] == c {
            proof {
                assert(sub[i - from] == c);
                assert(exists|k: int| 0 <= k < sub.len() && sub[k] == c);
                let w = choose|k: int| 0 <= k < sub.len() && sub[k] == c && forall|j: int| 0 <= j < k ==> sub[j] != c;
                assert(w == i - from) by {
                    if w < i - from {
                        assert(sub[w] != c);
                    }
                    if w > i - from {
                        assert(sub[i - from] != c);
                    }
                }
            }
            return Some(i);
        }
        i = i + 1;
    }
    proof {
        assert(!(exists|k: int| 0 <= k < sub.len() && sub[k] == c)) by {
            if exists|k: int| 0 <= k < sub.len() && sub[k] == c {
                let k = choose|k: int| 0 <= k < sub.len() && sub[k] == c;
                assert(sub[k] != c);
            }
        }
    }
    None
}

/// What a `major.minor` version reads as: two decimal bytes around the first `.`, each trimmed.
pub open spec fn version_spec(s: Seq<char>) -> Option<(nat, nat)> {
    let t = trim(s);
    match crate::parse::first_of(t, '.') {
        None => None,
        Some(i) => match (parse_unsigned(trim(t.take(i)), 10, 255), parse_unsigned(trim(t.skip(i + 1)), 10, 255)) {
            (Some(a), Some(b)) => Some((a, b)),
            _ => None,
        },
    }
}

/// A `major.minor` version.
#[verifier::rlimit(40)]
pub fn parse_version(s: &str) -> (r: Option<(u8, u8)>)
    ensures
        r == match version_spec(s@) {
            Some((a, b)) => Some((a as u8, b as u8)),
            None => None::<(u8, u8)>,
        },
{
    let cs = chars_of(s);
    let n = cs.len();
    proof { assert(cs@.subrange(0, n as int) =~= cs@); }
    let (a, b) = trim_bounds(cs.as_slice(), 0, n);
    let ghost t = cs@.subrange(a as int, b as int);
    match find_char_in(cs.as_slice(), a, b, '.') {
        None => None,
        Some(p) => {
            proof {
                assert(t.take(p - a) =~= cs@.subrange(a as int, p as int));
                assert(t.skip(p - a + 1) =~= cs@.subrange(p + 1, b as int));
            }
            let (a1, b1) = trim_bounds(cs.as_slice(), a, p);
            let (a2, b2) = trim_bounds(cs.as_slice(), p + 1, b);
            let major = parse_unsigned_range(cs.as_slice(), a1, b1, 10, 255);
            let minor = parse_unsigned_range(cs.as_slice(), a2, b2, 10, 255);
            proof {
                let i = p - a;
                assert(trim(s@) == t);
                assert(crate::parse::first_of(t, '.') == Some(i));
                assert(trim(t.take(i)) == cs@.subrange(a1 as int, b1 as int));
                assert(trim(t.skip(i + 1)) == cs@.subrange(a2 as int, b2 as int));
            }
            match (major, minor) {
                (Some(x), Some(y)) => Some((x as u8, y as u8)),
                _ => None,
            }
        },
    }
}

/// The `{:?}` notation of a string: quoted, with escapes.
pub uninterp spec fn debug_str(s: Seq<char>) -> Seq<char>;

/// Quote a string as `{:?}` does (`<str as Debug>::fmt`); the result is named [`debug_str`].
#[verifier::external_body]
pub(crate) fn debug_quoted(s: &str) -> (r: String)
    ensures
        r@ == debug_str(s@),
{
    format!("{s:?}")
}

/// The address that the base of `--at` names: a region keyword or a number.
pub open spec fn at_base_spec(base: Seq<char>) -> Result<nat, Seq<char>> {
    let t = trim(base);
    if t == "code"@ || t == "flash"@ {
        Ok(0x0800_0000)
    } else if t == "ram"@ {
        Ok(0x2000_0000)
    } else if t == "option"@ {
        Ok(0x1FFF_F800)
    } else {
        match u32_addr_spec(t) {
            Some(v) => Ok(v),
            None => Err("bad address "@ + debug_str(t)),
        }
    }
}

/// What `--at` reads as: a raw address, or `code|flash|ram|option` followed by an optional
/// `+offset`; the sum wraps at 32 bits.
pub open spec fn at_spec(s: Seq<char>) -> Result<nat, Seq<char>> {
    let (base, off) = match crate::parse::first_of(s, '+') {
        Some(i) => (s.take(i), Some(s.skip(i + 1))),
        None => (s, None::<Seq<char>>),
    };
    match at_base_spec(base) {
        Err(m) => Err(m),
        Ok(b) => match off {
            None => Ok(b),
            Some(o) => match u32_addr_spec(o) {
                Some(v) => Ok((b + v) % 0x1_0000_0000),
                None => Err("bad offset "@ + debug_str(o)),
            },
        },
    }
}

fn at_base(cs: &[char], from: usize, to: usize) -> (r: Result<u32, String>)
    requires
        from <= to <= cs@.len(),
    ensures
        match at_base_spec(cs@.subrange(from as int, to as int)) {
            Ok(v) => r == Ok::<u32, String>(v as u32),
            Err(m) => r matches Err(e) && e@ == m,
        },
{
    let (a, b) = trim_bounds(cs, from, to);
    let t = string_range(cs, a, b);
    let tc = chars_of(t.as_str());
    if eq_str(tc.as_slice(), "code") || eq_str(tc.as_slice(), "flash") {
        Ok(0x0800_0000)
    } else if eq_str(tc.as_slice(), "ram") {
        Ok(0x2000_0000)
    } else if eq_str(tc.as_slice(), "option") {
        Ok(0x1FFF_F800)
    } else {
        proof { assert(tc@.subrange(0, tc@.len() as int) =~= tc@); }
        match addr_of_chars(tc.as_slice(), 0, tc.len()) {
            Some(v) => Ok(v),
            None => {
                let mut v: Vec<char> = Vec::new();
                push_str(&mut v, "bad address ");
                let q = debug_quoted(t.as_str());
                push_str(&mut v, q.as_str());
                Err(string_of(v.as_slice()))
            },
        }
    }
}

/// Parse `--at`: a raw address, or `code[+off]` / `ram[+off]` (and `flash`, `option`).
pub fn parse_at(s: &str) -> (r: Result<u32, String>)
    ensures
        match at_spec(s@) {
            Ok(v) => r == Ok::<u32, String>(v as u32),
            Err(m) => r matches Err(e) && e@ == m,
        },
{
    let cs = chars_of(s);
    let n = cs.len();
    match find_char(cs.as_slice(), '+') {
        Some(p) => {
            proof {
                assert(cs@.subrange(0, p as int) =~= cs@.take(p as int));
            }
            let base = at_base(cs.as_slice(), 0, p)?;
            let o = string_range(cs.as_slice(), p + 1, n);
            proof { assert(o@ =~= s@.skip(p + 1)); }
            match parse_u32(o.as_str()) {
                Some(off) => Ok(base.wrapping_add(off)),
                None => {
                    let mut v: Vec<char> = Vec::new();
                    push_str(&mut v, "bad offset ");
                    let q = debug_quoted(o.as_str());
                    push_str(&mut v, q.as_str());
                    Err(string_of(v.as_slice()))
                },
            }
        },
        None => {
            proof { assert(cs@.subrange(0, n as int) =~= cs@); }
            at_base(cs.as_slice(), 0, n)
        },
    }
}

/// `s` without every leading `0x` (as `trim_start_matches("0x")` leaves it).
pub open spec fn strip_0x(s: Seq<char>) -> Seq<char>
    decreases s.len(),
{
    if s.len() >= 2 && s[0] == '0' && s[1] == 'x' {
        strip_0x(s.skip(2))
    } else {
        s
    }
}

/// What a `VID:PID` pair (hex, each with optional `0x`) reads as, or why it is rejected.
pub open spec fn usb_id_spec(v: Seq<char>) -> Result<(nat, nat), Seq<char>> {
    match crate::parse::first_of(v, ':') {
        None => Err("invalid USB ID `"@ + v + "`"@),
        Some(i) => if crate::parse::first_of(v.skip(i + 1), ':') is Some {
            Err("invalid USB ID `"@ + v + "`"@)
        } else {
            match parse_unsigned(strip_0x(v.take(i)), 16, 0xffff) {
                None => Err("invalid VID in `"@ + v + "`"@),
                Some(a) => match parse_unsigned(strip_0x(v.skip(i + 1)), 16, 0xffff) {
                    None => Err("invalid PID in `"@ + v + "`"@),
                    Some(b) => Ok((a, b)),
                },
            }
        },
    }
}

/// Skip every leading `0x` of `cs[from..to]`.
fn skip_0x(cs: &[char], from: usize, to: usize) -> (k: usize)
    requires
        from <= to <= cs@.len(),
    ensures
        from <= k <= to,
        strip_0x(cs@.subrange(from as int, to as int)) == cs@.subrange(k as int, to as int),
{
    let mut k = from;
    while k < to && to - k >= 2 && cs[k] == '0' && cs[k + 1] == 'x'
        invariant
            from <= k <= to,
            to <= cs@.len(),
            strip_0x(cs@.subrange(from as int, to as int)) == strip_0x(cs@.subrange(k as int, to as int)),
        decreases to - k,
    {
        proof { assert(cs@.subrange(k as int, to as int).skip(2) =~= cs@.subrange(k + 2, to as int)); }
        k = k + 2;
    }
    k
}

fn usb_id_msg(head: &str, value: &str) -> (m: String)
    ensures
        m@ == head@ + value@ + "`"@,
{
    let mut v: Vec<char> = Vec::new();
    push_str(&mut v, head);
    push_str(&mut v, value);
    push_str(&mut v, "`");
    string_of(v.as_slice())
}

/// A USB `VID:PID` pair in hex, each part with an optional `0x`.
pub fn parse_usb_id(value: &str) -> (r: Result<(u16, u16), String>)
    ensures
        match usb_id_spec(value@) {
            Ok((a, b)) => r == Ok::<(u16, u16), String>((a as u16, b as u16)),
            Err(m) => r matches Err(e) && e@ == m,
        },
{
    let cs = chars_of(value);
    let n = cs.len();
    let p = match find_char(cs.as_slice(), ':') {
        Some(p) => p,
        None => return Err(usb_id_msg("invalid USB ID `", value)),
    };
    proof {
        assert(cs@.subrange(p + 1, n as int) =~= value@.skip(p + 1));
        assert(cs@.subrange(0, p as int) =~= value@.take(p as int));
    }
    match find_char_in(cs.as_slice(), p + 1, n, ':') {
        Some(_) => return Err(usb_id_msg("invalid USB ID `", value)),
        None => {},
    }
    let k = skip_0x(cs.as_slice(), 0, p);
    let vid = match parse_unsigned_range(cs.as_slice(), k, p, 16, 0xffff) {
        Some(v) => v,
        None => return Err(usb_id_msg("invalid VID in `", value)),
    };
    let k2 = skip_0x(cs.as_slice(), p + 1, n);
    let pid = match parse_unsigned_range(cs.as_slice(), k2, n, 16, 0xffff) {
        Some(v) => v,
        None => return Err(usb_id_msg("invalid PID in `", value)),
    };
    Ok((vid as u16, pid as u16))
}

/// A register name of `dbg reg`: `x0`..`x31`, `pc`/`dpc`, `csr:<addr>`, or one of the common
/// CSR names; letters in any case, surrounding whitespace ignored.
pub open spec fn reg_name_spec(name: Seq<char>) -> Option<RegName> {
    let n = lower(trim(name));
    if n == "pc"@ || n == "dpc"@ {
        Some(RegName::Pc)
    } else if n.len() > 0 && n[0] == 'x' {
        match parse_unsigned(n.skip(1), 10, 255) {
            Some(v) => if v < 32 { Some(RegName::Gpr(v as u8)) } else { None },
            None => None,
        }
    } else if n.len() >= 4 && n.take(4) == seq!['c', 's', 'r', ':'] {
        match u32_addr_spec(n.skip(4)) {
            Some(v) => if v <= 0xffff { Some(RegName::Csr(v as u16)) } else { None },
            None => None,
        }
    } else if n == "mstatus"@ {
        Some(RegName::Csr(0x300))
    } else if n == "misa"@ {
        Some(RegName::Csr(0x301))
    } else if n == "mepc"@ {
        Some(RegName::Csr(0x341))
    } else if n == "mcause"@ {
        Some(RegName::Csr(0x342))
    } else if n == "mtval"@ {
        Some(RegName::Csr(0x343))
    } else if n == "dcsr"@ {
        Some(RegName::Csr(0x7b0))
    } else if n == "mvendorid"@ {
        Some(RegName::Csr(0xf11))
    } else if n == "marchid"@ {
        Some(RegName::Csr(0xf12))
    } else {
        None
    }
}

/// Parse a register name for `dbg reg`.
pub fn parse_reg_name(name: &str) -> (r: Option<RegName>)
    ensures
        r == reg_name_spec(name@),
{
    let cs = chars_of(name);
    let n = cs.len();
    proof { assert(cs@.subrange(0, n as int) =~= cs@); }
    let (a, b) = trim_bounds(cs.as_slice(), 0, n);
    let mut t: Vec<char> = Vec::new();
    let mut k = a;
    while k < b
        invariant
            a <= k <= b,
            b <= cs@.len(),
            t@ == lower(cs@.subrange(a as int, k as int)),
        decreases b - k,
    {
        t.push(to_ascii_lower(cs[k]));
        proof { assert(t@ =~= lower(cs@.subrange(a as int, k + 1))); }
        k = k + 1;
    }
    let m = t.len();
    if eq_str(t.as_slice(), "pc") || eq_str(t.as_slice(), "dpc") {
        return Some(RegName::Pc);
    }
    if m > 0 && t[0] == 'x' {
        proof { assert(t@.subrange(1, m as int) =~= t@.skip(1)); }
        return match parse_unsigned_range(t.as_slice(), 1, m, 10, 255) {
            Some(v) => if v < 32 { Some(RegName::Gpr(v as u8)) } else { None },
            None => None,
        };
    }
    if m >= 4 && t[0] == 'c' && t[1] == 's' && t[2] == 'r' && t[3] == ':' {
        proof {
            assert(t@.take(4) =~= seq!['c', 's', 'r', ':']);
            assert(t@.subrange(4, m as int) =~= t@.skip(4));
        }
        return match addr_of_chars(t.as_slice(), 4, m) {
            Some(v) => if v <= 0xffff { Some(RegName::Csr(v as u16)) } else { None },
            None => None,
        };
    }
    proof {
        if m >= 4 && t@.take(4) == seq!['c', 's', 'r', ':'] {
            assert(t@.take(4)[0] == 'c');
        }
    }
    let csr: u16 = if eq_str(t.as_slice(), "mstatus") {
        0x300
    } else if eq_str(t.as_slice(), "misa") {
        0x301
    } else if eq_str(t.as_slice(), "mepc") {
        0x341
    } else if eq_str(t.as_slice(), "mcause") {
        0x342
    } else if eq_str(t.as_slice(), "mtval") {
        0x343
    } else if eq_str(t.as_slice(), "dcsr") {
        0x7b0
    } else if eq_str(t.as_slice(), "mvendorid") {
        0xf11
    } else if eq_str(t.as_slice(), "marchid") {
        0xf12
    } else {
        return None;
    };
    Some(RegName::Csr(csr))
}

/// What the source of `write` names: literal bytes, or a file to read.
#[derive(Debug, Clone, PartialEq, Eq)]
pub enum SourceSpec {
    Bytes(Vec<u8>),
    File,
}

/// The bytes that the even-length hex digits `c` spell, two digits each.
pub open spec fn hex_pairs(c: Seq<char>) -> Seq<u8> {
    Seq::new(c.len() / 2, |i: int| (crate::ihex::hex_val(c[2 * i])->0 * 16 + crate::ihex::hex_val(c[2 * i + 1])->0) as u8)
}

/// The little-endian bytes of a word.
pub open spec fn word_le(v: u32) -> Seq<u8> {
    seq![(v % 0x100) as u8, ((v / 0x100) % 0x100) as u8, ((v / 0x10000) % 0x100) as u8, (v / 0x1000000) as u8]
}

/// What a `write` source reads as: `word:<u32>` as its four little-endian bytes, `hex:<bytes>`
/// as the bytes its hex digits spell (whitespace, `:` and `_` ignored; an even count needed),
/// anything else as a file name.
pub open spec fn source_spec(s: Seq<char>) -> Result<Option<Seq<u8>>, Seq<char>> {
    if s.len() >= 5 && s.take(5) == seq!['w', 'o', 'r', 'd', ':'] {
        match u32_addr_spec(s.skip(5)) {
            Some(v) => Ok(Some(word_le(v as u32))),
            None => Err("bad word "@ + debug_str(s.skip(5))),
        }
    } else if s.len() >= 4 && s.take(4) == seq!['h', 'e', 'x', ':'] {
        let c = crate::optbytes::cleaned(s.skip(4));
        if !(forall|i: int| 0 <= i < c.len() ==> crate::optbytes::is_hex_char(#[trigger] c[i])) || c.len() % 2 != 0 {
            Err("bad hex "@ + debug_str(s.skip(4)) + " (need an even count of hex digits)"@)
        } else {
            Ok(Some(hex_pairs(c)))
        }
    } else {
        Ok(None)
    }
}

/// Parse the `<file> | hex:<bytes> | word:<u32>` source of `write`; a file is named, not read.
pub fn parse_source(s: &str) -> (r: Result<SourceSpec, String>)
    ensures
        match source_spec(s@) {
            Ok(Some(b)) => r matches Ok(SourceSpec::Bytes(v)) && v@ == b,
            Ok(None) => r matches Ok(SourceSpec::File),
            Err(m) => r matches Err(e) && e@ == m,
        },
{
    let cs = chars_of(s);
    let n = cs.len();
    if n >= 5 && cs[0] == 'w' && cs[1] == 'o' && cs[2] == 'r' && cs[3] == 'd' && cs[4] == ':' {
        proof {
            assert(cs@.take(5) =~= seq!['w', 'o', 'r', 'd', ':']);
        }
        let w = string_range(cs.as_slice(), 5, n);
        proof { assert(w@ =~= s@.skip(5)); }
        return match parse_u32(w.as_str()) {
            Some(v) => {
                let mut out: Vec<u8> = Vec::new();
                out.push((v % 0x100) as u8);
                out.push(((v / 0x100) % 0x100) as u8);
                out.push(((v / 0x10000) % 0x100) as u8);
                out.push((v / 0x1000000) as u8);
                proof { assert(out@ =~= word_le(v)); }
                Ok(SourceSpec::Bytes(out))
            },
            None => {
                let mut m: Vec<char> = Vec::new();
                push_str(&mut m, "bad word ");
                let q = debug_quoted(w.as_str());
                push_str(&mut m, q.as_str());
                Err(string_of(m.as_slice()))
            },
        };
    }
    proof {
        if s@.len() >= 5 && s@.take(5) == seq!['w', 'o', 'r', 'd', ':'] {
            assert(s@.take(5)[0] == 'w');
        }
    }
    if n >= 4 && cs[0] == 'h' && cs[1] == 'e' && cs[2] == 'x' && cs[3] == ':' {
        proof {
            assert(cs@.take(4) =~= seq!['h', 'e', 'x', ':']);
        }
        let h = string_range(cs.as_slice(), 4, n);
        proof { assert(h@ =~= s@.skip(4)); }
        let hc = chars_of(h.as_str());
        let mut clean: Vec<char> = Vec::new();
        let mut k: usize = 0;
        while k < hc.len()
            invariant
                k <= hc@.len(),
                clean@ == crate::optbytes::cleaned(hc@.take(k as int)),
            decreases hc@.len() - k,
        {
            proof { assert(hc@.take(k + 1).drop_last() =~= hc@.take(k as int)); }
            let c = hc[k];
            if !crate::text::is_whitespace(c) && c != ':' && c != '_' {
                let ghost before = clean@;
                clean.push(c);
                proof { assert(clean@.drop_last() =~= before); }
            }
            k = k + 1;
        }
        proof { assert(hc@.take(k as int) =~= hc@); }
        let mut all_hex = true;
        let mut i: usize = 0;
        while i < clean.len()
            invariant
                i <= clean@.len(),
                all_hex <==> forall|j: int| 0 <= j < i ==> crate::optbytes::is_hex_char(#[trigger] clean@[j]),
            decreases clean@.len() - i,
        {
            if crate::ihex::hex_value(clean[i]).is_none() {
                all_hex = false;
            }
            i = i + 1;
        }
        if !all_hex || clean.len() % 2 != 0 {
            let mut m: Vec<char> = Vec::new();
            push_str(&mut m, "bad hex ");
            let q = debug_quoted(h.as_str());
            push_str(&mut m, q.as_str());
            push_str(&mut m, " (need an even count of hex digits)");
            return Err(string_of(m.as_slice()));
        }
        let half = clean.len() / 2;
        let mut out: Vec<u8> = Vec::new();
        let mut j: usize = 0;
        while j < half
            invariant
                j <= half,
                half == clean@.len() / 2,
                clean@.len() % 2 == 0,
                clean@.len() == clean.len(),
                forall|q: int| 0 <= q < clean@.len() ==> crate::optbytes::is_hex_char(#[trigger] clean@[q]),
                out@ =~= hex_pairs(clean@).take(j as int),
            decreases half - j,
        {
            assert(crate::optbytes::is_hex_char(clean@[2 * j as int]));
            assert(crate::optbytes::is_hex_char(clean@[2 * j + 1]));
            let hi = crate::ihex::hex_value(clean[2 * j]).unwrap();
            let lo = crate::ihex::hex_value(clean[2 * j + 1]).unwrap();
            out.push(hi * 16 + lo);
            proof { assert(out@ =~= hex_pairs(clean@).take(j + 1)); }
            j = j + 1;
        }
        proof { assert(hex_pairs(clean@).take(j as int) =~= hex_pairs(clean@)); }
        return Ok(SourceSpec::Bytes(out));
    }
    proof {
        if s@.len() >= 4 && s@.take(4) == seq!['h', 'e', 'x', ':'] {
            assert(s@.take(4)[0] == 'h');
        }
    }
    Ok(SourceSpec::File)
}

} // verus!
