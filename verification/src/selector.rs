//! Probe selectors:
//!
//! ```text
//! VID:PID[:SERIAL]      canonical, e.g. 1a86:8010:434A124C5596
//! serial:<sn>           select by serial only
//! name:<alias>          alias from the config file
//! usb:<bus>-<ports>     USB topology (physical port on a fixed hub)
//! index:<n>             enumeration order (discouraged)
//! ```

use vstd::prelude::*;

use crate::text::{chars_of, push_str, string_of};

verus! {

/// A parsed selector; matching it against real devices is the enumeration layer's job.
#[derive(Debug, Clone, PartialEq, Eq)]
pub enum Selector {
    /// `VID:PID[:SERIAL]`
    UsbId { vid: u16, pid: u16, serial: SerialFilter },
    /// `serial:<sn>`
    Serial(String),
    /// `name:<alias>` (resolved through the config file)
    Name(String),
    /// `usb:<bus>-<ports>` (e.g. `3-1.4.2`)
    Topology(String),
    /// `index:<n>`
    Index(usize),
}

/// Meaning of the third field of `VID:PID[:SERIAL]`.
#[derive(Debug, Clone, PartialEq, Eq)]
pub enum SerialFilter {
    /// Field omitted (`VID:PID`): ignore the serial.
    Any,
    /// Empty field (`VID:PID:`): only devices without a serial.
    NoSerial,
    /// Exact match; colons inside the serial are allowed.
    Exact(String),
}

/// Why a selector could not be parsed.
#[derive(Debug, Clone, PartialEq, Eq)]
pub enum SelectorParseError {
    Empty,
    InvalidHex { field: &'static str, value: String },
    InvalidIndex(String),
    EmptyValue(&'static str),
    Unrecognized(String),
}

impl SelectorParseError {
    /// How the error reads in a message.
    pub open spec fn text(&self) -> Seq<char> {
        match self {
            SelectorParseError::Empty => "empty selector"@,
            SelectorParseError::InvalidHex { field, value } => "invalid hex in `"@ + field@ + "`: `"@ + value@ + "`"@,
            SelectorParseError::InvalidIndex(v) => "invalid index: `"@ + v@ + "`"@,
            SelectorParseError::EmptyValue(k) => "empty value after `"@ + k@ + ":`"@,
            SelectorParseError::Unrecognized(v) => "unrecognized selector `"@ + v@
                + "` (expected VID:PID[:SERIAL], serial:<sn>, name:<alias>, usb:<bus>-<ports>, or index:<n>)"@,
        }
    }

    pub fn message(&self) -> (s: String)
        ensures
            s@ == self.text(),
    {
        let mut v: Vec<char> = Vec::new();
        match self {
            SelectorParseError::Empty => push_str(&mut v, "empty selector"),
            SelectorParseError::InvalidHex { field, value } => {
                push_str(&mut v, "invalid hex in `");
                push_str(&mut v, field);
                push_str(&mut v, "`: `");
                push_str(&mut v, value.as_str());
                push_str(&mut v, "`");
            },
            SelectorParseError::InvalidIndex(x) => {
                push_str(&mut v, "invalid index: `");
                push_str(&mut v, x.as_str());
                push_str(&mut v, "`");
            },
            SelectorParseError::EmptyValue(k) => {
                push_str(&mut v, "empty value after `");
                push_str(&mut v, k);
                push_str(&mut v, ":`");
            },
            SelectorParseError::Unrecognized(x) => {
                push_str(&mut v, "unrecognized selector `");
                push_str(&mut v, x.as_str());
                push_str(&mut v, "` (expected VID:PID[:SERIAL], serial:<sn>, name:<alias>, usb:<bus>-<ports>, or index:<n>)");
            },
        }
        string_of(v.as_slice())
    }
}

/// `s` begins with `p`.
pub open spec fn has_prefix(s: Seq<char>, p: Seq<char>) -> bool {
    p.len() <= s.len() && s.take(p.len() as int) == p
}

/// The value of a hexadecimal digit.
pub open spec fn hex_digit_val(c: char) -> Option<nat> {
    let v = c as u32;
    if 0x30 <= v <= 0x39 {
        Some((v - 0x30) as nat)
    } else if 0x61 <= v <= 0x66 {
        Some((v - 0x57) as nat)
    } else if 0x41 <= v <= 0x46 {
        Some((v - 0x37) as nat)
    } else {
        None
    }
}

/// The value of a decimal digit.
pub open spec fn dec_digit_val(c: char) -> Option<nat> {
    let v = c as u32;
    if 0x30 <= v <= 0x39 { Some((v - 0x30) as nat) } else { None }
}

/// The number that the digits `ds` spell in `radix` (no sign), if all are digits.
pub open spec fn digits_value(ds: Seq<char>, radix: nat) -> Option<nat>
    decreases ds.len(),
{
    if ds.len() == 0 {
        Some(0)
    } else {
        let d = if radix == 16 { hex_digit_val(ds.last()) } else { dec_digit_val(ds.last()) };
        match (digits_value(ds.drop_last(), radix), d) {
            (Some(v), Some(x)) => Some(v * radix + x),
            _ => None,
        }
    }
}

/// What `from_str_radix` reads for an unsigned type of bound `max`: an optional `+`, then at
/// least one digit, the value at most `max`.
pub open spec fn parse_unsigned(s: Seq<char>, radix: nat, max: nat) -> Option<nat> {
    let ds = if s.len() > 0 && s[0] == '+' { s.skip(1) } else { s };
    if ds.len() == 0 {
        None
    } else {
        match digits_value(ds, radix) {
            Some(v) => if v <= max { Some(v) } else { None },
            None => None,
        }
    }
}

/// Read `cs[from..to]` as an unsigned number in `radix` (16 or 10) no larger than `max`.
pub fn parse_unsigned_range(cs: &[char], from: usize, to: usize, radix: u64, max: u64) -> (r: Option<u64>)
    requires
        from <= to <= cs@.len(),
        radix == 16 || radix == 10,
    ensures
        r == match parse_unsigned(cs@.subrange(from as int, to as int), radix as nat, max as nat) {
            Some(v) => Some(v as u64),
            None => None::<u64>,
        },
{
    let ghost s = cs@.subrange(from as int, to as int);
    let mut i = from;
    if i < to && cs[i] == '+' {
        i = i + 1;
    }
    let ghost ds = cs@.subrange(i as int, to as int);
    proof {
        if from < to && cs@[from as int] == '+' {
            assert(s.skip(1) =~= ds);
        } else {
            assert(s =~= ds);
        }
    }
    if i == to {
        return None;
    }
    let start = i;
    let mut acc: u64 = 0;
    proof { assert(cs@.subrange(start as int, start as int) =~= Seq::<char>::empty()); }
    while i < to
        invariant
            from <= start <= i <= to,
            s == cs@.subrange(from as int, to as int),
            ds.len() > 0,
            parse_unsigned(s, radix as nat, max as nat) == match digits_value(ds, radix as nat) {
                Some(v) => if v <= max { Some(v) } else { None::<nat> },
                None => None::<nat>,
            },
            to <= cs@.len(),
            radix == 16 || radix == 10,
            ds == cs@.subrange(start as int, to as int),
            digits_value(cs@.subrange(start as int, i as int), radix as nat) == Some(acc as nat),
            acc <= max,
        decreases to - i,
    {
        let c = cs[i];
        let v = c as u32;
        let d: u64 = if 0x30 <= v && v <= 0x39 {
            (v - 0x30) as u64
        } else if radix == 16 && 0x61 <= v && v <= 0x66 {
            (v - 0x57) as u64
        } else if radix == 16 && 0x41 <= v && v <= 0x46 {
            (v - 0x37) as u64
        } else {
            proof { lemma_digits_fail(cs@, start as int, i as int, to as int, radix as nat); }
            return None;
        };
        proof {
            assert(cs@.subrange(start as int, i + 1).drop_last() =~= cs@.subrange(start as int, i as int));
        }
        if d > max {
            proof { lemma_digits_too_big(cs@, start as int, i as int, to as int, radix as nat, acc as nat, d as nat, max as nat); }
            return None;
        }
        let q = (max - d) / radix;
        if acc > q {
            proof { lemma_digits_too_big(cs@, start as int, i as int, to as int, radix as nat, acc as nat, d as nat, max as nat); }
            return None;
        }
        proof {
            vstd::arithmetic::div_mod::lemma_fundamental_div_mod((max - d) as int, radix as int);
            vstd::arithmetic::div_mod::lemma_mod_bound((max - d) as int, radix as int);
            assert(acc * radix + d <= max) by (nonlinear_arith)
                requires acc <= q, q * radix <= max - d, radix > 0, d <= max;
        }
        acc = acc * radix + d;
        i = i + 1;
    }
    Some(acc)
}

/// A non-digit makes the whole number unreadable.
proof fn lemma_digits_fail(cs: Seq<char>, start: int, i: int, to: int, radix: nat)
    requires
        0 <= start <= i < to <= cs.len(),
        radix == 16 || radix == 10,
        (if radix == 16 { hex_digit_val(cs[i]) } else { dec_digit_val(cs[i]) }) is None,
    ensures
        digits_value(cs.subrange(start, to), radix) is None,
    decreases to - i,
{
    if to == i + 1 {
        assert(cs.subrange(start, to).last() == cs[i]);
    } else {
        lemma_digits_fail(cs, start, i, to - 1, radix);
        assert(cs.subrange(start, to).drop_last() =~= cs.subrange(start, to - 1));
    }
}

/// Digit values only grow as digits are added.
proof fn lemma_digits_grow(cs: Seq<char>, start: int, i: int, to: int, radix: nat, v: nat)
    requires
        0 <= start <= i <= to <= cs.len(),
        radix == 16 || radix == 10,
        digits_value(cs.subrange(start, i), radix) == Some(v),
    ensures
        digits_value(cs.subrange(start, to), radix) matches Some(w) ==> w >= v,
    decreases to - i,
{
    if to > i {
        lemma_digits_grow(cs, start, i, to - 1, radix, v);
        assert(cs.subrange(start, to).drop_last() =~= cs.subrange(start, to - 1));
        match digits_value(cs.subrange(start, to - 1), radix) {
            Some(w0) => {
                assert(w0 * radix >= w0) by (nonlinear_arith) requires radix >= 1;
            }
            None => {}
        }
    } else {
        assert(cs.subrange(start, to) =~= cs.subrange(start, i));
    }
}

/// A prefix that already exceeds `max` makes the number too large.
proof fn lemma_digits_too_big(cs: Seq<char>, start: int, i: int, to: int, radix: nat, acc: nat, d: nat, max: nat)
    requires
        0 <= start <= i < to <= cs.len(),
        radix == 16 || radix == 10,
        digits_value(cs.subrange(start, i), radix) == Some(acc),
        (if radix == 16 { hex_digit_val(cs[i]) } else { dec_digit_val(cs[i]) }) == Some(d),
        d > max || acc > (max - d) / (radix as int),
    ensures
        digits_value(cs.subrange(start, to), radix) matches Some(w) ==> w > max,
{
    assert(cs.subrange(start, i + 1).drop_last() =~= cs.subrange(start, i));
    if d <= max {
        vstd::arithmetic::div_mod::lemma_fundamental_div_mod(max - d, radix as int);
        vstd::arithmetic::div_mod::lemma_mod_bound(max - d, radix as int);
        let q = (max - d) / (radix as int);
        assert(acc * radix + d > max) by (nonlinear_arith)
            requires radix > 0, acc > q, max - d == radix * q + (max - d) % (radix as int),
                (max - d) % (radix as int) < radix, d <= max;
    }
    lemma_digits_grow(cs, start, i + 1, to, radix, acc * radix + d);
}

/// The string made of `cs[from..to]`.
pub fn string_range(cs: &[char], from: usize, to: usize) -> (s: String)
    requires
        from <= to <= cs@.len(),
    ensures
        s@ == cs@.subrange(from as int, to as int),
{
    let mut v: Vec<char> = Vec::new();
    let mut k = from;
    while k < to
        invariant
            from <= k <= to,
            to <= cs@.len(),
            v@ == cs@.subrange(from as int, k as int),
        decreases to - k,
    {
        v.push(cs[k]);
        proof { assert(v@ =~= cs@.subrange(from as int, k + 1)); }
        k = k + 1;
    }
    string_of(v.as_slice())
}

/// The index of the first `':'` in `s` at or after `from`, if any.
pub open spec fn colon_from(s: Seq<char>, from: int) -> Option<int>
    decreases s.len() - from,
{
    if from >= s.len() || from < 0 {
        None
    } else if s[from] == ':' {
        Some(from)
    } else {
        colon_from(s, from + 1)
    }
}

fn find_colon(cs: &[char], from: usize) -> (r: Option<usize>)
    requires
        from <= cs@.len(),
    ensures
        r matches Some(i) ==> colon_from(cs@, from as int) == Some(i as int) && from <= i < cs@.len(),
        r is None ==> colon_from(cs@, from as int) is None,
{
    let mut i = from;
    while i < cs.len()
        invariant
            from <= i <= cs@.len(),
            colon_from(cs@, from as int) == colon_from(cs@, i as int),
        decreases cs@.len() - i,
    {
        if cs[i] == ':' {
            return Some(i);
        }
        i = i + 1;
    }
    None
}

/// What the keyword forms `kw:<value>` require: a non-empty value.
pub open spec fn keyword_ok(r: Result<Selector, SelectorParseError>, value: Seq<char>, kw: Seq<char>, wrap: int) -> bool {
    if value.len() == 0 {
        r matches Err(SelectorParseError::EmptyValue(k)) && k@ == kw
    } else {
        match r {
            Ok(Selector::Serial(v)) => wrap == 0 && v@ == value,
            Ok(Selector::Name(v)) => wrap == 1 && v@ == value,
            Ok(Selector::Topology(v)) => wrap == 2 && v@ == value,
            _ => false,
        }
    }
}

/// What the canonical form `VID:PID[:SERIAL]` gives.
pub open spec fn usb_id_ok(r: Result<Selector, SelectorParseError>, s: Seq<char>) -> bool {
    match colon_from(s, 0) {
        None => r matches Err(SelectorParseError::Unrecognized(v)) && v@ == s,
        Some(c1) => {
            let vid = s.take(c1);
            let c2 = colon_from(s, c1 + 1);
            let pid = match c2 { Some(c) => s.subrange(c1 + 1, c), None => s.skip(c1 + 1) };
            match (parse_unsigned(vid, 16, 0xffff), parse_unsigned(pid, 16, 0xffff)) {
                (None, _) => r matches Err(SelectorParseError::InvalidHex { field, value })
                    && field@ == "VID"@ && value@ == vid,
                (Some(_), None) => r matches Err(SelectorParseError::InvalidHex { field, value })
                    && field@ == "PID"@ && value@ == pid,
                (Some(v), Some(p)) => r matches Ok(Selector::UsbId { vid, pid, serial })
                    && vid == v && pid == p && match c2 {
                        None => serial is Any,
                        Some(c) => if c + 1 == s.len() {
                            serial is NoSerial
                        } else {
                            serial matches SerialFilter::Exact(sn) && sn@ == s.skip(c + 1)
                        },
                    },
            }
        },
    }
}

/// The result of parsing `s` as a selector.
pub open spec fn selector_ok(r: Result<Selector, SelectorParseError>, s: Seq<char>) -> bool {
    if s.len() == 0 {
        r matches Err(SelectorParseError::Empty)
    } else if has_prefix(s, "serial:"@) {
        keyword_ok(r, s.skip(7), "serial"@, 0)
    } else if has_prefix(s, "name:"@) {
        keyword_ok(r, s.skip(5), "name"@, 1)
    } else if has_prefix(s, "usb:"@) {
        keyword_ok(r, s.skip(4), "usb"@, 2)
    } else if has_prefix(s, "index:"@) {
        match parse_unsigned(s.skip(6), 10, usize::MAX as nat) {
            Some(n) => r matches Ok(Selector::Index(i)) && i == n,
            None => r matches Err(SelectorParseError::InvalidIndex(v)) && v@ == s.skip(6),
        }
    } else {
        usb_id_ok(r, s)
    }
}

/// `cs` begins with the characters of `p`.
fn starts_with(cs: &[char], p: &str) -> (r: bool)
    ensures
        r == has_prefix(cs@, p@),
{
    let pc = chars_of(p);
    if pc.len() > cs.len() {
        return false;
    }
    let mut i: usize = 0;
    while i < pc.len()
        invariant
            i <= pc@.len(),
            pc@.len() <= cs@.len(),
            pc@ == p@,
            forall|j: int| 0 <= j < i ==> cs@[j] == pc@[j],
        decreases pc@.len() - i,
    {
        if cs[i] != pc[i] {
            proof { assert(cs@.take(pc@.len() as int)[i as int] != pc@[i as int]); }
            return false;
        }
        i = i + 1;
    }
    proof { assert(cs@.take(pc@.len() as int) =~= pc@); }
    true
}

fn keyword_value(cs: &[char], from: usize, kw: &'static str) -> (r: Result<String, SelectorParseError>)
    requires
        from <= cs@.len(),
    ensures
        cs@.len() == from ==> (r matches Err(SelectorParseError::EmptyValue(k)) && k@ == kw@),
        cs@.len() > from ==> (r matches Ok(v) && v@ == cs@.skip(from as int)),
{
    if cs.len() == from {
        Err(SelectorParseError::EmptyValue(kw))
    } else {
        proof { assert(cs@.subrange(from as int, cs@.len() as int) =~= cs@.skip(from as int)); }
        Ok(string_range(cs, from, cs.len()))
    }
}

impl Selector {
    /// Parse a selector.
    pub fn parse(s: &str) -> (r: Result<Selector, SelectorParseError>)
        ensures
            selector_ok(r, s@),
    {
        let cs = chars_of(s);
        let n = cs.len();
        if n == 0 {
            return Err(SelectorParseError::Empty);
        }
        proof {
            reveal_strlit("serial:");
            reveal_strlit("name:");
            reveal_strlit("usb:");
            reveal_strlit("index:");
            reveal_strlit("serial");
            reveal_strlit("name");
            reveal_strlit("usb");
        }
        if starts_with(cs.as_slice(), "serial:") {
            return match keyword_value(cs.as_slice(), 7, "serial") {
                Ok(v) => Ok(Selector::Serial(v)),
                Err(e) => Err(e),
            };
        }
        if starts_with(cs.as_slice(), "name:") {
            return match keyword_value(cs.as_slice(), 5, "name") {
                Ok(v) => Ok(Selector::Name(v)),
                Err(e) => Err(e),
            };
        }
        if starts_with(cs.as_slice(), "usb:") {
            return match keyword_value(cs.as_slice(), 4, "usb") {
                Ok(v) => Ok(Selector::Topology(v)),
                Err(e) => Err(e),
            };
        }
        if starts_with(cs.as_slice(), "index:") {
            proof { assert(cs@.subrange(6, n as int) =~= cs@.skip(6)); }
            return match parse_unsigned_range(cs.as_slice(), 6, n, 10, usize::MAX as u64) {
                Some(v) => Ok(Selector::Index(v as usize)),
                None => Err(SelectorParseError::InvalidIndex(string_range(cs.as_slice(), 6, n))),
            };
        }
        proof { assert(cs@.subrange(0, n as int) =~= cs@); }
        let c1 = match find_colon(cs.as_slice(), 0) {
            Some(c) => c,
            None => { return Err(SelectorParseError::Unrecognized(string_range(cs.as_slice(), 0, n))); }
        };
        let c2 = find_colon(cs.as_slice(), c1 + 1);
        let pid_end = match c2 { Some(c) => c, None => n };
        proof {
            assert(cs@.subrange(0, c1 as int) =~= cs@.take(c1 as int));
            assert(cs@.subrange(0, n as int) =~= cs@);
            if c2.is_none() { assert(cs@.subrange(c1 + 1, n as int) =~= cs@.skip(c1 + 1)); }
        }
        let vid = match parse_unsigned_range(cs.as_slice(), 0, c1, 16, 0xffff) {
            Some(v) => v as u16,
            None => {
                let value = string_range(cs.as_slice(), 0, c1);
                return Err(SelectorParseError::InvalidHex { field: "VID", value: value });
            }
        };
        let pid = match parse_unsigned_range(cs.as_slice(), c1 + 1, pid_end, 16, 0xffff) {
            Some(v) => v as u16,
            None => {
                return Err(SelectorParseError::InvalidHex { field: "PID", value: string_range(cs.as_slice(), c1 + 1, pid_end) });
            }
        };
        let serial = match c2 {
            None => SerialFilter::Any,
            Some(c) => if c + 1 == n {
                SerialFilter::NoSerial
            } else {
                proof { assert(cs@.subrange(c + 1, n as int) =~= cs@.skip(c + 1)); }
                SerialFilter::Exact(string_range(cs.as_slice(), c + 1, n))
            },
        };
        Ok(Selector::UsbId { vid, pid, serial })
    }
}

impl core::str::FromStr for Selector {
    type Err = SelectorParseError;

    fn from_str(s: &str) -> (r: Result<Self, Self::Err>)
        ensures
            selector_ok(r, s@),
    {
        Selector::parse(s)
    }
}

} // verus!
