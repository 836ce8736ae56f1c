//! The 16 option bytes (RDPR, USER, Data0/1, WRPR0-3, each followed by its complement): the
//! plausibility gate for a read-back, the image that only clears read protection, the USER
//! byte of an option reset, the raw-write parser, and the recovery diagnosis built on them.

use vstd::prelude::*;

use crate::text::{chars_of, dec, hex2, is_ws, is_whitespace, push_dec, push_hex2, push_str, string_of};

verus! {

/// The image written when the current bytes cannot be read back: RDPR off, everything else
/// `0xff`, each with its complement.
pub fn blanket_factory() -> (b: [u8; 16])
    ensures
        b@ == seq![0xA5u8, 0x5A, 0xFF, 0x00, 0xFF, 0x00, 0xFF, 0x00, 0xFF, 0x00, 0xFF, 0x00, 0xFF, 0x00, 0xFF, 0x00],
{
    let b = [0xA5u8, 0x5A, 0xFF, 0x00, 0xFF, 0x00, 0xFF, 0x00, 0xFF, 0x00, 0xFF, 0x00, 0xFF, 0x00, 0xFF, 0x00];
    proof { assert(b@ =~= seq![0xA5u8, 0x5A, 0xFF, 0x00, 0xFF, 0x00, 0xFF, 0x00, 0xFF, 0x00, 0xFF, 0x00, 0xFF, 0x00, 0xFF, 0x00]); }
    b
}

/// The bytes look like real option bytes: RDPR and USER each agree with their complement.
/// Data and WRPR are not checked (CH32V103 ships those complements as `0xff`).
pub open spec fn plausible(raw: Seq<u8>) -> bool {
    raw[0] ^ raw[1] == 0xFF && raw[2] ^ raw[3] == 0xFF
}

pub fn option_bytes_plausible(raw: &[u8; 16]) -> (r: bool)
    ensures
        r == plausible(raw@),
{
    raw[0] ^ raw[1] == 0xFF && raw[2] ^ raw[3] == 0xFF
}

/// The image that clears read protection and changes nothing else: RDPR and its complement
/// replaced, USER, Data and WRPR kept as the part has them.
pub fn unprotect_image(current: &[u8; 16]) -> (img: [u8; 16])
    ensures
        img@ == current@.update(0, 0xA5).update(1, 0x5A),
{
    let mut img = *current;
    img[0] = 0xA5;
    img[1] = 0x5A;
    proof { assert(img@ =~= current@.update(0, 0xA5).update(1, 0x5A)); }
    img
}

/// One documented USER bit: its name, bit index and reset value.
#[derive(Debug, Clone)]
pub struct UserField {
    pub field: String,
    pub bit: u8,
    pub default: u8,
}

/// The USER byte after restoring the documented bits of `fields`, in order, to their reset
/// values; other bits keep `current`.
pub open spec fn reset_user(fields: Seq<UserField>, current: u8) -> u8
    decreases fields.len(),
{
    if fields.len() == 0 {
        current
    } else {
        let u = reset_user(fields.drop_last(), current);
        let f = fields.last();
        if f.bit < 8 {
            let mask = (1u8 << f.bit) as u8;
            if f.default == 0 { u & !mask } else { u | mask }
        } else {
            u
        }
    }
}

/// The USER byte of an option reset: every documented bit back to its reset value, every other
/// bit as the part has it (the multi-bit fields have no documented reset value to restore).
pub fn reset_user_byte(fields: &[UserField], current: u8) -> (u: u8)
    ensures
        u == reset_user(fields@, current),
{
    let mut user = current;
    let mut k: usize = 0;
    while k < fields.len()
        invariant
            k <= fields@.len(),
            user == reset_user(fields@.take(k as int), current),
        decreases fields@.len() - k,
    {
        proof { assert(fields@.take(k + 1).drop_last() =~= fields@.take(k as int)); }
        let f = &fields[k];
        if f.bit < 8 {
            let mask = 1u8 << f.bit;
            if f.default == 0 {
                user = user & !mask;
            } else {
                user = user | mask;
            }
        }
        k = k + 1;
    }
    proof { assert(fields@.take(k as int) =~= fields@); }
    user
}

/// A character kept by the raw-bytes parser: not whitespace, `:` or `_`.
pub open spec fn kept_char(c: char) -> bool {
    !is_ws(c) && c != ':' && c != '_'
}

/// The characters of `s` that the raw-bytes parser keeps.
pub open spec fn cleaned(s: Seq<char>) -> Seq<char>
    decreases s.len(),
{
    if s.len() == 0 {
        s
    } else if kept_char(s.last()) {
        cleaned(s.drop_last()).push(s.last())
    } else {
        cleaned(s.drop_last())
    }
}

/// The UTF-8 length of a character.
pub open spec fn utf8_len(c: char) -> nat {
    let v = c as u32;
    if v < 0x80 { 1 } else if v < 0x800 { 2 } else if v < 0x10000 { 3 } else { 4 }
}

/// The UTF-8 length of a string.
pub open spec fn utf8_size(s: Seq<char>) -> nat
    decreases s.len(),
{
    if s.len() == 0 { 0 } else { utf8_size(s.drop_last()) + utf8_len(s.last()) }
}

/// A hexadecimal digit.
pub open spec fn is_hex_char(c: char) -> bool {
    crate::ihex::hex_val(c) is Some
}

/// What `option write-raw` reads: exactly 32 hex digits (separators ignored), as 16 bytes.
pub open spec fn hex16_spec(s: Seq<char>) -> Result<Seq<u8>, Seq<char>> {
    let c = cleaned(s);
    if utf8_size(c) != 32 || !(forall|i: int| 0 <= i < c.len() ==> is_hex_char(#[trigger] c[i])) {
        Err("expected 16 hex bytes (32 hex digits), got "@ + dec(utf8_size(c)) + " digit(s)"@)
    } else {
        Ok(Seq::new(16, |i: int| (crate::ihex::hex_val(c[2 * i])->0 * 16 + crate::ihex::hex_val(c[2 * i + 1])->0) as u8))
    }
}

fn utf8_len_of(c: char) -> (n: usize)
    ensures
        n == utf8_len(c),
{
    let v = c as u32;
    if v < 0x80 { 1 } else if v < 0x800 { 2 } else if v < 0x10000 { 3 } else { 4 }
}

proof fn lemma_utf8_size_prefix(s: Seq<char>, k: int)
    requires
        0 <= k <= s.len(),
    ensures
        utf8_size(s.take(k)) <= utf8_size(s),
    decreases s.len(),
{
    if k < s.len() {
        assert(s.drop_last().take(k) =~= s.take(k));
        lemma_utf8_size_prefix(s.drop_last(), k);
    } else {
        assert(s.take(k) =~= s);
    }
}

proof fn lemma_utf8_size_ge(s: Seq<char>)
    ensures
        utf8_size(s) >= s.len(),
    decreases s.len(),
{
    if s.len() > 0 {
        lemma_utf8_size_ge(s.drop_last());
    }
}

/// Parse exactly 16 hex bytes, optionally separated by whitespace, `:` or `_`.
pub fn parse_hex16(s: &str) -> (r: Result<[u8; 16], String>)
    requires
        utf8_size(s@) <= usize::MAX,
    ensures
        match hex16_spec(s@) {
            Ok(b) => r matches Ok(a) && a@ == b,
            Err(m) => r matches Err(e) && e@ == m,
        },
{
    let cs = chars_of(s);
    let mut clean: Vec<char> = Vec::new();
    let mut size: usize = 0;
    let mut k: usize = 0;
    while k < cs.len()
        invariant
            k <= cs@.len(),
            cs@ == s@,
            clean@ == cleaned(cs@.take(k as int)),
            size == utf8_size(clean@),
            size <= utf8_size(cs@.take(k as int)),
            utf8_size(cs@) <= usize::MAX,
        decreases cs@.len() - k,
    {
        proof {
            assert(cs@.take(k + 1).drop_last() =~= cs@.take(k as int));
            lemma_utf8_size_prefix(cs@, k + 1);
        }
        let c = cs[k];
        if !is_whitespace(c) && c != ':' && c != '_' {
            let ghost before = clean@;
            clean.push(c);
            proof { assert(clean@.drop_last() =~= before); }
            size = size + utf8_len_of(c);
        }
        k = k + 1;
    }
    proof { assert(cs@.take(k as int) =~= cs@); }
    let mut all_hex = true;
    let mut i: usize = 0;
    while i < clean.len()
        invariant
            i <= clean@.len(),
            all_hex <==> forall|j: int| 0 <= j < i ==> is_hex_char(#[trigger] clean@[j]),
        decreases clean@.len() - i,
    {
        if crate::ihex::hex_value(clean[i]).is_none() {
            all_hex = false;
        }
        i = i + 1;
    }
    if size != 32 || !all_hex {
        let mut v: Vec<char> = Vec::new();
        push_str(&mut v, "expected 16 hex bytes (32 hex digits), got ");
        push_dec(&mut v, size as u64);
        push_str(&mut v, " digit(s)");
        return Err(string_of(v.as_slice()));
    }
    proof { lemma_utf8_size_ge(clean@); lemma_ascii_size(clean@); }
    let mut out = [0u8; 16];
    let mut j: usize = 0;
    while j < 16
        invariant
            j <= 16,
            clean@.len() == 32,
            forall|q: int| 0 <= q < 32 ==> is_hex_char(#[trigger] clean@[q]),
            forall|q: int| 0 <= q < j ==> #[trigger] out@[q] == (crate::ihex::hex_val(clean@[2 * q])->0 * 16
                + crate::ihex::hex_val(clean@[2 * q + 1])->0) as u8,
        decreases 16 - j,
    {
        assert(is_hex_char(clean@[2 * j as int]));
        assert(is_hex_char(clean@[2 * j + 1]));
        let h = crate::ihex::hex_value(clean[2 * j]).unwrap();
        let l = crate::ihex::hex_value(clean[2 * j + 1]).unwrap();
        out[j] = h * 16 + l;
        j = j + 1;
    }
    proof {
        assert(out@ =~= Seq::new(16, |i: int| (crate::ihex::hex_val(clean@[2 * i])->0 * 16 + crate::ihex::hex_val(clean@[2 * i + 1])->0) as u8));
    }
    Ok(out)
}

/// All-hex strings have one byte per character.
proof fn lemma_ascii_size(s: Seq<char>)
    requires
        forall|i: int| 0 <= i < s.len() ==> is_hex_char(#[trigger] s[i]),
    ensures
        utf8_size(s) == s.len(),
    decreases s.len(),
{
    if s.len() > 0 {
        assert forall|i: int| 0 <= i < s.drop_last().len() implies is_hex_char(#[trigger] s.drop_last()[i]) by {
            assert(s.drop_last()[i] == s[i]);
        }
        lemma_ascii_size(s.drop_last());
        assert(is_hex_char(s[s.len() - 1]));
    }
}

/// The lower-case hex of some bytes, two digits each.
pub fn hex(bytes: &[u8]) -> (s: String)
    ensures
        s@ == crate::usb::hex_bytes(bytes@),
{
    let mut v: Vec<char> = Vec::new();
    let mut k: usize = 0;
    while k < bytes.len()
        invariant
            k <= bytes@.len(),
            v@ == crate::usb::hex_bytes(bytes@.take(k as int)),
        decreases bytes@.len() - k,
    {
        proof { assert(bytes@.take(k + 1).drop_last() =~= bytes@.take(k as int)); }
        push_hex2(&mut v, bytes[k]);
        k = k + 1;
    }
    proof { assert(bytes@.take(k as int) =~= bytes@); }
    string_of(v.as_slice())
}

// ---- the recovery diagnosis ----

/// What the diagnosis found, most specific first.
#[derive(Debug, Clone, Copy, PartialEq, Eq, Structural)]
pub enum State {
    /// Attached, option bytes sane and at their documented defaults.
    Healthy,
    /// RDPR is not 0xA5: flash is read-protected (clearing it mass-erases).
    ReadProtected,
    /// Documented USER bits differ from their reset values.
    OptionNonstandard,
    /// The option bytes read back inconsistent or implausible.
    OptionUnreadable,
    /// Nothing answered on the debug pins, at any speed.
    Unreachable,
}

impl State {
    pub open spec fn name(self) -> Seq<char> {
        match self {
            State::Healthy => "healthy"@,
            State::ReadProtected => "read-protected"@,
            State::OptionNonstandard => "option-nonstandard"@,
            State::OptionUnreadable => "option-unreadable"@,
            State::Unreachable => "unreachable"@,
        }
    }

    pub fn as_str(self) -> (s: &'static str)
        ensures
            s@ == self.name(),
    {
        match self {
            State::Healthy => "healthy",
            State::ReadProtected => "read-protected",
            State::OptionNonstandard => "option-nonstandard",
            State::OptionUnreadable => "option-unreadable",
            State::Unreachable => "unreachable",
        }
    }
}

/// The recommended next step.
#[derive(Debug, Clone, Copy, PartialEq, Eq, Structural)]
pub enum Action {
    Nothing,
    Unprotect,
    OptionReset,
    PowerOff,
    /// Nothing can be done from here (unreachable behind a probe that cannot switch power).
    Manual,
}

impl Action {
    pub open spec fn name(self) -> Seq<char> {
        match self {
            Action::Nothing => "none"@,
            Action::Unprotect => "unprotect"@,
            Action::OptionReset => "option-reset"@,
            Action::PowerOff => "power-off"@,
            Action::Manual => "manual"@,
        }
    }

    pub fn as_str(self) -> (s: &'static str)
        ensures
            s@ == self.name(),
    {
        match self {
            Action::Nothing => "none",
            Action::Unprotect => "unprotect",
            Action::OptionReset => "option-reset",
            Action::PowerOff => "power-off",
            Action::Manual => "manual",
        }
    }
}

/// The state that two reads of the option bytes show, given the family's documented USER bits.
pub open spec fn classify_spec(fields: Seq<UserField>, first: Seq<u8>, second: Seq<u8>) -> State {
    if first != second {
        State::OptionUnreadable
    } else if first[0] != 0xA5 {
        State::ReadProtected
    } else if !plausible(first) {
        State::OptionUnreadable
    } else if reset_user(fields, first[2]) != first[2] {
        State::OptionNonstandard
    } else {
        State::Healthy
    }
}

/// Classify option bytes read twice. RDPR is looked at first: a protected part may not hand the
/// rest back, so its complement pairs are no evidence of anything.
pub fn classify(fields: &[UserField], first: &[u8; 16], second: &[u8; 16]) -> (s: State)
    ensures
        s == classify_spec(fields@, first@, second@),
{
    let mut i: usize = 0;
    while i < 16
        invariant
            i <= 16,
            forall|j: int| 0 <= j < i ==> first@[j] == second@[j],
        decreases 16 - i,
    {
        if first[i] != second[i] {
            return State::OptionUnreadable;
        }
        i = i + 1;
    }
    proof { assert(first@ =~= second@); }
    if first[0] != 0xA5 {
        return State::ReadProtected;
    }
    if !option_bytes_plausible(first) {
        return State::OptionUnreadable;
    }
    if reset_user_byte(fields, first[2]) != first[2] {
        return State::OptionNonstandard;
    }
    State::Healthy
}

/// The recommended action for a state.
pub open spec fn recommend_spec(state: State, power_capable: bool) -> Action {
    match state {
        State::Healthy => Action::Nothing,
        State::ReadProtected | State::OptionUnreadable => Action::Unprotect,
        State::OptionNonstandard => Action::OptionReset,
        State::Unreachable => if power_capable { Action::PowerOff } else { Action::Manual },
    }
}

pub fn recommend(state: State, power_capable: bool) -> (a: Action)
    ensures
        a == recommend_spec(state, power_capable),
{
    match state {
        State::Healthy => Action::Nothing,
        State::ReadProtected | State::OptionUnreadable => Action::Unprotect,
        State::OptionNonstandard => Action::OptionReset,
        State::Unreachable => if power_capable { Action::PowerOff } else { Action::Manual },
    }
}

/// Clearing read protection yields option bytes that pass the plausibility gate and read as
/// unprotected exactly when the USER pair already agreed.
pub proof fn lemma_unprotect_is_plausible(current: Seq<u8>)
    requires
        current.len() == 16,
    ensures
        current.update(0, 0xA5).update(1, 0x5A)[0] == 0xA5,
        plausible(current.update(0, 0xA5).update(1, 0x5A)) <==> plausible(current.update(0, 0x00).update(1, 0xFF)),
        forall|i: int| 2 <= i < 16 ==> #[trigger] current.update(0, 0xA5).update(1, 0x5A)[i] == current[i],
{
    assert(0xA5u8 ^ 0x5Au8 == 0xFF) by (bit_vector);
    assert(0x00u8 ^ 0xFFu8 == 0xFF) by (bit_vector);
}

/// A diagnosis never recommends nothing for a state that keeps the target from a normal flash,
/// and always recommends nothing for a healthy one.
pub proof fn lemma_recommend_total(state: State, power_capable: bool)
    ensures
        (recommend_spec(state, power_capable) == Action::Nothing) <==> state == State::Healthy,
{
}

proof fn lemma_hex_bytes_index(b: Seq<u8>)
    ensures
        crate::usb::hex_bytes(b).len() == 2 * b.len(),
        forall|i: int| 0 <= i < b.len() ==> crate::usb::hex_bytes(b)[2 * i] == hex2(#[trigger] b[i])[0]
            && crate::usb::hex_bytes(b)[2 * i + 1] == hex2(b[i])[1],
    decreases b.len(),
{
    if b.len() > 0 {
        lemma_hex_bytes_index(b.drop_last());
        let h = crate::usb::hex_bytes(b);
        let p = crate::usb::hex_bytes(b.drop_last());
        assert(h == p + hex2(b.last()));
        assert forall|i: int| 0 <= i < b.len() implies h[2 * i] == hex2(#[trigger] b[i])[0]
            && h[2 * i + 1] == hex2(b[i])[1] by {
            if i < b.len() - 1 {
                assert(b.drop_last()[i] == b[i]);
                assert(p[2 * i] == hex2(b[i])[0]);
                assert(p[2 * i + 1] == hex2(b[i])[1]);
                assert(h[2 * i] == p[2 * i]);
                assert(h[2 * i + 1] == p[2 * i + 1]);
            } else {
                assert(i == b.len() - 1);
                assert(h[2 * i] == hex2(b.last())[0]);
                assert(h[2 * i + 1] == hex2(b.last())[1]);
            }
        }
    }
}

proof fn lemma_cleaned_keeps_all(s: Seq<char>)
    requires
        forall|i: int| 0 <= i < s.len() ==> kept_char(#[trigger] s[i]),
    ensures
        cleaned(s) == s,
    decreases s.len(),
{
    if s.len() > 0 {
        assert forall|i: int| 0 <= i < s.drop_last().len() implies kept_char(#[trigger] s.drop_last()[i]) by {
            assert(s.drop_last()[i] == s[i]);
        }
        lemma_cleaned_keeps_all(s.drop_last());
        assert(kept_char(s[s.len() - 1]));
        assert(s.drop_last().push(s.last()) =~= s);
    }
}

/// What `hex` writes, `option write-raw` reads back: the hex of any 16 option bytes parses to
/// exactly those bytes.
pub proof fn lemma_hex16_roundtrip(b: Seq<u8>)
    requires
        b.len() == 16,
    ensures
        hex16_spec(crate::usb::hex_bytes(b)) == Ok::<Seq<u8>, Seq<char>>(b),
{
    let h = crate::usb::hex_bytes(b);
    lemma_hex_bytes_index(b);
    assert forall|q: int| 0 <= q < h.len() implies is_hex_char(#[trigger] h[q]) && kept_char(h[q]) by {
        let i = q / 2;
        assert(0 <= i < b.len());
        crate::usb::lemma_hex2_value(b[i]);
        let bi = b[i];
        if q % 2 == 0 {
            assert(q == 2 * i);
            assert(h[q] == hex2(bi)[0]);
        } else {
            assert(q == 2 * i + 1);
            assert(h[q] == hex2(bi)[1]);
        }
        assert(is_hex_char(h[q]));
        let v = h[q] as u32;
        assert((0x30 <= v <= 0x39) || (0x61 <= v <= 0x66) || (0x41 <= v <= 0x46));
    }
    lemma_cleaned_keeps_all(h);
    lemma_ascii_size(h);
    let out = Seq::new(16, |i: int| (crate::ihex::hex_val(h[2 * i])->0 * 16 + crate::ihex::hex_val(h[2 * i + 1])->0) as u8);
    assert forall|i: int| 0 <= i < 16 implies #[trigger] out[i] == b[i] by {
        let bi = b[i];
        crate::usb::lemma_hex2_value(bi);
        assert(h[2 * i] == hex2(bi)[0]);
        assert(h[2 * i + 1] == hex2(bi)[1]);
    }
    assert(out =~= b);
}

} // verus!
