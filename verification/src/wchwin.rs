//! The framing of WCH's stock Windows vendor driver (the CH375 family): interface GUIDs and the
//! ioctl function codes that address a pipe by endpoint.

use vstd::prelude::*;

verus! {

/// A device interface class GUID.
#[derive(Debug, Clone, Copy, PartialEq, Eq)]
pub struct InterfaceGuid {
    pub data1: u32,
    pub data2: u16,
    pub data3: u16,
    pub data4: [u8; 8],
}

/// `{F8D5EDCA-B647-4E9C-9BD3-A5BD2328D55C}`, the interface GUID of WCH's CH375-family drivers.
pub fn guid_ch375() -> (g: InterfaceGuid)
    ensures
        g.data1 == 0xF8D5_EDCA && g.data2 == 0xB647 && g.data3 == 0x4E9C,
        g.data4@ == seq![0x9Bu8, 0xD3, 0xA5, 0xBD, 0x23, 0x28, 0xD5, 0x5C],
{
    let g = InterfaceGuid {
        data1: 0xF8D5_EDCA,
        data2: 0xB647,
        data3: 0x4E9C,
        data4: [0x9B, 0xD3, 0xA5, 0xBD, 0x23, 0x28, 0xD5, 0x5C],
    };
    proof { assert(g.data4@ =~= seq![0x9Bu8, 0xD3, 0xA5, 0xBD, 0x23, 0x28, 0xD5, 0x5C]); }
    g
}

/// `{CDB3B5AD-293B-4663-AA36-1AAE46463776}`, the second GUID the driver's INF registers.
pub fn guid_wchlink_inf() -> (g: InterfaceGuid)
    ensures
        g.data1 == 0xCDB3_B5AD && g.data2 == 0x293B && g.data3 == 0x4663,
        g.data4@ == seq![0xAAu8, 0x36, 0x1A, 0xAE, 0x46, 0x46, 0x37, 0x76],
{
    let g = InterfaceGuid {
        data1: 0xCDB3_B5AD,
        data2: 0x293B,
        data3: 0x4663,
        data4: [0xAA, 0x36, 0x1A, 0xAE, 0x46, 0x46, 0x37, 0x76],
    };
    proof { assert(g.data4@ =~= seq![0xAAu8, 0x36, 0x1A, 0xAE, 0x46, 0x46, 0x37, 0x76]); }
    g
}

/// Errors from enumeration, open, and transfers.
#[derive(Debug, Clone, PartialEq, Eq)]
pub enum Ch375Error {
    /// A configuration-manager call failed with this CONFIGRET code.
    Cm { op: &'static str, code: u32 },
    /// A Win32 call failed with this error code.
    Win32 { op: &'static str, code: u32 },
    /// The endpoint number (low 7 bits) is not in 1..=15.
    InvalidEndpoint(u8),
    /// The driver accepted fewer bytes than requested for one write chunk.
    ShortWrite { accepted: usize, requested: usize },
    /// The ioctl reply was shorter than the 8-byte header.
    MalformedReply(u32),
}

/// The ioctl code: `CTL_CODE(FILE_DEVICE_UNKNOWN, 0x0f37, METHOD_BUFFERED, FILE_ANY_ACCESS)`.
pub const IOCTL_CH375_COMMAND: u32 = 0x0022_3CDC;
/// The command header: function and length words.
pub const HEADER_LEN: u32 = 8;
/// Payload capacity of one ioctl.
pub const PACKET_LEN: usize = 64;
pub const DIR_WRITE: u32 = 0x2_0000;
pub const DIR_READ: u32 = 0x1_0000;

/// The zero-based pipe of an endpoint address: its number (direction bit ignored) minus one,
/// for numbers 1..=15.
pub open spec fn pipe_of(ep: u8) -> Option<u32> {
    let number = ep & 0x7f;
    if number == 0 || number > 15 { None } else { Some((number - 1) as u32) }
}

/// Map an endpoint address to the driver's pipe index; 0x02 and 0x82 both address pipe 1, the
/// direction coming from the write or read call.
pub fn pipe_index(ep: u8) -> (r: Result<u32, Ch375Error>)
    ensures
        match pipe_of(ep) {
            Some(p) => r == Ok::<u32, Ch375Error>(p),
            None => r == Err::<u32, Ch375Error>(Ch375Error::InvalidEndpoint(ep)),
        },
{
    let number = ep & 0x7f;
    if number == 0 || number > 15 {
        return Err(Ch375Error::InvalidEndpoint(ep));
    }
    Ok(number as u32 - 1)
}

/// The function code of a host-to-device transfer on `ep`'s pipe.
pub fn function_write(ep: u8) -> (r: Result<u32, Ch375Error>)
    ensures
        match pipe_of(ep) {
            Some(p) => r == Ok::<u32, Ch375Error>(DIR_WRITE | p),
            None => r == Err::<u32, Ch375Error>(Ch375Error::InvalidEndpoint(ep)),
        },
{
    let p = pipe_index(ep)?;
    Ok(DIR_WRITE | p)
}

/// The function code of a device-to-host transfer on `ep`'s pipe.
pub fn function_read(ep: u8) -> (r: Result<u32, Ch375Error>)
    ensures
        match pipe_of(ep) {
            Some(p) => r == Ok::<u32, Ch375Error>(DIR_READ | p),
            None => r == Err::<u32, Ch375Error>(Ch375Error::InvalidEndpoint(ep)),
        },
{
    let p = pipe_index(ep)?;
    Ok(DIR_READ | p)
}

/// The direction bit of an endpoint address does not change its pipe.
pub proof fn lemma_direction_bit_ignored(ep: u8)
    ensures
        pipe_of(ep) == pipe_of(ep | 0x80),
        pipe_of(ep) == pipe_of(ep & 0x7f),
{
    assert((ep | 0x80u8) & 0x7fu8 == ep & 0x7fu8) by (bit_vector);
    assert((ep & 0x7fu8) & 0x7fu8 == ep & 0x7fu8) by (bit_vector);
}

/// One enumerated device interface path.
#[derive(Debug, Clone)]
pub struct DeviceInterface {
    pub path_utf16: Vec<u16>,
    pub path: String,
}

impl DeviceInterface {
    /// The interface path.
    pub fn path(&self) -> (r: &str)
        ensures
            r@ == self.path@,
    {
        self.path.as_str()
    }
}

/// The error of a failed configuration-manager call.
pub fn cm_err(op: &'static str, code: u32) -> (e: Ch375Error)
    ensures
        e == (Ch375Error::Cm { op, code }),
{
    Ch375Error::Cm { op, code }
}

/// The UTF-16 code units of one character: itself below U+10000, a surrogate pair above.
pub open spec fn utf16_of(c: char) -> Seq<u16> {
    let v = c as u32;
    if v < 0x10000 {
        seq![v as u16]
    } else {
        let w = v - 0x10000;
        seq![(0xD800 + w / 0x400) as u16, (0xDC00 + w % 0x400) as u16]
    }
}

/// The UTF-16 encoding of a string.
pub open spec fn utf16_encode(s: Seq<char>) -> Seq<u16>
    decreases s.len(),
{
    if s.len() == 0 { Seq::empty() } else { utf16_encode(s.drop_last()) + utf16_of(s.last()) }
}

/// A string as NUL-terminated UTF-16, the form the Windows APIs take.
pub fn to_utf16z(s: &str) -> (r: Vec<u16>)
    ensures
        r@ == utf16_encode(s@).push(0),
{
    let cs = crate::text::chars_of(s);
    let mut out: Vec<u16> = Vec::new();
    let mut k: usize = 0;
    while k < cs.len()
        invariant
            k <= cs@.len(),
            cs@ == s@,
            out@ == utf16_encode(cs@.take(k as int)),
        decreases cs@.len() - k,
    {
        proof { assert(cs@.take(k + 1).drop_last() =~= cs@.take(k as int)); }
        let v = cs[k] as u32;
        if v < 0x10000 {
            out.push(v as u16);
        } else {
            let w = v - 0x10000;
            out.push((0xD800 + w / 0x400) as u16);
            out.push((0xDC00 + w % 0x400) as u16);
        }
        proof { assert(out@ =~= utf16_encode(cs@.take(k + 1))); }
        k = k + 1;
    }
    proof { assert(cs@.take(k as int) =~= cs@); }
    out.push(0);
    out
}

/// Lossy UTF-16 decoding: a surrogate pair is one character, any other surrogate becomes
/// U+FFFD, every other unit is its own character.
pub open spec fn utf16_lossy(u: Seq<u16>) -> Seq<char>
    decreases u.len(),
{
    if u.len() == 0 {
        Seq::empty()
    } else if u[0] < 0xD800 || u[0] > 0xDFFF {
        seq![u[0] as char] + utf16_lossy(u.skip(1))
    } else if u[0] <= 0xDBFF && u.len() >= 2 && 0xDC00 <= u[1] <= 0xDFFF {
        seq![(0x10000 + (u[0] - 0xD800) * 0x400 + (u[1] - 0xDC00)) as char] + utf16_lossy(u.skip(2))
    } else {
        seq!['\u{FFFD}'] + utf16_lossy(u.skip(1))
    }
}

/// The units before the first NUL, or all of them.
pub open spec fn before_nul(u: Seq<u16>) -> Seq<u16>
    decreases u.len(),
{
    if u.len() == 0 { u } else if u[0] == 0 { Seq::empty() } else { seq![u[0]] + before_nul(u.skip(1)) }
}

/// `char::from_u32`: the character with this scalar value, if it is one.
#[verifier::external_body]
fn char_of(v: u32) -> (r: Option<char>)
    ensures
        r is Some <==> (v < 0xD800 || (0xE000 <= v && v <= 0x10FFFF)),
        r matches Some(c) ==> c == v as char,
{
    char::from_u32(v)
}

fn scalar(v: u32) -> (c: char)
    requires
        v < 0xD800 || (0xE000 <= v && v <= 0x10FFFF),
    ensures
        c == v as char,
{
    match char_of(v) {
        Some(c) => c,
        None => '\u{FFFD}',
    }
}

/// A NUL-terminated UTF-16 buffer as a string, cut at the first NUL (or the end), lossily.
pub fn from_utf16_trimmed(units: &[u16]) -> (s: String)
    ensures
        s@ == utf16_lossy(before_nul(units@)),
{
    let n = units.len();
    let mut end: usize = 0;
    proof {
        assert(units@.take(0) =~= Seq::<u16>::empty());
        assert(units@.skip(0) =~= units@);
    }
    while end < n && units[end] != 0
        invariant
            end <= n,
            n == units@.len(),
            before_nul(units@) == units@.take(end as int) + before_nul(units@.skip(end as int)),
        decreases n - end,
    {
        proof {
            let t = units@.skip(end as int);
            assert(t.skip(1) =~= units@.skip(end + 1));
            assert(units@.take(end + 1) =~= units@.take(end as int).push(t[0]));
        }
        end = end + 1;
    }
    let ghost u = units@.take(end as int);
    proof {
        assert(before_nul(units@.skip(end as int)) =~= Seq::<u16>::empty());
        assert(before_nul(units@) =~= u);
    }
    let mut out: Vec<char> = Vec::new();
    let mut k: usize = 0;
    proof { assert(u.skip(0) =~= u); }
    while k < end
        invariant
            k <= end <= n,
            n == units@.len(),
            u == units@.take(end as int),
            out@ + utf16_lossy(u.skip(k as int)) == utf16_lossy(u),
        decreases end - k,
    {
        let a = units[k];
        let ghost t = u.skip(k as int);
        if a < 0xD800 || a > 0xDFFF {
            out.push(scalar(a as u32));
            proof { assert(t.skip(1) =~= u.skip(k + 1)); }
            k = k + 1;
        } else if a <= 0xDBFF && k + 1 < end && 0xDC00 <= units[k + 1] && units[k + 1] <= 0xDFFF {
            let b = units[k + 1];
            let v = 0x10000 + (a as u32 - 0xD800) * 0x400 + (b as u32 - 0xDC00);
            out.push(scalar(v));
            proof { assert(t.skip(2) =~= u.skip(k + 2)); }
            k = k + 2;
        } else {
            out.push('\u{FFFD}');
            proof { assert(t.skip(1) =~= u.skip(k + 1)); }
            k = k + 1;
        }
        proof { assert(out@ + utf16_lossy(u.skip(k as int)) =~= utf16_lossy(u)); }
    }
    proof { assert(u.skip(k as int) =~= Seq::<u16>::empty()); assert(out@ =~= utf16_lossy(u)); }
    crate::text::string_of(out.as_slice())
}

proof fn lemma_utf16_encode_front(s: Seq<char>)
    requires
        s.len() > 0,
    ensures
        utf16_encode(s) == utf16_of(s[0]) + utf16_encode(s.skip(1)),
    decreases s.len(),
{
    if s.len() == 1 {
        assert(s.drop_last() =~= Seq::<char>::empty());
        assert(s.skip(1) =~= Seq::<char>::empty());
        assert(utf16_encode(s.drop_last()) =~= Seq::<u16>::empty());
        assert(utf16_encode(s.skip(1)) =~= Seq::<u16>::empty());
        assert(s.last() == s[0]);
        assert(utf16_encode(s) =~= utf16_of(s[0]));
    } else {
        lemma_utf16_encode_front(s.drop_last());
        assert(s.drop_last().skip(1) =~= s.skip(1).drop_last());
        assert(s.skip(1).last() == s.last());
        assert(utf16_encode(s) =~= utf16_of(s[0]) + utf16_encode(s.skip(1)));
    }
}

proof fn lemma_utf16_of_decodes(c: char, rest: Seq<u16>)
    ensures
        utf16_lossy(utf16_of(c) + rest) == seq![c] + utf16_lossy(rest),
        c != '\0' ==> utf16_of(c)[0] != 0,
        forall|k: int| 0 <= k < utf16_of(c).len() ==> (c != '\0' ==> #[trigger] utf16_of(c)[k] != 0),
{
    let v = c as u32;
    let u = utf16_of(c) + rest;
    if v < 0x10000 {
        assert(!(0xD800 <= v <= 0xDFFF));
        assert(u.skip(1) =~= rest);
        assert((v as u16) as char == c);
    } else {
        let w = v - 0x10000;
        assert(w < 0x100000);
        let hi = (0xD800 + w / 0x400) as u16;
        let lo = (0xDC00 + w % 0x400) as u16;
        assert(0xD800 <= hi <= 0xDBFF);
        assert(0xDC00 <= lo <= 0xDFFF);
        assert(u[0] == hi && u[1] == lo);
        assert(u.skip(2) =~= rest);
        assert((hi - 0xD800) * 0x400 + (lo - 0xDC00) == w);
        assert((0x10000 + (hi - 0xD800) * 0x400 + (lo - 0xDC00)) as char == c);
    }
}

proof fn lemma_utf16_encode_decodes(s: Seq<char>)
    ensures
        utf16_lossy(utf16_encode(s)) == s,
        (forall|i: int| 0 <= i < s.len() ==> #[trigger] s[i] != '\0')
            ==> forall|k: int| 0 <= k < utf16_encode(s).len() ==> #[trigger] utf16_encode(s)[k] != 0,
    decreases s.len(),
{
    if s.len() == 0 {
        assert(utf16_encode(s) =~= Seq::<u16>::empty());
    } else {
        lemma_utf16_encode_front(s);
        lemma_utf16_encode_decodes(s.skip(1));
        lemma_utf16_of_decodes(s[0], utf16_encode(s.skip(1)));
        assert(s =~= seq![s[0]] + s.skip(1));
        if forall|i: int| 0 <= i < s.len() ==> #[trigger] s[i] != '\0' {
            assert forall|i: int| 0 <= i < s.skip(1).len() implies #[trigger] s.skip(1)[i] != '\0' by {
                assert(s.skip(1)[i] == s[i + 1]);
            }
            let e = utf16_encode(s);
            let f = utf16_of(s[0]);
            assert forall|k: int| 0 <= k < e.len() implies #[trigger] e[k] != 0 by {
                if k < f.len() {
                    assert(e[k] == f[k]);
                } else {
                    assert(e[k] == utf16_encode(s.skip(1))[k - f.len()]);
                }
            }
        }
    }
}

proof fn lemma_before_nul_push(u: Seq<u16>)
    requires
        forall|k: int| 0 <= k < u.len() ==> #[trigger] u[k] != 0,
    ensures
        before_nul(u.push(0)) == u,
    decreases u.len(),
{
    let t = u.push(0);
    if u.len() == 0 {
        assert(t[0] == 0);
    } else {
        assert(t[0] == u[0]);
        assert(t.skip(1) =~= u.skip(1).push(0));
        assert forall|k: int| 0 <= k < u.skip(1).len() implies #[trigger] u.skip(1)[k] != 0 by {
            assert(u.skip(1)[k] == u[k + 1]);
        }
        lemma_before_nul_push(u.skip(1));
        assert(u =~= seq![u[0]] + u.skip(1));
    }
}

/// A path handed to the Windows APIs and read back comes out as it went in: for a string
/// without NUL, the buffer [`to_utf16z`] builds reads back through [`from_utf16_trimmed`] as the
/// same string.
pub proof fn lemma_utf16_roundtrip(s: Seq<char>)
    requires
        forall|i: int| 0 <= i < s.len() ==> #[trigger] s[i] != '\0',
    ensures
        utf16_lossy(before_nul(utf16_encode(s).push(0))) == s,
{
    lemma_utf16_encode_decodes(s);
    lemma_before_nul_push(utf16_encode(s));
}

} // verus!
