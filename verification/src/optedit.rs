//! Editing the option bytes: `target option set key=value ...` (read protection, the two data
//! bytes, the named USER bits of a family) as a read-modify-write of the 16-byte image with every
//! complement recomputed, and `target protect on|off`.

use vstd::prelude::*;

use crate::cliargs::SwitchState;
use crate::cmdparse::{debug_str, parse_u8};
use crate::optbytes::UserField;
use crate::parse::{eq_str, find_char, first_of, lower, radix_num};
use crate::selector::string_range;
use crate::text::{chars_of, hex2, join_with, push_hex2, push_joined, push_str, string_of, string_views, to_ascii_lower};

verus! {

/// The result of applying `key=value` pairs: the new image, what changed (as `key=value` notes),
/// whether clearing read protection will mass-erase the flash, and whether protection is being
/// turned on.
#[derive(Debug, Clone)]
pub struct OptionEdit {
    pub image: [u8; 16],
    pub changes: Vec<String>,
    pub mass_erase: bool,
    pub protect_on: bool,
}

/// A rejected request: the message and, where there is one, a hint.
#[derive(Debug, Clone)]
pub struct EditError {
    pub msg: String,
    pub hint: Option<String>,
}

/// The edit so far, as plain values.
pub struct EditState {
    pub ob: Seq<u8>,
    pub changes: Seq<Seq<char>>,
    pub mass_erase: bool,
    pub protect_on: bool,
}

/// The names of the USER fields.
pub open spec fn field_names(fields: Seq<UserField>) -> Seq<Seq<char>> {
    Seq::new(fields.len(), |i: int| fields[i].field@)
}

/// The first field whose name equals `key` ignoring ASCII case.
pub open spec fn field_index(fields: Seq<UserField>, key: Seq<char>) -> Option<int> {
    if exists|i: int| 0 <= i < fields.len() && lower(fields[i].field@) == lower(key) {
        Some(choose|i: int| 0 <= i < fields.len() && lower(fields[i].field@) == lower(key)
            && forall|j: int| 0 <= j < i ==> lower(fields[j].field@) != lower(key))
    } else {
        None
    }
}

/// Bit `bit` of `b` set to `v`.
pub open spec fn with_bit(b: u8, bit: u8, v: bool) -> u8 {
    if v { b | ((1u8 << bit) as u8) } else { b & !((1u8 << bit) as u8) }
}

#[verifier::opaque]
/// What one `key=value` pair does to the image `ob` (with the mass-erase and protect-on flags so
/// far): the new image, the note of what changed, the new flags; or why it is rejected.
pub open spec fn pair_effect(
    ob: Seq<u8>,
    mass_erase: bool,
    protect_on: bool,
    pair: Seq<char>,
    fields: Seq<UserField>,
    family: Seq<char>,
) -> Result<(Seq<u8>, Seq<char>, bool, bool), (Seq<char>, Option<Seq<char>>)> {
    match first_of(pair, '=') {
        None => Err(("expected key=value, got "@ + debug_str(pair), Some("e.g. IWDGSW=0 rdp=off data0=0x42"@))),
        Some(p) => kv_effect(ob, mass_erase, protect_on, pair.take(p), pair.skip(p + 1), fields, family),
    }
}

#[verifier::opaque]
/// What `key=val` does: `rdp`/`protect`, `data0`/`data1`, or a named USER bit (keys ignore
/// ASCII case).
pub open spec fn kv_effect(
    ob: Seq<u8>,
    mass_erase: bool,
    protect_on: bool,
    key: Seq<char>,
    val: Seq<char>,
    fields: Seq<UserField>,
    family: Seq<char>,
) -> Result<(Seq<u8>, Seq<char>, bool, bool), (Seq<char>, Option<Seq<char>>)> {
    let kl = lower(key);
    if kl == "rdp"@ || kl == "protect"@ {
        rdp_effect(ob, mass_erase, protect_on, lower(val))
    } else if kl == "data0"@ || kl == "data1"@ {
        match radix_num(val, 255) {
            None => Err((key + ": expected a byte 0..255 (e.g. 0x42), got "@ + debug_str(val), None)),
            Some(b) => Ok((
                ob.update(if kl == "data0"@ { 4int } else { 6int }, b as u8),
                kl + "=0x"@ + hex2(b as u8),
                mass_erase,
                protect_on,
            )),
        }
    } else {
        match field_index(fields, key) {
            None => Err((
                "unknown option field "@ + debug_str(key) + " for "@ + family,
                Some("known USER fields: "@ + join_with(field_names(fields), ", "@) + " (plus rdp, data0, data1)"@),
            )),
            Some(i) => bit_effect(ob, mass_erase, protect_on, key, val, fields[i]),
        }
    }
}

/// `rdp=<vl>` (value already lower-cased): off (`off`, `0`, `none`) writes 0xA5 and mass-erases
/// unless it already was 0xA5; on (`on`, `1`) writes 0xFF.
pub open spec fn rdp_effect(ob: Seq<u8>, mass_erase: bool, protect_on: bool, vl: Seq<char>)
    -> Result<(Seq<u8>, Seq<char>, bool, bool), (Seq<char>, Option<Seq<char>>)>
{
    if vl == "off"@ || vl == "0"@ || vl == "none"@ {
        Ok((ob.update(0, 0xA5u8), "rdp=off"@, mass_erase || ob[0] != 0xA5, protect_on))
    } else if vl == "on"@ || vl == "1"@ {
        Ok((ob.update(0, 0xFFu8), "rdp=on"@, mass_erase, true))
    } else {
        Err(("rdp must be on/off, got "@ + debug_str(vl), None))
    }
}

/// `<FIELD>=0|1` for the USER bit `f`.
pub open spec fn bit_effect(ob: Seq<u8>, mass_erase: bool, protect_on: bool, key: Seq<char>, val: Seq<char>, f: UserField)
    -> Result<(Seq<u8>, Seq<char>, bool, bool), (Seq<char>, Option<Seq<char>>)>
{
    if val == "0"@ || val == "1"@ {
        let one = val == "1"@;
        Ok((
            ob.update(2, with_bit(ob[2], f.bit, one)),
            f.field@ + (if one { "=1"@ } else { "=0"@ }),
            mass_erase,
            protect_on,
        ))
    } else {
        Err((key + ": expected 0 or 1, got "@ + debug_str(val), None))
    }
}

/// The pairs applied left to right; the first rejected pair stops the edit.
pub open spec fn apply_all(
    st: EditState,
    kv: Seq<Seq<char>>,
    fields: Seq<UserField>,
    family: Seq<char>,
) -> Result<EditState, (Seq<char>, Option<Seq<char>>)>
    decreases kv.len(),
{
    if kv.len() == 0 {
        Ok(st)
    } else {
        match apply_all(st, kv.drop_last(), fields, family) {
            Err(e) => Err(e),
            Ok(s) => match pair_effect(s.ob, s.mass_erase, s.protect_on, kv.last(), fields, family) {
                Err(e) => Err(e),
                Ok((o, note, m, p)) => Ok(EditState { ob: o, changes: s.changes.push(note), mass_erase: m, protect_on: p }),
            },
        }
    }
}

/// Every complement byte recomputed from the byte before it.
pub open spec fn with_complements(ob: Seq<u8>) -> Seq<u8> {
    Seq::new(16, |i: int| if i % 2 == 0 { ob[i] } else { (0xFFu8 ^ ob[i - 1]) as u8 })
}

/// What `option set` does with the current image and the pairs: the edited image (complements
/// recomputed), or why it is rejected; a request with no pairs is rejected.
pub open spec fn option_edit_spec(
    current: Seq<u8>,
    kv: Seq<Seq<char>>,
    fields: Seq<UserField>,
    family: Seq<char>,
) -> Result<EditState, (Seq<char>, Option<Seq<char>>)> {
    let st0 = EditState { ob: current, changes: Seq::empty(), mass_erase: false, protect_on: false };
    match apply_all(st0, kv, fields, family) {
        Err(e) => Err(e),
        Ok(st) => if st.changes.len() == 0 {
            Err(("no key=value pairs given"@, None))
        } else {
            Ok(EditState { ob: with_complements(st.ob), changes: st.changes, mass_erase: st.mass_erase, protect_on: st.protect_on })
        },
    }
}

pub open spec fn err_matches(e: EditError, m: Seq<char>, h: Option<Seq<char>>) -> bool {
    &&& e.msg@ == m
    &&& match h {
        Some(hs) => e.hint matches Some(x) && x@ == hs,
        None => e.hint is None,
    }
}

pub open spec fn edit_matches(r: Result<OptionEdit, EditError>, s: Result<EditState, (Seq<char>, Option<Seq<char>>)>) -> bool {
    match s {
        Ok(st) => r matches Ok(e) && e.image@ == st.ob && string_views(e.changes@) == st.changes
            && e.mass_erase == st.mass_erase && e.protect_on == st.protect_on,
        Err((m, h)) => r matches Err(e) && err_matches(e, m, h),
    }
}

fn err(msg: Vec<char>, hint: Option<Vec<char>>) -> (e: EditError)
    ensures
        e.msg@ == msg@,
        match hint {
            Some(h) => e.hint matches Some(x) && x@ == h@,
            None => e.hint is None,
        },
{
    EditError {
        msg: string_of(msg.as_slice()),
        hint: match hint {
            Some(h) => Some(string_of(h.as_slice())),
            None => None,
        },
    }
}

fn lowered(cs: &[char]) -> (r: Vec<char>)
    ensures
        r@ == lower(cs@),
{
    let mut v: Vec<char> = Vec::new();
    let mut k: usize = 0;
    while k < cs.len()
        invariant
            k <= cs@.len(),
            v@ == lower(cs@.take(k as int)),
        decreases cs@.len() - k,
    {
        v.push(to_ascii_lower(cs[k]));
        proof { assert(v@ =~= lower(cs@.take(k + 1))); }
        k = k + 1;
    }
    proof { assert(cs@.take(k as int) =~= cs@); }
    v
}

fn same(a: &[char], b: &[char]) -> (r: bool)
    ensures
        r == (a@ == b@),
{
    if a.len() != b.len() {
        return false;
    }
    let mut k: usize = 0;
    while k < a.len()
        invariant
            k <= a@.len(),
            a@.len() == b@.len(),
            forall|j: int| 0 <= j < k ==> a@[j] == b@[j],
        decreases a@.len() - k,
    {
        if a[k] != b[k] {
            return false;
        }
        k = k + 1;
    }
    proof { assert(a@ =~= b@); }
    true
}

fn find_field(fields: &[UserField], key: &[char]) -> (r: Option<usize>)
    ensures
        r matches Some(i) ==> i < fields@.len() && field_index(fields@, key@) == Some(i as int),
        r is None ==> field_index(fields@, key@) is None,
{
    let kl = lowered(key);
    let mut i: usize = 0;
    while i < fields.len()
        invariant
            i <= fields@.len(),
            kl@ == lower(key@),
            forall|j: int| 0 <= j < i ==> lower(fields@[j].field@) != lower(key@),
        decreases fields@.len() - i,
    {
        let fl = lowered(chars_of(fields[i].field.as_str()).as_slice());
        if same(fl.as_slice(), kl.as_slice()) {
            proof {
                let w = i as int;
                assert(0 <= w < fields@.len() && lower(fields@[w].field@) == lower(key@));
                let c = choose|c: int| 0 <= c < fields@.len() && lower(fields@[c].field@) == lower(key@)
                    && forall|j: int| 0 <= j < c ==> lower(fields@[j].field@) != lower(key@);
                assert(c == w) by {
                    if c > w {
                        assert(lower(fields@[w].field@) == lower(key@));
                    }
                }
            }
            return Some(i);
        }
        i = i + 1;
    }
    None
}

/// The `known USER fields: ...` hint.
fn fields_hint(fields: &[UserField]) -> (h: Vec<char>)
    ensures
        h@ == "known USER fields: "@ + join_with(field_names(fields@), ", "@) + " (plus rdp, data0, data1)"@,
{
    let mut names: Vec<String> = Vec::new();
    let mut j: usize = 0;
    while j < fields.len()
        invariant
            j <= fields@.len(),
            names@.len() == j,
            forall|t: int| 0 <= t < j ==> (#[trigger] names@[t])@ == fields@[t].field@,
        decreases fields@.len() - j,
    {
        let nm = fields[j].field.clone();
        names.push(nm);
        j = j + 1;
    }
    proof { assert(string_views(names@) =~= field_names(fields@)); }
    let mut h: Vec<char> = Vec::new();
    push_str(&mut h, "known USER fields: ");
    push_joined(&mut h, names.as_slice(), ", ");
    push_str(&mut h, " (plus rdp, data0, data1)");
    h
}

/// `prefix` followed by the `{:?}` notation of `s`.
fn with_debug(prefix: &str, s: &str) -> (v: Vec<char>)
    ensures
        v@ == prefix@ + debug_str(s@),
{
    let mut m: Vec<char> = Vec::new();
    push_str(&mut m, prefix);
    push_str(&mut m, crate::cmdparse::debug_quoted(s).as_str());
    m
}

pub open spec fn effect_matches(
    r: Result<([u8; 16], String, bool, bool), EditError>,
    s: Result<(Seq<u8>, Seq<char>, bool, bool), (Seq<char>, Option<Seq<char>>)>,
) -> bool {
    match s {
        Ok((o, n, m, p)) => r matches Ok((ob, note, mm, pp)) && ob@ == o && note@ == n && mm == m && pp == p,
        Err((msg, h)) => r matches Err(e) && err_matches(e, msg, h),
    }
}

fn rdp_apply(ob: [u8; 16], mass_erase: bool, protect_on: bool, vl: &[char])
    -> (r: Result<([u8; 16], String, bool, bool), EditError>)
    ensures
        effect_matches(r, rdp_effect(ob@, mass_erase, protect_on, vl@)),
{
    let mut ob = ob;
    if eq_str(vl, "off") || eq_str(vl, "0") || eq_str(vl, "none") {
        let m = mass_erase || ob[0] != 0xA5;
        ob[0] = 0xA5;
        Ok((ob, string_of(chars_of("rdp=off").as_slice()), m, protect_on))
    } else if eq_str(vl, "on") || eq_str(vl, "1") {
        ob[0] = 0xFF;
        Ok((ob, string_of(chars_of("rdp=on").as_slice()), mass_erase, true))
    } else {
        let vls = string_of(vl);
        Err(err(with_debug("rdp must be on/off, got ", vls.as_str()), None))
    }
}

fn bit_apply(ob: [u8; 16], mass_erase: bool, protect_on: bool, key: &str, val: &str, f: &UserField)
    -> (r: Result<([u8; 16], String, bool, bool), EditError>)
    requires
        f.bit < 8,
    ensures
        effect_matches(r, bit_effect(ob@, mass_erase, protect_on, key@, val@, *f)),
{
    let vcs = chars_of(val);
    let one = eq_str(vcs.as_slice(), "1");
    if one || eq_str(vcs.as_slice(), "0") {
        let mut ob = ob;
        let mask: u8 = 1u8 << f.bit;
        let b2 = if one { ob[2] | mask } else { ob[2] & !mask };
        ob[2] = b2;
        let mut c: Vec<char> = Vec::new();
        push_str(&mut c, f.field.as_str());
        push_str(&mut c, if one { "=1" } else { "=0" });
        Ok((ob, string_of(c.as_slice()), mass_erase, protect_on))
    } else {
        let mut m: Vec<char> = Vec::new();
        push_str(&mut m, key);
        push_str(&mut m, ": expected 0 or 1, got ");
        push_str(&mut m, crate::cmdparse::debug_quoted(val).as_str());
        Err(err(m, None))
    }
}

fn data_apply(ob: [u8; 16], mass_erase: bool, protect_on: bool, key: &str, kl: &[char], val: &str)
    -> (r: Result<([u8; 16], String, bool, bool), EditError>)
    requires
        kl@ == "data0"@ || kl@ == "data1"@,
    ensures
        effect_matches(r, match radix_num(val@, 255) {
            None => Err((key@ + ": expected a byte 0..255 (e.g. 0x42), got "@ + debug_str(val@), None)),
            Some(b) => Ok((
                ob@.update(if kl@ == "data0"@ { 4int } else { 6int }, b as u8),
                kl@ + "=0x"@ + hex2(b as u8),
                mass_erase,
                protect_on,
            )),
        }),
{
    match parse_u8(val) {
        Some(b) => {
            let mut ob = ob;
            let idx: usize = if eq_str(kl, "data0") { 4 } else { 6 };
            ob[idx] = b;
            let mut c: Vec<char> = Vec::new();
            let kls = string_of(kl);
            push_str(&mut c, kls.as_str());
            push_str(&mut c, "=0x");
            push_hex2(&mut c, b);
            Ok((ob, string_of(c.as_slice()), mass_erase, protect_on))
        },
        None => {
            let mut m: Vec<char> = Vec::new();
            push_str(&mut m, key);
            push_str(&mut m, ": expected a byte 0..255 (e.g. 0x42), got ");
            push_str(&mut m, crate::cmdparse::debug_quoted(val).as_str());
            Err(err(m, None))
        },
    }
}

/// `key=val` applied to the image.
fn kv_apply(
    ob: [u8; 16],
    mass_erase: bool,
    protect_on: bool,
    key: &str,
    val: &str,
    fields: &[UserField],
    family: &str,
) -> (r: Result<([u8; 16], String, bool, bool), EditError>)
    requires
        forall|i: int| 0 <= i < fields@.len() ==> #[trigger] fields@[i].bit < 8,
    ensures
        effect_matches(r, kv_effect(ob@, mass_erase, protect_on, key@, val@, fields@, family@)),
{
    reveal(kv_effect);
    let kcs = chars_of(key);
    let kl = lowered(kcs.as_slice());
    let is_rdp = eq_str(kl.as_slice(), "rdp") || eq_str(kl.as_slice(), "protect");
    let is_data = eq_str(kl.as_slice(), "data0") || eq_str(kl.as_slice(), "data1");
    if is_rdp {
        let vl = lowered(chars_of(val).as_slice());
        let r = rdp_apply(ob, mass_erase, protect_on, vl.as_slice());
        proof {
            assert(kv_effect(ob@, mass_erase, protect_on, key@, val@, fields@, family@)
                == rdp_effect(ob@, mass_erase, protect_on, lower(val@)));
        }
        r
    } else if is_data {
        let r = data_apply(ob, mass_erase, protect_on, key, kl.as_slice(), val);
        proof {
            assert(!(lower(key@) == "rdp"@ || lower(key@) == "protect"@));
            assert(effect_matches(r, kv_effect(ob@, mass_erase, protect_on, key@, val@, fields@, family@)));
        }
        r
    } else {
        match find_field(fields, kcs.as_slice()) {
            None => {
                let mut m = with_debug("unknown option field ", key);
                push_str(&mut m, " for ");
                push_str(&mut m, family);
                proof {
                    assert(m@ =~= "unknown option field "@ + debug_str(key@) + " for "@ + family@);
                }
                let r = Err(err(m, Some(fields_hint(fields))));
                proof {
                    assert(effect_matches(r, kv_effect(ob@, mass_erase, protect_on, key@, val@, fields@, family@)));
                }
                r
            },
            Some(i) => {
                let r = bit_apply(ob, mass_erase, protect_on, key, val, &fields[i]);
                proof {
                    assert(field_index(fields@, key@) == Some(i as int));
                    assert(kv_effect(ob@, mass_erase, protect_on, key@, val@, fields@, family@)
                        == bit_effect(ob@, mass_erase, protect_on, key@, val@, fields@[i as int]));
                    assert(effect_matches(r, kv_effect(ob@, mass_erase, protect_on, key@, val@, fields@, family@)));
                }
                r
            },
        }
    }
}

/// One `key=value` pair applied to the image.
fn pair_apply(ob: [u8; 16], mass_erase: bool, protect_on: bool, pair: &str, fields: &[UserField], family: &str)
    -> (r: Result<([u8; 16], String, bool, bool), EditError>)
    requires
        forall|i: int| 0 <= i < fields@.len() ==> #[trigger] fields@[i].bit < 8,
    ensures
        effect_matches(r, pair_effect(ob@, mass_erase, protect_on, pair@, fields@, family@)),
{
    reveal(pair_effect);
    let pcs = chars_of(pair);
    let p = match find_char(pcs.as_slice(), '=') {
        Some(p) => p,
        None => return Err(err(with_debug("expected key=value, got ", pair), Some(chars_of("e.g. IWDGSW=0 rdp=off data0=0x42")))),
    };
    let n = pcs.len();
    let key = string_range(pcs.as_slice(), 0, p);
    let val = string_range(pcs.as_slice(), p + 1, n);
    proof {
        assert(pcs@.subrange(0, p as int) =~= pcs@.take(p as int));
        assert(pcs@.subrange(p + 1, n as int) =~= pcs@.skip(p + 1));
    }
    kv_apply(ob, mass_erase, protect_on, key.as_str(), val.as_str(), fields, family)
}

/// Apply `key=value` pairs to the option bytes `current` of a part of `family`, whose named USER
/// bits are `fields` (bits 0..7 of the USER byte): `rdp=on|off` (also `protect`; off is `off`,
/// `0` or `none`, on is `on` or `1`), `data0=<byte>` / `data1=<byte>`, and `<FIELD>=0|1` for a
/// USER bit; keys and the rdp value ignore ASCII case. Every complement byte is recomputed.
pub fn option_edit(current: &[u8; 16], kv: &[String], fields: &[UserField], family: &str)
    -> (r: Result<OptionEdit, EditError>)
    requires
        forall|i: int| 0 <= i < fields@.len() ==> #[trigger] fields@[i].bit < 8,
    ensures
        edit_matches(r, option_edit_spec(current@, string_views(kv@), fields@, family@)),
{
    let mut ob: [u8; 16] = *current;
    let mut changes: Vec<String> = Vec::new();
    let mut mass_erase = false;
    let mut protect_on = false;
    let ghost st0 = EditState { ob: current@, changes: Seq::empty(), mass_erase: false, protect_on: false };
    let mut k: usize = 0;
    proof { assert(string_views(kv@).take(0) =~= Seq::<Seq<char>>::empty()); }
    while k < kv.len()
        invariant
            k <= kv@.len(),
            st0 == (EditState { ob: current@, changes: Seq::empty(), mass_erase: false, protect_on: false }),
            forall|i: int| 0 <= i < fields@.len() ==> #[trigger] fields@[i].bit < 8,
            apply_all(st0, string_views(kv@).take(k as int), fields@, family@) matches Ok(st)
                && st.ob == ob@ && st.changes == string_views(changes@)
                && st.mass_erase == mass_erase && st.protect_on == protect_on,
        decreases kv@.len() - k,
    {
        proof {
            assert(string_views(kv@).take(k + 1).drop_last() =~= string_views(kv@).take(k as int));
            assert(string_views(kv@).take(k + 1).last() == kv@[k as int]@);
        }
        let ghost before = changes@;
        match pair_apply(ob, mass_erase, protect_on, kv[k].as_str(), fields, family) {
            Ok((o, note, m, p)) => {
                ob = o;
                changes.push(note);
                mass_erase = m;
                protect_on = p;
                proof { assert(string_views(changes@) =~= string_views(before).push(changes@.last()@)); }
            },
            Err(e) => {
                proof {
                    let sk = string_views(kv@).take(k + 1);
                    assert(pair_effect(ob@, mass_erase, protect_on, kv@[k as int]@, fields@, family@) is Err);
                    let pe = pair_effect(ob@, mass_erase, protect_on, kv@[k as int]@, fields@, family@);
                    assert(apply_all(st0, sk, fields@, family@)
                        == Err::<EditState, (Seq<char>, Option<Seq<char>>)>(pe->Err_0));
                    lemma_apply_all_stops(st0, string_views(kv@), fields@, family@, k + 1);
                    assert(apply_all(st0, string_views(kv@), fields@, family@)
                        == Err::<EditState, (Seq<char>, Option<Seq<char>>)>(pe->Err_0));
                    assert(option_edit_spec(current@, string_views(kv@), fields@, family@)
                        == Err::<EditState, (Seq<char>, Option<Seq<char>>)>(pe->Err_0));
                    assert(err_matches(e, pe->Err_0.0, pe->Err_0.1));
                }
                return Err(e);
            },
        }
        k = k + 1;
    }
    proof { assert(string_views(kv@).take(k as int) =~= string_views(kv@)); }
    if changes.len() == 0 {
        return Err(err(chars_of("no key=value pairs given"), None));
    }
    let mut i: usize = 0;
    let ghost edited = ob@;
    while i < 16
        invariant
            i <= 16,
            i % 2 == 0,
            forall|j: int| 0 <= j < i ==> ob@[j] == with_complements(edited)[j],
            edited.len() == 16,
            forall|j: int| i <= j < 16 ==> ob@[j] == edited[j],
        decreases 16 - i,
    {
        let c = 0xFFu8 ^ ob[i];
        ob[i + 1] = c;
        i = i + 2;
    }
    proof { assert(ob@ =~= with_complements(edited)); }
    Ok(OptionEdit { image: ob, changes, mass_erase, protect_on })
}

/// Whatever pairs an accepted `option set` applies, the image it writes has every complement byte
/// equal to the complement of the byte before it, so it passes the read-back plausibility gate.
pub proof fn lemma_edit_writes_complements(
    current: Seq<u8>,
    kv: Seq<Seq<char>>,
    fields: Seq<UserField>,
    family: Seq<char>,
)
    requires
        option_edit_spec(current, kv, fields, family) is Ok,
    ensures
        ({
            let ob = option_edit_spec(current, kv, fields, family)->Ok_0.ob;
            &&& ob.len() == 16
            &&& forall|i: int| 0 <= i < 8 ==> #[trigger] ob[2 * i + 1] == (0xFFu8 ^ ob[2 * i]) as u8
            &&& crate::optbytes::plausible(ob)
        }),
{
    let ob = option_edit_spec(current, kv, fields, family)->Ok_0.ob;
    assert forall|i: int| 0 <= i < 8 implies #[trigger] ob[2 * i + 1] == (0xFFu8 ^ ob[2 * i]) as u8 by {
        assert((2 * i + 1) % 2 == 1);
        assert(2 * i + 1 - 1 == 2 * i);
    }
    let b0 = ob[0];
    let b2 = ob[2];
    assert(ob[1] == (0xFFu8 ^ b0) as u8);
    assert(ob[3] == (0xFFu8 ^ b2) as u8);
    assert(b0 ^ ((0xFFu8 ^ b0) as u8) == 0xFF) by (bit_vector);
    assert(b2 ^ ((0xFFu8 ^ b2) as u8) == 0xFF) by (bit_vector);
}

/// Once a prefix of the pairs is rejected, so is every longer prefix, with the same error.
proof fn lemma_apply_all_stops(st0: EditState, kv: Seq<Seq<char>>, fields: Seq<UserField>, family: Seq<char>, k: int)
    requires
        0 < k <= kv.len(),
        apply_all(st0, kv.take(k), fields, family) is Err,
    ensures
        apply_all(st0, kv, fields, family) == apply_all(st0, kv.take(k), fields, family),
    decreases kv.len() - k,
{
    if k < kv.len() {
        assert(kv.take(k + 1).drop_last() =~= kv.take(k));
        lemma_apply_all_stops(st0, kv, fields, family, k + 1);
    } else {
        assert(kv.take(k) =~= kv);
    }
}

/// The option bytes as `target option get` shows them: RDPR, USER, Data0/Data1, the write-protect
/// mask of WRPR0..3, and the USER bits by name.
#[derive(Debug, Clone)]
pub struct OptionDecode {
    pub rdpr: u8,
    pub user: u8,
    pub data0: u8,
    pub data1: u8,
    pub wrpr: u32,
    /// RDPR is not 0xA5.
    pub read_protected: bool,
    /// Some WRPR bit is clear.
    pub write_protected: bool,
    /// Each USER bit by name, and its value.
    pub user_bits: Vec<(String, u8)>,
    /// The family's USER fields are unknown, so the common STM32F1-style bits were decoded.
    pub interim: bool,
}

/// WRPR0..3 (bytes 8, 10, 12, 14) as one little-endian mask.
pub open spec fn wrpr_of(raw: Seq<u8>) -> nat {
    raw[8] as nat + 256 * (raw[10] as nat) + 65536 * (raw[12] as nat) + 16777216 * (raw[14] as nat)
}

/// The USER bits by name: the family's fields where known, else IWDGSW / nRST_STOP / nRST_STDBY
/// at bits 0 / 1 / 2.
pub open spec fn user_bits_spec(fields: Seq<UserField>, user: u8) -> Seq<(Seq<char>, u8)> {
    if fields.len() == 0 {
        seq![("IWDGSW"@, (user & 1) as u8), ("nRST_STOP"@, ((user >> 1u8) & 1) as u8), ("nRST_STDBY"@, ((user >> 2u8) & 1) as u8)]
    } else {
        Seq::new(fields.len(), |i: int| (fields[i].field@, ((user >> fields[i].bit) & 1) as u8))
    }
}

/// Decode the 16 option bytes read from a part whose named USER bits are `fields`.
pub fn decode_option_bytes(raw: &[u8; 16], fields: &[UserField]) -> (d: OptionDecode)
    requires
        forall|i: int| 0 <= i < fields@.len() ==> #[trigger] fields@[i].bit < 8,
    ensures
        d.rdpr == raw@[0] && d.user == raw@[2] && d.data0 == raw@[4] && d.data1 == raw@[6],
        d.wrpr as nat == wrpr_of(raw@),
        d.read_protected == (raw@[0] != 0xA5),
        d.write_protected == (d.wrpr != 0xFFFF_FFFF),
        d.interim == (fields@.len() == 0),
        d.user_bits@.len() == user_bits_spec(fields@, raw@[2]).len(),
        forall|i: int| 0 <= i < d.user_bits@.len() ==> (#[trigger] d.user_bits@[i]).0@ == user_bits_spec(fields@, raw@[2])[i].0
            && d.user_bits@[i].1 == user_bits_spec(fields@, raw@[2])[i].1,
{
    let user = raw[2];
    let (b0, b1, b2, b3) = (raw[8], raw[10], raw[12], raw[14]);
    let wrpr: u32 = b0 as u32 | (b1 as u32) << 8 | (b2 as u32) << 16 | (b3 as u32) << 24;
    assert(wrpr == b0 as u32 | (b1 as u32) << 8 | (b2 as u32) << 16 | (b3 as u32) << 24);
    assert((b0 as u32 | (b1 as u32) << 8 | (b2 as u32) << 16 | (b3 as u32) << 24) as nat
        == b0 as nat + 256 * (b1 as nat) + 65536 * (b2 as nat) + 16777216 * (b3 as nat)) by (bit_vector);
    let mut user_bits: Vec<(String, u8)> = Vec::new();
    if fields.len() == 0 {
        user_bits.push((string_of(chars_of("IWDGSW").as_slice()), user & 1));
        user_bits.push((string_of(chars_of("nRST_STOP").as_slice()), (user >> 1u8) & 1));
        user_bits.push((string_of(chars_of("nRST_STDBY").as_slice()), (user >> 2u8) & 1));
    } else {
        let mut k: usize = 0;
        while k < fields.len()
            invariant
                k <= fields@.len(),
                fields@.len() > 0,
                forall|i: int| 0 <= i < fields@.len() ==> #[trigger] fields@[i].bit < 8,
                user_bits@.len() == k,
                forall|i: int| 0 <= i < k ==> (#[trigger] user_bits@[i]).0@ == user_bits_spec(fields@, user)[i].0
                    && user_bits@[i].1 == user_bits_spec(fields@, user)[i].1,
            decreases fields@.len() - k,
        {
            let f = &fields[k];
            user_bits.push((f.field.clone(), (user >> f.bit) & 1));
            k = k + 1;
        }
    }
    OptionDecode {
        rdpr: raw[0],
        user,
        data0: raw[4],
        data1: raw[6],
        wrpr,
        read_protected: raw[0] != 0xA5,
        write_protected: wrpr != 0xFFFF_FFFF,
        user_bits,
        interim: fields.len() == 0,
    }
}

/// The confirmation question for an edit: the changes, and the warning that goes with clearing
/// (mass erase) or setting (unreadable flash) read protection.
pub open spec fn edit_prompt_spec(changes: Seq<Seq<char>>, mass_erase: bool, protect_on: bool) -> Seq<char> {
    "Apply option changes ["@ + join_with(changes, ", "@) + "]?"@ + if mass_erase {
        " rdp=off ERASES ALL FLASH (mass erase)."@
    } else if protect_on {
        " rdp=on makes the flash unreadable/undebuggable."@
    } else {
        Seq::empty()
    }
}

/// The question asked before an edit is written.
pub fn edit_prompt(e: &OptionEdit) -> (s: String)
    ensures
        s@ == edit_prompt_spec(string_views(e.changes@), e.mass_erase, e.protect_on),
{
    let mut v: Vec<char> = Vec::new();
    push_str(&mut v, "Apply option changes [");
    push_joined(&mut v, e.changes.as_slice(), ", ");
    push_str(&mut v, "]?");
    if e.mass_erase {
        push_str(&mut v, " rdp=off ERASES ALL FLASH (mass erase).");
    } else if e.protect_on {
        push_str(&mut v, " rdp=on makes the flash unreadable/undebuggable.");
    }
    proof {
        if !e.mass_erase && !e.protect_on {
            assert(v@ =~= edit_prompt_spec(string_views(e.changes@), e.mass_erase, e.protect_on));
        }
    }
    string_of(v.as_slice())
}

/// `target protect on|off`: the image to write, or none when read protection is already in the
/// requested state. RDPR 0xA5 (complement 0x5A) is unprotected; on writes 0xFF / 0x00.
pub open spec fn protect_spec(current: Seq<u8>, state: SwitchState) -> Option<Seq<u8>> {
    match state {
        SwitchState::On => if current[0] != 0xA5 {
            None
        } else {
            Some(current.update(0, 0xFFu8).update(1, 0x00u8))
        },
        SwitchState::Off => if current[0] == 0xA5 {
            None
        } else {
            Some(current.update(0, 0xA5u8).update(1, 0x5Au8))
        },
    }
}

pub fn protect_change(current: &[u8; 16], state: SwitchState) -> (r: Option<[u8; 16]>)
    ensures
        match protect_spec(current@, state) {
            Some(img) => r matches Some(x) && x@ == img,
            None => r is None,
        },
{
    let mut ob = *current;
    match state {
        SwitchState::On => {
            if ob[0] != 0xA5 {
                return None;
            }
            ob[0] = 0xFF;
            ob[1] = 0x00;
        },
        SwitchState::Off => {
            if ob[0] == 0xA5 {
                return None;
            }
            ob[0] = 0xA5;
            ob[1] = 0x5A;
        },
    }
    Some(ob)
}


/// `FIELD=1` sets the field's bit of the USER byte (offset 2) and `FIELD=0` clears it; every other
/// bit of that byte and every other byte of the image is kept, and applying the same pair again
/// changes nothing.
pub proof fn lemma_user_bit_pairs(ob: Seq<u8>, me: bool, po: bool, key: Seq<char>, f: UserField)
    requires
        ob.len() == 16,
        f.bit < 8,
    ensures
        bit_effect(ob, me, po, key, "1"@, f) matches Ok((o, _, m, p)) && {
            &&& m == me && p == po
            &&& o.len() == 16
            &&& o[2] & (1u8 << f.bit) != 0
            &&& forall|j: u8| #![trigger (o[2] >> j)] j < 8 && j != f.bit ==> (o[2] >> j) & 1 == (ob[2] >> j) & 1
            &&& forall|k: int| 0 <= k < 16 && k != 2 ==> o[k] == ob[k]
            &&& bit_effect(o, me, po, key, "1"@, f) matches Ok((o2, _, _, _)) && o2 == o
        },
        bit_effect(ob, me, po, key, "0"@, f) matches Ok((o, _, m, p)) && {
            &&& m == me && p == po
            &&& o.len() == 16
            &&& o[2] & (1u8 << f.bit) == 0
            &&& forall|j: u8| #![trigger (o[2] >> j)] j < 8 && j != f.bit ==> (o[2] >> j) & 1 == (ob[2] >> j) & 1
            &&& forall|k: int| 0 <= k < 16 && k != 2 ==> o[k] == ob[k]
            &&& bit_effect(o, me, po, key, "0"@, f) matches Ok((o2, _, _, _)) && o2 == o
        },
{
    reveal_strlit("0");
    reveal_strlit("1");
    assert("0"@[0] != "1"@[0]);
    assert("0"@ != "1"@);
    let b = ob[2];
    let bit = f.bit;
    let s1 = with_bit(b, bit, true);
    let s0 = with_bit(b, bit, false);
    assert(s1 & (1u8 << bit) != 0) by (bit_vector)
        requires bit < 8, s1 == b | ((1u8 << bit) as u8);
    assert(s0 & (1u8 << bit) == 0) by (bit_vector)
        requires bit < 8, s0 == b & !((1u8 << bit) as u8);
    assert forall|j: u8| j < 8 && j != bit implies (s1 >> j) & 1 == (b >> j) & 1 && (s0 >> j) & 1 == (b >> j) & 1 by {
        assert((s1 >> j) & 1 == (b >> j) & 1 && (s0 >> j) & 1 == (b >> j) & 1) by (bit_vector)
            requires bit < 8, j < 8, j != bit, s1 == b | ((1u8 << bit) as u8), s0 == b & !((1u8 << bit) as u8);
    }
    assert(with_bit(s1, bit, true) == s1) by (bit_vector)
        requires bit < 8, s1 == b | ((1u8 << bit) as u8);
    assert(with_bit(s0, bit, false) == s0) by (bit_vector)
        requires bit < 8, s0 == b & !((1u8 << bit) as u8);
    let o1 = ob.update(2, s1);
    let o0 = ob.update(2, s0);
    assert(o1.update(2, with_bit(o1[2], bit, true)) =~= o1);
    assert(o0.update(2, with_bit(o0[2], bit, false)) =~= o0);
}

} // verus!
