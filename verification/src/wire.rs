//! The wire form of channel messages: envelope text encoded as UTF-16 code
//! units, each split into two big-endian bytes, with a verified round trip.

use vstd::prelude::*;
use crate::json::{scalar_char, JsonVal, JsonValModel, spec_ser, spec_ser_int, spec_ser_str,
    spec_ser_elems, spec_ser_entries, spec_escape, spec_escape_char, spec_dec_digits,
    spec_parse_text, wf_model, wf_model_elems, view_of, view_of_elems, view_of_entries,
    lemma_parse_text_of_ser, lemma_dec_digits, lemma_view_elems_index, is_digit, hex_digit,
    to_text, parse_text};

verus! {

broadcast use vstd::std_specs::vec::group_vec_axioms, vstd::utf8::char_is_scalar;

// ---------------------------------------------------------------------------
// UTF-16 code units
// ---------------------------------------------------------------------------

/// The UTF-16 code units of one character: itself for the basic plane,
/// a surrogate pair above it.
pub open spec fn spec_utf16_char(c: char) -> Seq<u16> {
    if (c as u32) < 0x10000 {
        seq![(c as u32) as u16]
    } else {
        seq![
            (0xD800 + ((c as u32 - 0x10000) / 0x400)) as u16,
            (0xDC00 + ((c as u32 - 0x10000) % 0x400)) as u16,
        ]
    }
}

/// The UTF-16 code units of a character sequence.
pub open spec fn spec_utf16(s: Seq<char>) -> Seq<u16>
    decreases s,
{
    if s.len() == 0 {
        Seq::empty()
    } else {
        spec_utf16(s.drop_last()) + spec_utf16_char(s.last())
    }
}

/// Decodes UTF-16 code units from position `i` on; `None` on an unpaired
/// surrogate.
pub open spec fn spec_utf16_decode(u: Seq<u16>, i: int) -> Option<Seq<char>>
    decreases u.len() - i,
{
    if !(0 <= i < u.len()) {
        Some(Seq::empty())
    } else {
        let w = u[i];
        if w < 0xD800 || w >= 0xE000 {
            match spec_utf16_decode(u, i + 1) {
                None => None,
                Some(t) => Some(seq![(w as u32) as char] + t),
            }
        } else if w < 0xDC00 {
            if i + 1 < u.len() && 0xDC00 <= u[i + 1] < 0xE000 {
                match spec_utf16_decode(u, i + 2) {
                    None => None,
                    Some(t) => Some(
                        seq![((0x10000 + ((w as u32) - 0xD800) * 0x400 + ((u[i + 1] as u32) - 0xDC00)) as u32) as char] + t,
                    ),
                }
            } else {
                None
            }
        } else {
            None
        }
    }
}

/// UTF-16 encoding distributes over concatenation.
pub proof fn lemma_utf16_distrib(a: Seq<char>, b: Seq<char>)
    ensures
        spec_utf16(a + b) == spec_utf16(a) + spec_utf16(b),
    decreases b.len(),
{
    if b.len() == 0 {
        assert(a + b =~= a);
        assert(spec_utf16(a) + spec_utf16(b) =~= spec_utf16(a));
    } else {
        lemma_utf16_distrib(a, b.drop_last());
        assert((a + b).drop_last() =~= a + b.drop_last());
        assert((a + b).last() == b.last());
        assert(spec_utf16(a) + (spec_utf16(b.drop_last()) + spec_utf16_char(b.last()))
            =~= (spec_utf16(a) + spec_utf16(b.drop_last())) + spec_utf16_char(b.last()));
    }
}

/// Relates the code units of a suffix of `u` to a decomposition of that
/// suffix into two parts.
proof fn lemma_unit_suffix(u: Seq<u16>, i: int, a: Seq<u16>, b: Seq<u16>)
    requires
        0 <= i <= u.len(),
        u.subrange(i, u.len() as int) == a + b,
    ensures
        u.len() - i == a.len() + b.len(),
        forall|p: int| 0 <= p < a.len() ==> u[i + p] == a[p],
        a.len() > 0 ==> u[i] == a[0],
        a.len() > 1 ==> u[i + 1] == a[1],
        i + a.len() <= u.len(),
        u.subrange(i + a.len(), u.len() as int) == b,
{
    assert(u.subrange(i, u.len() as int).len() == u.len() - i);
    if a.len() > 0 {
        assert(u.subrange(i, u.len() as int)[0] == u[i + 0]);
        assert((a + b)[0] == a[0]);
    }
    if a.len() > 1 {
        assert(u.subrange(i, u.len() as int)[1] == u[i + 1]);
        assert((a + b)[1] == a[1]);
    }
    assert(forall|p: int| 0 <= p < a.len() ==> (a + b)[p] == a[p]);
    assert(forall|p: int| 0 <= p < a.len()
        ==> u[i + p] == #[trigger] u.subrange(i, u.len() as int)[p]);
    let j = i + a.len();
    assert(u.subrange(j, u.len() as int).len() == u.len() - j);
    assert(forall|p: int| 0 <= p < b.len() ==> (a + b)[a.len() + p] == b[p]);
    assert(forall|p: int| 0 <= p < b.len()
        ==> #[trigger] u.subrange(j, u.len() as int)[p] == u[j + p]);
    assert(forall|p: int| 0 <= p < b.len()
        ==> u[j + p] == #[trigger] u.subrange(i, u.len() as int)[a.len() + p]);
    assert(u.subrange(j, u.len() as int) =~= b);
}

/// Decoding the UTF-16 encoding of a character sequence yields it back.
pub proof fn lemma_utf16_decode_of(u: Seq<u16>, i: int, s: Seq<char>)
    requires
        0 <= i <= u.len(),
        u.subrange(i, u.len() as int) == spec_utf16(s),
    ensures
        spec_utf16_decode(u, i) == Some(s),
    decreases s.len(),
{
    if s.len() == 0 {
        assert(u.subrange(i, u.len() as int).len() == 0);
    } else {
        let c = s[0];
        let tail = s.drop_first();
        assert(s =~= s.take(1) + s.skip(1));
        lemma_utf16_distrib(s.take(1), s.skip(1));
        assert(s.take(1).drop_last() =~= Seq::<char>::empty());
        assert(s.take(1).last() == c);
        assert(spec_utf16(Seq::<char>::empty()) + spec_utf16_char(c) =~= spec_utf16_char(c));
        assert(spec_utf16(s.take(1)) == spec_utf16_char(c));
        assert(s.skip(1) =~= tail);
        lemma_unit_suffix(u, i, spec_utf16_char(c), spec_utf16(tail));
        lemma_utf16_decode_of(u, i + spec_utf16_char(c).len(), tail);
        vstd::utf8::char_is_scalar(c);
        if (c as u32) < 0x10000 {
            assert(u[i] == (c as u32) as u16);
            assert((u[i] as u32) == c as u32);
            assert(((u[i] as u32) as u32) as char == c) by {
                vstd::utf8::char_u32_cast(c, u[i] as u32);
            }
            assert(seq![c] + tail =~= s);
        } else {
            let x = c as u32 - 0x10000;
            let hi = (0xD800 + x / 0x400) as u16;
            let lo = (0xDC00 + x % 0x400) as u16;
            assert(u[i] == hi && u[i + 1] == lo);
            assert(0xD800 <= hi < 0xDC00);
            assert(0xDC00 <= lo < 0xE000);
            let code = 0x10000 + ((hi as u32) - 0xD800) * 0x400 + ((lo as u32) - 0xDC00);
            assert(code == c as u32);
            assert((code as u32) as char == c) by {
                vstd::utf8::char_u32_cast(c, code as u32);
            }
            assert(seq![c] + tail =~= s);
        }
    }
}

/// Encodes characters as UTF-16 code units.
pub fn utf16_encode(s: &Vec<char>) -> (out: Vec<u16>)
    ensures
        out@ == spec_utf16(s@),
{
    let mut out: Vec<u16> = Vec::new();
    let n: usize = s.len();
    let mut i: usize = 0;
    while i < n
        invariant
            n == s@.len(),
            i <= n,
            out@ == spec_utf16(s@.take(i as int)),
        decreases n - i,
    {
        let c = s[i];
        proof {
            assert(s@.take(i + 1 as int).drop_last() =~= s@.take(i as int));
            assert(s@.take(i + 1 as int).last() == s@[i as int]);
        }
        let x: u32 = c as u32;
        proof {
            vstd::utf8::char_is_scalar(c);
        }
        if x < 0x10000 {
            out.push(x as u16);
            assert(spec_utf16_char(c) =~= seq![x as u16]);
        } else {
            out.push((0xD800 + ((x - 0x10000) / 0x400)) as u16);
            out.push((0xDC00 + ((x - 0x10000) % 0x400)) as u16);
            assert(spec_utf16_char(c) =~= seq![
                (0xD800 + ((x - 0x10000) / 0x400)) as u16,
                (0xDC00 + ((x - 0x10000) % 0x400)) as u16,
            ]);
        }
        assert(out@ =~= spec_utf16(s@.take(i + 1 as int)));
        i = i + 1;
    }
    proof {
        assert(s@.take(n as int) =~= s@);
    }
    out
}

/// Decodes UTF-16 code units into characters, as `spec_utf16_decode`
/// describes.
pub fn utf16_decode(u: &Vec<u16>) -> (r: Option<Vec<char>>)
    ensures
        (match spec_utf16_decode(u@, 0) {
            None => r is None,
            Some(t) => (match r {
                None => false,
                Some(v) => v@ == t,
            }),
        }),
{
    let mut acc: Vec<char> = Vec::new();
    let mut cur: usize = 0;
    proof {
        match spec_utf16_decode(u@, 0) {
            None => {},
            Some(t) => {
                assert(acc@ + t =~= t);
            },
        }
    }
    loop
        invariant
            cur <= u@.len(),
            (match spec_utf16_decode(u@, cur as int) {
                None => spec_utf16_decode(u@, 0) is None,
                Some(t) => spec_utf16_decode(u@, 0) == Some(acc@ + t),
            }),
        decreases u@.len() - cur,
    {
        if cur >= u.len() {
            proof {
                assert(acc@ + Seq::<char>::empty() =~= acc@);
            }
            return Some(acc);
        }
        let w = u[cur];
        if w < 0xD800 || w >= 0xE000 {
            let c = crate::json::scalar_char(w as u32);
            let ghost acc0 = acc@;
            acc.push(c);
            proof {
                step_decode_invariant(u@, cur as int, acc0, seq![c], cur + 1);
            }
            cur = cur + 1;
        } else if w < 0xDC00 {
            if cur + 1 < u.len() && 0xDC00 <= u[cur + 1] && u[cur + 1] < 0xE000 {
                let code: u32 = 0x10000 + ((w as u32) - 0xD800) * 0x400 + ((u[cur + 1] as u32) - 0xDC00);
                let c = crate::json::scalar_char(code);
                let ghost acc0 = acc@;
                acc.push(c);
                proof {
                    step_decode_invariant(u@, cur as int, acc0, seq![c], cur + 2);
                }
                cur = cur + 2;
            } else {
                return None;
            }
        } else {
            return None;
        }
    }
}

/// Carries the decoding invariant across one consumed character.
proof fn step_decode_invariant(u: Seq<u16>, cur: int, acc: Seq<char>, c: Seq<char>, nxt: int)
    requires
        (match spec_utf16_decode(u, cur) {
            None => spec_utf16_decode(u, 0) is None,
            Some(t) => spec_utf16_decode(u, 0) == Some(acc + t),
        }),
        (match spec_utf16_decode(u, nxt) {
            None => spec_utf16_decode(u, cur) is None,
            Some(t) => spec_utf16_decode(u, cur) == Some(c + t),
        }),
    ensures
        (match spec_utf16_decode(u, nxt) {
            None => spec_utf16_decode(u, 0) is None,
            Some(t) => spec_utf16_decode(u, 0) == Some((acc + c) + t),
        }),
{
    match spec_utf16_decode(u, nxt) {
        None => {},
        Some(t) => {
            assert(acc + (c + t) =~= (acc + c) + t);
        },
    }
}

// ---------------------------------------------------------------------------
// Big-endian byte split
// ---------------------------------------------------------------------------

/// Each 16-bit unit becomes two bytes, high first.
pub open spec fn spec_units_to_bytes(u: Seq<u16>) -> Seq<u8>
    decreases u,
{
    if u.len() == 0 {
        Seq::empty()
    } else {
        spec_units_to_bytes(u.drop_last()) + seq![(u.last() / 256) as u8, (u.last() % 256) as u8]
    }
}

/// Each big-endian byte pair becomes one 16-bit unit; a trailing odd byte
/// is not consumed.
pub open spec fn spec_bytes_to_units(b: Seq<u8>) -> Seq<u16>
    decreases b,
{
    if b.len() < 2 {
        Seq::empty()
    } else {
        spec_bytes_to_units(b.drop_last().drop_last()).push(
            ((b[b.len() - 2] as u16) * 256 + (b.last() as u16)) as u16,
        )
    }
}

/// Pairing the split bytes back up yields the units that were split.
pub proof fn lemma_bytes_units_round_trip(u: Seq<u16>)
    ensures
        spec_units_to_bytes(u).len() == u.len() * 2,
        spec_bytes_to_units(spec_units_to_bytes(u)) == u,
    decreases u,
{
    if u.len() == 0 {
        assert(spec_bytes_to_units(spec_units_to_bytes(u)) =~= u);
    } else {
        lemma_bytes_units_round_trip(u.drop_last());
        let b = spec_units_to_bytes(u);
        assert(b.drop_last().drop_last() =~= spec_units_to_bytes(u.drop_last()));
        assert(b[b.len() - 2] == (u.last() / 256) as u8);
        assert(b.last() == (u.last() % 256) as u8);
        assert(spec_bytes_to_units(b) =~= u);
    }
}

/// Splits units into big-endian byte pairs.
pub fn units_to_bytes(u: &Vec<u16>) -> (out: Vec<u8>)
    ensures
        out@ == spec_units_to_bytes(u@),
{
    let mut out: Vec<u8> = Vec::new();
    let n: usize = u.len();
    let mut i: usize = 0;
    while i < n
        invariant
            n == u@.len(),
            i <= n,
            out@ == spec_units_to_bytes(u@.take(i as int)),
        decreases n - i,
    {
        let w = u[i];
        proof {
            assert(u@.take(i + 1 as int).drop_last() =~= u@.take(i as int));
            assert(u@.take(i + 1 as int).last() == u@[i as int]);
        }
        out.push((w / 256) as u8);
        out.push((w % 256) as u8);
        assert(out@ =~= spec_units_to_bytes(u@.take(i + 1 as int)));
        i = i + 1;
    }
    proof {
        assert(u@.take(n as int) =~= u@);
    }
    out
}

/// Pairs big-endian bytes into units; `None` when a byte is left over.
pub fn bytes_to_units(b: &Vec<u8>) -> (r: Option<Vec<u16>>)
    ensures
        (match r {
            None => b@.len() % 2 == 1,
            Some(out) => b@.len() % 2 == 0 && out@ == spec_bytes_to_units(b@),
        }),
{
    if b.len() % 2 == 1 {
        return None;
    }
    let mut out: Vec<u16> = Vec::new();
    let n: usize = b.len();
    let mut i: usize = 0;
    while n - i >= 2
        invariant
            n == b@.len(),
            n % 2 == 0,
            i <= n,
            i % 2 == 0,
            out@ == spec_bytes_to_units(b@.take(i as int)),
        decreases n - i,
    {
        let w: u16 = (b[i] as u16) * 256 + (b[i + 1] as u16);
        proof {
            let t = b@.take(i + 2 as int);
            assert(t.drop_last().drop_last() =~= b@.take(i as int));
            assert(t[t.len() - 2] == b@[i as int]);
            assert(t.last() == b@[i + 1 as int]);
        }
        out.push(w);
        assert(out@ =~= spec_bytes_to_units(b@.take(i + 2 as int)));
        i = i + 2;
    }
    proof {
        assert(i == n);
        assert(b@.take(n as int) =~= b@);
    }
    Some(out)
}

// ---------------------------------------------------------------------------
// Null stripping
// ---------------------------------------------------------------------------

/// The characters of `s` with every null removed; guest-side buffers may
/// pad messages with nulls.
pub open spec fn spec_strip_nulls(s: Seq<char>) -> Seq<char>
    decreases s,
{
    if s.len() == 0 {
        Seq::empty()
    } else if s.last() == '\0' {
        spec_strip_nulls(s.drop_last())
    } else {
        spec_strip_nulls(s.drop_last()).push(s.last())
    }
}

/// Stripping changes nothing when no null is present.
pub proof fn lemma_strip_nulls_id(s: Seq<char>)
    requires
        forall|p: int| 0 <= p < s.len() ==> s[p] != '\0',
    ensures
        spec_strip_nulls(s) == s,
    decreases s,
{
    if s.len() > 0 {
        lemma_strip_nulls_id(s.drop_last());
        assert(spec_strip_nulls(s) =~= s);
    }
}

/// Removes every null character.
pub fn strip_nulls(s: &Vec<char>) -> (out: Vec<char>)
    ensures
        out@ == spec_strip_nulls(s@),
{
    let mut out: Vec<char> = Vec::new();
    let n: usize = s.len();
    let mut i: usize = 0;
    while i < n
        invariant
            n == s@.len(),
            i <= n,
            out@ == spec_strip_nulls(s@.take(i as int)),
        decreases n - i,
    {
        let c = s[i];
        proof {
            assert(s@.take(i + 1 as int).drop_last() =~= s@.take(i as int));
            assert(s@.take(i + 1 as int).last() == s@[i as int]);
        }
        if c != '\0' {
            out.push(c);
        }
        assert(out@ =~= spec_strip_nulls(s@.take(i + 1 as int)));
        i = i + 1;
    }
    proof {
        assert(s@.take(n as int) =~= s@);
    }
    out
}

// ---------------------------------------------------------------------------
// Envelopes on the wire
// ---------------------------------------------------------------------------

/// The JSON text of the two-element envelope `[command, payload]`.
pub open spec fn spec_envelope_text(cmd: Seq<char>, payload: JsonValModel) -> Seq<char> {
    spec_ser(JsonValModel::Arr(seq![JsonValModel::Str(cmd), payload]))
}

/// The bytes sent for one envelope: JSON text, UTF-16, big-endian pairs.
pub open spec fn spec_encode_envelope(cmd: Seq<char>, payload: JsonValModel) -> Seq<u8> {
    spec_units_to_bytes(spec_utf16(spec_envelope_text(cmd, payload)))
}

/// Reads a decoded value as an envelope: exactly two elements, the first a
/// command string.
pub open spec fn spec_envelope_of(m: JsonValModel) -> Option<(Seq<char>, JsonValModel)> {
    match m {
        JsonValModel::Arr(elems) => if elems.len() == 2 {
            match elems[0] {
                JsonValModel::Str(c) => Some((c, elems[1])),
                _ => None,
            }
        } else {
            None
        },
        _ => None,
    }
}

/// Full decode of wire bytes back to an envelope.
pub open spec fn spec_decode_envelope_bytes(b: Seq<u8>) -> Option<(Seq<char>, JsonValModel)> {
    if b.len() % 2 != 0 {
        None
    } else {
        match spec_utf16_decode(spec_bytes_to_units(b), 0) {
            None => None,
            Some(t) => match spec_parse_text(spec_strip_nulls(t)) {
                None => None,
                Some(m) => spec_envelope_of(m),
            },
        }
    }
}

/// Two printable texts concatenate to a printable text.
proof fn lemma_printable_concat(a: Seq<char>, b: Seq<char>)
    requires
        forall|p: int| 0 <= p < a.len() ==> (#[trigger] a[p] as u32) >= 32,
        forall|p: int| 0 <= p < b.len() ==> (#[trigger] b[p] as u32) >= 32,
    ensures
        forall|p: int| 0 <= p < (a + b).len() ==> (#[trigger] (a + b)[p] as u32) >= 32,
{
    assert forall|p: int| 0 <= p < (a + b).len() implies ((a + b)[p] as u32) >= 32 by {
        if p < a.len() {
            assert((a + b)[p] == a[p]);
        } else {
            assert((a + b)[p] == b[p - a.len()]);
        }
    }
}

/// Escaped string bodies hold no control characters.
proof fn lemma_escape_printable(s: Seq<char>)
    ensures
        forall|p: int| 0 <= p < spec_escape(s).len()
            ==> (#[trigger] spec_escape(s)[p] as u32) >= 32,
    decreases s,
{
    if s.len() > 0 {
        lemma_escape_printable(s.drop_last());
        let c = s.last();
        let ec = spec_escape_char(c);
        assert(forall|p: int| 0 <= p < ec.len() ==> (#[trigger] ec[p] as u32) >= 32);
        lemma_printable_concat(spec_escape(s.drop_last()), ec);
    }
}

/// Serialized JSON text holds no control characters, in particular no
/// nulls: every character a serializer writes is printable.
pub proof fn lemma_ser_printable(v: JsonValModel)
    ensures
        forall|p: int| 0 <= p < spec_ser(v).len() ==> (#[trigger] spec_ser(v)[p] as u32) >= 32,
    decreases v, 0int,
{
    match v {
        JsonValModel::Null => {},
        JsonValModel::Bool(_) => {},
        JsonValModel::Int(n) => {
            let mag: nat = if n < 0 { (-n) as nat } else { n as nat };
            lemma_dec_digits(mag);
            assert(forall|p: int| 0 <= p < spec_dec_digits(mag).len()
                ==> (#[trigger] spec_dec_digits(mag)[p] as u32) >= 32) by {
                assert(forall|p: int| 0 <= p < spec_dec_digits(mag).len()
                    ==> is_digit(#[trigger] spec_dec_digits(mag)[p]));
            }
            if n < 0 {
                lemma_printable_concat(seq!['-'], spec_dec_digits(mag));
            }
        },
        JsonValModel::Str(s) => {
            lemma_escape_printable(s);
            lemma_printable_concat(seq!['"'], spec_escape(s));
            lemma_printable_concat(seq!['"'] + spec_escape(s), seq!['"']);
        },
        JsonValModel::Arr(elems) => {
            lemma_ser_elems_printable(elems);
            lemma_printable_concat(seq!['['], spec_ser_elems(elems));
            lemma_printable_concat(seq!['['] + spec_ser_elems(elems), seq![']']);
        },
        JsonValModel::Obj(entries) => {
            lemma_ser_entries_printable(entries);
            lemma_printable_concat(seq!['{'], spec_ser_entries(entries));
            lemma_printable_concat(seq!['{'] + spec_ser_entries(entries), seq!['}']);
        },
    }
}

proof fn lemma_ser_elems_printable(elems: Seq<JsonValModel>)
    ensures
        forall|p: int| 0 <= p < spec_ser_elems(elems).len()
            ==> (#[trigger] spec_ser_elems(elems)[p] as u32) >= 32,
    decreases elems, 1int,
{
    if elems.len() == 0 {
    } else if elems.len() == 1 {
        lemma_ser_printable(elems.last());
    } else {
        lemma_ser_elems_printable(elems.drop_last());
        lemma_ser_printable(elems.last());
        lemma_printable_concat(spec_ser_elems(elems.drop_last()), seq![',']);
        lemma_printable_concat(spec_ser_elems(elems.drop_last()) + seq![','], spec_ser(elems.last()));
    }
}

proof fn lemma_ser_entries_printable(entries: Seq<(Seq<char>, JsonValModel)>)
    ensures
        forall|p: int| 0 <= p < spec_ser_entries(entries).len()
            ==> (#[trigger] spec_ser_entries(entries)[p] as u32) >= 32,
    decreases entries, 1int,
{
    if entries.len() == 0 {
    } else {
        let e = entries.last();
        lemma_ser_printable(e.1);
        lemma_escape_printable(e.0);
        lemma_printable_concat(seq!['"'], spec_escape(e.0));
        lemma_printable_concat(seq!['"'] + spec_escape(e.0), seq!['"']);
        let h = spec_ser_str(e.0);
        if entries.len() == 1 {
            lemma_printable_concat(h, seq![':']);
            lemma_printable_concat(h + seq![':'], spec_ser(e.1));
        } else {
            lemma_ser_entries_printable(entries.drop_last());
            lemma_printable_concat(spec_ser_entries(entries.drop_last()), seq![',']);
            lemma_printable_concat(spec_ser_entries(entries.drop_last()) + seq![','], h);
            lemma_printable_concat(spec_ser_entries(entries.drop_last()) + seq![','] + h, seq![':']);
            lemma_printable_concat(spec_ser_entries(entries.drop_last()) + seq![','] + h + seq![':'],
                spec_ser(e.1));
        }
    }
}

/// Encodes an envelope for the wire: JSON text, UTF-16 code units, two
/// big-endian bytes per unit.
pub fn encode_envelope(cmd: &str, payload: JsonVal) -> (r: Vec<u8>)
    ensures
        r@ == spec_encode_envelope(cmd@, payload@),
{
    let ghost pv = payload@;
    let mut elems: Vec<JsonVal> = Vec::new();
    elems.push(JsonVal::Str(cmd.to_owned()));
    elems.push(payload);
    let arr = JsonVal::Arr(elems);
    proof {
        let es = arr->Arr_0@;
        assert(es.len() == 2);
        lemma_view_elems_index(es, 0);
        lemma_view_elems_index(es, 1);
        assert(view_of_elems(es) =~= seq![JsonValModel::Str(cmd@), pv]);
    }
    let chars = to_text(&arr);
    let units = utf16_encode(&chars);
    units_to_bytes(&units)
}

/// What becomes of one inbound message's code units.
pub enum MessageOutcome {
    /// The units are not valid UTF-16; the message is dropped.
    BadText,
    /// The text (nulls stripped) is not a JSON value; it is reported raw.
    NotJson(String),
    /// A structured value was decoded.
    Value(JsonVal),
}

/// Decodes one inbound message: UTF-16 text, nulls stripped, parsed as
/// JSON.
pub fn decode_message(units: &Vec<u16>) -> (r: MessageOutcome)
    ensures
        (match spec_utf16_decode(units@, 0) {
            None => r is BadText,
            Some(t) => (match spec_parse_text(spec_strip_nulls(t)) {
                None => (match r {
                    MessageOutcome::NotJson(raw) => raw@ == spec_strip_nulls(t),
                    _ => false,
                }),
                Some(m) => (match r {
                    MessageOutcome::Value(v) => v@ == m,
                    _ => false,
                }),
            }),
        }),
{
    match utf16_decode(units) {
        None => MessageOutcome::BadText,
        Some(t) => {
            let clean = strip_nulls(&t);
            match parse_text(&clean) {
                None => MessageOutcome::NotJson(crate::json::chars_into_string(&clean)),
                Some(v) => MessageOutcome::Value(v),
            }
        },
    }
}

/// Reads a decoded value as an envelope, as `spec_envelope_of` describes.
pub fn as_envelope(v: JsonVal) -> (r: Option<(String, JsonVal)>)
    ensures
        (match spec_envelope_of(v@) {
            None => r is None,
            Some((c, p)) => (match r {
                None => false,
                Some((rc, rp)) => rc@ == c && rp@ == p,
            }),
        }),
{
    match v {
        JsonVal::Arr(mut elems) => {
            if elems.len() == 2 {
                proof {
                    lemma_view_elems_index(elems@, 0);
                    lemma_view_elems_index(elems@, 1);
                }
                let payload = elems.pop().unwrap();
                let first = elems.pop().unwrap();
                match first {
                    JsonVal::Str(c) => Some((c, payload)),
                    _ => None,
                }
            } else {
                proof {
                    crate::json::lemma_view_elems_len(elems@);
                }
                None
            }
        },
        _ => None,
    }
}

/// Encoding an envelope and decoding the bytes yields the command and the
/// payload back: the wire codec loses nothing.
pub proof fn lemma_envelope_round_trip(cmd: Seq<char>, payload: JsonValModel)
    requires
        wf_model(payload),
    ensures
        spec_decode_envelope_bytes(spec_encode_envelope(cmd, payload)) == Some((cmd, payload)),
{
    let env = JsonValModel::Arr(seq![JsonValModel::Str(cmd), payload]);
    let text = spec_ser(env);
    let units = spec_utf16(text);
    let bytes = spec_units_to_bytes(units);
    assert(wf_model(env)) by {
        let es = seq![JsonValModel::Str(cmd), payload];
        let one = seq![JsonValModel::Str(cmd)];
        assert(es.drop_last() =~= one);
        assert(one.drop_last() =~= Seq::<JsonValModel>::empty());
        assert(wf_model_elems(Seq::<JsonValModel>::empty()));
        assert(wf_model(JsonValModel::Str(cmd)));
        assert(one.last() == JsonValModel::Str(cmd));
        assert(wf_model_elems(one));
        assert(es.last() == payload);
        assert(wf_model_elems(es));
    }
    lemma_bytes_units_round_trip(units);
    assert(bytes.len() % 2 == 0);
    assert(spec_bytes_to_units(bytes) == units);
    assert(units.subrange(0, units.len() as int) =~= units);
    lemma_utf16_decode_of(units, 0, text);
    lemma_ser_printable(env);
    assert(forall|p: int| 0 <= p < text.len() ==> text[p] != '\0') by {
        assert(forall|p: int| 0 <= p < text.len() ==> (#[trigger] text[p] as u32) >= 32);
        assert(('\0' as u32) == 0);
    }
    lemma_strip_nulls_id(text);
    lemma_parse_text_of_ser(env);
    assert(spec_envelope_of(env) == Some((cmd, payload)));
}

/// The round trip holds of every value the executable encoder can be
/// given: models of executable values are always well formed.
pub proof fn lemma_exec_envelope_round_trip(cmd: Seq<char>, payload: JsonVal)
    ensures
        spec_decode_envelope_bytes(spec_encode_envelope(cmd, payload@)) == Some((cmd, payload@)),
{
    crate::json::lemma_view_wf(payload);
    lemma_envelope_round_trip(cmd, payload@);
}

} // verus!
