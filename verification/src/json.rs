//! The structured values carried by channel envelopes, with a verified
//! serializer and parser for their JSON text form.

use vstd::prelude::*;

verus! {

broadcast use vstd::std_specs::vec::group_vec_axioms, vstd::utf8::char_u32_cast;

/// A structured value as carried in an envelope payload. Numbers are
/// modelled as 64-bit signed integers.
#[derive(Debug, PartialEq)]
pub enum JsonVal {
    Null,
    Bool(bool),
    Int(i64),
    Str(String),
    Arr(Vec<JsonVal>),
    Obj(Vec<(String, JsonVal)>),
}

/// The mathematical model of a `JsonVal`.
pub enum JsonValModel {
    Null,
    Bool(bool),
    Int(int),
    Str(Seq<char>),
    Arr(Seq<JsonValModel>),
    Obj(Seq<(Seq<char>, JsonValModel)>),
}

/// The model of one executable value.
pub open spec fn view_of(v: JsonVal) -> JsonValModel
    decreases v,
{
    match v {
        JsonVal::Null => JsonValModel::Null,
        JsonVal::Bool(b) => JsonValModel::Bool(b),
        JsonVal::Int(i) => JsonValModel::Int(i as int),
        JsonVal::Str(s) => JsonValModel::Str(s@),
        JsonVal::Arr(elems) => JsonValModel::Arr(view_of_elems(elems@)),
        JsonVal::Obj(entries) => JsonValModel::Obj(view_of_entries(entries@)),
    }
}

/// The models of the elements of an array, in order.
pub open spec fn view_of_elems(s: Seq<JsonVal>) -> Seq<JsonValModel>
    decreases s,
{
    if s.len() == 0 {
        Seq::empty()
    } else {
        view_of_elems(s.drop_last()).push(view_of(s.last()))
    }
}

/// The models of the members of an object, in order.
pub open spec fn view_of_entries(s: Seq<(String, JsonVal)>) -> Seq<(Seq<char>, JsonValModel)>
    decreases s,
{
    if s.len() == 0 {
        Seq::empty()
    } else {
        view_of_entries(s.drop_last()).push((s.last().0@, view_of(s.last().1)))
    }
}

impl View for JsonVal {
    type V = JsonValModel;

    open spec fn view(&self) -> JsonValModel {
        view_of(*self)
    }
}

/// Every integer in the value fits in 64 signed bits. Models of executable
/// values always satisfy this.
pub open spec fn wf_model(v: JsonValModel) -> bool
    decreases v,
{
    match v {
        JsonValModel::Null => true,
        JsonValModel::Bool(_) => true,
        JsonValModel::Int(i) => i64::MIN <= i <= i64::MAX,
        JsonValModel::Str(_) => true,
        JsonValModel::Arr(elems) => wf_model_elems(elems),
        JsonValModel::Obj(entries) => wf_model_entries(entries),
    }
}

pub open spec fn wf_model_elems(s: Seq<JsonValModel>) -> bool
    decreases s,
{
    if s.len() == 0 {
        true
    } else {
        wf_model_elems(s.drop_last()) && wf_model(s.last())
    }
}

pub open spec fn wf_model_entries(s: Seq<(Seq<char>, JsonValModel)>) -> bool
    decreases s,
{
    if s.len() == 0 {
        true
    } else {
        wf_model_entries(s.drop_last()) && wf_model(s.last().1)
    }
}

/// The model of an executable value is always well formed: its integers
/// came from 64-bit values.
pub proof fn lemma_view_wf(v: JsonVal)
    ensures
        wf_model(view_of(v)),
    decreases v, 0int,
{
    match v {
        JsonVal::Arr(elems) => {
            lemma_view_wf_elems(elems@);
        },
        JsonVal::Obj(entries) => {
            lemma_view_wf_entries(entries@);
        },
        _ => {},
    }
}

proof fn lemma_view_wf_elems(s: Seq<JsonVal>)
    ensures
        wf_model_elems(view_of_elems(s)),
    decreases s, 1int,
{
    if s.len() > 0 {
        lemma_view_wf_elems(s.drop_last());
        lemma_view_wf(s.last());
        assert(view_of_elems(s).drop_last() =~= view_of_elems(s.drop_last()));
    }
}

proof fn lemma_view_wf_entries(s: Seq<(String, JsonVal)>)
    ensures
        wf_model_entries(view_of_entries(s)),
    decreases s, 1int,
{
    if s.len() > 0 {
        lemma_view_wf_entries(s.drop_last());
        lemma_view_wf(s.last().1);
        assert(view_of_entries(s).drop_last() =~= view_of_entries(s.drop_last()));
    }
}

// ---------------------------------------------------------------------------
// Characters of the JSON text form
// ---------------------------------------------------------------------------

/// JSON insignificant whitespace.
pub open spec fn is_ws(c: char) -> bool {
    c == ' ' || c == '\t' || c == '\n' || c == '\r'
}

pub open spec fn is_digit(c: char) -> bool {
    48 <= c as u32 <= 57
}

/// The decimal digit character for `d < 10`.
pub open spec fn dec_digit(d: nat) -> char {
    hex_digit(d)
}

/// The upper-case hexadecimal digit character for `d < 16`.
pub open spec fn hex_digit(d: nat) -> char {
    if d == 0 { '0' } else if d == 1 { '1' } else if d == 2 { '2' }
    else if d == 3 { '3' } else if d == 4 { '4' } else if d == 5 { '5' }
    else if d == 6 { '6' } else if d == 7 { '7' } else if d == 8 { '8' }
    else if d == 9 { '9' } else if d == 10 { 'A' } else if d == 11 { 'B' }
    else if d == 12 { 'C' } else if d == 13 { 'D' } else if d == 14 { 'E' }
    else { 'F' }
}

/// The numeric value of a decimal digit character.
pub open spec fn digit_val(c: char) -> nat {
    (c as u32 - 48) as nat
}

/// The numeric value of a hexadecimal digit character, in either case.
pub open spec fn hex_val(c: char) -> nat {
    if 48 <= c as u32 <= 57 {
        (c as u32 - 48) as nat
    } else if 65 <= c as u32 <= 70 {
        (c as u32 - 55) as nat
    } else if 97 <= c as u32 <= 102 {
        (c as u32 - 87) as nat
    } else {
        16
    }
}

pub open spec fn is_hex_digit(c: char) -> bool {
    hex_val(c) < 16
}

// ---------------------------------------------------------------------------
// Serialization to JSON text
// ---------------------------------------------------------------------------

/// The decimal digits of `n`, most significant first.
pub open spec fn spec_dec_digits(n: nat) -> Seq<char>
    decreases n,
{
    if n < 10 {
        seq![dec_digit(n)]
    } else {
        spec_dec_digits(n / 10).push(dec_digit(n % 10))
    }
}

/// The JSON text of an integer.
pub open spec fn spec_ser_int(i: int) -> Seq<char> {
    if i < 0 {
        seq!['-'] + spec_dec_digits((-i) as nat)
    } else {
        spec_dec_digits(i as nat)
    }
}

/// How one character is written inside a JSON string literal: quote and
/// backslash get a backslash escape, control characters a `\u00XX` escape,
/// everything else stands as itself.
pub open spec fn spec_escape_char(c: char) -> Seq<char> {
    if c == '"' {
        seq!['\\', '"']
    } else if c == '\\' {
        seq!['\\', '\\']
    } else if (c as u32) < 32 {
        seq!['\\', 'u', '0', '0',
             hex_digit((c as u32 / 16) as nat),
             hex_digit((c as u32 % 16) as nat)]
    } else {
        seq![c]
    }
}

/// The escaped body of a JSON string literal.
pub open spec fn spec_escape(s: Seq<char>) -> Seq<char>
    decreases s,
{
    if s.len() == 0 {
        Seq::empty()
    } else {
        spec_escape(s.drop_last()) + spec_escape_char(s.last())
    }
}

/// The JSON text of a string, quotes included.
pub open spec fn spec_ser_str(s: Seq<char>) -> Seq<char> {
    seq!['"'] + spec_escape(s) + seq!['"']
}

/// The JSON text of a value. No insignificant whitespace is produced.
pub open spec fn spec_ser(v: JsonValModel) -> Seq<char>
    decreases v,
{
    match v {
        JsonValModel::Null => seq!['n', 'u', 'l', 'l'],
        JsonValModel::Bool(b) => if b {
            seq!['t', 'r', 'u', 'e']
        } else {
            seq!['f', 'a', 'l', 's', 'e']
        },
        JsonValModel::Int(i) => spec_ser_int(i),
        JsonValModel::Str(s) => spec_ser_str(s),
        JsonValModel::Arr(elems) => seq!['['] + spec_ser_elems(elems) + seq![']'],
        JsonValModel::Obj(entries) => seq!['{'] + spec_ser_entries(entries) + seq!['}'],
    }
}

/// The comma-separated texts of array elements.
pub open spec fn spec_ser_elems(elems: Seq<JsonValModel>) -> Seq<char>
    decreases elems,
{
    if elems.len() == 0 {
        Seq::empty()
    } else if elems.len() == 1 {
        spec_ser(elems.last())
    } else {
        spec_ser_elems(elems.drop_last()) + seq![','] + spec_ser(elems.last())
    }
}

/// The comma-separated texts of object members.
pub open spec fn spec_ser_entries(entries: Seq<(Seq<char>, JsonValModel)>) -> Seq<char>
    decreases entries,
{
    if entries.len() == 0 {
        Seq::empty()
    } else if entries.len() == 1 {
        spec_ser_str(entries.last().0) + seq![':'] + spec_ser(entries.last().1)
    } else {
        spec_ser_entries(entries.drop_last()) + seq![','] + spec_ser_str(entries.last().0)
            + seq![':'] + spec_ser(entries.last().1)
    }
}

// ---------------------------------------------------------------------------
// Parsing JSON text
// ---------------------------------------------------------------------------

/// The first position at or after `i` that does not hold whitespace.
pub open spec fn skip_ws(s: Seq<char>, i: int) -> int
    decreases s.len() - i,
{
    if 0 <= i < s.len() && is_ws(s[i]) {
        skip_ws(s, i + 1)
    } else {
        i
    }
}

/// The end of the run of decimal digits that starts at `i`.
pub open spec fn digit_run_end(s: Seq<char>, i: int) -> int
    decreases s.len() - i,
{
    if 0 <= i < s.len() && is_digit(s[i]) {
        digit_run_end(s, i + 1)
    } else {
        i
    }
}

/// The value of a sequence of decimal digit characters.
pub open spec fn digits_val(t: Seq<char>) -> nat
    decreases t,
{
    if t.len() == 0 {
        0
    } else {
        digits_val(t.drop_last()) * 10 + digit_val(t.last())
    }
}

/// The value of the four hexadecimal digits at `i`, if they are there.
pub open spec fn hex4(s: Seq<char>, i: int) -> Option<int> {
    if 0 <= i && i + 4 <= s.len() && is_hex_digit(s[i]) && is_hex_digit(s[i + 1])
        && is_hex_digit(s[i + 2]) && is_hex_digit(s[i + 3]) {
        Some(hex_val(s[i]) * 4096 + hex_val(s[i + 1]) * 256 + hex_val(s[i + 2]) * 16
            + hex_val(s[i + 3]) as int)
    } else {
        None
    }
}

/// The character named by a single-character escape.
pub open spec fn unescape_char(c: char) -> Option<char> {
    if c == '"' { Some('"') }
    else if c == '\\' { Some('\\') }
    else if c == '/' { Some('/') }
    else if c == 'b' { Some('\u{8}') }
    else if c == 'f' { Some('\u{c}') }
    else if c == 'n' { Some('\n') }
    else if c == 'r' { Some('\r') }
    else if c == 't' { Some('\t') }
    else { None }
}

/// Parses the body of a string literal starting at `i` (just after the
/// opening quote), up to and including the closing quote. Returns the
/// decoded characters and the position after the closing quote.
pub open spec fn parse_string_body(s: Seq<char>, i: int) -> Option<(Seq<char>, int)>
    decreases s.len() - i,
{
    if !(0 <= i < s.len()) {
        None
    } else if s[i] == '"' {
        Some((Seq::empty(), i + 1))
    } else if s[i] == '\\' {
        if i + 2 > s.len() {
            None
        } else if s[i + 1] == 'u' {
            match hex4(s, i + 2) {
                None => None,
                Some(n) => if 0xD800 <= n < 0xDC00 {
                    if i + 12 <= s.len() && s[i + 6] == '\\' && s[i + 7] == 'u' {
                        match hex4(s, i + 8) {
                            None => None,
                            Some(m) => if 0xDC00 <= m < 0xE000 {
                                match parse_string_body(s, i + 12) {
                                    None => None,
                                    Some((t, j)) => Some((
                                        seq![((0x10000 + (n - 0xD800) * 0x400 + (m - 0xDC00)) as u32) as char] + t,
                                        j,
                                    )),
                                }
                            } else {
                                None
                            },
                        }
                    } else {
                        None
                    }
                } else if 0xDC00 <= n < 0xE000 {
                    None
                } else if i + 6 <= s.len() {
                    match parse_string_body(s, i + 6) {
                        None => None,
                        Some((t, j)) => Some((seq![(n as u32) as char] + t, j)),
                    }
                } else {
                    None
                },
            }
        } else {
            match unescape_char(s[i + 1]) {
                None => None,
                Some(c) => match parse_string_body(s, i + 2) {
                    None => None,
                    Some((t, j)) => Some((seq![c] + t, j)),
                },
            }
        }
    } else if (s[i] as u32) < 32 {
        None
    } else {
        match parse_string_body(s, i + 1) {
            None => None,
            Some((t, j)) => Some((seq![s[i]] + t, j)),
        }
    }
}

/// Parses a number starting at `i`. Only integers that fit in 64 signed
/// bits are accepted; fractions and exponents are not part of the model.
pub open spec fn parse_number(s: Seq<char>, i: int) -> Option<(JsonValModel, int)> {
    let neg = 0 <= i < s.len() && s[i] == '-';
    let d0 = if neg { i + 1 } else { i };
    if !(0 <= d0 < s.len() && is_digit(s[d0])) {
        None
    } else {
        let j = digit_run_end(s, d0);
        if s[d0] == '0' && j > d0 + 1 {
            None
        } else {
            let val = digits_val(s.subrange(d0, j)) as int;
            if neg {
                if val > 0x8000000000000000 {
                    None
                } else {
                    Some((JsonValModel::Int(-val), j))
                }
            } else {
                if val > 0x7FFFFFFFFFFFFFFF {
                    None
                } else {
                    Some((JsonValModel::Int(val), j))
                }
            }
        }
    }
}

/// Parses one value starting exactly at `i` (callers skip whitespace).
/// Returns the value and the position just after it.
pub open spec fn parse_value(s: Seq<char>, i: int) -> Option<(JsonValModel, int)>
    decreases s.len() - i, 0int,
{
    if !(0 <= i < s.len()) {
        None
    } else if s[i] == 'n' {
        if i + 4 <= s.len() && s[i + 1] == 'u' && s[i + 2] == 'l' && s[i + 3] == 'l' {
            Some((JsonValModel::Null, i + 4))
        } else {
            None
        }
    } else if s[i] == 't' {
        if i + 4 <= s.len() && s[i + 1] == 'r' && s[i + 2] == 'u' && s[i + 3] == 'e' {
            Some((JsonValModel::Bool(true), i + 4))
        } else {
            None
        }
    } else if s[i] == 'f' {
        if i + 5 <= s.len() && s[i + 1] == 'a' && s[i + 2] == 'l' && s[i + 3] == 's'
            && s[i + 4] == 'e' {
            Some((JsonValModel::Bool(false), i + 5))
        } else {
            None
        }
    } else if s[i] == '"' {
        match parse_string_body(s, i + 1) {
            None => None,
            Some((t, j)) => Some((JsonValModel::Str(t), j)),
        }
    } else if s[i] == '-' || is_digit(s[i]) {
        parse_number(s, i)
    } else if s[i] == '[' {
        let j = skip_ws(s, i + 1);
        if j <= i || j > s.len() {
            None
        } else if j < s.len() && s[j] == ']' {
            Some((JsonValModel::Arr(Seq::empty()), j + 1))
        } else {
            match parse_elems(s, j) {
                None => None,
                Some((elems, k)) => Some((JsonValModel::Arr(elems), k)),
            }
        }
    } else if s[i] == '{' {
        let j = skip_ws(s, i + 1);
        if j <= i || j > s.len() {
            None
        } else if j < s.len() && s[j] == '}' {
            Some((JsonValModel::Obj(Seq::empty()), j + 1))
        } else {
            match parse_members(s, j) {
                None => None,
                Some((entries, k)) => Some((JsonValModel::Obj(entries), k)),
            }
        }
    } else {
        None
    }
}

/// Parses the elements of a non-empty array from the first element on,
/// up to and including the closing bracket. The checks that a position
/// moved forward and stayed in bounds guard termination; a successful
/// inner parse always satisfies them.
pub open spec fn parse_elems(s: Seq<char>, i: int) -> Option<(Seq<JsonValModel>, int)>
    decreases s.len() - i, 1int,
{
    match parse_value(s, i) {
        None => None,
        Some((v, j)) => if j <= i {
            None
        } else {
            let k = skip_ws(s, j);
            if k < j {
                None
            } else if k < s.len() && s[k] == ',' {
                let m = skip_ws(s, k + 1);
                if m < k + 1 || m > s.len() {
                    None
                } else {
                    match parse_elems(s, m) {
                        None => None,
                        Some((t, e)) => Some((seq![v] + t, e)),
                    }
                }
            } else if k < s.len() && s[k] == ']' {
                Some((seq![v], k + 1))
            } else {
                None
            }
        },
    }
}

/// Parses the members of a non-empty object from the first key on,
/// up to and including the closing brace.
pub open spec fn parse_members(s: Seq<char>, i: int) -> Option<(Seq<(Seq<char>, JsonValModel)>, int)>
    decreases s.len() - i, 1int,
{
    if !(0 <= i < s.len() && s[i] == '"') {
        None
    } else {
        match parse_string_body(s, i + 1) {
            None => None,
            Some((key, j)) => if j <= i {
                None
            } else {
                let k = skip_ws(s, j);
                if k < j {
                    None
                } else if !(k < s.len() && s[k] == ':') {
                    None
                } else {
                    let m = skip_ws(s, k + 1);
                    if m < k + 1 || m > s.len() {
                        None
                    } else {
                        match parse_value(s, m) {
                            None => None,
                            Some((v, e)) => if e <= m {
                                None
                            } else {
                                let p = skip_ws(s, e);
                                if p < e {
                                    None
                                } else if p < s.len() && s[p] == ',' {
                                    let q = skip_ws(s, p + 1);
                                    if q < p + 1 || q > s.len() {
                                        None
                                    } else {
                                        match parse_members(s, q) {
                                            None => None,
                                            Some((t, z)) => Some((seq![(key, v)] + t, z)),
                                        }
                                    }
                                } else if p < s.len() && s[p] == '}' {
                                    Some((seq![(key, v)], p + 1))
                                } else {
                                    None
                                }
                            },
                        }
                    }
                }
            },
        }
    }
}

/// Parses a complete JSON text: one value, possibly surrounded by
/// whitespace, with nothing after it.
pub open spec fn spec_parse_text(s: Seq<char>) -> Option<JsonValModel> {
    match parse_value(s, skip_ws(s, 0)) {
        None => None,
        Some((v, j)) => if skip_ws(s, j) == s.len() {
            Some(v)
        } else {
            None
        },
    }
}


// ---------------------------------------------------------------------------
// Executable serializer
// ---------------------------------------------------------------------------

/// Lengths of array element models and element values agree.
pub proof fn lemma_view_elems_len(s: Seq<JsonVal>)
    ensures
        view_of_elems(s).len() == s.len(),
    decreases s,
{
    if s.len() > 0 {
        lemma_view_elems_len(s.drop_last());
    }
}

/// Lengths of object member models and member values agree.
pub proof fn lemma_view_entries_len(s: Seq<(String, JsonVal)>)
    ensures
        view_of_entries(s).len() == s.len(),
    decreases s,
{
    if s.len() > 0 {
        lemma_view_entries_len(s.drop_last());
    }
}

/// The model of an element list indexes pointwise.
pub proof fn lemma_view_elems_index(s: Seq<JsonVal>, k: int)
    requires
        0 <= k < s.len(),
    ensures
        view_of_elems(s).len() == s.len(),
        view_of_elems(s)[k] == view_of(s[k]),
    decreases s,
{
    lemma_view_elems_len(s);
    if k == s.len() - 1 {
        assert(s.last() == s[k]);
    } else {
        lemma_view_elems_index(s.drop_last(), k);
        assert(s.drop_last()[k] == s[k]);
    }
}

/// The upper-case hexadecimal digit character for `d`.
pub fn hex_digit_char(d: u64) -> (c: char)
    requires
        d < 16,
    ensures
        c == hex_digit(d as nat),
{
    if d == 0 { '0' } else if d == 1 { '1' } else if d == 2 { '2' }
    else if d == 3 { '3' } else if d == 4 { '4' } else if d == 5 { '5' }
    else if d == 6 { '6' } else if d == 7 { '7' } else if d == 8 { '8' }
    else if d == 9 { '9' } else if d == 10 { 'A' } else if d == 11 { 'B' }
    else if d == 12 { 'C' } else if d == 13 { 'D' } else if d == 14 { 'E' }
    else { 'F' }
}

/// Appends the decimal digits of `n` to `out`.
pub fn write_dec(n: u64, out: &mut Vec<char>)
    ensures
        final(out)@ == old(out)@ + spec_dec_digits(n as nat),
    decreases n,
{
    if n < 10 {
        out.push(hex_digit_char(n));
    } else {
        write_dec(n / 10, out);
        out.push(hex_digit_char(n % 10));
    }
}

/// Appends the JSON text of an integer to `out`.
pub fn write_int(i: i64, out: &mut Vec<char>)
    ensures
        final(out)@ == old(out)@ + spec_ser_int(i as int),
{
    if i < 0 {
        let mag: u64 = ((-(i + 1)) as u64) + 1;
        assert(mag as nat == (-(i as int)) as nat);
        out.push('-');
        write_dec(mag, out);
        assert(out@ =~= old(out)@ + spec_ser_int(i as int));
    } else {
        write_dec(i as u64, out);
    }
}

/// Appends the escaped body of a string literal to `out`.
pub fn write_escaped(s: &str, out: &mut Vec<char>)
    ensures
        final(out)@ == old(out)@ + spec_escape(s@),
{
    let n: usize = s.unicode_len();
    let mut i: usize = 0;
    while i < n
        invariant
            n == s@.len(),
            i <= n,
            out@ == old(out)@ + spec_escape(s@.take(i as int)),
        decreases n - i,
    {
        let c = s.get_char(i);
        proof {
            assert(s@.take(i + 1 as int).drop_last() =~= s@.take(i as int));
            assert(s@.take(i + 1 as int).last() == s@[i as int]);
        }
        if c == '"' {
            out.push('\\');
            out.push('"');
        } else if c == '\\' {
            out.push('\\');
            out.push('\\');
        } else if (c as u32) < 32 {
            let u: u64 = (c as u32) as u64;
            out.push('\\');
            out.push('u');
            out.push('0');
            out.push('0');
            out.push(hex_digit_char(u / 16));
            out.push(hex_digit_char(u % 16));
        } else {
            out.push(c);
        }
        assert(out@ =~= old(out)@ + spec_escape(s@.take(i + 1 as int)));
        i = i + 1;
    }
    proof {
        assert(s@.take(n as int) =~= s@);
    }
}

/// Appends the JSON text of a string, quotes included, to `out`.
pub fn write_str_lit(s: &str, out: &mut Vec<char>)
    ensures
        final(out)@ == old(out)@ + spec_ser_str(s@),
{
    out.push('"');
    write_escaped(s, out);
    out.push('"');
    assert(out@ =~= old(out)@ + spec_ser_str(s@));
}

/// Appends the JSON text of a value to `out`.
pub fn write_val(v: &JsonVal, out: &mut Vec<char>)
    ensures
        final(out)@ == old(out)@ + spec_ser(v@),
    decreases v,
{
    match v {
        JsonVal::Null => {
            out.push('n');
            out.push('u');
            out.push('l');
            out.push('l');
            assert(out@ =~= old(out)@ + spec_ser(v@));
        },
        JsonVal::Bool(b) => {
            if *b {
                out.push('t');
                out.push('r');
                out.push('u');
                out.push('e');
            } else {
                out.push('f');
                out.push('a');
                out.push('l');
                out.push('s');
                out.push('e');
            }
            assert(out@ =~= old(out)@ + spec_ser(v@));
        },
        JsonVal::Int(i) => {
            write_int(*i, out);
        },
        JsonVal::Str(s) => {
            write_str_lit(s.as_str(), out);
        },
        JsonVal::Arr(elems) => {
            out.push('[');
            let n: usize = elems.len();
            let mut i: usize = 0;
            while i < n
                invariant
                    *v == JsonVal::Arr(*elems),
                    n == elems@.len(),
                    i <= n,
                    out@ == old(out)@ + seq!['['] + spec_ser_elems(view_of_elems(elems@.take(i as int))),
                decreases n - i,
            {
                proof {
                    lemma_view_elems_len(elems@.take(i as int));
                    assert(elems@.take(i + 1 as int).drop_last() =~= elems@.take(i as int));
                    assert(elems@.take(i + 1 as int).last() == elems@[i as int]);
                }
                if i > 0 {
                    out.push(',');
                }
                proof {
                    assert(decreases_to!(*v => v->Arr_0));
                    assert(v->Arr_0 == *elems);
                    assert(decreases_to!(*elems => elems@));
                    assert(decreases_to!(elems@ => elems@[i as int]));
                }
                write_val(&elems[i], out);
                proof {
                    let ve1 = view_of_elems(elems@.take(i + 1 as int));
                    assert(ve1.drop_last() =~= view_of_elems(elems@.take(i as int)));
                    assert(out@ =~= old(out)@ + seq!['['] + spec_ser_elems(ve1));
                }
                i = i + 1;
            }
            out.push(']');
            proof {
                assert(elems@.take(n as int) =~= elems@);
                assert(out@ =~= old(out)@ + spec_ser(v@));
            }
        },
        JsonVal::Obj(entries) => {
            out.push('{');
            let n: usize = entries.len();
            let mut i: usize = 0;
            while i < n
                invariant
                    *v == JsonVal::Obj(*entries),
                    n == entries@.len(),
                    i <= n,
                    out@ == old(out)@ + seq!['{'] + spec_ser_entries(view_of_entries(entries@.take(i as int))),
                decreases n - i,
            {
                proof {
                    lemma_view_entries_len(entries@.take(i as int));
                    assert(entries@.take(i + 1 as int).drop_last() =~= entries@.take(i as int));
                    assert(entries@.take(i + 1 as int).last() == entries@[i as int]);
                }
                if i > 0 {
                    out.push(',');
                }
                write_str_lit(entries[i].0.as_str(), out);
                out.push(':');
                proof {
                    assert(decreases_to!(*v => v->Obj_0));
                    assert(v->Obj_0 == *entries);
                    assert(decreases_to!(*entries => entries@));
                    assert(decreases_to!(entries@ => entries@[i as int]));
                    assert(decreases_to!(entries@[i as int] => entries@[i as int].1));
                }
                write_val(&entries[i].1, out);
                proof {
                    let ve1 = view_of_entries(entries@.take(i + 1 as int));
                    assert(ve1.drop_last() =~= view_of_entries(entries@.take(i as int)));
                    assert(out@ =~= old(out)@ + seq!['{'] + spec_ser_entries(ve1));
                }
                i = i + 1;
            }
            out.push('}');
            proof {
                assert(entries@.take(n as int) =~= entries@);
                assert(out@ =~= old(out)@ + spec_ser(v@));
            }
        },
    }
}

/// The JSON text of a value, as characters.
pub fn to_text(v: &JsonVal) -> (out: Vec<char>)
    ensures
        out@ == spec_ser(v@),
{
    let mut out: Vec<char> = Vec::new();
    write_val(v, &mut out);
    out
}


// ---------------------------------------------------------------------------
// Executable parser
// ---------------------------------------------------------------------------

/// Relies on `String: FromIterator<char>`: collecting characters yields the
/// string of exactly those characters, in order.
#[verifier::external_body]
pub(crate) fn chars_into_string(v: &Vec<char>) -> (r: String)
    ensures
        r@ == v@,
{
    v.iter().collect()
}

/// Relies on `char::from_u32`: it returns the character with the given
/// code exactly when the code is a Unicode scalar value.
pub assume_specification[ char::from_u32 ](i: u32) -> (r: Option<char>)
    ensures
        ((i < 0xD800 || (0xE000 <= i && i <= 0x10FFFF)) <==> r is Some),
        (match r {
            Some(c) => c as u32 == i,
            None => true,
        }),
;

/// The character with the given Unicode scalar value.
pub(crate) fn scalar_char(u: u32) -> (c: char)
    requires
        u < 0xD800 || (0xE000 <= u && u <= 0x10FFFF),
    ensures
        c as u32 == u,
        c == ((u as int) as u32) as char,
{
    let c = char::from_u32(u).unwrap();
    proof {
        vstd::utf8::char_u32_cast(c, u);
    }
    c
}

/// The value of a hexadecimal digit character, or 16 for any other.
fn hex_val_char(c: char) -> (r: u8)
    ensures
        r as nat == hex_val(c),
{
    let u: u32 = c as u32;
    if 48 <= u && u <= 57 {
        (u - 48) as u8
    } else if 65 <= u && u <= 70 {
        (u - 55) as u8
    } else if 97 <= u && u <= 102 {
        (u - 87) as u8
    } else {
        16
    }
}

/// The value of the four hexadecimal digits at `j`, if they are there.
fn hex4_at(s: &Vec<char>, j: usize) -> (r: Option<u32>)
    ensures
        (match hex4(s@, j as int) {
            None => r is None,
            Some(n) => r == Some(n as u32),
        }),
{
    if j <= s.len() && s.len() - j >= 4 {
        let h0 = hex_val_char(s[j]);
        let h1 = hex_val_char(s[j + 1]);
        let h2 = hex_val_char(s[j + 2]);
        let h3 = hex_val_char(s[j + 3]);
        if h0 < 16 && h1 < 16 && h2 < 16 && h3 < 16 {
            Some((h0 as u32) * 4096 + (h1 as u32) * 256 + (h2 as u32) * 16 + (h3 as u32))
        } else {
            None
        }
    } else {
        None
    }
}

fn unescape_char_exec(c: char) -> (r: Option<char>)
    ensures
        r == unescape_char(c),
{
    if c == '"' { Some('"') }
    else if c == '\\' { Some('\\') }
    else if c == '/' { Some('/') }
    else if c == 'b' { Some('\u{8}') }
    else if c == 'f' { Some('\u{c}') }
    else if c == 'n' { Some('\n') }
    else if c == 'r' { Some('\r') }
    else if c == 't' { Some('\t') }
    else { None }
}

/// The first position at or after `i` that does not hold whitespace.
fn find_ws_end(s: &Vec<char>, i: usize) -> (r: usize)
    requires
        i <= s@.len(),
    ensures
        r as int == skip_ws(s@, i as int),
        i <= r <= s@.len(),
{
    let mut r: usize = i;
    while r < s.len() && (s[r] == ' ' || s[r] == '\t' || s[r] == '\n' || s[r] == '\r')
        invariant
            i <= r <= s@.len(),
            skip_ws(s@, i as int) == skip_ws(s@, r as int),
        decreases s@.len() - r,
    {
        r = r + 1;
    }
    r
}

/// Parses the body of a string literal starting at `i`, just after the
/// opening quote, as `parse_string_body` describes.
#[verifier::rlimit(80)]
fn parse_string_at(s: &Vec<char>, i: usize) -> (r: Option<(String, usize)>)
    requires
        i <= s@.len(),
    ensures
        (match parse_string_body(s@, i as int) {
            None => r is None,
            Some((t, j)) => (match r {
                None => false,
                Some((rs, rj)) => rs@ == t && rj as int == j && i < rj <= s@.len(),
            }),
        }),
{
    let mut acc: Vec<char> = Vec::new();
    let mut cur: usize = i;
    loop
        invariant
            i <= cur <= s@.len(),
            (match parse_string_body(s@, cur as int) {
                None => parse_string_body(s@, i as int) is None,
                Some((t, j)) => parse_string_body(s@, i as int) == Some((acc@ + t, j)),
            }),
        decreases s@.len() - cur,
    {
        if cur >= s.len() {
            return None;
        }
        let c = s[cur];
        if c == '"' {
            let out = chars_into_string(&acc);
            proof {
                assert(acc@ + Seq::<char>::empty() =~= acc@);
            }
            return Some((out, cur + 1));
        } else if c == '\\' {
            if s.len() - cur < 2 {
                return None;
            }
            let c1 = s[cur + 1];
            if c1 == 'u' {
                match hex4_at(s, cur + 2) {
                    None => {
                        return None;
                    },
                    Some(n) => {
                        if 0xD800 <= n && n < 0xDC00 {
                            if s.len() - cur >= 12 && s[cur + 6] == '\\' && s[cur + 7] == 'u' {
                                match hex4_at(s, cur + 8) {
                                    None => {
                                        return None;
                                    },
                                    Some(m) => {
                                        if 0xDC00 <= m && m < 0xE000 {
                                            let code: u32 = 0x10000 + (n - 0xD800) * 0x400 + (m - 0xDC00);
                                            let c2 = scalar_char(code);
                                            let ghost acc0 = acc@;
                                            acc.push(c2);
                                            proof {
                                                let nsp = hex4(s@, cur + 2)->0;
                                                let msp = hex4(s@, cur + 8)->0;
                                                assert(nsp as u32 == n && msp as u32 == m);
                                                assert(0x10000 + (nsp - 0xD800) * 0x400 + (msp - 0xDC00) == code as int);
                                                assert(((0x10000 + (nsp - 0xD800) * 0x400 + (msp - 0xDC00)) as u32) as char == c2);
                                                step_string_invariant(s@, i as int, cur as int, acc0, seq![c2], cur + 12);
                                            }
                                            cur = cur + 12;
                                        } else {
                                            return None;
                                        }
                                    },
                                }
                            } else {
                                return None;
                            }
                        } else if 0xDC00 <= n && n < 0xE000 {
                            return None;
                        } else if cur + 6 <= s.len() {
                            let c2 = scalar_char(n);
                            let ghost acc0 = acc@;
                            acc.push(c2);
                            proof {
                                let nsp = hex4(s@, cur + 2)->0;
                                assert(nsp as u32 == n);
                                assert((nsp as u32) as char == c2);
                                step_string_invariant(s@, i as int, cur as int, acc0, seq![c2], cur + 6);
                            }
                            cur = cur + 6;
                        } else {
                            return None;
                        }
                    },
                }
            } else {
                match unescape_char_exec(c1) {
                    None => {
                        return None;
                    },
                    Some(c2) => {
                        let ghost acc0 = acc@;
                        acc.push(c2);
                        proof {
                            step_string_invariant(s@, i as int, cur as int, acc0, seq![c2], cur + 2);
                        }
                        cur = cur + 2;
                    },
                }
            }
        } else if (c as u32) < 32 {
            return None;
        } else {
            let ghost acc0 = acc@;
            acc.push(c);
            proof {
                step_string_invariant(s@, i as int, cur as int, acc0, seq![c], cur + 1);
            }
            cur = cur + 1;
        }
    }
}

/// Carries the string-scanning invariant across one consumed character:
/// if scanning from `cur` yields one more character `c` and continues at
/// `nxt`, the accumulated prefix grows by `c`.
proof fn step_string_invariant(s: Seq<char>, i: int, cur: int, acc: Seq<char>, c: Seq<char>, nxt: int)
    requires
        (match parse_string_body(s, cur) {
            None => parse_string_body(s, i) is None,
            Some((t, j)) => parse_string_body(s, i) == Some((acc + t, j)),
        }),
        (match parse_string_body(s, nxt) {
            None => parse_string_body(s, cur) is None,
            Some((t, j)) => parse_string_body(s, cur) == Some((c + t, j)),
        }),
    ensures
        (match parse_string_body(s, nxt) {
            None => parse_string_body(s, i) is None,
            Some((t, j)) => parse_string_body(s, i) == Some(((acc + c) + t, j)),
        }),
{
    match parse_string_body(s, nxt) {
        None => {},
        Some((t, j)) => {
            assert(acc + (c + t) =~= (acc + c) + t);
        },
    }
}

/// A successful string-body parse always moves forward and stays in bounds.
pub proof fn lemma_string_body_advances(s: Seq<char>, i: int)
    ensures
        (match parse_string_body(s, i) {
            None => true,
            Some((t, j)) => i < j <= s.len(),
        }),
    decreases s.len() - i,
{
    if 0 <= i < s.len() {
        if s[i] == '"' {
        } else if s[i] == '\\' {
            if i + 2 > s.len() {
            } else if s[i + 1] == 'u' {
                if i + 6 <= s.len() {
                    lemma_string_body_advances(s, i + 6);
                }
                if i + 12 <= s.len() {
                    lemma_string_body_advances(s, i + 12);
                }
            } else {
                lemma_string_body_advances(s, i + 2);
            }
        } else if (s[i] as u32) < 32 {
        } else {
            lemma_string_body_advances(s, i + 1);
        }
    }
}

fn is_digit_char(c: char) -> (b: bool)
    ensures
        b == is_digit(c),
{
    let u: u32 = c as u32;
    48 <= u && u <= 57
}

/// Every position inside a digit run holds a digit, and the run stays in
/// bounds.
pub proof fn lemma_digit_run(s: Seq<char>, i: int)
    requires
        0 <= i <= s.len(),
    ensures
        i <= digit_run_end(s, i) <= s.len(),
        forall|p: int| i <= p < digit_run_end(s, i) ==> is_digit(s[p]),
    decreases s.len() - i,
{
    if i < s.len() && is_digit(s[i]) {
        lemma_digit_run(s, i + 1);
    }
}

/// A digit prefix never exceeds the value of the whole digit sequence.
pub proof fn lemma_digits_val_prefix_le(t: Seq<char>, i: int)
    requires
        0 <= i <= t.len(),
    ensures
        digits_val(t.take(i)) <= digits_val(t),
    decreases t.len() - i,
{
    if i == t.len() {
        assert(t.take(i) =~= t);
    } else {
        lemma_digits_val_prefix_le(t, i + 1);
        assert(t.take(i + 1).drop_last() =~= t.take(i));
        assert(digits_val(t.take(i + 1)) == digits_val(t.take(i)) * 10 + digit_val(t.take(i + 1).last()));
    }
}

/// Parses a number starting at `i`, as `parse_number` describes.
#[verifier::rlimit(80)]
fn parse_number_at(s: &Vec<char>, i: usize) -> (r: Option<(JsonVal, usize)>)
    requires
        i <= s@.len(),
    ensures
        (match parse_number(s@, i as int) {
            None => r is None,
            Some((m, j)) => (match r {
                None => false,
                Some((v, rj)) => v@ == m && rj as int == j && i < rj <= s@.len(),
            }),
        }),
{
    let neg: bool = i < s.len() && s[i] == '-';
    let d0: usize = if neg { i + 1 } else { i };
    if !(d0 < s.len() && is_digit_char(s[d0])) {
        return None;
    }
    let mut re: usize = d0;
    while re < s.len() && is_digit_char(s[re])
        invariant
            d0 <= re <= s@.len(),
            digit_run_end(s@, d0 as int) == digit_run_end(s@, re as int),
        decreases s@.len() - re,
    {
        re = re + 1;
    }
    proof {
        lemma_digit_run(s@, d0 as int);
        lemma_digit_run(s@, d0 + 1);
    }
    if s[d0] == '0' && re > d0 + 1 {
        return None;
    }
    let limit: u64 = if neg { 0x8000000000000000 } else { 0x7FFFFFFFFFFFFFFF };
    let ghost run = s@.subrange(d0 as int, re as int);
    let mut val: u64 = 0;
    let mut k: usize = d0;
    while k < re
        invariant
            i <= s@.len(),
            neg == (i < s@.len() && s@[i as int] == '-'),
            d0 as int == (if neg { i + 1 } else { i as int }),
            d0 < s@.len(),
            is_digit(s@[d0 as int]),
            !(s@[d0 as int] == '0' && re > d0 + 1),
            d0 <= k <= re <= s@.len(),
            re as int == digit_run_end(s@, d0 as int),
            d0 < re,
            forall|p: int| d0 <= p < re ==> is_digit(s@[p]),
            run == s@.subrange(d0 as int, re as int),
            val as nat == digits_val(s@.subrange(d0 as int, k as int)),
            val <= limit,
            limit == (if neg { 0x8000000000000000u64 } else { 0x7FFFFFFFFFFFFFFFu64 }),
        decreases re - k,
    {
        let d: u64 = ((s[k] as u32) - 48) as u64;
        proof {
            assert(s@.subrange(d0 as int, k + 1).drop_last() =~= s@.subrange(d0 as int, k as int));
            assert(digits_val(s@.subrange(d0 as int, k + 1)) == val * 10 + d);
        }
        if val > (limit - d) / 10 {
            proof {
                assert(val * 10 + d > limit);
                lemma_digits_val_prefix_le(run, k + 1 - d0);
                assert(run.take(k + 1 - d0) =~= s@.subrange(d0 as int, k + 1));
                assert(digits_val(run) > limit);
            }
            return None;
        }
        val = val * 10 + d;
        k = k + 1;
    }
    proof {
        assert(s@.subrange(d0 as int, k as int) =~= run);
    }
    if neg {
        let iv: i64 = if val == 0x8000000000000000 {
            i64::MIN
        } else {
            -(val as i64)
        };
        Some((JsonVal::Int(iv), re))
    } else {
        Some((JsonVal::Int(val as i64), re))
    }
}

/// Parses one value starting exactly at `i`, as `parse_value` describes.
#[verifier::rlimit(80)]
fn parse_value_at(s: &Vec<char>, i: usize) -> (r: Option<(JsonVal, usize)>)
    requires
        i <= s@.len(),
    ensures
        (match parse_value(s@, i as int) {
            None => r is None,
            Some((m, j)) => (match r {
                None => false,
                Some((v, rj)) => v@ == m && rj as int == j && i < rj <= s@.len(),
            }),
        }),
    decreases s@.len() - i, 0int,
{
    if i >= s.len() {
        return None;
    }
    let c = s[i];
    if c == 'n' {
        if s.len() - i >= 4 && s[i + 1] == 'u' && s[i + 2] == 'l' && s[i + 3] == 'l' {
            Some((JsonVal::Null, i + 4))
        } else {
            None
        }
    } else if c == 't' {
        if s.len() - i >= 4 && s[i + 1] == 'r' && s[i + 2] == 'u' && s[i + 3] == 'e' {
            Some((JsonVal::Bool(true), i + 4))
        } else {
            None
        }
    } else if c == 'f' {
        if s.len() - i >= 5 && s[i + 1] == 'a' && s[i + 2] == 'l' && s[i + 3] == 's'
            && s[i + 4] == 'e' {
            Some((JsonVal::Bool(false), i + 5))
        } else {
            None
        }
    } else if c == '"' {
        proof {
            lemma_string_body_advances(s@, i + 1);
        }
        match parse_string_at(s, i + 1) {
            None => None,
            Some((t, j)) => Some((JsonVal::Str(t), j)),
        }
    } else if c == '-' || is_digit_char(c) {
        parse_number_at(s, i)
    } else if c == '[' {
        let j = find_ws_end(s, i + 1);
        if j < s.len() && s[j] == ']' {
            proof {
                assert(view_of_elems(Seq::<JsonVal>::empty()) =~= Seq::<JsonValModel>::empty());
            }
            Some((JsonVal::Arr(Vec::new()), j + 1))
        } else {
            match parse_elems_at(s, j) {
                None => None,
                Some((elems, e)) => Some((JsonVal::Arr(elems), e)),
            }
        }
    } else if c == '{' {
        let j = find_ws_end(s, i + 1);
        if j < s.len() && s[j] == '}' {
            proof {
                assert(view_of_entries(Seq::<(String, JsonVal)>::empty())
                    =~= Seq::<(Seq<char>, JsonValModel)>::empty());
            }
            Some((JsonVal::Obj(Vec::new()), j + 1))
        } else {
            match parse_members_at(s, j) {
                None => None,
                Some((entries, e)) => Some((JsonVal::Obj(entries), e)),
            }
        }
    } else {
        None
    }
}

/// Parses the elements of a non-empty array, as `parse_elems` describes.
#[verifier::rlimit(80)]
fn parse_elems_at(s: &Vec<char>, i: usize) -> (r: Option<(Vec<JsonVal>, usize)>)
    requires
        i <= s@.len(),
    ensures
        (match parse_elems(s@, i as int) {
            None => r is None,
            Some((t, e)) => (match r {
                None => false,
                Some((vs, re_)) => view_of_elems(vs@) == t && re_ as int == e && i < re_ <= s@.len(),
            }),
        }),
    decreases s@.len() - i, 1int,
{
    let mut acc: Vec<JsonVal> = Vec::new();
    let mut cur: usize = i;
    proof {
        match parse_elems(s@, i as int) {
            None => {},
            Some((t, e)) => {
                assert(view_of_elems(acc@) + t =~= t);
            },
        }
    }
    loop
        invariant
            i <= cur <= s@.len(),
            (match parse_elems(s@, cur as int) {
                None => parse_elems(s@, i as int) is None,
                Some((t, e)) => parse_elems(s@, i as int)
                    == Some((view_of_elems(acc@) + t, e)),
            }),
        decreases s@.len() - cur,
    {
        match parse_value_at(s, cur) {
            None => {
                return None;
            },
            Some((v, j)) => {
                let ghost acc0 = acc@;
                acc.push(v);
                proof {
                    assert(acc@.drop_last() =~= acc0);
                    assert(view_of_elems(acc@) =~= view_of_elems(acc0).push(v@));
                }
                let k = find_ws_end(s, j);
                if k < s.len() && s[k] == ',' {
                    let m = find_ws_end(s, k + 1);
                    proof {
                        step_elems_invariant(s@, i as int, cur as int, m as int,
                            view_of_elems(acc0), v@);
                    }
                    cur = m;
                } else if k < s.len() && s[k] == ']' {
                    proof {
                        assert(view_of_elems(acc0) + seq![v@] =~= view_of_elems(acc@));
                    }
                    return Some((acc, k + 1));
                } else {
                    return None;
                }
            },
        }
    }
}

/// Carries the array-scanning invariant across one parsed element.
proof fn step_elems_invariant(s: Seq<char>, i: int, cur: int, nxt: int, acc: Seq<JsonValModel>, v: JsonValModel)
    requires
        (match parse_elems(s, cur) {
            None => parse_elems(s, i) is None,
            Some((t, e)) => parse_elems(s, i) == Some((acc + t, e)),
        }),
        (match parse_elems(s, nxt) {
            None => parse_elems(s, cur) is None,
            Some((t, e)) => parse_elems(s, cur) == Some((seq![v] + t, e)),
        }),
    ensures
        (match parse_elems(s, nxt) {
            None => parse_elems(s, i) is None,
            Some((t, e)) => parse_elems(s, i) == Some(((acc.push(v)) + t, e)),
        }),
{
    match parse_elems(s, nxt) {
        None => {},
        Some((t, e)) => {
            assert(acc + (seq![v] + t) =~= (acc.push(v)) + t);
        },
    }
}

/// Parses the members of a non-empty object, as `parse_members` describes.
#[verifier::rlimit(80)]
fn parse_members_at(s: &Vec<char>, i: usize) -> (r: Option<(Vec<(String, JsonVal)>, usize)>)
    requires
        i <= s@.len(),
    ensures
        (match parse_members(s@, i as int) {
            None => r is None,
            Some((t, e)) => (match r {
                None => false,
                Some((vs, re_)) => view_of_entries(vs@) == t && re_ as int == e && i < re_ <= s@.len(),
            }),
        }),
    decreases s@.len() - i, 1int,
{
    let mut acc: Vec<(String, JsonVal)> = Vec::new();
    let mut cur: usize = i;
    proof {
        match parse_members(s@, i as int) {
            None => {},
            Some((t, e)) => {
                assert(view_of_entries(acc@) + t =~= t);
            },
        }
    }
    loop
        invariant
            i <= cur <= s@.len(),
            (match parse_members(s@, cur as int) {
                None => parse_members(s@, i as int) is None,
                Some((t, e)) => parse_members(s@, i as int)
                    == Some((view_of_entries(acc@) + t, e)),
            }),
        decreases s@.len() - cur,
    {
        if !(cur < s.len() && s[cur] == '"') {
            return None;
        }
        proof {
            lemma_string_body_advances(s@, cur + 1);
        }
        match parse_string_at(s, cur + 1) {
            None => {
                return None;
            },
            Some((key, j)) => {
                let k = find_ws_end(s, j);
                if !(k < s.len() && s[k] == ':') {
                    return None;
                }
                let m = find_ws_end(s, k + 1);
                match parse_value_at(s, m) {
                    None => {
                        return None;
                    },
                    Some((v, e)) => {
                        let ghost acc0 = acc@;
                        let ghost kv = (key@, v@);
                        acc.push((key, v));
                        proof {
                            assert(acc@.drop_last() =~= acc0);
                            assert(view_of_entries(acc@) =~= view_of_entries(acc0).push(kv));
                        }
                        let p = find_ws_end(s, e);
                        if p < s.len() && s[p] == ',' {
                            let q = find_ws_end(s, p + 1);
                            proof {
                                step_members_invariant(s@, i as int, cur as int, q as int,
                                    view_of_entries(acc0), kv);
                            }
                            cur = q;
                        } else if p < s.len() && s[p] == '}' {
                            proof {
                                assert(view_of_entries(acc0) + seq![kv] =~= view_of_entries(acc@));
                            }
                            return Some((acc, p + 1));
                        } else {
                            return None;
                        }
                    },
                }
            },
        }
    }
}

/// Carries the object-scanning invariant across one parsed member.
proof fn step_members_invariant(s: Seq<char>, i: int, cur: int, nxt: int,
    acc: Seq<(Seq<char>, JsonValModel)>, kv: (Seq<char>, JsonValModel))
    requires
        (match parse_members(s, cur) {
            None => parse_members(s, i) is None,
            Some((t, e)) => parse_members(s, i) == Some((acc + t, e)),
        }),
        (match parse_members(s, nxt) {
            None => parse_members(s, cur) is None,
            Some((t, e)) => parse_members(s, cur) == Some((seq![kv] + t, e)),
        }),
    ensures
        (match parse_members(s, nxt) {
            None => parse_members(s, i) is None,
            Some((t, e)) => parse_members(s, i) == Some(((acc.push(kv)) + t, e)),
        }),
{
    match parse_members(s, nxt) {
        None => {},
        Some((t, e)) => {
            assert(acc + (seq![kv] + t) =~= (acc.push(kv)) + t);
        },
    }
}

/// Parses a complete JSON text, as `spec_parse_text` describes.
pub fn parse_text(s: &Vec<char>) -> (r: Option<JsonVal>)
    ensures
        (match spec_parse_text(s@) {
            None => r is None,
            Some(m) => (match r {
                None => false,
                Some(v) => v@ == m,
            }),
        }),
{
    let i = find_ws_end(s, 0);
    match parse_value_at(s, i) {
        None => None,
        Some((v, j)) => {
            let k = find_ws_end(s, j);
            if k == s.len() {
                Some(v)
            } else {
                None
            }
        },
    }
}

// ---------------------------------------------------------------------------
// Round trip: parsing reads back exactly what serialization wrote
// ---------------------------------------------------------------------------

/// Relates the characters of a suffix of `s` to a decomposition of that
/// suffix into two parts.
proof fn lemma_suffix_index(s: Seq<char>, i: int, a: Seq<char>, b: Seq<char>)
    requires
        0 <= i <= s.len(),
        s.subrange(i, s.len() as int) == a + b,
    ensures
        s.len() - i == a.len() + b.len(),
        forall|p: int| 0 <= p < a.len() ==> s[i + p] == a[p],
        forall|p: int| 0 <= p < b.len() ==> s[i + a.len() + p] == b[p],
        a.len() > 0 ==> s[i] == a[0],
        b.len() > 0 ==> s[i + a.len()] == b[0],
{
    assert(s.subrange(i, s.len() as int).len() == s.len() - i);
    if a.len() > 0 {
        assert(s.subrange(i, s.len() as int)[0] == s[i + 0]);
        assert((a + b)[0] == a[0]);
    }
    if b.len() > 0 {
        assert(s.subrange(i, s.len() as int)[a.len() as int] == s[i + a.len()]);
        assert((a + b)[a.len() as int] == b[0]);
    }
    assert(forall|p: int| 0 <= p < a.len() ==> (a + b)[p] == a[p]);
    assert(forall|p: int| 0 <= p < b.len() ==> (a + b)[a.len() + p] == b[p]);
    assert(forall|p: int| 0 <= p < a.len()
        ==> s[i + p] == #[trigger] s.subrange(i, s.len() as int)[p]);
    assert(forall|p: int| 0 <= p < b.len()
        ==> s[i + a.len() + p] == #[trigger] s.subrange(i, s.len() as int)[a.len() + p]);
}

/// Decimal serialization produces at least one digit, no other characters,
/// the exact value, and a leading zero only for zero itself.
pub proof fn lemma_dec_digits(n: nat)
    ensures
        spec_dec_digits(n).len() >= 1,
        forall|p: int| 0 <= p < spec_dec_digits(n).len() ==> is_digit(#[trigger] spec_dec_digits(n)[p]),
        digits_val(spec_dec_digits(n)) == n,
        spec_dec_digits(n)[0] == '0' ==> n == 0,
        n == 0 ==> spec_dec_digits(n) =~= seq!['0'],
    decreases n,
{
    if n < 10 {
        let one = spec_dec_digits(n);
        assert(one.drop_last() =~= Seq::<char>::empty());
        assert(one.last() == dec_digit(n));
        assert(digits_val(one) == digits_val(Seq::<char>::empty()) * 10 + digit_val(dec_digit(n)));
    } else {
        lemma_dec_digits(n / 10);
        let whole = spec_dec_digits(n);
        assert(whole.drop_last() =~= spec_dec_digits(n / 10));
        assert(digits_val(whole) == digits_val(spec_dec_digits(n / 10)) * 10 + digit_val(dec_digit(n % 10)));
        assert(whole[0] == spec_dec_digits(n / 10)[0]);
    }
}

/// A run of digits followed by a non-digit (or the end) ends exactly there.
proof fn lemma_digit_run_end_of(s: Seq<char>, i: int, k: int)
    requires
        0 <= i <= k <= s.len(),
        forall|p: int| i <= p < k ==> is_digit(#[trigger] s[p]),
        k == s.len() || !is_digit(s[k]),
    ensures
        digit_run_end(s, i) == k,
    decreases k - i,
{
    if i < k {
        lemma_digit_run_end_of(s, i + 1, k);
    }
}

/// Parsing a serialized integer yields that integer back and stops at its
/// end, provided no digit follows it.
proof fn lemma_parse_number_of_ser(s: Seq<char>, i: int, v: int, rest: Seq<char>)
    requires
        i64::MIN <= v <= i64::MAX,
        0 <= i <= s.len(),
        s.subrange(i, s.len() as int) =~= spec_ser_int(v) + rest,
        rest.len() > 0 ==> !is_digit(rest[0]),
    ensures
        parse_number(s, i) == Some((JsonValModel::Int(v), i + spec_ser_int(v).len())),
{
    let mag: nat = if v < 0 { (-v) as nat } else { v as nat };
    let digs = spec_dec_digits(mag);
    lemma_dec_digits(mag);
    let d0: int = if v < 0 { i + 1 } else { i };
    let ser = spec_ser_int(v);
    lemma_suffix_index(s, i, ser, rest);
    if v < 0 {
        assert(ser =~= seq!['-'] + digs);
        assert(s[i] == ser[0]);
        assert(ser[0] == '-');
        assert(!is_digit('-'));
    } else {
        assert(s[i] == ser[0]);
        assert(ser[0] == digs[0]);
    }
    assert(forall|p: int| 0 <= p < digs.len() ==> s[d0 + p] == digs[p]) by {
        assert(forall|p: int| 0 <= p < digs.len() ==> digs[p] == ser[p + d0 - i]);
    }
    assert(forall|p: int| d0 <= p < d0 + digs.len() ==> is_digit(#[trigger] s[p])) by {
        assert(forall|p: int| d0 <= p < d0 + digs.len() ==> s[p] == digs[p - d0]);
    }
    let k = d0 + digs.len();
    assert(k == s.len() || !is_digit(s[k])) by {
        if k < s.len() {
            assert(rest.len() > 0);
            assert(s[i + ser.len() + 0] == rest[0]);
        }
    }
    lemma_digit_run_end_of(s, d0, k);
    assert(s.subrange(d0, k) =~= digs);
    assert(digits_val(s.subrange(d0, k)) == mag);
    assert(mag <= 0x8000000000000000);
    if v >= 0 {
        assert(mag <= 0x7FFFFFFFFFFFFFFF);
    }
    if s[d0] == '0' {
        assert(digs[0] == '0');
        assert(mag == 0);
        assert(k == d0 + 1);
    }
}

/// Escaping distributes over concatenation.
proof fn lemma_escape_distrib(a: Seq<char>, b: Seq<char>)
    ensures
        spec_escape(a + b) == spec_escape(a) + spec_escape(b),
    decreases b.len(),
{
    if b.len() == 0 {
        assert(a + b =~= a);
        assert(spec_escape(a) + spec_escape(b) =~= spec_escape(a));
    } else {
        lemma_escape_distrib(a, b.drop_last());
        assert((a + b).drop_last() =~= a + b.drop_last());
        assert((a + b).last() == b.last());
        assert(spec_escape(a) + (spec_escape(b.drop_last()) + spec_escape_char(b.last()))
            =~= (spec_escape(a) + spec_escape(b.drop_last())) + spec_escape_char(b.last()));
    }
}

/// One leading character of an escaped body.
proof fn lemma_escape_first(strv: Seq<char>)
    requires
        strv.len() > 0,
    ensures
        spec_escape(strv) == spec_escape_char(strv[0]) + spec_escape(strv.drop_first()),
{
    assert(strv =~= strv.take(1) + strv.skip(1));
    lemma_escape_distrib(strv.take(1), strv.skip(1));
    assert(strv.take(1).drop_last() =~= Seq::<char>::empty());
    assert(strv.take(1).last() == strv[0]);
    assert(spec_escape(Seq::<char>::empty()) + spec_escape_char(strv[0])
        =~= spec_escape_char(strv[0]));
    assert(spec_escape(strv.take(1)) == spec_escape_char(strv[0]));
    assert(strv.skip(1) =~= strv.drop_first());
}

/// Hexadecimal digits round-trip through their character form.
proof fn lemma_hex_digit_val(d: nat)
    requires
        d < 16,
    ensures
        hex_val(hex_digit(d)) == d,
        is_hex_digit(hex_digit(d)),
{
}

/// Parsing a string-literal body that was produced by escaping yields the
/// characters that were escaped and stops just after the closing quote.
#[verifier::rlimit(100)]
proof fn lemma_parse_string_of_escape(s: Seq<char>, i: int, strv: Seq<char>, rest: Seq<char>)
    requires
        0 <= i <= s.len(),
        s.subrange(i, s.len() as int) =~= spec_escape(strv) + seq!['"'] + rest,
    ensures
        parse_string_body(s, i) == Some((strv, i + spec_escape(strv).len() + 1)),
    decreases strv.len(),
{
    let esc = spec_escape(strv);
    lemma_suffix_index(s, i, esc + seq!['"'], rest);
    assert(forall|p: int| 0 <= p < esc.len() ==> s[i + p] == esc[p]) by {
        assert(forall|p: int| 0 <= p < esc.len()
            ==> (esc + seq!['"'])[p] == esc[p]);
    }
    assert(s[i + esc.len()] == '"') by {
        assert((esc + seq!['"'])[esc.len() as int] == '"');
    }
    if strv.len() == 0 {
        assert(s[i] == '"');
    } else {
        let c = strv[0];
        let tail = strv.drop_first();
        lemma_escape_first(strv);
        let ec = spec_escape_char(c);
        assert(esc =~= ec + spec_escape(tail));
        assert(forall|p: int| 0 <= p < ec.len() ==> s[i + p] == ec[p]) by {
            assert(forall|p: int| 0 <= p < ec.len() ==> esc[p] == ec[p]);
        }
        let inxt = i + ec.len();
        assert(s.subrange(inxt, s.len() as int) =~= spec_escape(tail) + seq!['"'] + rest) by {
            assert(s.subrange(inxt, s.len() as int).len() == s.len() - inxt);
            assert(forall|p: int| 0 <= p < s.len() - inxt
                ==> #[trigger] s.subrange(inxt, s.len() as int)[p] == s[inxt + p]);
            assert(forall|p: int| 0 <= p < esc.len() - ec.len()
                ==> spec_escape(tail)[p] == esc[ec.len() + p]);
        }
        lemma_parse_string_of_escape(s, inxt, tail, rest);
        if c == '"' {
            assert(s[i] == '\\' && s[i + 1] == '"');
            assert(seq!['"'] + tail =~= strv);
        } else if c == '\\' {
            assert(s[i] == '\\' && s[i + 1] == '\\');
            assert(seq!['\\'] + tail =~= strv);
        } else if (c as u32) < 32 {
            let hi = hex_digit((c as u32 / 16) as nat);
            let lo = hex_digit((c as u32 % 16) as nat);
            lemma_hex_digit_val((c as u32 / 16) as nat);
            lemma_hex_digit_val((c as u32 % 16) as nat);
            assert(s[i] == '\\' && s[i + 1] == 'u' && s[i + 2] == '0' && s[i + 3] == '0'
                && s[i + 4] == hi && s[i + 5] == lo);
            let n = hex_val('0') * 4096 + hex_val('0') * 256 + hex_val(hi) * 16 + hex_val(lo) as int;
            assert(hex4(s, i + 2) == Some(n));
            assert(n == c as u32);
            assert(((n as u32) as char) == c) by {
                vstd::utf8::char_u32_cast(c, n as u32);
            }
            assert(seq![c] + tail =~= strv);
        } else {
            assert(s[i + 0] == ec[0]);
            assert(ec[0] == c);
            assert(seq![c] + tail =~= strv);
        }
    }
}



/// Dropping a leading part of a decomposed suffix leaves the rest.
proof fn lemma_suffix_shift(s: Seq<char>, i: int, a: Seq<char>, b: Seq<char>)
    requires
        0 <= i <= s.len(),
        s.subrange(i, s.len() as int) == a + b,
    ensures
        i + a.len() <= s.len(),
        s.subrange(i + a.len(), s.len() as int) == b,
{
    lemma_suffix_index(s, i, a, b);
    let j = i + a.len();
    assert(s.subrange(j, s.len() as int).len() == s.len() - j);
    assert(forall|p: int| 0 <= p < b.len()
        ==> #[trigger] s.subrange(j, s.len() as int)[p] == s[j + p]);
    assert(s.subrange(j, s.len() as int) =~= b);
}

/// The serialized form of a non-empty element list, seen from the left.
proof fn lemma_ser_elems_left(elems: Seq<JsonValModel>)
    requires
        elems.len() > 0,
    ensures
        spec_ser_elems(elems) == spec_ser(elems[0]) + (if elems.len() == 1 {
            Seq::<char>::empty()
        } else {
            seq![','] + spec_ser_elems(elems.drop_first())
        }),
    decreases elems.len(),
{
    if elems.len() == 1 {
        assert(elems.last() == elems[0]);
        assert(spec_ser(elems[0]) + Seq::<char>::empty() =~= spec_ser(elems[0]));
    } else {
        lemma_ser_elems_left(elems.drop_last());
        assert(elems.drop_last()[0] == elems[0]);
        assert(elems.drop_first().last() == elems.last());
        if elems.len() == 2 {
            assert(elems.drop_first() =~= seq![elems.last()]);
            assert(spec_ser_elems(elems.drop_first()) == spec_ser(elems.last()));
            assert(spec_ser(elems[0]) + Seq::<char>::empty() =~= spec_ser(elems[0]));
            assert((spec_ser(elems[0]) + Seq::<char>::empty()) + seq![','] + spec_ser(elems.last())
                =~= spec_ser(elems[0]) + (seq![','] + spec_ser_elems(elems.drop_first())));
        } else {
            assert(elems.drop_last().drop_first() =~= elems.drop_first().drop_last());
            assert((spec_ser(elems[0]) + (seq![','] + spec_ser_elems(elems.drop_last().drop_first())))
                + seq![','] + spec_ser(elems.last())
                =~= spec_ser(elems[0]) + (seq![','] + (spec_ser_elems(elems.drop_first().drop_last())
                    + seq![','] + spec_ser(elems.drop_first().last()))));
        }
    }
}

/// The serialized form of a non-empty member list, seen from the left.
proof fn lemma_ser_entries_left(entries: Seq<(Seq<char>, JsonValModel)>)
    requires
        entries.len() > 0,
    ensures
        spec_ser_entries(entries) == spec_ser_str(entries[0].0) + seq![':'] + spec_ser(entries[0].1)
            + (if entries.len() == 1 {
                Seq::<char>::empty()
            } else {
                seq![','] + spec_ser_entries(entries.drop_first())
            }),
    decreases entries.len(),
{
    let h = spec_ser_str(entries[0].0) + seq![':'] + spec_ser(entries[0].1);
    if entries.len() == 1 {
        assert(entries.last() == entries[0]);
        assert(h + Seq::<char>::empty() =~= h);
    } else {
        lemma_ser_entries_left(entries.drop_last());
        assert(entries.drop_last()[0] == entries[0]);
        assert(entries.drop_first().last() == entries.last());
        let le = spec_ser_str(entries.last().0) + seq![':'] + spec_ser(entries.last().1);
        if entries.len() == 2 {
            assert(entries.drop_first() =~= seq![entries.last()]);
            assert(spec_ser_entries(entries.drop_first())
                == spec_ser_str(entries.drop_first().last().0) + seq![':']
                    + spec_ser(entries.drop_first().last().1));
            assert((h + Seq::<char>::empty()) + seq![','] + spec_ser_str(entries.last().0)
                + seq![':'] + spec_ser(entries.last().1)
                =~= h + (seq![','] + spec_ser_entries(entries.drop_first())));
        } else {
            assert(entries.drop_last().drop_first() =~= entries.drop_first().drop_last());
            assert((h + (seq![','] + spec_ser_entries(entries.drop_last().drop_first())))
                + seq![','] + spec_ser_str(entries.last().0) + seq![':'] + spec_ser(entries.last().1)
                =~= h + (seq![','] + (spec_ser_entries(entries.drop_first().drop_last())
                    + seq![','] + spec_ser_str(entries.drop_first().last().0) + seq![':']
                    + spec_ser(entries.drop_first().last().1))));
        }
    }
}

/// Well-formedness passes to the head and tail of an element list.
proof fn lemma_wf_elems_left(s: Seq<JsonValModel>)
    requires
        s.len() > 0,
        wf_model_elems(s),
    ensures
        wf_model(s[0]),
        wf_model_elems(s.drop_first()),
    decreases s.len(),
{
    if s.len() == 1 {
        assert(s.last() == s[0]);
        assert(s.drop_first() =~= Seq::<JsonValModel>::empty());
    } else {
        lemma_wf_elems_left(s.drop_last());
        assert(s.drop_last()[0] == s[0]);
        assert(s.drop_first().drop_last() =~= s.drop_last().drop_first());
        assert(s.drop_first().last() == s.last());
    }
}

/// Well-formedness passes to the head and tail of a member list.
proof fn lemma_wf_entries_left(s: Seq<(Seq<char>, JsonValModel)>)
    requires
        s.len() > 0,
        wf_model_entries(s),
    ensures
        wf_model(s[0].1),
        wf_model_entries(s.drop_first()),
    decreases s.len(),
{
    if s.len() == 1 {
        assert(s.last() == s[0]);
        assert(s.drop_first() =~= Seq::<(Seq<char>, JsonValModel)>::empty());
    } else {
        lemma_wf_entries_left(s.drop_last());
        assert(s.drop_last()[0] == s[0]);
        assert(s.drop_first().drop_last() =~= s.drop_last().drop_first());
        assert(s.drop_first().last() == s.last());
    }
}

/// Serialized values are never empty, and never begin with whitespace or a
/// list terminator.
proof fn lemma_ser_first_char(v: JsonValModel)
    ensures
        spec_ser(v).len() > 0,
        !is_ws(spec_ser(v)[0]),
        spec_ser(v)[0] != ']',
        spec_ser(v)[0] != '}',
        spec_ser(v)[0] != ',',
{
    match v {
        JsonValModel::Int(n) => {
            let mag: nat = if n < 0 { (-n) as nat } else { n as nat };
            lemma_dec_digits(mag);
            if n >= 0 {
                assert(spec_ser(v)[0] == spec_dec_digits(mag)[0]);
                assert(is_digit(spec_ser(v)[0]));
            }
        },
        _ => {},
    }
}

/// Parsing reads back exactly the value that was serialized, and stops at
/// its end, whenever what follows is a separator or a close bracket.
#[verifier::rlimit(100)]
pub proof fn lemma_parse_of_ser(s: Seq<char>, i: int, v: JsonValModel, rest: Seq<char>)
    requires
        wf_model(v),
        0 <= i <= s.len(),
        s.subrange(i, s.len() as int) == spec_ser(v) + rest,
        rest.len() > 0 ==> (rest[0] == ',' || rest[0] == ']' || rest[0] == '}'),
    ensures
        parse_value(s, i) == Some((v, i + spec_ser(v).len())),
    decreases v, 0int,
{
    let ser = spec_ser(v);
    lemma_suffix_index(s, i, ser, rest);
    lemma_ser_first_char(v);
    match v {
        JsonValModel::Null => {
            assert(s[i] == 'n' && s[i + 1] == 'u' && s[i + 2] == 'l' && s[i + 3] == 'l');
            assert(parse_value(s, i) == Some((v, i + spec_ser(v).len())));
        },
        JsonValModel::Bool(b) => {
            if b {
                assert(s[i] == 't' && s[i + 1] == 'r' && s[i + 2] == 'u' && s[i + 3] == 'e');
            } else {
                assert(s[i] == 'f' && s[i + 1] == 'a' && s[i + 2] == 'l' && s[i + 3] == 's'
                    && s[i + 4] == 'e');
            }
            assert(parse_value(s, i) == Some((v, i + spec_ser(v).len())));
        },
        JsonValModel::Int(n) => {
            let mag: nat = if n < 0 { (-n) as nat } else { n as nat };
            lemma_dec_digits(mag);
            if n < 0 {
                assert(s[i] == ser[0]);
                assert(ser[0] == '-');
            } else {
                assert(s[i] == ser[0]);
                assert(ser[0] == spec_dec_digits(mag)[0]);
                assert(is_digit(s[i]));
            }
            lemma_parse_number_of_ser(s, i, n, rest);
            assert(parse_value(s, i) == Some((v, i + spec_ser(v).len())));
        },
        JsonValModel::Str(strv) => {
            assert(ser =~= seq!['"'] + (spec_escape(strv) + seq!['"']));
            assert(s[i] == ser[0]);
            assert(ser[0] == '"');
            assert(ser + rest =~= seq!['"'] + (spec_escape(strv) + seq!['"'] + rest));
            lemma_suffix_shift(s, i, seq!['"'], spec_escape(strv) + seq!['"'] + rest);
            lemma_parse_string_of_escape(s, i + 1, strv, rest);
            assert(parse_value(s, i) == Some((v, i + spec_ser(v).len())));
        },
        JsonValModel::Arr(elems) => {
            assert(s[i] == ser[0]);
            assert(ser[0] == '[');
            if elems.len() == 0 {
                assert(elems =~= Seq::<JsonValModel>::empty());
                assert(ser =~= seq!['[', ']']);
                assert(s[i + 1] == ser[1]);
                assert(ser[1] == ']');
                assert(skip_ws(s, i + 1) == i + 1);
            } else {
                lemma_ser_elems_left(elems);
                lemma_wf_elems_left(elems);
                lemma_ser_first_char(elems[0]);
                let body = spec_ser_elems(elems);
                assert(ser =~= seq!['['] + body + seq![']']);
                assert(s[i + 1] == ser[1]);
                assert(ser[1] == body[0]);
                assert(body[0] == spec_ser(elems[0])[0]);
                assert(!is_ws(s[i + 1]) && s[i + 1] != ']');
                assert(skip_ws(s, i + 1) == i + 1);
                assert(ser + rest =~= seq!['['] + (body + seq![']'] + rest));
                lemma_suffix_shift(s, i, seq!['['], body + seq![']'] + rest);
                lemma_parse_elems_of_ser(s, i + 1, elems, rest);
            }
            assert(parse_value(s, i) == Some((v, i + spec_ser(v).len())));
        },
        JsonValModel::Obj(entries) => {
            assert(s[i] == ser[0]);
            assert(ser[0] == '{');
            if entries.len() == 0 {
                assert(entries =~= Seq::<(Seq<char>, JsonValModel)>::empty());
                assert(ser =~= seq!['{', '}']);
                assert(s[i + 1] == ser[1]);
                assert(ser[1] == '}');
                assert(skip_ws(s, i + 1) == i + 1);
            } else {
                lemma_ser_entries_left(entries);
                let body = spec_ser_entries(entries);
                assert(ser =~= seq!['{'] + body + seq!['}']);
                assert(s[i + 1] == ser[1]);
                assert(ser[1] == body[0]);
                assert(body[0] == '"');
                assert(skip_ws(s, i + 1) == i + 1);
                assert(ser + rest =~= seq!['{'] + (body + seq!['}'] + rest));
                lemma_suffix_shift(s, i, seq!['{'], body + seq!['}'] + rest);
                lemma_parse_members_of_ser(s, i + 1, entries, rest);
            }
            assert(parse_value(s, i) == Some((v, i + spec_ser(v).len())));
        },
    }
}

/// Parsing reads back a serialized non-empty element list together with
/// its closing bracket.
#[verifier::rlimit(100)]
proof fn lemma_parse_elems_of_ser(s: Seq<char>, i: int, elems: Seq<JsonValModel>, rest: Seq<char>)
    requires
        elems.len() > 0,
        wf_model_elems(elems),
        0 <= i <= s.len(),
        s.subrange(i, s.len() as int) == spec_ser_elems(elems) + seq![']'] + rest,
        rest.len() > 0 ==> (rest[0] == ',' || rest[0] == ']' || rest[0] == '}'),
    ensures
        parse_elems(s, i) == Some((elems, i + spec_ser_elems(elems).len() + 1)),
    decreases elems, 1int,
{
    lemma_ser_elems_left(elems);
    lemma_wf_elems_left(elems);
    let e0 = elems[0];
    let ser0 = spec_ser(e0);
    let body = spec_ser_elems(elems);
    lemma_suffix_index(s, i, body + seq![']'], rest);
    if elems.len() == 1 {
        assert(body == ser0 + Seq::<char>::empty());
        assert(body =~= ser0);
        assert(body + seq![']'] + rest =~= ser0 + (seq![']'] + rest));
        lemma_parse_of_ser(s, i, e0, seq![']'] + rest);
        let j = i + ser0.len();
        assert(s[j] == (body + seq![']'])[body.len() as int]);
        assert(s[j] == ']');
        assert(skip_ws(s, j) == j);
        assert(seq![e0] =~= elems);
    } else {
        let tail = elems.drop_first();
        let tbody = spec_ser_elems(tail);
        assert(body == ser0 + (seq![','] + tbody));
        assert(body + seq![']'] + rest =~= ser0 + (seq![','] + tbody + seq![']'] + rest));
        lemma_parse_of_ser(s, i, e0, seq![','] + tbody + seq![']'] + rest);
        let j = i + ser0.len();
        assert(s.subrange(i, s.len() as int) == ser0 + (seq![','] + tbody + seq![']'] + rest));
        lemma_suffix_shift(s, i, ser0, seq![','] + tbody + seq![']'] + rest);
        assert(seq![','] + tbody + seq![']'] + rest =~= seq![','] + (tbody + seq![']'] + rest));
        lemma_suffix_index(s, j, seq![','], tbody + seq![']'] + rest);
        assert(s[j + 0] == seq![','][0]);
        assert(s[j] == ',');
        assert(skip_ws(s, j) == j);
        assert(s.subrange(j, s.len() as int) == seq![','] + (tbody + seq![']'] + rest));
        lemma_suffix_shift(s, j, seq![','], tbody + seq![']'] + rest);
        let m = j + 1;
        lemma_ser_first_char(tail[0]);
        lemma_ser_elems_left(tail);
        assert(s[m] == (tbody + seq![']'] + rest)[0]);
        assert(tbody[0] == spec_ser(tail[0])[0]);
        assert(!is_ws(s[m]));
        assert(skip_ws(s, m) == m);
        assert(tbody + seq![']'] + rest =~= tbody + seq![']'] + rest);
        lemma_parse_elems_of_ser(s, m, tail, rest);
        assert(seq![e0] + tail =~= elems);
        assert(m + tbody.len() + 1 == i + body.len() + 1);
    }
}

/// Parsing reads back a serialized non-empty member list together with
/// its closing brace.
#[verifier::rlimit(100)]
proof fn lemma_parse_members_of_ser(s: Seq<char>, i: int, entries: Seq<(Seq<char>, JsonValModel)>, rest: Seq<char>)
    requires
        entries.len() > 0,
        wf_model_entries(entries),
        0 <= i <= s.len(),
        s.subrange(i, s.len() as int) == spec_ser_entries(entries) + seq!['}'] + rest,
        rest.len() > 0 ==> (rest[0] == ',' || rest[0] == ']' || rest[0] == '}'),
    ensures
        parse_members(s, i) == Some((entries, i + spec_ser_entries(entries).len() + 1)),
    decreases entries, 1int,
{
    lemma_ser_entries_left(entries);
    lemma_wf_entries_left(entries);
    let key = entries[0].0;
    let v0 = entries[0].1;
    let ser0 = spec_ser_str(key) + seq![':'] + spec_ser(v0);
    let body = spec_ser_entries(entries);
    lemma_suffix_index(s, i, body + seq!['}'], rest);
    let after: Seq<char> = if entries.len() == 1 {
        seq!['}'] + rest
    } else {
        seq![','] + spec_ser_entries(entries.drop_first()) + seq!['}'] + rest
    };
    // the suffix at `i` starts with the quoted key
    assert(body + seq!['}'] + rest =~= seq!['"'] + (spec_escape(key) + seq!['"']
        + (seq![':'] + spec_ser(v0) + after))) by {
        if entries.len() == 1 {
            assert(body == ser0 + Seq::<char>::empty());
            assert(body =~= ser0);
        } else {
            assert(body == ser0 + (seq![','] + spec_ser_entries(entries.drop_first())));
        }
        assert(spec_ser_str(key) == seq!['"'] + spec_escape(key) + seq!['"']);
    }
    assert(s[i] == '"') by {
        assert(s[i] == (body + seq!['}'] + rest)[0]);
    }
    lemma_suffix_shift(s, i, seq!['"'], spec_escape(key) + seq!['"'] + (seq![':'] + spec_ser(v0) + after));
    assert(spec_escape(key) + seq!['"'] + (seq![':'] + spec_ser(v0) + after)
        =~= spec_escape(key) + seq!['"'] + (seq![':'] + spec_ser(v0) + after));
    lemma_parse_string_of_escape(s, i + 1, key, seq![':'] + spec_ser(v0) + after);
    let j = i + 1 + spec_escape(key).len() + 1;
    assert(s.subrange(i + 1, s.len() as int) == spec_escape(key) + seq!['"']
        + (seq![':'] + spec_ser(v0) + after));
    assert(spec_escape(key) + seq!['"'] + (seq![':'] + spec_ser(v0) + after)
        =~= (spec_escape(key) + seq!['"']) + (seq![':'] + (spec_ser(v0) + after)));
    lemma_suffix_shift(s, i + 1, spec_escape(key) + seq!['"'], seq![':'] + (spec_ser(v0) + after));
    lemma_suffix_index(s, j, seq![':'], spec_ser(v0) + after);
    assert(s[j] == ':');
    assert(skip_ws(s, j) == j);
    lemma_suffix_shift(s, j, seq![':'], spec_ser(v0) + after);
    let m = j + 1;
    lemma_ser_first_char(v0);
    assert(s[m] == (spec_ser(v0) + after)[0]);
    assert(!is_ws(s[m]));
    assert(skip_ws(s, m) == m);
    assert(after[0] == ',' || after[0] == '}');
    lemma_parse_of_ser(s, m, v0, after);
    let e = m + spec_ser(v0).len();
    assert(s.subrange(m, s.len() as int) == spec_ser(v0) + after);
    lemma_suffix_shift(s, m, spec_ser(v0), after);
    assert(s[e] == after[0]) by {
        lemma_suffix_index(s, e, after, Seq::<char>::empty());
        assert(after + Seq::<char>::empty() =~= after);
    }
    assert(skip_ws(s, e) == e);
    if entries.len() == 1 {
        assert(s[e] == '}');
        assert(seq![(key, v0)] =~= entries);
        assert(e + 1 == i + body.len() + 1);
    } else {
        let tail = entries.drop_first();
        let tbody = spec_ser_entries(tail);
        assert(s[e] == ',');
        assert(after =~= seq![','] + (tbody + seq!['}'] + rest));
        lemma_suffix_shift(s, e, seq![','], tbody + seq!['}'] + rest);
        let q = e + 1;
        lemma_ser_entries_left(tail);
        assert(s[q] == (tbody + seq!['}'] + rest)[0]) by {
            lemma_suffix_index(s, q, tbody + seq!['}'], rest);
        }
        assert(tbody[0] == '"');
        assert(skip_ws(s, q) == q);
        lemma_parse_members_of_ser(s, q, tail, rest);
        assert(seq![(key, v0)] + tail =~= entries);
        assert(q + tbody.len() + 1 == i + body.len() + 1);
    }
}

/// Parsing a serialized well-formed value as a complete text yields the
/// value back.
pub proof fn lemma_parse_text_of_ser(v: JsonValModel)
    requires
        wf_model(v),
    ensures
        spec_parse_text(spec_ser(v)) == Some(v),
{
    let s = spec_ser(v);
    lemma_ser_first_char(v);
    assert(skip_ws(s, 0) == 0);
    assert(s.subrange(0, s.len() as int) =~= s + Seq::<char>::empty());
    lemma_parse_of_ser(s, 0, v, Seq::<char>::empty());
    assert(skip_ws(s, s.len() as int) == s.len());
}

} // verus!
