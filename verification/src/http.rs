//! The pure parts of the HTTP server: request-line parsing, method
//! filtering, response-head formatting, chunked body framing, and the
//! request event sent to the guest.

use vstd::prelude::*;
use crate::json::{JsonVal, JsonValModel, view_of_entries, view_of_elems, spec_dec_digits,
    hex_digit, hex_digit_char, write_dec, chars_into_string, lemma_view_elems_index};
use crate::wire::{encode_envelope, spec_encode_envelope};
use crate::str_eq;
use vstd::string::StringExecFns;
use vstd::utf8::encode_utf8;

verus! {

broadcast use vstd::std_specs::vec::group_vec_axioms;

/// A parsed request line: the first two whitespace-separated tokens.
pub struct Request {
    pub method: String,
    pub path: String,
}

/// ASCII whitespace, as the request line is split on.
pub open spec fn is_ws_byte(b: u8) -> bool {
    b == 32 || b == 9 || b == 10 || b == 13 || b == 11 || b == 12
}

/// The first position at or after `i` holding no whitespace.
pub open spec fn ws_end(s: Seq<u8>, i: int) -> int
    decreases s.len() - i,
{
    if 0 <= i < s.len() && is_ws_byte(s[i]) {
        ws_end(s, i + 1)
    } else {
        i
    }
}

/// The end of the token starting at `i`.
pub open spec fn token_end(s: Seq<u8>, i: int) -> int
    decreases s.len() - i,
{
    if 0 <= i < s.len() && !is_ws_byte(s[i]) {
        token_end(s, i + 1)
    } else {
        i
    }
}

/// The bytes of the method token.
pub open spec fn spec_method_bytes(s: Seq<u8>) -> Seq<u8> {
    let a = ws_end(s, 0);
    s.subrange(a, token_end(s, a))
}

/// The bytes of the path token.
pub open spec fn spec_path_bytes(s: Seq<u8>) -> Seq<u8> {
    let a = ws_end(s, 0);
    let b = token_end(s, a);
    let c = ws_end(s, b);
    s.subrange(c, token_end(s, c))
}

/// One character per byte: ASCII stands as itself, anything else becomes
/// the replacement character.
pub open spec fn char_of_byte(b: u8) -> char {
    if b < 128 { ((b as u32) as char) } else { '\u{FFFD}' }
}

pub open spec fn chars_of_bytes(s: Seq<u8>) -> Seq<char>
    decreases s,
{
    if s.len() == 0 {
        Seq::empty()
    } else {
        chars_of_bytes(s.drop_last()).push(char_of_byte(s.last()))
    }
}

/// The standard request methods; anything else closes the connection.
pub open spec fn spec_is_standard_method(m: Seq<char>) -> bool {
    m == "GET"@ || m == "POST"@ || m == "PUT"@ || m == "DELETE"@ || m == "HEAD"@
        || m == "OPTIONS"@ || m == "CONNECT"@ || m == "TRACE"@ || m == "PATCH"@
}

fn find_ws_end_b(s: &Vec<u8>, i: usize) -> (r: usize)
    requires
        i <= s@.len(),
    ensures
        r as int == ws_end(s@, i as int),
        i <= r <= s@.len(),
{
    let mut r: usize = i;
    while r < s.len() && (s[r] == 32 || s[r] == 9 || s[r] == 10 || s[r] == 13 || s[r] == 11
        || s[r] == 12)
        invariant
            i <= r <= s@.len(),
            ws_end(s@, i as int) == ws_end(s@, r as int),
        decreases s@.len() - r,
    {
        r = r + 1;
    }
    r
}

fn find_token_end(s: &Vec<u8>, i: usize) -> (r: usize)
    requires
        i <= s@.len(),
    ensures
        r as int == token_end(s@, i as int),
        i <= r <= s@.len(),
{
    let mut r: usize = i;
    while r < s.len() && !(s[r] == 32 || s[r] == 9 || s[r] == 10 || s[r] == 13 || s[r] == 11
        || s[r] == 12)
        invariant
            i <= r <= s@.len(),
            token_end(s@, i as int) == token_end(s@, r as int),
        decreases s@.len() - r,
    {
        r = r + 1;
    }
    r
}

/// The characters of the bytes in `[a, b)`.
fn bytes_to_string(s: &Vec<u8>, a: usize, b: usize) -> (r: String)
    requires
        a <= b <= s@.len(),
    ensures
        r@ == chars_of_bytes(s@.subrange(a as int, b as int)),
{
    let mut out: Vec<char> = Vec::new();
    let mut i: usize = a;
    proof {
        assert(out@ =~= chars_of_bytes(s@.subrange(a as int, a as int)));
    }
    while i < b
        invariant
            a <= i <= b <= s@.len(),
            out@ == chars_of_bytes(s@.subrange(a as int, i as int)),
        decreases b - i,
    {
        let byte = s[i];
        let c: char = if byte < 128 {
            crate::json::scalar_char(byte as u32)
        } else {
            '\u{FFFD}'
        };
        out.push(c);
        proof {
            let t = s@.subrange(a as int, i + 1 as int);
            assert(t.drop_last() =~= s@.subrange(a as int, i as int));
            assert(t.last() == s@[i as int]);
            assert(out@ =~= chars_of_bytes(t));
        }
        i = i + 1;
    }
    chars_into_string(&out)
}

/// Splits the request line into its method and path tokens, the first
/// two whitespace-separated tokens of the read buffer.
pub fn parse_request_line(buf: &Vec<u8>) -> (r: Request)
    ensures
        r.method@ == chars_of_bytes(spec_method_bytes(buf@)),
        r.path@ == chars_of_bytes(spec_path_bytes(buf@)),
{
    let a = find_ws_end_b(buf, 0);
    let b = find_token_end(buf, a);
    let c = find_ws_end_b(buf, b);
    let d = find_token_end(buf, c);
    let method = bytes_to_string(buf, a, b);
    let path = bytes_to_string(buf, c, d);
    Request { method, path }
}

/// Whether the method is one of the standard request methods.
pub fn is_standard_method(m: &str) -> (r: bool)
    ensures
        r == spec_is_standard_method(m@),
{
    str_eq(m, "GET") || str_eq(m, "POST") || str_eq(m, "PUT") || str_eq(m, "DELETE")
        || str_eq(m, "HEAD") || str_eq(m, "OPTIONS") || str_eq(m, "CONNECT")
        || str_eq(m, "TRACE") || str_eq(m, "PATCH")
}

/// What to do with a freshly read connection.
pub enum ConnAction {
    /// The method is not standard: close without any event.
    Close,
    /// Emit an `http.request` event for this request.
    Emit(Request),
}

/// Decides a connection's fate from its first read: a standard method
/// yields the parsed request, anything else closes the connection with no
/// event and no registry entry.
pub fn connection_action(buf: &Vec<u8>) -> (r: ConnAction)
    ensures
        (if spec_is_standard_method(chars_of_bytes(spec_method_bytes(buf@))) {
            match r {
                ConnAction::Emit(req) => req.method@ == chars_of_bytes(spec_method_bytes(buf@))
                    && req.path@ == chars_of_bytes(spec_path_bytes(buf@)),
                _ => false,
            }
        } else {
            r is Close
        }),
{
    let req = parse_request_line(buf);
    if is_standard_method(req.method.as_str()) {
        ConnAction::Emit(req)
    } else {
        ConnAction::Close
    }
}

// ---------------------------------------------------------------------------
// Response formatting
// ---------------------------------------------------------------------------

/// Relies on `chrono::Utc::now` and `chrono::DateTime::to_rfc2822`: the
/// current time as an RFC 2822 date line for the response head. The
/// result depends on the clock, so nothing is assumed of it beyond being
/// non-empty.
#[verifier::external_body]
pub fn now_rfc2822() -> (r: String)
    ensures
        r@.len() > 0,
{
    chrono::Utc::now().to_rfc2822()
}

/// One `key: value` line per header.
pub open spec fn spec_headers_text(hs: Seq<(Seq<char>, Seq<char>)>) -> Seq<char>
    decreases hs,
{
    if hs.len() == 0 {
        Seq::empty()
    } else {
        spec_headers_text(hs.drop_last()) + hs.last().0 + ": "@ + hs.last().1 + "\r\n"@
    }
}

/// The full response head: status line, the fixed keep-alive and chunked
/// headers, the date, the caller's headers, and the blank line.
pub open spec fn spec_format_head(status: u16, date: Seq<char>, hs: Seq<(Seq<char>, Seq<char>)>) -> Seq<char> {
    "HTTP/1.1 "@ + spec_dec_digits(status as nat) + " OK\r\nDate: "@ + date
        + "\r\nConnection: keep-alive\r\nKeep-Alive: timeout=5\r\nTransfer-Encoding: chunked\r\n"@
        + spec_headers_text(hs) + "\r\n"@
}

/// Writes the response head for a status, a date line, and headers.
pub fn format_head(status: u16, date: &str, headers: &Vec<(String, String)>) -> (r: String)
    ensures
        r@ == spec_format_head(status, date@, crate::dispatch::pair_views(headers@)),
{
    let mut out = String::new();
    out.append("HTTP/1.1 ");
    let mut digits: Vec<char> = Vec::new();
    write_dec(status as u64, &mut digits);
    let ds = chars_into_string(&digits);
    out.append(ds.as_str());
    out.append(" OK\r\nDate: ");
    out.append(date);
    out.append("\r\nConnection: keep-alive\r\nKeep-Alive: timeout=5\r\nTransfer-Encoding: chunked\r\n");
    let ghost hs = crate::dispatch::pair_views(headers@);
    let n: usize = headers.len();
    let mut i: usize = 0;
    proof {
        assert(spec_headers_text(hs.take(0)) =~= Seq::<char>::empty());
        assert(out@ =~= "HTTP/1.1 "@ + spec_dec_digits(status as nat) + " OK\r\nDate: "@ + date@
            + "\r\nConnection: keep-alive\r\nKeep-Alive: timeout=5\r\nTransfer-Encoding: chunked\r\n"@
            + spec_headers_text(hs.take(0)));
    }
    while i < n
        invariant
            n == headers@.len(),
            i <= n,
            hs == crate::dispatch::pair_views(headers@),
            hs.len() == n,
            out@ == "HTTP/1.1 "@ + spec_dec_digits(status as nat) + " OK\r\nDate: "@ + date@
                + "\r\nConnection: keep-alive\r\nKeep-Alive: timeout=5\r\nTransfer-Encoding: chunked\r\n"@
                + spec_headers_text(hs.take(i as int)),
        decreases n - i,
    {
        out.append(headers[i].0.as_str());
        out.append(": ");
        out.append(headers[i].1.as_str());
        out.append("\r\n");
        proof {
            assert(hs.take(i + 1 as int).drop_last() =~= hs.take(i as int));
            assert(hs.take(i + 1 as int).last() == (headers@[i as int].0@, headers@[i as int].1@));
            assert(out@ =~= "HTTP/1.1 "@ + spec_dec_digits(status as nat) + " OK\r\nDate: "@ + date@
                + "\r\nConnection: keep-alive\r\nKeep-Alive: timeout=5\r\nTransfer-Encoding: chunked\r\n"@
                + spec_headers_text(hs.take(i + 1 as int)));
        }
        i = i + 1;
    }
    out.append("\r\n");
    proof {
        assert(hs.take(n as int) =~= hs);
        assert(out@ =~= spec_format_head(status, date@, hs));
    }
    out
}

/// The hexadecimal digits of `n`, upper case, most significant first.
pub open spec fn spec_hex_digits(n: nat) -> Seq<char>
    decreases n,
{
    if n < 16 {
        seq![hex_digit(n)]
    } else {
        spec_hex_digits(n / 16).push(hex_digit(n % 16))
    }
}

/// Appends the hexadecimal digits of `n` to `out`.
pub fn write_hex(n: u64, out: &mut Vec<char>)
    ensures
        final(out)@ == old(out)@ + spec_hex_digits(n as nat),
    decreases n,
{
    if n < 16 {
        out.push(hex_digit_char(n));
    } else {
        write_hex(n / 16, out);
        out.push(hex_digit_char(n % 16));
    }
}

/// The chunked framing of a body: its byte length in hexadecimal, a line
/// break, the body, a line break, and the terminating zero-length chunk.
pub open spec fn spec_chunk_text(body: Seq<char>) -> Seq<char> {
    spec_hex_digits(((encode_utf8(body).len()) as usize) as nat) + "\r\n"@ + body
        + "\r\n0\r\n\r\n"@
}

/// Frames a body in chunked transfer encoding.
pub fn chunk_body(body: &str) -> (r: String)
    ensures
        r@ == spec_chunk_text(body@),
{
    let len: usize = body.len();
    let mut digits: Vec<char> = Vec::new();
    write_hex(len as u64, &mut digits);
    let mut out = chars_into_string(&digits);
    out.append("\r\n");
    out.append(body);
    out.append("\r\n0\r\n\r\n");
    proof {
        assert((len as u64) as nat == len as nat);
        assert(out@ =~= spec_chunk_text(body@));
    }
    out
}

// ---------------------------------------------------------------------------
// The request event
// ---------------------------------------------------------------------------

/// The payload of an `http.request` event: the request description and
/// the id under which the connection waits for completion.
pub open spec fn spec_request_event(method: Seq<char>, path: Seq<char>, id: int) -> JsonValModel {
    JsonValModel::Arr(seq![
        JsonValModel::Obj(seq![
            ("method"@, JsonValModel::Str(method)),
            ("url"@, JsonValModel::Str(path)),
        ]),
        JsonValModel::Obj(seq![("id"@, JsonValModel::Int(id))]),
    ])
}

/// The wire bytes of the `http.request` event for a request and its id.
pub fn build_request_event(req: &Request, id: u64) -> (r: Vec<u8>)
    requires
        id <= i64::MAX,
    ensures
        r@ == spec_encode_envelope("http.request"@, spec_request_event(req.method@, req.path@, id as int)),
{
    let mut o1: Vec<(String, JsonVal)> = Vec::new();
    let k1 = String::from_str("method");
    let v1 = JsonVal::Str(req.method.clone());
    let ghost t1 = (k1, v1);
    proof {
        assert(t1.1@ == JsonValModel::Str(req.method@));
    }
    o1.push((k1, v1));
    let k2 = String::from_str("url");
    let v2 = JsonVal::Str(req.path.clone());
    let ghost t2 = (k2, v2);
    proof {
        assert(t2.1@ == JsonValModel::Str(req.path@));
    }
    o1.push((k2, v2));
    let mut o2: Vec<(String, JsonVal)> = Vec::new();
    let k3 = String::from_str("id");
    let v3 = JsonVal::Int(id as i64);
    let ghost t3 = (k3, v3);
    proof {
        assert(t3.1@ == JsonValModel::Int(id as int));
    }
    o2.push((k3, v3));
    proof {
        assert(view_of_entries(Seq::<(String, JsonVal)>::empty())
            =~= Seq::<(Seq<char>, JsonValModel)>::empty());
        let e1 = o1@;
        assert(e1 == Seq::<(String, JsonVal)>::empty().push(t1).push(t2));
        assert(e1.drop_last() =~= seq![t1]);
        assert(seq![t1].drop_last() =~= Seq::<(String, JsonVal)>::empty());
        assert(seq![t1].last() == t1);
        assert(view_of_entries(e1.drop_last())
            =~= seq![("method"@, JsonValModel::Str(req.method@))]);
        assert(e1.last() == t2);
        assert(view_of_entries(e1) =~= seq![
            ("method"@, JsonValModel::Str(req.method@)),
            ("url"@, JsonValModel::Str(req.path@)),
        ]);
        let e2 = o2@;
        assert(e2 == Seq::<(String, JsonVal)>::empty().push(t3));
        assert(e2.drop_last() =~= Seq::<(String, JsonVal)>::empty());
        assert(e2.last() == t3);
        assert(view_of_entries(e2) =~= seq![("id"@, JsonValModel::Int(id as int))]);
    }
    let mut elems: Vec<JsonVal> = Vec::new();
    elems.push(JsonVal::Obj(o1));
    elems.push(JsonVal::Obj(o2));
    let payload = JsonVal::Arr(elems);
    proof {
        let es = payload->Arr_0@;
        assert(es.len() == 2);
        lemma_view_elems_index(es, 0);
        lemma_view_elems_index(es, 1);
        assert(view_of_elems(es) =~= spec_request_event(req.method@, req.path@, id as int)->Arr_0);
    }
    encode_envelope("http.request", payload)
}

} // verus!
