//! The message codec on the wire: envelopes encoded to bytes and decoded
//! back, including padding, failure, and the channel buffer.

use mocket_host::json::JsonVal;
use mocket_host::wire::{
    as_envelope, bytes_to_units, decode_message, encode_envelope, units_to_bytes, utf16_decode,
    utf16_encode, MessageOutcome,
};
use mocket_host::channel::{InboundBuffer, PrintSink, SinkStep};

fn round_trip(cmd: &str, payload: JsonVal) -> (String, JsonVal) {
    let bytes = encode_envelope(cmd, payload);
    let units = bytes_to_units(&bytes).expect("even byte count");
    match decode_message(&units) {
        MessageOutcome::Value(v) => as_envelope(v).expect("a two-element envelope"),
        other => panic!("expected a value, got {:?}", kind_of(&other)),
    }
}

fn kind_of(m: &MessageOutcome) -> &'static str {
    match m {
        MessageOutcome::BadText => "BadText",
        MessageOutcome::NotJson(_) => "NotJson",
        MessageOutcome::Value(_) => "Value",
    }
}

#[test]
fn round_trip_scalars() {
    let cases = vec![
        JsonVal::Null,
        JsonVal::Bool(true),
        JsonVal::Bool(false),
        JsonVal::Int(0),
        JsonVal::Int(8080),
        JsonVal::Int(-1),
        JsonVal::Int(i64::MAX),
        JsonVal::Int(i64::MIN),
    ];
    for payload in cases {
        let expected = clone_val(&payload);
        let (cmd, back) = round_trip("http.listen", payload);
        assert_eq!(cmd, "http.listen");
        assert_eq!(back, expected);
    }
}

fn clone_val(v: &JsonVal) -> JsonVal {
    match v {
        JsonVal::Null => JsonVal::Null,
        JsonVal::Bool(b) => JsonVal::Bool(*b),
        JsonVal::Int(i) => JsonVal::Int(*i),
        JsonVal::Str(s) => JsonVal::Str(s.clone()),
        JsonVal::Arr(elems) => JsonVal::Arr(elems.iter().map(clone_val).collect()),
        JsonVal::Obj(entries) => JsonVal::Obj(
            entries.iter().map(|(k, val)| (k.clone(), clone_val(val))).collect(),
        ),
    }
}

#[test]
fn round_trip_strings() {
    let cases = vec![
        "",
        "hi",
        "with \"quotes\" and \\backslashes\\",
        "control\u{1}chars\nand\ttabs",
        "unicode: \u{e9}\u{4e2d}\u{1F600}",
        "/slashes/and spaces",
    ];
    for s in cases {
        let (cmd, back) = round_trip("echo", JsonVal::Str(s.to_string()));
        assert_eq!(cmd, "echo");
        assert_eq!(back, JsonVal::Str(s.to_string()));
    }
}

#[test]
fn round_trip_structures() {
    let payload = JsonVal::Arr(vec![
        JsonVal::Obj(vec![
            ("method".to_string(), JsonVal::Str("GET".to_string())),
            ("url".to_string(), JsonVal::Str("/hello".to_string())),
        ]),
        JsonVal::Obj(vec![("id".to_string(), JsonVal::Int(0))]),
        JsonVal::Arr(vec![]),
        JsonVal::Obj(vec![]),
        JsonVal::Arr(vec![JsonVal::Arr(vec![JsonVal::Int(1), JsonVal::Int(2)])]),
    ]);
    let expected = clone_val(&payload);
    let (cmd, back) = round_trip("http.request", payload);
    assert_eq!(cmd, "http.request");
    assert_eq!(back, expected);
}

#[test]
fn encode_splits_units_big_endian() {
    // "[" is U+005B: the first unit of any envelope text splits into 0x00, 0x5B.
    let bytes = encode_envelope("x", JsonVal::Null);
    assert_eq!(bytes[0], 0x00);
    assert_eq!(bytes[1], 0x5B);
    assert_eq!(bytes.len() % 2, 0);
    let units = bytes_to_units(&bytes).unwrap();
    assert_eq!(units_to_bytes(&units), bytes);
}

#[test]
fn utf16_surrogate_pairs_round_trip() {
    let chars: Vec<char> = "a\u{1F600}b".chars().collect();
    let units = utf16_encode(&chars);
    assert_eq!(units.len(), 4);
    assert_eq!(units[1], 0xD83D);
    assert_eq!(units[2], 0xDE00);
    let back = utf16_decode(&units).unwrap();
    assert_eq!(back, chars);
}

#[test]
fn lone_surrogate_is_bad_text() {
    let units: Vec<u16> = vec![0xD800];
    assert!(utf16_decode(&units).is_none());
    assert!(matches!(decode_message(&units), MessageOutcome::BadText));
}

#[test]
fn non_json_text_is_reported_raw() {
    let units: Vec<u16> = "hello guest".encode_utf16().collect();
    match decode_message(&units) {
        MessageOutcome::NotJson(raw) => assert_eq!(raw, "hello guest"),
        other => panic!("expected raw text, got {}", kind_of(&other)),
    }
}

#[test]
fn null_padding_is_stripped() {
    let mut units: Vec<u16> = "[\"a\",1]".encode_utf16().collect();
    units.push(0);
    units.push(0);
    match decode_message(&units) {
        MessageOutcome::Value(v) => {
            let (cmd, payload) = as_envelope(v).unwrap();
            assert_eq!(cmd, "a");
            assert_eq!(payload, JsonVal::Int(1));
        }
        other => panic!("expected a value, got {}", kind_of(&other)),
    }
}

#[test]
fn whitespace_and_escapes_parse() {
    let units: Vec<u16> = " [ \"cmd\" , {\"k\" : \"a\\u0041\\n\" } ] ".encode_utf16().collect();
    match decode_message(&units) {
        MessageOutcome::Value(v) => {
            let (cmd, payload) = as_envelope(v).unwrap();
            assert_eq!(cmd, "cmd");
            assert_eq!(
                payload,
                JsonVal::Obj(vec![("k".to_string(), JsonVal::Str("aA\n".to_string()))])
            );
        }
        other => panic!("expected a value, got {}", kind_of(&other)),
    }
}

#[test]
fn non_envelope_values_are_rejected() {
    let units: Vec<u16> = "[1,2]".encode_utf16().collect();
    match decode_message(&units) {
        MessageOutcome::Value(v) => assert!(as_envelope(v).is_none()),
        other => panic!("expected a value, got {}", kind_of(&other)),
    }
    let units: Vec<u16> = "[\"a\",1,2]".encode_utf16().collect();
    match decode_message(&units) {
        MessageOutcome::Value(v) => assert!(as_envelope(v).is_none()),
        other => panic!("expected a value, got {}", kind_of(&other)),
    }
}

#[test]
fn malformed_json_is_not_a_value() {
    for text in ["[1,", "{\"a\":}", "01", "1e5", "1.5", "\"unterminated", "tru"] {
        let units: Vec<u16> = text.encode_utf16().collect();
        match decode_message(&units) {
            MessageOutcome::NotJson(raw) => assert_eq!(raw, text),
            other => panic!("{text}: expected raw text, got {}", kind_of(&other)),
        }
    }
}

#[test]
fn deep_nesting_round_trips() {
    let mut v = JsonVal::Int(7);
    for _ in 0..40 {
        v = JsonVal::Arr(vec![v]);
    }
    let expected = clone_val(&v);
    let (cmd, back) = round_trip("deep", v);
    assert_eq!(cmd, "deep");
    assert_eq!(back, expected);
}

#[test]
fn inbound_buffer_accumulates_and_clears() {
    let mut buf = InboundBuffer::new();
    assert!(buf.end_message().is_none());
    for u in "[\"ping\",null]".encode_utf16() {
        buf.push_unit(u);
    }
    match buf.end_message() {
        Some(MessageOutcome::Value(v)) => {
            let (cmd, payload) = as_envelope(v).unwrap();
            assert_eq!(cmd, "ping");
            assert_eq!(payload, JsonVal::Null);
        }
        other => panic!("expected a value, got {:?}", other.map(|o| kind_of(&o))),
    }
    // the buffer was cleared by the completion signal
    assert!(buf.end_message().is_none());
}

#[test]
fn print_sink_buffers_until_newline() {
    let mut sink = PrintSink::new();
    for u in "hi".encode_utf16() {
        assert!(matches!(sink.push_unit(u), SinkStep::Buffered));
    }
    assert!(matches!(sink.push_unit(13), SinkStep::Buffered));
    match sink.push_unit(10) {
        SinkStep::Line(line) => assert_eq!(line, "hi"),
        _ => panic!("expected a completed line"),
    }
    match sink.push_unit(10) {
        SinkStep::Line(line) => assert_eq!(line, ""),
        _ => panic!("expected an empty line"),
    }
}
