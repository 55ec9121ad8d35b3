//! The dispatcher, the registry, and the HTTP pieces, up to the full
//! request-to-response scenario.

use mocket_host::dispatch::{dispatch, Action};
use mocket_host::http::{
    build_request_event, chunk_body, connection_action, format_head, is_standard_method,
    parse_request_line, ConnAction,
};
use mocket_host::json::JsonVal;
use mocket_host::registry::Registry;
use mocket_host::wire::{as_envelope, bytes_to_units, decode_message, MessageOutcome};

#[test]
fn allocate_starts_at_zero_and_increases() {
    let mut reg: Registry<&'static str> = Registry::new();
    let a = reg.allocate();
    let b = reg.allocate();
    let c = reg.allocate();
    assert_eq!(a, 0);
    assert_eq!(b, 1);
    assert_eq!(c, 2);
    assert!(a < b && b < c);
}

#[test]
fn take_consumes_at_most_once() {
    let mut reg: Registry<String> = Registry::new();
    let id = reg.allocate();
    reg.register(id, "connection".to_string());
    assert_eq!(reg.take(id), Some("connection".to_string()));
    assert_eq!(reg.take(id), None);
}

#[test]
fn take_of_unknown_id_is_none() {
    let mut reg: Registry<u8> = Registry::new();
    assert_eq!(reg.take(7), None);
    let id = reg.allocate();
    reg.register(id, 1);
    assert_eq!(reg.take(id + 1), None);
    assert_eq!(reg.take(id), Some(1));
}

#[test]
fn dispatch_listen() {
    match dispatch("http.listen", JsonVal::Int(8080)) {
        Action::Listen { port } => assert_eq!(port, 8080),
        _ => panic!("expected a listen action"),
    }
    // a float-style cast saturates: out-of-range ports clip
    match dispatch("http.listen", JsonVal::Int(-5)) {
        Action::Listen { port } => assert_eq!(port, 0),
        _ => panic!("expected a listen action"),
    }
    match dispatch("http.listen", JsonVal::Int(100000)) {
        Action::Listen { port } => assert_eq!(port, 65535),
        _ => panic!("expected a listen action"),
    }
}

#[test]
fn dispatch_survives_unknown_and_malformed() {
    assert!(matches!(
        dispatch("http.fetch", JsonVal::Null),
        Action::UnknownCommand
    ));
    assert!(matches!(
        dispatch("http.listen", JsonVal::Str("8080".to_string())),
        Action::InvalidPayload
    ));
    assert!(matches!(
        dispatch("http.end", JsonVal::Arr(vec![JsonVal::Int(0)])),
        Action::InvalidPayload
    ));
    assert!(matches!(
        dispatch("http.end", JsonVal::Bool(true)),
        Action::InvalidPayload
    ));
    // the dispatcher stays responsive to a valid command afterwards
    assert!(matches!(
        dispatch("http.listen", JsonVal::Int(3000)),
        Action::Listen { port: 3000 }
    ));
}

#[test]
fn dispatch_rejects_wrong_arity() {
    let five = JsonVal::Arr(vec![
        JsonVal::Int(0),
        JsonVal::Int(200),
        JsonVal::Obj(vec![]),
        JsonVal::Str("x".to_string()),
        JsonVal::Null,
    ]);
    assert!(matches!(dispatch("http.end", five), Action::InvalidPayload));
    let two = JsonVal::Arr(vec![JsonVal::Int(0), JsonVal::Int(200)]);
    assert!(matches!(dispatch("http.writeHead", two), Action::InvalidPayload));
    let wrong_types = JsonVal::Arr(vec![
        JsonVal::Str("0".to_string()),
        JsonVal::Int(200),
        JsonVal::Obj(vec![]),
        JsonVal::Str("x".to_string()),
    ]);
    assert!(matches!(dispatch("http.end", wrong_types), Action::InvalidPayload));
}

#[test]
fn dispatch_create_server_is_acknowledged() {
    assert!(matches!(
        dispatch("http.createServer", JsonVal::Null),
        Action::Ack
    ));
}

#[test]
fn dispatch_end_reads_all_parts() {
    let payload = JsonVal::Arr(vec![
        JsonVal::Int(3),
        JsonVal::Int(404),
        JsonVal::Obj(vec![
            ("Content-Type".to_string(), JsonVal::Str("text/plain".to_string())),
            ("X-Num".to_string(), JsonVal::Int(5)),
        ]),
        JsonVal::Str("missing".to_string()),
    ]);
    match dispatch("http.end", payload) {
        Action::Respond { id, status, headers, body } => {
            assert_eq!(id, 3);
            assert_eq!(status, 404);
            // only string-valued headers carry over
            assert_eq!(
                headers,
                vec![("Content-Type".to_string(), "text/plain".to_string())]
            );
            assert_eq!(body, Some("missing".to_string()));
        }
        _ => panic!("expected a respond action"),
    }
}

#[test]
fn dispatch_end_serializes_object_bodies() {
    let payload = JsonVal::Arr(vec![
        JsonVal::Int(0),
        JsonVal::Int(200),
        JsonVal::Obj(vec![]),
        JsonVal::Obj(vec![("ok".to_string(), JsonVal::Bool(true))]),
    ]);
    match dispatch("http.end", payload) {
        Action::Respond { body, .. } => assert_eq!(body, Some("{\"ok\":true}".to_string())),
        _ => panic!("expected a respond action"),
    }
}

#[test]
fn dispatch_end_with_unusable_body_keeps_head() {
    let payload = JsonVal::Arr(vec![
        JsonVal::Int(0),
        JsonVal::Int(200),
        JsonVal::Obj(vec![]),
        JsonVal::Int(42),
    ]);
    match dispatch("http.end", payload) {
        Action::Respond { body, .. } => assert_eq!(body, None),
        _ => panic!("expected a respond action"),
    }
}

#[test]
fn dispatch_write_head() {
    let payload = JsonVal::Arr(vec![
        JsonVal::Int(1),
        JsonVal::Int(200),
        JsonVal::Obj(vec![("A".to_string(), JsonVal::Str("b".to_string()))]),
    ]);
    match dispatch("http.writeHead", payload) {
        Action::WriteHead { id, status, headers } => {
            assert_eq!(id, 1);
            assert_eq!(status, 200);
            assert_eq!(headers, vec![("A".to_string(), "b".to_string())]);
        }
        _ => panic!("expected a write-head action"),
    }
}

#[test]
fn request_line_splits_on_whitespace() {
    let buf: Vec<u8> = b"GET /hello HTTP/1.1\r\nHost: x\r\n\r\n".to_vec();
    let req = parse_request_line(&buf);
    assert_eq!(req.method, "GET");
    assert_eq!(req.path, "/hello");
    let empty: Vec<u8> = Vec::new();
    let req = parse_request_line(&empty);
    assert_eq!(req.method, "");
    assert_eq!(req.path, "");
}

#[test]
fn method_filtering() {
    assert!(is_standard_method("GET"));
    assert!(is_standard_method("PATCH"));
    assert!(!is_standard_method("FOO"));
    assert!(!is_standard_method("get"));
    assert!(!is_standard_method(""));

    // a non-standard method closes the connection without any event
    let buf: Vec<u8> = b"FOO /x HTTP/1.1\r\n".to_vec();
    assert!(matches!(connection_action(&buf), ConnAction::Close));

    // a standard one yields exactly the parsed request
    let buf: Vec<u8> = b"GET /x HTTP/1.1\r\n".to_vec();
    match connection_action(&buf) {
        ConnAction::Emit(req) => {
            assert_eq!(req.method, "GET");
            assert_eq!(req.path, "/x");
        }
        _ => panic!("expected an emitted request"),
    }
}

#[test]
fn chunked_encoding_of_hi() {
    assert_eq!(chunk_body("hi"), "2\r\nhi\r\n0\r\n\r\n");
    assert_eq!(chunk_body(""), "0\r\n\r\n0\r\n\r\n");
    // the size line counts bytes, in upper-case hexadecimal
    let body = "x".repeat(26);
    assert_eq!(chunk_body(&body), format!("1A\r\n{}\r\n0\r\n\r\n", body));
    assert_eq!(chunk_body("\u{e9}"), "2\r\n\u{e9}\r\n0\r\n\r\n");
}

#[test]
fn head_has_status_fixed_headers_and_callers() {
    let headers = vec![("Content-Type".to_string(), "text/plain".to_string())];
    let head = format_head(200, "Thu, 1 Jan 1970 00:00:00 +0000", &headers);
    assert_eq!(
        head,
        "HTTP/1.1 200 OK\r\n\
         Date: Thu, 1 Jan 1970 00:00:00 +0000\r\n\
         Connection: keep-alive\r\n\
         Keep-Alive: timeout=5\r\n\
         Transfer-Encoding: chunked\r\n\
         Content-Type: text/plain\r\n\
         \r\n"
    );
}

#[test]
fn date_line_is_produced() {
    let date = mocket_host::http::now_rfc2822();
    assert!(date.len() > 10);
    assert!(date.contains(","));
}

#[test]
fn end_to_end_request_response() {
    // guest asks the host to listen
    match dispatch("http.listen", JsonVal::Int(8080)) {
        Action::Listen { port } => assert_eq!(port, 8080),
        _ => panic!("expected a listen action"),
    }

    // a client connects and sends a request line
    let buf: Vec<u8> = b"GET /hello HTTP/1.1\r\nHost: x\r\n\r\n".to_vec();
    let req = match connection_action(&buf) {
        ConnAction::Emit(req) => req,
        _ => panic!("expected an emitted request"),
    };

    // the host allocates an id, registers the connection, and emits the event
    let mut reg: Registry<&'static str> = Registry::new();
    let id = reg.allocate();
    assert_eq!(id, 0);
    reg.register(id, "the connection");
    let bytes = build_request_event(&req, id);

    // the guest receives exactly the documented event
    let units = bytes_to_units(&bytes).unwrap();
    let (cmd, payload) = match decode_message(&units) {
        MessageOutcome::Value(v) => as_envelope(v).unwrap(),
        _ => panic!("expected a value"),
    };
    assert_eq!(cmd, "http.request");
    assert_eq!(
        payload,
        JsonVal::Arr(vec![
            JsonVal::Obj(vec![
                ("method".to_string(), JsonVal::Str("GET".to_string())),
                ("url".to_string(), JsonVal::Str("/hello".to_string())),
            ]),
            JsonVal::Obj(vec![("id".to_string(), JsonVal::Int(0))]),
        ])
    );

    // the guest completes the response
    let end = JsonVal::Arr(vec![
        JsonVal::Int(0),
        JsonVal::Int(200),
        JsonVal::Obj(vec![
            ("Content-Type".to_string(), JsonVal::Str("text/plain".to_string())),
        ]),
        JsonVal::Str("hi".to_string()),
    ]);
    let (id2, status, headers, body) = match dispatch("http.end", end) {
        Action::Respond { id, status, headers, body } => (id, status, headers, body),
        _ => panic!("expected a respond action"),
    };
    assert_eq!(id2, 0);
    assert_eq!(reg.take(id2), Some("the connection"));
    assert_eq!(reg.take(id2), None);

    // what the client reads back
    let head = format_head(status, "Thu, 1 Jan 1970 00:00:00 +0000", &headers);
    assert!(head.starts_with("HTTP/1.1 200 OK\r\n"));
    assert!(head.contains("Content-Type: text/plain\r\n"));
    assert!(head.ends_with("\r\n\r\n"));
    let chunked = chunk_body(body.as_deref().unwrap());
    assert_eq!(chunked, "2\r\nhi\r\n0\r\n\r\n");

    // dechunking yields the body
    let mut lines = chunked.split("\r\n");
    let size = usize::from_str_radix(lines.next().unwrap(), 16).unwrap();
    let data = lines.next().unwrap();
    assert_eq!(size, 2);
    assert_eq!(data, "hi");
    assert_eq!(lines.next().unwrap(), "0");
}
