use serde_json::Value;
use std::path::PathBuf;
use vybim::buffer::Buffer;
use vybim::lsp::protocol::{
    from_lsp_position, notification_body, path_to_uri, request_body, response_body,
    to_lsp_position, IdSource, Message, Position, Raw, RequestId,
};
use vybim::lsp::transport::{frame, FrameDecoder};

fn id_of(v: &Value) -> Option<RequestId> {
    match (v.as_i64(), v.as_str()) {
        (Some(n), _) => Some(RequestId::Num(n)),
        (None, Some(s)) => Some(RequestId::Str(s.to_string())),
        (None, None) => None,
    }
}

/// The members of a JSON-RPC message.
fn members(bytes: &[u8]) -> Option<Raw> {
    let v: Value = serde_json::from_slice(bytes).ok()?;
    Some(Raw {
        id: v.get("id").and_then(id_of),
        method: v.get("method").and_then(Value::as_str).map(str::to_string),
        params: v.get("params").cloned(),
        result: v.get("result").cloned(),
        error: v.get("error").cloned(),
    })
}

fn message(bytes: &[u8]) -> Option<Message> {
    Message::from_json(members(bytes)?)
}

#[test]
fn classifies_response_notification_and_request() {
    let resp = message(br#"{"jsonrpc":"2.0","id":1,"result":{"ok":true}}"#);
    assert!(matches!(resp, Some(Message::Response { .. })));

    let note = message(br#"{"jsonrpc":"2.0","method":"$/progress","params":{}}"#);
    assert!(matches!(note, Some(Message::Notification { .. })));

    let req = message(br#"{"jsonrpc":"2.0","id":2,"method":"window/showMessageRequest"}"#);
    assert!(matches!(req, Some(Message::Request { .. })));

    assert!(message(b"not json").is_none());
}

#[test]
fn a_message_without_method_and_id_is_none() {
    assert!(message(br#"{"jsonrpc":"2.0"}"#).is_none());
}

#[test]
fn missing_params_are_null() {
    match message(br#"{"id":"x","method":"m"}"#) {
        Some(Message::Request { id, method, params }) => {
            assert_eq!(id, RequestId::Str("x".to_string()));
            assert_eq!(method, "m");
            assert_eq!(params, Value::Null);
        }
        other => panic!("{other:?}"),
    }
}

#[test]
fn id_source_is_monotonic() {
    let mut ids = IdSource::default();
    assert_eq!(ids.next(), RequestId::Num(1));
    assert_eq!(ids.next(), RequestId::Num(2));
    assert_eq!(ids.next(), RequestId::Num(3));
    assert_eq!(RequestId::from(4), RequestId::Num(4));
}

#[test]
fn position_roundtrips_on_ascii() {
    let b = Buffer::from_str("hello world");
    let pos = to_lsp_position(&b, 0, 6);
    assert_eq!(
        pos,
        Position {
            line: 0,
            character: 6
        }
    );
    assert_eq!(from_lsp_position(&b, pos), (0, 6));
}

#[test]
fn position_handles_accented_bmp_char() {
    // "café x": é is one char and one UTF-16 unit, so col == utf16 col, but
    // it is multi-byte in UTF-8 — proving we count units, not bytes.
    let b = Buffer::from_str("café x");
    let pos = to_lsp_position(&b, 0, 5); // just before 'x'
    assert_eq!(pos.character, 5);
    assert_eq!(from_lsp_position(&b, pos), (0, 5));
}

#[test]
fn position_handles_non_bmp_surrogate_pair() {
    // "a😀b": 😀 is 1 char but 2 UTF-16 code units (a surrogate pair).
    let b = Buffer::from_str("a😀b");
    // char col 2 is just before 'b'; in UTF-16 that is unit 3 (a=1, 😀=2).
    let pos = to_lsp_position(&b, 0, 2);
    assert_eq!(pos.character, 3);
    // And back: UTF-16 unit 3 maps to char col 2.
    assert_eq!(from_lsp_position(&b, pos), (0, 2));
}

#[test]
fn out_of_range_positions_clamp() {
    let b = Buffer::from_str("hi\nthere");
    // col past end clamps to line length in UTF-16 space.
    let pos = to_lsp_position(&b, 0, 99);
    assert_eq!(pos.character, 2);
    // utf16 col past end clamps back to a valid char col.
    assert_eq!(
        from_lsp_position(
            &b,
            Position {
                line: 1,
                character: 99
            }
        ),
        (1, 5)
    );
}

#[test]
fn frame_roundtrips_through_the_decoder_as_a_message() {
    let body: Value = serde_json::from_str(r#"{"jsonrpc":"2.0","id":1,"result":{}}"#).unwrap();
    let mut d = FrameDecoder::new();
    d.push(&frame(&serde_json::to_vec(&body).unwrap()));
    let got = d.next_body().unwrap();
    let msg = message(&got).unwrap();
    assert!(matches!(msg, Message::Response { .. }));
}

#[test]
fn bodies_have_their_members() {
    let params: Value = serde_json::from_str(r#"{"a":[1,2]}"#).unwrap();
    let text = |t: &str| -> Value { serde_json::from_str(t).unwrap() };
    assert_eq!(
        request_body(&RequestId::Num(3), "m", params.clone()),
        text(r#"{"jsonrpc":"2.0","id":3,"method":"m","params":{"a":[1,2]}}"#)
    );
    assert_eq!(
        request_body(&RequestId::Str("q".to_string()), "m", params.clone()),
        text(r#"{"jsonrpc":"2.0","id":"q","method":"m","params":{"a":[1,2]}}"#)
    );
    assert_eq!(
        notification_body("n", params),
        text(r#"{"jsonrpc":"2.0","method":"n","params":{"a":[1,2]}}"#)
    );
    assert_eq!(
        response_body(&RequestId::Num(3), Value::Null),
        text(r#"{"jsonrpc":"2.0","id":3,"result":null}"#)
    );
}

#[test]
fn different_paths_have_different_uris() {
    assert_eq!(path_to_uri(&PathBuf::from("/a/b.rs")), "file:///a/b.rs");
    let space = path_to_uri(&PathBuf::from("/a b"));
    let escaped = path_to_uri(&PathBuf::from("/a%20b"));
    assert_eq!(space, "file:///a%20b");
    assert_eq!(escaped, "file:///a%2520b");
    assert_ne!(space, escaped);
}
