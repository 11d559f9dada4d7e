use jsonrpc_param_ord::msg::{encode_call, decode_call, Call, CallStep, DecodeFault};
use serde_json::Value;

fn simple_call(method: Option<&str>) -> Call {
    Call {
        jsonrpc: "2.0".to_string(),
        method: method.map(|m| m.to_string()),
        id: None,
        params: None,
        result: None,
        error: None,
    }
}

fn decode_one(bytes: &[u8]) -> CallStep {
    let mut buf: Vec<u8> = bytes.to_vec();
    decode_call(&mut buf)
}

#[test]
fn round_trip_full_message() {
    let call = Call {
        jsonrpc: "2.0".to_string(),
        method: Some("textDocument/definition".to_string()),
        id: Some(Value::Number(7.into())),
        params: Some(Value::String("p".to_string())),
        result: Some(Value::Bool(true)),
        error: Some(Value::Null),
    };
    let bytes = encode_call(&call);
    let mut buf = bytes.clone();
    match decode_call(&mut buf) {
        CallStep::Item(back) => {
            assert_eq!(back.jsonrpc, "2.0");
            assert_eq!(back.method.as_deref(), Some("textDocument/definition"));
            assert_eq!(back.id, Some(Value::Number(7.into())));
            assert_eq!(back.params, Some(Value::String("p".to_string())));
            assert_eq!(back.result, Some(Value::Bool(true)));
            assert_eq!(back.error, Some(Value::Null));
        },
        _ => panic!("expected one decoded message"),
    }
    assert!(buf.is_empty());
}

#[test]
fn round_trip_absent_fields_stay_absent() {
    let call = simple_call(None);
    let bytes = encode_call(&call);
    let text = String::from_utf8(bytes.clone()).unwrap();
    assert!(!text.contains("method"));
    assert!(!text.contains("null"));
    match decode_one(&bytes) {
        CallStep::Item(back) => {
            assert_eq!(back.jsonrpc, "2.0");
            assert!(back.method.is_none());
            assert!(back.id.is_none());
            assert!(back.params.is_none());
            assert!(back.result.is_none());
            assert!(back.error.is_none());
        },
        _ => panic!("expected one decoded message"),
    }
}

#[test]
fn incremental_decode_one_byte_at_a_time() {
    let call = simple_call(Some("initialize"));
    let bytes = encode_call(&call);
    let mut buf: Vec<u8> = Vec::new();
    let mut decoded = 0usize;
    for (i, b) in bytes.iter().enumerate() {
        buf.push(*b);
        match decode_call(&mut buf) {
            CallStep::NeedData => {
                assert!(i + 1 < bytes.len(), "all bytes present but still waiting");
                assert_eq!(buf.len(), i + 1, "no byte may be consumed early");
            },
            CallStep::Item(back) => {
                assert_eq!(i + 1, bytes.len(), "decoded before all bytes arrived");
                assert_eq!(back.method.as_deref(), Some("initialize"));
                decoded += 1;
            },
            CallStep::Bad(f) => panic!("unexpected fault {:?}", f),
        }
    }
    assert_eq!(decoded, 1);
    assert!(buf.is_empty());
    assert!(matches!(decode_call(&mut buf), CallStep::NeedData));
}

#[test]
fn incremental_decode_every_split_point() {
    let call = simple_call(Some("shutdown"));
    let bytes = encode_call(&call);
    for split in 0..=bytes.len() {
        let mut buf: Vec<u8> = bytes[..split].to_vec();
        match decode_call(&mut buf) {
            CallStep::NeedData => assert!(split < bytes.len()),
            CallStep::Item(back) => {
                assert_eq!(split, bytes.len());
                assert_eq!(back.method.as_deref(), Some("shutdown"));
            },
            CallStep::Bad(f) => panic!("unexpected fault {:?}", f),
        }
    }
}

#[test]
fn lf_terminated_headers_accepted() {
    let body = br#"{"jsonrpc":"2.0","method":"m"}"#;
    let mut bytes = format!("Content-Length: {}\n\n", body.len()).into_bytes();
    bytes.extend_from_slice(body);
    match decode_one(&bytes) {
        CallStep::Item(back) => assert_eq!(back.method.as_deref(), Some("m")),
        _ => panic!("expected one decoded message"),
    }
}

#[test]
fn extra_headers_ignored_and_whitespace_allowed() {
    let body = br#"{"jsonrpc":"2.0","id":1}"#;
    let mut bytes =
        format!("X-Extra: yes\r\nContent-Length:\t {}\r\nAnother: 2\r\n\r\n", body.len())
            .into_bytes();
    bytes.extend_from_slice(body);
    match decode_one(&bytes) {
        CallStep::Item(back) => assert_eq!(back.id, Some(Value::Number(1.into()))),
        _ => panic!("expected one decoded message"),
    }
}

#[test]
fn missing_content_length_is_fatal() {
    let bytes = b"X-Extra: yes\r\n\r\n{}".to_vec();
    match decode_one(&bytes) {
        CallStep::Bad(DecodeFault::HeaderMissing) => {},
        _ => panic!("expected HeaderMissing"),
    }
}

#[test]
fn unparsable_length_is_fatal() {
    let bytes = b"Content-Length: abc\r\n\r\n{}".to_vec();
    match decode_one(&bytes) {
        CallStep::Bad(DecodeFault::LengthFormat) => {},
        _ => panic!("expected LengthFormat"),
    }
}

#[test]
fn overflowing_length_is_fatal() {
    let bytes = b"Content-Length: 99999999999999999999999999\r\n\r\n{}".to_vec();
    match decode_one(&bytes) {
        CallStep::Bad(DecodeFault::LengthFormat) => {},
        _ => panic!("expected LengthFormat"),
    }
}

#[test]
fn malformed_body_is_message_format() {
    let body = b"{not json";
    let mut bytes = format!("Content-Length: {}\r\n\r\n", body.len()).into_bytes();
    bytes.extend_from_slice(body);
    match decode_one(&bytes) {
        CallStep::Bad(DecodeFault::MessageFormat) => {},
        _ => panic!("expected MessageFormat"),
    }
}

#[test]
fn trailing_bytes_stay_for_next_call() {
    let first = encode_call(&simple_call(Some("one")));
    let second = encode_call(&simple_call(Some("two")));
    let mut buf = first.clone();
    buf.extend_from_slice(&second);
    match decode_call(&mut buf) {
        CallStep::Item(back) => assert_eq!(back.method.as_deref(), Some("one")),
        _ => panic!("expected first message"),
    }
    assert_eq!(buf, second);
    match decode_call(&mut buf) {
        CallStep::Item(back) => assert_eq!(back.method.as_deref(), Some("two")),
        _ => panic!("expected second message"),
    }
    assert!(buf.is_empty());
}

#[test]
fn incomplete_headers_wait_without_consuming() {
    let mut buf = b"Content-Length: 10\r\n".to_vec();
    let before = buf.clone();
    assert!(matches!(decode_call(&mut buf), CallStep::NeedData));
    assert_eq!(buf, before);
}

#[test]
fn zero_length_body_is_message_format() {
    let bytes = b"Content-Length: 0\r\n\r\n".to_vec();
    match decode_one(&bytes) {
        CallStep::Bad(DecodeFault::MessageFormat) => {},
        _ => panic!("expected MessageFormat for an empty body"),
    }
}

#[test]
fn deeply_nested_value_encodes_but_exceeds_the_parsers_depth() {
    let mut v = Value::Null;
    for _ in 0..200 {
        let mut m = serde_json::Map::new();
        m.insert("a".to_string(), v);
        v = Value::Object(m);
    }
    let call = Call {
        jsonrpc: "2.0".to_string(),
        method: None,
        id: None,
        params: Some(v),
        result: None,
        error: None,
    };
    let bytes = encode_call(&call);
    match decode_one(&bytes) {
        CallStep::Bad(DecodeFault::MessageFormat) => {},
        CallStep::Item(_) => panic!("the parser's recursion limit should refuse this body"),
        _ => panic!("expected a message-format fault"),
    }
}

#[test]
fn parsed_messages_round_trip_within_the_depth_limit() {
    let mut v = Value::Null;
    for _ in 0..100 {
        let mut m = serde_json::Map::new();
        m.insert("a".to_string(), v);
        v = Value::Object(m);
    }
    let call = Call {
        jsonrpc: "2.0".to_string(),
        method: None,
        id: None,
        params: Some(v.clone()),
        result: None,
        error: None,
    };
    let once = encode_call(&call);
    let first = match decode_one(&once) {
        CallStep::Item(c) => c,
        _ => panic!("expected one decoded message"),
    };
    let twice = encode_call(&first);
    match decode_one(&twice) {
        CallStep::Item(c) => assert_eq!(c.params, Some(v)),
        _ => panic!("a parsed message must round-trip"),
    }
}
