use jsonrpc_param_ord::msg::{decode_call, encode_call, Call, CallStep, DecodeFault};
use jsonrpc_param_ord::pump::{conclude, Pump, PumpFault, RunError};
use jsonrpc_param_ord::rules::parse_rules;
use serde_json::Value;

fn notification(method: &str) -> Call {
    Call {
        jsonrpc: "2.0".to_string(),
        method: Some(method.to_string()),
        id: None,
        params: None,
        result: None,
        error: None,
    }
}

fn decode_all(mut bytes: Vec<u8>) -> Vec<Call> {
    let mut out = Vec::new();
    loop {
        match decode_call(&mut bytes) {
            CallStep::Item(c) => out.push(c),
            CallStep::NeedData => break,
            CallStep::Bad(f) => panic!("unexpected fault {:?}", f),
        }
    }
    assert!(bytes.is_empty());
    out
}

#[test]
fn order_is_preserved_within_a_direction() {
    let mut input: Vec<u8> = Vec::new();
    let names = ["first", "second", "third", "fourth", "fifth"];
    for name in names {
        input.extend_from_slice(&encode_call(&notification(name)));
    }
    let mut pump = Pump::new();
    let out = pump.pump_bytes(&input, None).expect("clean stream");
    assert!(pump.buf.is_empty());
    let calls = decode_all(out);
    let seen: Vec<_> = calls.iter().map(|c| c.method.clone().unwrap()).collect();
    assert_eq!(seen, names.iter().map(|s| s.to_string()).collect::<Vec<_>>());
}

#[test]
fn order_is_preserved_across_chunk_boundaries() {
    let mut input: Vec<u8> = Vec::new();
    for i in 0..4 {
        input.extend_from_slice(&encode_call(&notification(&format!("msg{}", i))));
    }
    let mut pump = Pump::new();
    let mut collected: Vec<u8> = Vec::new();
    for chunk in input.chunks(7) {
        collected.extend_from_slice(&pump.pump_bytes(chunk, None).expect("clean stream"));
    }
    assert!(pump.buf.is_empty());
    let calls = decode_all(collected);
    let seen: Vec<_> = calls.iter().map(|c| c.method.clone().unwrap()).collect();
    assert_eq!(
        seen,
        vec!["msg0".to_string(), "msg1".to_string(), "msg2".to_string(), "msg3".to_string()]
    );
}

#[test]
fn editor_direction_injects_while_pumping() {
    let rules = parse_rules("+*.c -Wall\n").expect("config should parse");
    let mut td = serde_json::Map::new();
    td.insert("uri".to_string(), Value::String("file:///w/x.c".to_string()));
    let mut p = serde_json::Map::new();
    p.insert("textDocument".to_string(), Value::Object(td));
    let call = Call {
        jsonrpc: "2.0".to_string(),
        method: Some("textDocument/didOpen".to_string()),
        id: None,
        params: Some(Value::Object(p)),
        result: None,
        error: None,
    };
    let mut input = encode_call(&notification("textDocument/didChange"));
    input.extend_from_slice(&encode_call(&call));
    let mut pump = Pump::new();
    let out = pump.pump_bytes(&input, Some(&rules)).expect("clean stream");
    let calls = decode_all(out);
    assert_eq!(calls.len(), 2);
    assert!(calls[0].params.is_none(), "non-didOpen passes through untouched");
    let flags = calls[1]
        .params
        .as_ref()
        .unwrap()
        .pointer("/metadata/extraFlags")
        .expect("flags injected");
    assert_eq!(flags, &Value::Array(vec![Value::String("-Wall".to_string())]));
}

#[test]
fn malformed_frame_is_fatal_for_the_pump() {
    let mut pump = Pump::new();
    match pump.pump_bytes(b"No-Length: 4\r\n\r\n{}", None) {
        Err(DecodeFault::HeaderMissing) => {},
        other => panic!("expected HeaderMissing, got {:?}", other.map(|v| v.len())),
    }
}

#[test]
fn malformed_body_is_fatal_for_the_pump() {
    let mut pump = Pump::new();
    match pump.pump_bytes(b"Content-Length: 3\r\n\r\nnop", None) {
        Err(DecodeFault::MessageFormat) => {},
        other => panic!("expected MessageFormat, got {:?}", other.map(|v| v.len())),
    }
}

#[test]
fn partial_frame_waits_in_the_buffer() {
    let bytes = encode_call(&notification("late"));
    let (head, tail) = bytes.split_at(bytes.len() - 3);
    let mut pump = Pump::new();
    let out = pump.pump_bytes(head, None).expect("no fault yet");
    assert!(out.is_empty());
    assert_eq!(pump.buf, head.to_vec());
    let out = pump.pump_bytes(tail, None).expect("clean stream");
    let calls = decode_all(out);
    assert_eq!(calls.len(), 1);
    assert_eq!(calls[0].method.as_deref(), Some("late"));
}

#[test]
fn clean_run_reports_success() {
    assert_eq!(conclude(None, true), Ok(()));
}

#[test]
fn nonzero_exit_after_clean_streams_is_failure() {
    assert_eq!(conclude(None, false), Err(RunError::SubprocessFailed));
}

#[test]
fn pump_fault_wins_over_exit_status() {
    let fault = PumpFault::Codec(DecodeFault::HeaderMissing);
    assert_eq!(conclude(Some(fault), true), Err(RunError::Pump(fault)));
    assert_eq!(conclude(Some(PumpFault::Transport), false), Err(RunError::Pump(PumpFault::Transport)));
}
