use jsonrpc_param_ord::inject::compute_flags;
use jsonrpc_param_ord::msg::{encode_call, inject_call, Call, Injection};
use jsonrpc_param_ord::rules::{parse_rules, Rule};
use serde_json::Value;

fn didopen_params(uri: &str) -> Value {
    let mut td = serde_json::Map::new();
    td.insert("uri".to_string(), Value::String(uri.to_string()));
    let mut p = serde_json::Map::new();
    p.insert("textDocument".to_string(), Value::Object(td));
    Value::Object(p)
}

fn didopen_call(uri: &str) -> Call {
    Call {
        jsonrpc: "2.0".to_string(),
        method: Some("textDocument/didOpen".to_string()),
        id: None,
        params: Some(didopen_params(uri)),
        result: None,
        error: None,
    }
}

fn load(text: &str) -> Vec<Rule> {
    parse_rules(text).expect("config should parse")
}

fn extra_flags(call: &Call) -> Vec<String> {
    let flags = call
        .params
        .as_ref()
        .expect("params present")
        .pointer("/metadata/extraFlags")
        .expect("extraFlags present");
    match flags {
        Value::Array(items) => items
            .iter()
            .map(|v| v.as_str().expect("flag is a string").to_string())
            .collect(),
        _ => panic!("extraFlags is not an array"),
    }
}

#[test]
fn replace_discards_earlier_append() {
    let rules = load("+*.c -Wall\n=*.c -Wextra\n");
    let flags = compute_flags(&rules, "x.c");
    assert_eq!(flags, vec!["-Wextra".to_string()]);
}

#[test]
fn appends_accumulate_in_order() {
    let rules = load("+*.cpp --std=c++1z\n+*.cpp -Wall\n");
    let flags = compute_flags(&rules, "a.cpp");
    assert_eq!(flags, vec!["--std=c++1z".to_string(), "-Wall".to_string()]);
}

#[test]
fn later_append_extends_replaced_set() {
    let rules = load("=*.c -Wextra\n+*.c -Wall\n+*.h -DX\n");
    let flags = compute_flags(&rules, "b.c");
    assert_eq!(flags, vec!["-Wextra".to_string(), "-Wall".to_string()]);
}

#[test]
fn injected_flags_reach_the_message() {
    let rules = load("+*.c --std=gnu99 -Wall\n");
    let mut call = didopen_call("file:///work/x.c");
    match inject_call(&mut call, &rules) {
        Injection::Injected { path, flags } => {
            assert_eq!(path, "/work/x.c");
            assert_eq!(flags, vec!["--std=gnu99".to_string(), "-Wall".to_string()]);
        },
        other => panic!("expected injection, got {:?}", outcome_name(&other)),
    }
    assert_eq!(
        extra_flags(&call),
        vec!["--std=gnu99".to_string(), "-Wall".to_string()]
    );
}

fn outcome_name(i: &Injection) -> &'static str {
    match i {
        Injection::NotDidOpen => "NotDidOpen",
        Injection::NoPath => "NoPath",
        Injection::NotObject => "NotObject",
        Injection::Injected { .. } => "Injected",
    }
}

#[test]
fn non_matching_path_gets_explicit_empty_array() {
    let rules = load("+*.c -Wall\n");
    let mut call = didopen_call("file:///work/readme.txt");
    assert!(matches!(inject_call(&mut call, &rules), Injection::Injected { .. }));
    assert_eq!(extra_flags(&call), Vec::<String>::new());
    let present = call.params.as_ref().unwrap().pointer("/metadata/extraFlags").is_some();
    assert!(present, "extraFlags must be present even when empty");
}

#[test]
fn other_methods_pass_through_identically() {
    let rules = load("+*.c -Wall\n");
    let mut call = Call {
        jsonrpc: "2.0".to_string(),
        method: Some("textDocument/didChange".to_string()),
        id: Some(Value::Number(3.into())),
        params: Some(didopen_params("file:///work/x.c")),
        result: None,
        error: None,
    };
    let before = encode_call(&call);
    assert!(matches!(inject_call(&mut call, &rules), Injection::NotDidOpen));
    let after = encode_call(&call);
    assert_eq!(before, after, "pass-through must re-encode to the identical body");
}

#[test]
fn notification_without_method_passes_through() {
    let rules = load("+*.c -Wall\n");
    let mut call = Call {
        jsonrpc: "2.0".to_string(),
        method: None,
        id: Some(Value::Number(9.into())),
        params: None,
        result: Some(Value::Bool(false)),
        error: None,
    };
    let before = encode_call(&call);
    assert!(matches!(inject_call(&mut call, &rules), Injection::NotDidOpen));
    assert_eq!(before, encode_call(&call));
}

#[test]
fn missing_uri_is_a_graceful_no_op() {
    let rules = load("+*.c -Wall\n");
    let mut p = serde_json::Map::new();
    p.insert("textDocument".to_string(), Value::Object(serde_json::Map::new()));
    let mut call = Call {
        jsonrpc: "2.0".to_string(),
        method: Some("textDocument/didOpen".to_string()),
        id: None,
        params: Some(Value::Object(p)),
        result: None,
        error: None,
    };
    let before = encode_call(&call);
    assert!(matches!(inject_call(&mut call, &rules), Injection::NoPath));
    assert_eq!(before, encode_call(&call));
}

#[test]
fn unparsable_uri_is_a_graceful_no_op() {
    let rules = load("+*.c -Wall\n");
    let mut call = didopen_call("not a uri at all");
    let before = encode_call(&call);
    assert!(matches!(inject_call(&mut call, &rules), Injection::NoPath));
    assert_eq!(before, encode_call(&call));
}

#[test]
fn non_file_scheme_uri_is_a_graceful_no_op() {
    let rules = load("+*.c -Wall\n");
    let mut call = didopen_call("http://example.com/x.c");
    let before = encode_call(&call);
    assert!(matches!(inject_call(&mut call, &rules), Injection::NoPath));
    assert_eq!(before, encode_call(&call));
}

#[test]
fn non_object_params_is_a_graceful_no_op() {
    let rules = load("+* -Wall\n");
    let mut call = Call {
        jsonrpc: "2.0".to_string(),
        method: Some("textDocument/didOpen".to_string()),
        id: None,
        params: Some(Value::String("odd".to_string())),
        result: None,
        error: None,
    };
    let before = encode_call(&call);
    let outcome = inject_call(&mut call, &rules);
    assert!(matches!(outcome, Injection::NoPath | Injection::NotObject));
    assert_eq!(before, encode_call(&call));
}

#[test]
fn empty_rule_store_still_injects_empty_list() {
    let rules: Vec<Rule> = Vec::new();
    let mut call = didopen_call("file:///work/x.c");
    assert!(matches!(inject_call(&mut call, &rules), Injection::Injected { .. }));
    assert_eq!(extra_flags(&call), Vec::<String>::new());
}

#[test]
fn percent_encoded_uri_resolves_to_the_decoded_path() {
    let rules = load("+*.c -Wall\n");
    let mut call = didopen_call("file:///my%20dir/x.c");
    match inject_call(&mut call, &rules) {
        Injection::Injected { path, flags } => {
            assert_eq!(path, "/my dir/x.c");
            assert_eq!(flags, vec!["-Wall".to_string()]);
        },
        other => panic!("expected injection, got {:?}", outcome_name(&other)),
    }
}
