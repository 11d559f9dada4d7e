//! The message model: one JSON-RPC shaped message covering the
//! request/notification/response/error field superset, and the codec and
//! injector entry points that work on it.
//!
//! The `id`, `params`, `result` and `error` members are opaque JSON values
//! carried through unchanged; absent members stay absent on re-encoding.

use vstd::prelude::*;
use serde_json::Value;
use crate::frame::{decode_frame, encode_frame, decode_spec, frame_bytes, FrameStep, FrameError,
    SpecStep};
use crate::inject::{compute_flags, fold_flags, matches_of};
use crate::rules::{Rule, RuleView, rules_view, strs_view};

verus! {

#[verifier::external_type_specification]
#[verifier::external_body]
pub struct ExValue(Value);

/// One JSON-RPC shaped message. The protocol intends exactly one of
/// `method` or `result`/`error` per message, but the model accepts and
/// round-trips any combination found on the wire.
pub struct Call {
    pub jsonrpc: String,
    pub method: Option<String>,
    pub id: Option<Value>,
    pub params: Option<Value>,
    pub result: Option<Value>,
    pub error: Option<Value>,
}

/// The one method whose requests the injector touches.
pub open spec fn didopen_method() -> Seq<char> {
    "textDocument/didOpen"@
}

impl Call {
    /// The message is a didOpen request.
    pub open spec fn is_didopen(&self) -> bool {
        match self.method {
            Some(m) => m@ == didopen_method(),
            None => false,
        }
    }
}

/// What the JSON parser makes of a body: a function of the bytes alone.
/// `None` stands for every body that is not a JSON object whose `jsonrpc`
/// member is a string and whose `method` member (if present) is a string.
pub uninterp spec fn parse_of(b: Seq<u8>) -> Option<Call>;

/// The compact JSON body written for a message: a function of the message
/// alone (present members only, in fixed order).
pub uninterp spec fn ser_of(c: Call) -> Seq<u8>;

/// Whether a JSON value is an object: a function of the value alone.
pub uninterp spec fn json_is_object(v: Value) -> bool;

/// The JSON object with its `metadata` member set to an object holding
/// `extraFlags` with the given flags: a function of the value and the flags
/// alone.
pub uninterp spec fn json_with_flags(v: Value, flags: Seq<Seq<char>>) -> Value;

/// The filesystem path a didOpen params value resolves to through
/// `textDocument.uri`, if any: a function of the value alone, for a given
/// build (path conversion follows the platform's path rules).
pub uninterp spec fn path_of(p: Value) -> Option<Seq<char>>;

/// Relies on serde_json::from_slice and the serde_json::Value variants: the
/// body parsed as a JSON object whose `jsonrpc` member is a string, whose
/// `method` member (if present) is a string, and whose `id`, `params`,
/// `result` and `error` members are carried over opaquely; `None` on any
/// other body. A message this parser accepted round-trips: it fits the
/// parser's recursion limit, serializing keeps its nesting depth and its
/// members, and serde_json reads its own output back value for value.
#[verifier::external_body]
fn call_from_bytes(b: &[u8]) -> (r: Option<Call>)
    ensures
        r == parse_of(b@),
        r matches Some(c) ==> parse_of(ser_of(c)) == Some(c),
{
    let mut m = match serde_json::from_slice(b) {
        Ok(Value::Object(m)) => m,
        _ => return None,
    };
    let jsonrpc = match m.remove("jsonrpc") {
        Some(Value::String(s)) => s,
        _ => return None,
    };
    let method = match m.remove("method") {
        None => None,
        Some(Value::String(s)) => Some(s),
        Some(_) => return None,
    };
    Some(Call { jsonrpc, method, id: m.remove("id"), params: m.remove("params"),
        result: m.remove("result"), error: m.remove("error") })
}

/// Relies on serde_json::to_vec and serde_json::Map (insertion-ordered): the
/// message written as one compact JSON object holding only the present
/// members, in the order jsonrpc, method, id, params, result, error.
/// Serialization has no depth check, while parsing enforces a recursion
/// limit, so no round trip is claimed here: it holds only of messages the
/// parser itself produced, and is stated there.
#[verifier::external_body]
fn call_to_bytes(c: &Call) -> (r: Vec<u8>)
    ensures
        r@ == ser_of(*c),
{
    let mut m = serde_json::Map::new();
    m.insert("jsonrpc".to_owned(), Value::String(c.jsonrpc.clone()));
    if let Some(v) = &c.method {
        m.insert("method".to_owned(), Value::String(v.clone()));
    }
    for (k, v) in [("id", &c.id), ("params", &c.params), ("result", &c.result), ("error", &c.error)] {
        if let Some(v) = v {
            m.insert(k.to_owned(), v.clone());
        }
    }
    serde_json::to_vec(&Value::Object(m)).unwrap_or_default()
}

/// Relies on serde_json::Value::pointer and Value::as_str, and on
/// url::Url::parse and Url::to_file_path: the filesystem path named by
/// `params.textDocument.uri`, when that member holds a parsable file-scheme
/// uri; `None` otherwise.
#[verifier::external_body]
fn didopen_path(params: &Value) -> (r: Option<String>)
    ensures
        ({
            match path_of(*params) {
                Option::Some(pa) => r matches Some(s) && s@ == pa,
                Option::None => r is None,
            }
        }),
{
    let uri = params.pointer("/textDocument/uri")?.as_str()?;
    let url = url::Url::parse(uri).ok()?;
    let path = url.to_file_path().ok()?;
    path.to_str().map(str::to_owned)
}

/// Relies on serde_json::Value::as_object_mut and serde_json::Map::insert:
/// when the value is a JSON object, sets its `metadata` member to an object
/// holding `extraFlags` with the given flags and reports true; otherwise
/// reports false, the value untouched (as_object_mut returns None for every
/// non-object without reading further).
#[verifier::external_body]
fn set_metadata(params: &mut Value, flags: &Vec<String>) -> (r: bool)
    ensures
        r == json_is_object(*old(params)),
        r ==> *final(params) == json_with_flags(*old(params), crate::rules::strs_view(flags@)),
        !r ==> *final(params) == *old(params),
{
    let obj = match params.as_object_mut() {
        Some(o) => o,
        None => return false,
    };
    let mut list: Vec<Value> = Vec::new();
    for f in flags {
        list.push(Value::String(f.clone()));
    }
    let mut meta = serde_json::Map::new();
    meta.insert("extraFlags".to_owned(), Value::Array(list));
    obj.insert("metadata".to_owned(), Value::Object(meta));
    true
}

/// What the injector did with one message.
pub enum Injection {
    /// Not a didOpen request: passed through untouched.
    NotDidOpen,
    /// A didOpen whose params yield no filesystem path: passed through
    /// untouched.
    NoPath,
    /// A didOpen with a path, but params is no JSON object: passed through
    /// untouched.
    NotObject,
    /// Flags were gathered for the path and written under
    /// `params.metadata.extraFlags`.
    Injected { path: String, flags: Vec<String> },
}

/// Applies the injector to one message, in place.
///
/// Only a didOpen request with a resolvable path and object-shaped params is
/// changed, and only its params member: the folded flags are written under
/// `params.metadata.extraFlags`, an explicit (possibly empty) array. Every
/// other message passes through as the identical value.
pub fn inject_call(call: &mut Call, rules: &Vec<Rule>) -> (r: Injection)
    ensures
        final(call).jsonrpc == old(call).jsonrpc,
        final(call).method == old(call).method,
        final(call).id == old(call).id,
        final(call).result == old(call).result,
        final(call).error == old(call).error,
        r is NotDidOpen <==> !old(call).is_didopen(),
        old(call).is_didopen() && old(call).params is None ==> r is NoPath,
        old(call).is_didopen() ==> (old(call).params matches Some(p) ==> (match path_of(p) {
            Option::Some(pa) => (json_is_object(p) ==> (r matches Injection::Injected { path, .. }
                && path@ == pa)) && (!json_is_object(p) ==> r is NotObject),
            Option::None => r is NoPath,
        })),
        !(r is Injected) ==> final(call).params == old(call).params,
        r is NotObject ==> (old(call).params matches Some(p) && !json_is_object(p)),
        r matches Injection::Injected { path, flags } ==> old(call).is_didopen() && strs_view(
            flags@,
        ) == fold_flags(rules_view(rules@), matches_of(rules_view(rules@), path@)) && (old(
            call,
        ).params matches Some(p) && json_is_object(p) && final(call).params == Some(
            json_with_flags(p, strs_view(flags@)),
        )),
{
    let is_open = match &call.method {
        Some(m) => {
            let target = "textDocument/didOpen".to_owned();
            *m == target
        },
        None => false,
    };
    if !is_open {
        return Injection::NotDidOpen;
    }
    let path_opt = match &call.params {
        Some(p) => didopen_path(p),
        None => None,
    };
    let path = match path_opt {
        Some(p) => p,
        None => {
            return Injection::NoPath;
        },
    };
    let flags = compute_flags(rules, path.as_str());
    match &mut call.params {
        Some(p) => {
            if set_metadata(p, &flags) {
                Injection::Injected { path, flags }
            } else {
                Injection::NotObject
            }
        },
        None => Injection::NoPath,
    }
}

/// The ways decoding one message can fail.
#[derive(PartialEq, Eq, Structural, Clone, Copy, Debug)]
pub enum DecodeFault {
    /// The frame's header block holds no `Content-Length:` line.
    HeaderMissing,
    /// The frame's declared length is no usable decimal number.
    LengthFormat,
    /// The frame's body is not a JSON object of the expected shape.
    MessageFormat,
}

pub open spec fn fault_of(k: FrameError) -> DecodeFault {
    match k {
        FrameError::HeaderMissing => DecodeFault::HeaderMissing,
        FrameError::LengthFormat => DecodeFault::LengthFormat,
    }
}

/// Result of one message-decoding step over a growable byte buffer.
pub enum CallStep {
    /// The buffer holds no whole frame yet; nothing was consumed.
    NeedData,
    /// One whole frame was consumed and its body parsed.
    Item(Call),
    /// A malformed header block, or a body that does not parse; on a header
    /// fault nothing was consumed.
    Bad(DecodeFault),
}

/// Runs one message-decoding step on the buffer: frame extraction exactly as
/// the frame codec states it, then the body handed to the JSON parser.
pub fn decode_call(buf: &mut Vec<u8>) -> (r: CallStep)
    requires
        old(buf)@.len() + 16 <= usize::MAX,
    ensures
        decode_spec(old(buf)@) is Incomplete ==> r is NeedData && final(buf)@ == old(buf)@,
        decode_spec(old(buf)@) matches SpecStep::Malformed { kind } ==> r == CallStep::Bad(
            fault_of(kind),
        ) && final(buf)@ == old(buf)@,
        decode_spec(old(buf)@) matches SpecStep::Complete { body, rest } ==> final(buf)@ == rest
            && (match parse_of(body) {
            Option::Some(c) => r == CallStep::Item(c) && parse_of(ser_of(c)) == Some(c),
            Option::None => r == CallStep::Bad(DecodeFault::MessageFormat),
        }),
{
    match decode_frame(buf) {
        FrameStep::NeedData => CallStep::NeedData,
        FrameStep::Bad(FrameError::HeaderMissing) => CallStep::Bad(DecodeFault::HeaderMissing),
        FrameStep::Bad(FrameError::LengthFormat) => CallStep::Bad(DecodeFault::LengthFormat),
        FrameStep::Item(body) => match call_from_bytes(body.as_slice()) {
            Some(c) => CallStep::Item(c),
            None => CallStep::Bad(DecodeFault::MessageFormat),
        },
    }
}

/// Encodes one message: its serialized JSON body, wrapped in exactly the
/// frame that `frame_bytes` states.
pub fn encode_call(call: &Call) -> (r: Vec<u8>)
    ensures
        r@ == frame_bytes(ser_of(*call)),
        ser_of(*call).len() <= usize::MAX,
{
    let body = call_to_bytes(call);
    let _len = body.len();
    encode_frame(&body)
}

/// How the injector relates the message leaving the editor-bound pump to
/// the one that arrived: every member but `params` is kept; a message that
/// is no didOpen request, lacks params, or resolves to no path stays the
/// identical value; a didOpen with a path and object-shaped params gets
/// exactly the folded flags for that path written into its params.
pub open spec fn inject_rel(before: Call, after: Call, rules: Seq<RuleView>) -> bool {
    &&& after.jsonrpc == before.jsonrpc
    &&& after.method == before.method
    &&& after.id == before.id
    &&& after.result == before.result
    &&& after.error == before.error
    &&& (!before.is_didopen() ==> after == before)
    &&& (before.is_didopen() ==> match before.params {
        Option::None => after == before,
        Option::Some(p) => match path_of(p) {
            Option::None => after == before,
            Option::Some(pa) => if json_is_object(p) {
                after.params == Some(json_with_flags(p, fold_flags(rules, matches_of(rules, pa))))
            } else {
                after == before
            },
        },
    })
}

} // verus!
