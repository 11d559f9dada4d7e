//! An intercepting proxy core for Content-Length framed JSON-RPC traffic.
//!
//! The library holds the verified logic of the proxy: the incremental frame
//! codec, the rule store loaded from a line-oriented config format, the
//! flag-injection engine applied to `textDocument/didOpen` requests, and the
//! outcome aggregation for a run of the two directional pumps. The I/O shell
//! that wires standard streams and a subprocess to these parts lives outside
//! the library.

pub mod frame;
pub mod rules;
pub mod inject;
pub mod msg;
pub mod pump;
