//! An HTTP/1.x connection protocol engine: incremental head parsing, body
//! framing, the chunked transfer-coding, and the per-connection state machine.
use vstd::prelude::*;

pub mod chunked;
pub mod conn;
pub mod framing;
pub mod parse;
pub mod reader;
pub mod writer;

verus! {

} // verus!
