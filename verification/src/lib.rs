//! An in-memory string-to-string key-value server: an open-addressing
//! hash table behind a framed wire protocol.
//!
//! The pieces, innermost first: [`oa_map`] is the dictionary that holds
//! the keyspace; [`codec`] frames requests and encodes and decodes the
//! tagged reply bodies; [`engine`] parses one request payload and runs
//! its command against the dictionary; [`conn`] is the per-connection
//! state machine over two fixed buffers.  The event loop that feeds the
//! state machine with socket I/O lives outside the library and hands it
//! plain bytes.
pub mod codec;
pub mod conn;
pub mod engine;
pub mod oa_map;

use vstd::prelude::*;

verus! {

/// Upper bound on the payload of a request frame and on the body of a
/// reply frame, in bytes.
pub const K_MAX_MSG: usize = 4096;

} // verus!
