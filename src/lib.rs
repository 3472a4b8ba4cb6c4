//! The connection-facing core of a key-value server that speaks RESP2:
//! a frame decoder and encoder, a command parser, the per-connection
//! session rules and the connection identity allocator.
pub mod client;
pub mod command;
pub mod decimal;
pub mod decode;
pub mod error;
pub mod ids;
pub mod piece;
pub mod stream;

use vstd::prelude::*;

verus! {

} // verus!
