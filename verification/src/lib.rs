//! A small TCP load balancer: a controller that hands incoming connections
//! to server nodes, the per-node and per-connection byte buffers, the line
//! framing of requests, the answer to the index request, and the frames of
//! the JSON codec.

use vstd::prelude::*;

pub mod buf;
pub mod err;
pub mod server_node;
pub mod control_node;
pub mod enc_dec;
pub mod read_write;

verus! {

/// The outcome of polling something that may not be ready yet.
#[derive(Debug, Clone, Copy, PartialEq, Eq)]
pub enum Async<T> {
    /// The value is there.
    Ready(T),
    /// Nothing yet: poll again when woken.
    NotReady,
}

} // verus!
