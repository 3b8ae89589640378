//! Cooperative request servicing over unreliable datagram links.
//!
//! Peer servers arbitrate, per client request, which single server handles
//! it (a randomized-priority contention protocol), and the chosen server
//! exchanges large payloads with the requester over a fragment/block/ack
//! reliable-delivery protocol built on raw datagrams.

use vstd::prelude::*;

pub mod arbitration;
pub mod client;
pub mod codec;
pub mod envelope;
pub mod peers;
pub mod reassembly;
pub mod rng;
pub mod sender;
pub mod sim;
pub mod steg;
pub mod table;
pub mod transfer;

verus! {

/// Size of one fragment's data slice, in bytes.
pub const FRAG_SIZE: usize = 8000;

/// Number of fragments acknowledged as one block.
pub const BLOCK_SIZE: usize = 8;

/// Receive buffer size used by the datagram loops.
pub const BUFFER_SIZE: usize = 32768;

/// Fixed ack/election timeout, in milliseconds.
pub const TIMEOUT_MILLIS: usize = 2000;

/// Default port of the service channel.
pub const SERVICE_PORT: u16 = 8080;

/// Default port of the election channel.
pub const ELECTION_PORT: u16 = 8081;

/// Default port of the send-back channel.
pub const SERVICE_SENDBACK_PORT: u16 = 8082;

} // verus!
