//! The wire message type: a tagged union covering client requests, election
//! messages, acknowledgements, fragment carriers, coordinator announcements
//! and the crash-simulation trigger, together with the plain-value address
//! and transfer-identifier types the envelopes carry.

use vstd::prelude::*;

verus! {

/// A datagram endpoint: an IPv4 address held as one 32-bit integer, and a port.
#[derive(Clone, Copy, Debug, PartialEq, Eq, Structural)]
pub struct Addr {
    pub ip: u32,
    pub port: u16,
}

/// Identifies one logical transfer or one client request: the originator's
/// address together with a monotonically increasing per-originator counter.
#[derive(Clone, Copy, Debug, PartialEq, Eq, Structural)]
pub struct MsgId {
    pub addr: Addr,
    pub counter: u32,
}

/// The arbitration key: one client request. Same shape as a transfer id.
pub type ReqId = MsgId;

/// One bounded slice of a larger payload, individually addressed within a
/// transfer.
#[derive(Clone, Debug, PartialEq)]
pub struct Fragment {
    pub msg_id: MsgId,
    pub block_id: u32,
    pub frag_id: u32,
    /// Total length of the whole transfer, in bytes.
    pub msg_len: u32,
    pub data: Vec<u8>,
}

/// A raw RGBA image: dimensions and one byte per channel per pixel.
#[derive(Clone, Debug, PartialEq)]
pub struct Image {
    pub width: u32,
    pub height: u32,
    pub data: Vec<u8>,
}

/// The tagged union of wire messages.
#[derive(Clone, Debug, PartialEq)]
pub enum Type {
    /// A client asks the cloud to service request number `n` of its own.
    ClientRequest(u32),
    /// A server contends with the given priority for the request named in
    /// the envelope's payload.
    ElectionRequest(u32),
    /// A higher-priority server tells a contender it lost.
    OKMsg(u32),
    /// The winner announces itself (its election address) to every peer.
    CoordinatorBrdCast(Addr),
    /// Cumulative acknowledgement of every fragment of the named block.
    Ack(MsgId, u32),
    /// Carries one fragment of a transfer.
    Fragment(Fragment),
    /// Simulates a crash: the receiver goes down for the given seconds.
    Fail(u32),
}

/// One wire envelope; one is created per datagram sent.
#[derive(Clone, Debug, PartialEq)]
pub struct Msg {
    pub sender: Addr,
    pub receiver: Addr,
    pub msg_type: Type,
    /// Smuggles the request id alongside election-family messages.
    pub payload: Option<MsgId>,
}

} // verus!
