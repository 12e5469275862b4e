//! A user-space TCP transport core: the wire codec for the 20-byte TCP
//! header, the per-connection socket state, the socket table with its
//! handshake and data handlers, the retransmission timer step, and the
//! event slot that wakes blocked callers.
//!
//! The crate holds only the protocol logic. Packet ingress and egress,
//! threads, locks and condition variables are left to the embedding
//! program, which feeds inbound segments to [`tcp::TCP::receive_segment`],
//! transmits whatever [`socket::Outgoing`] values come back, and drives
//! the timer by calling [`tcp::TCP::timer_tick`] with the current time.
use vstd::prelude::*;

pub mod tcpflags;
pub mod packet;
pub mod socket;
pub mod tcp;
pub mod route;
pub mod laws;

verus! {

/// The errors that the user-facing calls can surface. Background
/// processing (inbound segments, the timer) never fails: malformed or
/// unexpected packets are dropped.
#[derive(Clone, Copy, PartialEq, Eq, Structural, Debug)]
pub enum TcpError {
    /// No socket in the table has the given identifier.
    SocketNotFound,
    /// The listener's queue of completed connections is empty.
    NoPendingConnection,
    /// Every port in the ephemeral range is already taken.
    NoAvailablePort,
    /// The send-side sequence numbers would leave the non-wrapping window.
    SequenceSpaceExhausted,
}

} // verus!
