//! Error types of the library. Codec and demux failures are swallowed (the
//! offending packet is dropped); errors that concern a whole connection flip
//! its status and surface from the next API call.

use vstd::prelude::*;

verus! {

/// Why an attempt to open a connection failed before any reply arrived.
#[derive(Clone, Copy, Debug, PartialEq, Eq, Structural)]
pub enum ConnectError {
    /// The handshake payload exceeds the substrate MTU minus header and hash.
    PayloadTooLarge,
}

/// Why an operation on an established connection failed.
#[derive(Clone, Copy, Debug, PartialEq, Eq, Structural)]
pub enum ConnectionError {
    /// The input exceeds the substrate MTU minus header and hash.
    PayloadTooLarge,
    /// The parcel inbox is empty; non-fatal, the caller retries.
    NoPendingParcels,
    /// A payload failed to deserialize; the packet is discarded.
    MalformedPacket,
    /// The connection timed out or exhausted its retries.
    ConnectionLost,
    /// A close was observed or issued; terminal.
    ConnectionClosed,
}

/// Why a pending (not yet established) connection made no progress.
#[derive(Debug)]
pub enum PendingConnectionError {
    /// The peer sent a rejection matching our handshake nonce; the pending
    /// state is consumed.
    Rejected,
    /// No relevant reply arrived within the timeout; the pending state is
    /// consumed.
    TimedOut,
    /// No decisive reply yet: the pending connection is handed back to keep
    /// waiting.
    Pending(crate::connection::PendingConnection),
}

/// Failure modes of a datagram substrate, as its `Transmit` implementation
/// reports them.
#[derive(Debug)]
pub enum TransmitError {
    /// The receive would block: the substrate has no data right now.
    NoPendingPackets,
    /// The received datagram is not a valid protocol packet.
    MalformedPacket,
    /// An underlying I/O failure other than would-block.
    Io(std::io::Error),
}

#[verifier::external_type_specification]
#[verifier::external_body]
pub struct ExIoError(std::io::Error);

} // verus!
