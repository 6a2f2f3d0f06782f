//! The error taxonomy of the protocol layer. A malformed datagram is dropped
//! at the codec boundary; a valid packet that is wrong for the current state
//! is ignored; a silent peer times out; memory pressure evicts, never aborts.

use vstd::prelude::*;

verus! {

/// Why an operation of the protocol layer failed.
#[derive(Clone, Copy, Debug, PartialEq, Eq, Structural)]
pub enum RakNetError {
    /// Truncated or out-of-range bytes: the datagram is dropped, the
    /// connection is unaffected.
    MalformedPacket,
    /// A well-formed packet that is invalid for the current connection state:
    /// ignored, non-fatal.
    ProtocolViolation,
    /// No traffic within the idle bound: the connection closes.
    Timeout,
    /// Too many pending entries: the oldest are evicted.
    ResourceExhausted,
}

} // verus!
