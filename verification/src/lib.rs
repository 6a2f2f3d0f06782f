//! A verified implementation of the RakNet reliability and framing layer:
//! binary packet codecs, per-connection sequencing and ordering, fragmentation
//! and reassembly, acknowledgment tracking, and the connection state machine.

/// The connection state machine: handshake, reliable delivery, ticking.
pub mod connection;
/// The error taxonomy of the protocol layer.
pub mod error;
/// Splitting oversized payloads into fragments and reassembling them.
pub mod fragment;
/// Ordered and sequenced delivery channels, and circular index comparison.
pub mod order;
/// The packet formats: offline discovery, online session, frames, datagrams.
pub mod protocol;
/// Tracking of sent reliable datagrams awaiting acknowledgment.
pub mod recovery;
/// Utilities: monotonic sequence generators and a time-keyed cache.
pub mod util;
