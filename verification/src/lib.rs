//! Peer-to-peer sync exchange core.
//!
//! The library propagates causally ordered change operations between
//! replicas of a shared library over direct peer connections.  It covers
//! the originator/responder handshake, the request/response loop that
//! pulls missing operations in bounded batches, the framing of messages
//! on the wire, and the mutual-exclusion discipline that serializes
//! concurrent inbound sync sessions against a single per-library ingest
//! pipeline.  Transport, storage and the CRDT apply layer stay outside;
//! they hand this library plain values and take plain values back.

pub mod codec;
pub mod events;
pub mod keyring;
pub mod message;
pub mod ingest;
pub mod originator;
pub mod responder;
pub mod source;
pub mod statistics;

pub use statistics::Volume;
pub use statistics::StatisticsUpdate;
pub use statistics::update_library_statistics;
