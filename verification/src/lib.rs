//! Versioned replication engine for a categorized store of tagged entries.
//!
//! One writer process holds the authoritative state: an entry store mapping
//! categories to ordered lists of entries, and an append-only version log of
//! the deltas produced by each submission. Remote replicas catch up by
//! fetching or streaming the log tail, replaying each delta into their own
//! store, and advancing a monotonic high-water mark (`pos`).
//!
//! - [`data`]: entries, categories and the category tree.
//! - [`store`]: the entry store and its change notice.
//! - [`log`]: the version log, its change flag and the request dispatcher.
//! - [`wire`]: the length-prefixed frame codec and its round-trip laws.
//! - [`client`]: replay into a replica and the per-peer connection machine.
//! - [`config`]: the recognized connection options.

use vstd::prelude::*;

pub mod client;
pub mod config;
pub mod data;
pub mod log;
pub mod store;
pub mod wire;

verus! {

/// The error taxonomy of the replication engine. Each failure class is
/// recovered at a different level: `LockFailure` fails the single mutation,
/// `MalformedFrame` resets the affected connection, `NetworkError` is retried
/// with backoff, and `SerializationError` rejects the single request.
#[derive(Debug, PartialEq, Eq, Structural, Clone, Copy)]
pub enum Error {
    /// The store's internal synchronization was found corrupted.
    LockFailure,
    /// Wire data failed to decode as a frame.
    MalformedFrame,
    /// A connect, read or write on the transport failed.
    NetworkError,
    /// A payload failed structural validation.
    SerializationError,
}

impl Error {
    /// A short description, for surfacing the failure to a caller.
    pub fn describe(&self) -> (r: &'static str)
        ensures
            r@ == self.spec_describe(),
    {
        match self {
            Error::LockFailure => "internal synchronization corrupted",
            Error::MalformedFrame => "wire data failed to decode",
            Error::NetworkError => "transport failure",
            Error::SerializationError => "payload failed structural validation",
        }
    }

    pub open spec fn spec_describe(&self) -> Seq<char> {
        match self {
            Error::LockFailure => "internal synchronization corrupted"@,
            Error::MalformedFrame => "wire data failed to decode"@,
            Error::NetworkError => "transport failure"@,
            Error::SerializationError => "payload failed structural validation"@,
        }
    }
}

} // verus!
