//! The recognized configuration surface: where a replication peer lives and
//! whether the transport is encrypted. Resolving the name and opening the
//! socket belong to the embedding process.

use vstd::prelude::*;

verus! {

/// A replication peer's connection target.
#[derive(Debug)]
pub struct Connection {
    pub use_tls: bool,
    pub server_name: String,
    pub port: u16,
}

impl Connection {
    /// The URL scheme the transport should use for this connection.
    pub fn scheme(&self) -> (r: &'static str)
        ensures
            self.use_tls ==> r@ == "https"@,
            !self.use_tls ==> r@ == "http"@,
    {
        if self.use_tls {
            "https"
        } else {
            "http"
        }
    }
}

/// A replication client's configuration: the peer it tracks.
#[derive(Debug)]
pub struct ClientConfig {
    pub conn: Connection,
}

} // verus!
