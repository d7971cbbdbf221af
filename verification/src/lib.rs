//! Core logic of a peer-to-peer directory replication service.
//!
//! A client publishes an immutable, content-addressed snapshot of a
//! directory tree to a cluster of daemons; daemons pull the snapshot's
//! data blocks from one another until every node holds a verified copy
//! under a chosen virtual path.  This crate holds the verified core:
//! the index codec, the per-image download progress model, the block
//! fetch scheduler, the image lifecycle driver and the client-side
//! upload tracker.  Network and disk plumbing live outside and drive
//! these state machines through plain values.

use vstd::prelude::*;

pub mod types;
pub mod digest;
pub mod mask;
pub mod progress;
pub mod registry;
pub mod engine;
pub mod index;
pub mod driver;
pub mod upload;
pub mod proto;
pub mod cli;

verus! {

/// Message used when a request channel is dropped before an answer arrives.
pub fn closed(_u: ()) -> (r: &'static str)
    ensures
        r@ == "channel closed"@,
{
    "channel closed"
}

} // verus!
