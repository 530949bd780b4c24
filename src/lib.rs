//! Verified core of a content-addressed, versioned file system with a private
//! tree: path handling, the block store and private forest, name accumulators,
//! node headers and revisions, revision history, file sharding and the
//! directory operation engine.

use vstd::prelude::*;

pub mod chunker;
pub mod error;
pub mod utils;
pub mod bytes;
pub mod bytemap;
pub mod hash;
pub mod cid;
pub mod blockstore;
pub mod forest;
pub mod biguint;
pub mod accumulator;
pub mod node;
pub mod names;
pub mod store;
pub mod directory;
pub mod laws;
pub mod header;
pub mod history;
pub mod shard;
pub mod order;

verus! {

} // verus!
