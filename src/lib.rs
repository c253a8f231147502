//! The session and data layer of a desktop client for a key-value store:
//! connection descriptors and URLs, the SSH session cache, the connection
//! pool, the incremental keyspace scan with its key index and key tree, the
//! paginated loaders of list, hash, set, sorted-set and string values with
//! their optimistic local patches, and the bounded error log of background
//! tasks. Every function here is verified; network and disk work is left to
//! the caller, who hands the replies back as plain values.

use vstd::prelude::*;

pub mod commands;
pub mod config;
pub mod display;
pub mod errors;
pub mod keys;
pub mod pool;
pub mod scan;
pub mod ssh;
pub mod text;
pub mod textmap;
pub mod trie;
pub mod validate;
pub mod values;

verus! {

} // verus!
