//! Indexed database of execution traces: interval arithmetic, packed R-Trees
//! over memory accesses and register values, and the passes that build them.
use vstd::prelude::*;

pub mod db;
pub mod flat;
pub mod index;
pub mod irange;
pub mod matcher;
pub mod memory;
pub mod nearest_neighbor;
pub mod query;
pub mod register;
pub mod rtree;
pub mod search;
pub mod search_laws;
pub mod snapshot;

verus! {

/// Magic number at the start of every database file.
pub const DB_MAGIC: u64 = 0xaabbccdd12345678u64;

/// Version of the on-disk format.
pub const DB_VERSION: u64 = 1u64;

} // verus!
