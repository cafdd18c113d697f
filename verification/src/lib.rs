//! Verified core of a per-process memory exporter: parsing of memory-map
//! accounting text, process-name resolution, filter and ranking policies,
//! and a single-slot snapshot cache with an atomic publish contract.
//!
//! All text handled here is modelled as bytes (`Vec<u8>`); the surrounding
//! application converts to and from `String` at its own edge.

use vstd::prelude::*;

pub mod bytes;
pub mod config;
pub mod filter;
pub mod procinfo;
pub mod rank;
pub mod smaps;
pub mod snapshot;

verus! {

/// One process's memory accounting, immutable once constructed.
///
/// `uss` is a derived quantity: the sum of private-clean and private-dirty
/// region totals, not a single kernel-reported field.
#[derive(Clone)]
pub struct MemoryReading {
    pub pid: Vec<u8>,
    pub name: Vec<u8>,
    pub rss: u64,
    pub pss: u64,
    pub uss: u64,
}

} // verus!
