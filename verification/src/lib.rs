//! An in-process key/value hash table built on "elastic hashing": a cascade of
//! progressively smaller open-addressing sub-arrays, probed by double hashing
//! with an enforced full-cycle coverage condition, and a case-based insertion
//! policy whose probe budget is logarithmic in each sub-array's emptiness.
//!
//! Entries are never deleted or relocated, and the table is never resized once
//! constructed. Fractional parameters (the target emptiness `delta` and the
//! target load factor) are carried as parts per million, so that every policy
//! threshold is an exact integer comparison.

use vstd::prelude::*;

pub mod hashing;
pub mod sub_array;
pub mod table;

pub use sub_array::Entry;
pub use sub_array::SubArray;
pub use table::ElasticTable;
pub use table::TableError;

verus! {

/// Parts-per-million scale: a load factor or emptiness of 1.0 is `PPM` ppm.
pub const PPM: u64 = 1_000_000;

} // verus!
