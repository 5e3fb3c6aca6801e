//! A vectorized aggregation hash table for columnar GROUP BY execution.
//!
//! Batches of rows arrive as typed group columns plus per-aggregate argument
//! columns. The table hashes each composite group key, resolves or creates a
//! group through batched linear probing over a packed directory, and then
//! accumulates every aggregate's state for each row. Groups live in a paged
//! payload; aggregate states live in an arena addressed by the payload rows.

use vstd::prelude::*;

pub mod aggregate;
pub mod arena;
pub mod config;
pub mod hash;
pub mod hashtable;
pub mod laws;
pub mod payload;
pub mod probe_state;
pub mod probing;
pub mod row_compare;
pub mod types;

verus! {

/// The error kinds that cross the table boundary.
///
/// `Overflow` comes out of an aggregate whose accumulation left its declared
/// range; `InvalidArgument` reports mismatched batch shapes before any state
/// is touched.
#[derive(Clone, Copy, Debug, PartialEq, Eq, Structural)]
pub enum ErrorKind {
    Overflow,
    InvalidArgument,
}

} // verus!
