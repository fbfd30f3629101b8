//! A fueled log-structured merge spine and the merge batcher that feeds it.
//!
//! Updates are triples of data, time and difference. The batcher turns
//! unordered chunks of updates into sorted, consolidated runs; the spine
//! keeps the resulting batches in layers of geometrically growing size and
//! merges them a little at a time, paid for by the updates that arrive.

pub mod difference;
pub mod lattice;
pub mod levels;
pub mod antichain;
pub mod update;
pub mod consolidation;
pub mod merging;
pub mod trace;
pub mod operators;
