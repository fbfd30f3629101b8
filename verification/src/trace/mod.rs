//! Batches of updates, cursors over them, and the structures that hold them.

pub mod batch;
pub mod cursor;
pub mod implementations;
