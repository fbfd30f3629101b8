//! The merge batcher and the fueled spine.

pub mod flat_chunk;
pub mod merge_batcher;
pub mod merge_batcher_flat;
pub mod spine_content;
pub mod spine_fueled;
pub mod spine_layers;
pub mod spine_order;
