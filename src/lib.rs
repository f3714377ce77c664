//! Splits an ordered sequence of sized elements into contiguous chunks whose
//! total encoded byte size stays within a fixed budget.

mod adapters;
mod chunks;
mod laws;
mod size;

pub use adapters::{keep_fitting, retain_fitting, ByteChunked, SafeByteChunked, SafeByteChunkedMut};
pub use chunks::{
    chunks_of, is_greedy_split, lemma_split_index, lemma_split_index_zero, lemma_total_size_monotone,
    split_index, ByteChunks, ChunkError,
};
pub use laws::{
    all_fit, lemma_chunks_greedy, lemma_chunks_partition, lemma_chunks_within_budget,
    lemma_keep_fitting_idempotent,
};
pub use size::{total_size, SizeInBytes};
