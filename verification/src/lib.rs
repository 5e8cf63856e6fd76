//! Enumerate all distinct permutations of a multiset of values, in
//! fixed-size batches of completed permutations ("chunks") suitable for
//! handing off to parallel consumers.
//!
//! Duplicates collapse: each distinct arrangement is produced exactly once,
//! with no post-hoc deduplication pass, by expanding a frontier of jobs that
//! track the remaining value frequencies.  Two interchangeable engines are
//! offered: [`IntoChunks`] works over arbitrary inputs, while
//! [`IntoOptimizedChunks`] trades a fixed capacity for allocation-free,
//! array-backed jobs.  Both are proved to produce every distinct permutation
//! of their input exactly once, in chunks of exactly the requested size but
//! for the last.

pub mod permutations;

pub use permutations::into_chunks::Chunk;
pub use permutations::into_chunks::IntoChunks;
pub use permutations::into_optimized_chunks::IntoOptimizedChunks;
pub use permutations::into_optimized_chunks::OptimizedChunk;
pub use permutations::EngineError;
pub use permutations::Permutations;
