//! Distinct-permutation generation over a multiset of values.
//!
//! A `Permutations` holds the input values and hands out one of two
//! interchangeable chunk-producing engines: a general one backed by a
//! frequency table with no bound on the input length, and a compact one
//! restricted to short inputs that works over fixed-size arrays of dense ids.

use vstd::multiset::Multiset;
use vstd::prelude::*;

use crate::permutations::into_chunks::{lemma_completeness, IntoChunks};
use crate::permutations::into_optimized_chunks::{
    lemma_optimized_completeness, IntoOptimizedChunks, PERMUTATION_FIXED_LENGTH,
};

pub mod frontier;
pub mod into_chunks;
pub mod into_optimized_chunks;
pub mod render;
pub mod utils;

verus! {

/// Why an engine could not be constructed.
#[derive(Clone, Copy, Debug, PartialEq, Eq, Structural)]
pub enum EngineError {
    /// The chunk size was zero: a chunk must hold at least one permutation.
    Configuration,
    /// The input is longer than the compact engine's fixed capacity.
    Capacity,
}

/// The values whose distinct permutations are to be enumerated.
pub struct Permutations {
    values: Vec<u64>,
}

impl View for Permutations {
    type V = Seq<u64>;

    closed spec fn view(&self) -> Seq<u64> {
        self.values@
    }
}

impl Permutations {
    /// Initialize a new `Permutations` with the values to permute.
    pub fn new(values: Vec<u64>) -> (r: Self)
        ensures
            r@ == values@,
    {
        Self { values }
    }

    /// Compute the length of each permutation.
    pub fn length(&self) -> (r: usize)
        ensures
            r == self@.len(),
    {
        self.values.len()
    }

    /// Check if the input values are short enough to use the compact engine.
    pub fn can_be_optimized(&self) -> (r: bool)
        ensures
            r == (self@.len() <= PERMUTATION_FIXED_LENGTH),
    {
        self.values.len() <= PERMUTATION_FIXED_LENGTH
    }

    /// Create the compact iterator over chunks of permutations.  It fails
    /// with a configuration error if the chunk size is zero, and with a
    /// capacity error if the input is longer than the compact engine's fixed
    /// capacity; on success the engine starts fresh over these values.
    pub fn into_optimized_chunks(self, size: usize) -> (r: Result<
        IntoOptimizedChunks,
        EngineError,
    >)
        ensures
            r is Err <==> (size == 0 || self@.len() > PERMUTATION_FIXED_LENGTH),
            match r {
                Result::Ok(engine) => {
                    &&& size >= 1
                    &&& self@.len() <= PERMUTATION_FIXED_LENGTH
                    &&& engine.wf()
                    &&& engine.input() == self@.to_multiset()
                    &&& engine.produced() == Seq::<Seq<u64>>::empty()
                    &&& engine.chunk_size() == size as nat
                    &&& !engine.exhausted()
                },
                Result::Err(e) => {
                    &&& (e == EngineError::Configuration <==> size == 0)
                    &&& (e == EngineError::Capacity <==> (size >= 1 && self@.len()
                        > PERMUTATION_FIXED_LENGTH))
                },
            },
    {
        if size == 0 {
            Err(EngineError::Configuration)
        } else if self.values.len() > PERMUTATION_FIXED_LENGTH {
            Err(EngineError::Capacity)
        } else {
            Ok(IntoOptimizedChunks::new(self.values, size))
        }
    }

    /// Create the slower iterator over chunks of permutations, with no
    /// limitation on the permutation length.  It fails with a configuration
    /// error if the chunk size is zero; on success the engine starts fresh
    /// over these values.
    pub fn into_chunks(self, size: usize) -> (r: Result<IntoChunks, EngineError>)
        ensures
            r is Err <==> size == 0,
            match r {
                Result::Ok(engine) => {
                    &&& size >= 1
                    &&& engine.wf()
                    &&& engine.input() == self@.to_multiset()
                    &&& engine.produced() == Seq::<Seq<u64>>::empty()
                    &&& engine.chunk_size() == size as nat
                    &&& !engine.exhausted()
                },
                Result::Err(e) => e == EngineError::Configuration,
            },
    {
        if size == 0 {
            Err(EngineError::Configuration)
        } else {
            Ok(IntoChunks::new(self.values, size))
        }
    }
}

/// The two engines are interchangeable: exhausted runs over the same input
/// have produced the same set of permutations, as value sequences.
pub proof fn lemma_engine_equivalence(general: &IntoChunks, optimized: &IntoOptimizedChunks)
    requires
        general.wf(),
        optimized.wf(),
        general.exhausted(),
        optimized.exhausted(),
        general.input() == optimized.input(),
    ensures
        general.produced().to_set() == optimized.produced().to_set(),
        forall|s: Seq<u64>|
            general.produced().contains(s) <==> optimized.produced().contains(s),
{
    lemma_completeness(general);
    lemma_optimized_completeness(optimized);
    assert forall|s: Seq<u64>|
        general.produced().contains(s) <==> optimized.produced().contains(s) by {
        assert(general.produced().contains(s) <==> s.to_multiset() == general.input());
        assert(optimized.produced().contains(s) <==> s.to_multiset() == optimized.input());
    }
}

} // verus!
