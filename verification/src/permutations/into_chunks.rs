//! The general engine: `IntoChunks` drives a stack of `Job`s — each a
//! frequency table plus a partial permutation — and batches completed
//! permutations into `Chunk`s of a caller-chosen size.
//!
//! `next` yields the following chunk, or `None` once every distinct
//! permutation of the input has been produced.  The engine's well-formedness
//! carries [`frontier_inv`], so the laws at the bottom of this file follow
//! for every run: nothing is produced twice, and an exhausted engine has
//! produced exactly the distinct permutations of its input.

use vstd::multiset::Multiset;
use vstd::prelude::*;

use crate::permutations::frontier::{
    all_perms, child_node, children_of, frontier_inv, lemma_all_perms_count,
    lemma_frontier_exhausted, lemma_frontier_init, lemma_frontier_pop_expand,
    lemma_frontier_pop_ready, lemma_measure_pop_expand, lemma_measure_pop_ready, node_wf,
    prod_count_factorials, queue_measure, root_node, FrontierNode,
};
use crate::permutations::render::{push_perm, render_perms};
use crate::permutations::utils::{
    clone_frequencies, clone_values, decrease_or_remove_positive_frequency, freq_values, freqs_ms,
    freqs_wf, lemma_freq_values_properties, values_with_frequency, Frequency,
};

verus! {

broadcast use vstd::seq_lib::group_to_multiset_ensures;

/// The computational unit: the values still to place, with their positive
/// frequencies, and the partial permutation built so far.
struct Job {
    values_with_positive_frequency: Vec<Frequency>,
    permutation: Vec<u64>,
}

impl Job {
    /// The frontier node this job stands for.
    spec fn node(&self) -> FrontierNode<u64> {
        FrontierNode {
            partial: self.permutation@,
            remaining: freqs_ms(self.values_with_positive_frequency@),
        }
    }

    spec fn wf(&self) -> bool {
        freqs_wf(self.values_with_positive_frequency@)
    }

    /// The root job: nothing placed yet.
    fn new(values_with_frequency: Vec<Frequency>) -> (r: Job)
        requires
            freqs_wf(values_with_frequency@),
        ensures
            r.wf(),
            r.node() == root_node(freqs_ms(values_with_frequency@)),
    {
        Job { values_with_positive_frequency: values_with_frequency, permutation: Vec::new() }
    }

    /// A job is ready when no value remains to be placed.
    fn is_ready(&self) -> (r: bool)
        requires
            self.wf(),
        ensures
            r == (self.node().remaining.len() == 0),
    {
        proof {
            let s = self.values_with_positive_frequency@;
            if s.len() > 0 {
                crate::permutations::utils::lemma_freqs_count_at(s, 0);
                crate::permutations::utils::lemma_freqs_ms_count(s, s[0].value);
            }
        }
        self.values_with_positive_frequency.len() == 0
    }

    /// The permutation this job has built.
    fn permutation(self) -> (r: Vec<u64>)
        ensures
            r@ == self.node().partial,
    {
        self.permutation
    }

    /// The job that places one occurrence of `value` next.
    fn with_new_value(&self, value: u64) -> (r: Job)
        requires
            self.wf(),
        ensures
            r.wf(),
            r.node() == child_node(self.node(), value),
    {
        let mut new_values_with_frequency = clone_frequencies(&self.values_with_positive_frequency);
        decrease_or_remove_positive_frequency(&mut new_values_with_frequency, value);
        let mut new_permutation = clone_values(&self.permutation);
        new_permutation.push(value);
        Job {
            values_with_positive_frequency: new_values_with_frequency,
            permutation: new_permutation,
        }
    }

    /// One child job per distinct remaining value, in table order.
    fn compute_next_jobs(&self) -> (r: Vec<Job>)
        requires
            self.wf(),
        ensures
            forall|k: int| 0 <= k < r@.len() ==> (#[trigger] r@[k]).wf(),
            nodes_of(r@) == children_of(
                self.node(),
                freq_values(self.values_with_positive_frequency@),
            ),
    {
        let ghost vals = freq_values(self.values_with_positive_frequency@);
        let mut next_jobs: Vec<Job> = Vec::new();
        let mut i: usize = 0;
        while i < self.values_with_positive_frequency.len()
            invariant
                self.wf(),
                vals == freq_values(self.values_with_positive_frequency@),
                i <= self.values_with_positive_frequency@.len(),
                next_jobs@.len() == i,
                forall|k: int| 0 <= k < i ==> (#[trigger] next_jobs@[k]).wf(),
                forall|k: int|
                    0 <= k < i ==> (#[trigger] next_jobs@[k]).node() == child_node(
                        self.node(),
                        vals[k],
                    ),
            decreases self.values_with_positive_frequency@.len() - i,
        {
            let next_job = self.with_new_value(self.values_with_positive_frequency[i].value);
            next_jobs.push(next_job);
            proof {
                crate::permutations::utils::lemma_freq_values_index(
                    self.values_with_positive_frequency@,
                    i as int,
                );
            }
            i += 1;
        }
        proof {
            assert(nodes_of(next_jobs@) =~= children_of(self.node(), vals));
        }
        next_jobs
    }
}

/// The frontier nodes of a job queue, in order.
spec fn nodes_of(q: Seq<Job>) -> Seq<FrontierNode<u64>> {
    q.map_values(|j: Job| j.node())
}

/// Chunk of permutations.
pub struct Chunk {
    permutations: Vec<Vec<u64>>,
    size: usize,
}

impl View for Chunk {
    type V = Seq<Seq<u64>>;

    closed spec fn view(&self) -> Seq<Seq<u64>> {
        self.permutations@.map_values(|p: Vec<u64>| p@)
    }
}

impl Chunk {
    /// The capacity this chunk was created with.
    pub closed spec fn spec_size(&self) -> nat {
        self.size as nat
    }

    pub(crate) fn new(size: usize) -> (r: Chunk)
        ensures
            r@ == Seq::<Seq<u64>>::empty(),
            r.spec_size() == size as nat,
    {
        let r = Chunk { permutations: Vec::new(), size };
        proof {
            assert(r@ =~= Seq::<Seq<u64>>::empty());
        }
        r
    }

    fn push(&mut self, permutation: Vec<u64>)
        ensures
            final(self)@ == old(self)@.push(permutation@),
            final(self).spec_size() == old(self).spec_size(),
    {
        self.permutations.push(permutation);
        proof {
            assert(self@ =~= old(self)@.push(permutation@));
        }
    }

    /// Number of permutations held.
    pub fn len(&self) -> (r: usize)
        ensures
            r == self@.len(),
    {
        self.permutations.len()
    }

    pub fn is_full(&self) -> (r: bool)
        ensures
            r == (self@.len() == self.spec_size()),
    {
        self.permutations.len() == self.size
    }

    pub fn is_empty(&self) -> (r: bool)
        ensures
            r == (self@.len() == 0),
    {
        self.permutations.len() == 0
    }

    /// The canonical text form: one comma-separated line per permutation.
    pub fn render(&self) -> (r: String)
        ensures
            r@ == render_perms(self@),
    {
        let mut out = String::new();
        let mut i: usize = 0;
        proof {
            assert(self@.take(0) =~= Seq::<Seq<u64>>::empty());
        }
        while i < self.permutations.len()
            invariant
                i <= self.permutations@.len(),
                self@.len() == self.permutations@.len(),
                out@ == render_perms(self@.take(i as int)),
            decreases self.permutations@.len() - i,
        {
            push_perm(&mut out, &self.permutations[i], 0);
            proof {
                assert(self.permutations@[i as int]@.skip(0) =~= self@[i as int]);
                assert(self@.take(i + 1).drop_last() =~= self@.take(i as int));
                assert(self@.take(i + 1).last() == self@[i as int]);
            }
            i += 1;
        }
        proof {
            assert(self@.take(self@.len() as int) =~= self@);
        }
        out
    }
}

/// Iterator over `Chunk`s of distinct permutations.
pub struct IntoChunks {
    job_queue: Vec<Job>,
    size: usize,
    input: Ghost<Multiset<u64>>,
    produced: Ghost<Seq<Seq<u64>>>,
}

impl IntoChunks {
    /// The multiset of input values being permuted.
    pub closed spec fn input(&self) -> Multiset<u64> {
        self.input@
    }

    /// Every permutation yielded so far, in production order.
    pub closed spec fn produced(&self) -> Seq<Seq<u64>> {
        self.produced@
    }

    /// The chunk capacity.
    pub closed spec fn chunk_size(&self) -> nat {
        self.size as nat
    }

    /// No chunk will follow.
    pub closed spec fn exhausted(&self) -> bool {
        self.job_queue@.len() == 0
    }

    spec fn nodes(&self) -> Seq<FrontierNode<u64>> {
        nodes_of(self.job_queue@)
    }

    pub closed spec fn wf(&self) -> bool {
        &&& self.size >= 1
        &&& forall|i: int| 0 <= i < self.job_queue@.len() ==> (#[trigger] self.job_queue@[i]).wf()
        &&& frontier_inv(self.input@, self.nodes(), self.produced@)
    }

    /// Initialize the engine: the queue holds the root job with the full
    /// frequency table of `values` and an empty partial permutation.
    pub(crate) fn new(values: Vec<u64>, size: usize) -> (r: IntoChunks)
        requires
            size >= 1,
        ensures
            r.wf(),
            r.input() == values@.to_multiset(),
            r.produced() == Seq::<Seq<u64>>::empty(),
            r.chunk_size() == size as nat,
            !r.exhausted(),
    {
        let frequencies = values_with_frequency(&values);
        let root = Job::new(frequencies);
        let mut job_queue: Vec<Job> = Vec::new();
        job_queue.push(root);
        let r = IntoChunks {
            job_queue,
            size,
            input: Ghost(values@.to_multiset()),
            produced: Ghost(Seq::empty()),
        };
        proof {
            assert(r.nodes() =~= seq![root_node(values@.to_multiset())]);
            lemma_frontier_init::<u64>(values@.to_multiset());
        }
        r
    }

    /// Produce the following chunk: pop jobs, recording ready ones and
    /// expanding the others, until the chunk is full or the frontier is
    /// empty.  `None` means everything was already produced; a yielded chunk
    /// is never empty, and only the last one may hold fewer than
    /// `chunk_size` permutations.
    pub fn next(&mut self) -> (r: Option<Chunk>)
        requires
            old(self).wf(),
        ensures
            final(self).wf(),
            final(self).input() == old(self).input(),
            final(self).chunk_size() == old(self).chunk_size(),
            match r {
                Option::None => {
                    &&& final(self).produced() == old(self).produced()
                    &&& old(self).exhausted()
                    &&& final(self).exhausted()
                },
                Option::Some(c) => {
                    &&& 1 <= c@.len() <= old(self).chunk_size()
                    &&& c.spec_size() == old(self).chunk_size()
                    &&& final(self).produced() == old(self).produced() + c@
                    &&& (c@.len() == old(self).chunk_size() || final(self).exhausted())
                },
            },
    {
        let mut chunk = Chunk::new(self.size);
        while self.job_queue.len() != 0
            invariant
                self.size == old(self).size,
                self.size >= 1,
                self.input@ == old(self).input@,
                forall|i: int|
                    0 <= i < self.job_queue@.len() ==> (#[trigger] self.job_queue@[i]).wf(),
                frontier_inv(self.input@, self.nodes(), self.produced@),
                chunk.spec_size() == self.size as nat,
                chunk@.len() < self.size as nat,
                self.produced@ == old(self).produced@ + chunk@,
                old(self).job_queue@.len() > 0 ==> (chunk@.len() > 0 || self.job_queue@.len()
                    > 0),
            decreases queue_measure(self.nodes(), self.input@.len() + 1),
        {
            let ghost q0 = self.job_queue@;
            let ghost nodes0 = self.nodes();
            let ghost base = self.input@.len() + 1;
            let job = self.job_queue.pop().unwrap();
            proof {
                assert(job == q0.last());
                assert(self.job_queue@ =~= q0.drop_last());
                assert(self.nodes() =~= nodes0.drop_last());
                assert(nodes0.last() == job.node());
                assert(node_wf(self.input@, nodes0[q0.len() - 1]));
            }
            if job.is_ready() {
                proof {
                    lemma_frontier_pop_ready(self.input@, nodes0, self.produced@);
                    lemma_measure_pop_ready(nodes0, base);
                }
                let permutation = job.permutation();
                let ghost perm = permutation@;
                chunk.push(permutation);
                proof {
                    self.produced@ = self.produced@.push(perm);
                    assert(self.produced@ =~= old(self).produced@ + chunk@);
                }
                if chunk.is_full() {
                    return Some(chunk);
                }
            } else {
                let ghost vals = freq_values(job.values_with_positive_frequency@);
                proof {
                    lemma_freq_values_properties(job.values_with_positive_frequency@);
                    assert(job.node().remaining.len() <= self.input@.len()) by {
                        assert(job.node().partial.to_multiset().add(job.node().remaining)
                            == self.input@);
                    }
                    lemma_frontier_pop_expand(self.input@, nodes0, self.produced@, vals);
                    lemma_measure_pop_expand(nodes0, vals, base);
                }
                let mut next_jobs = job.compute_next_jobs();
                let ghost children = nodes_of(next_jobs@);
                self.job_queue.append(&mut next_jobs);
                proof {
                    assert(self.nodes() =~= nodes0.drop_last() + children);
                    // the frontier stays nonempty: some value remains
                    assert(job.node().remaining.count(job.node().remaining.choose()) > 0);
                    assert(vals.len() > 0);
                    assert(self.job_queue@.len() > 0);
                }
            }
        }
        if chunk.is_empty() {
            proof {
                assert(self.produced@ =~= old(self).produced@);
            }
            None
        } else {
            Some(chunk)
        }
    }
}

/// No two produced permutations are identical, on any engine at any point.
pub proof fn lemma_no_duplicates(engine: &IntoChunks)
    requires
        engine.wf(),
    ensures
        engine.produced().no_duplicates(),
{
}

/// Every produced permutation is a permutation of the engine's input.
pub proof fn lemma_produced_are_permutations(engine: &IntoChunks)
    requires
        engine.wf(),
    ensures
        forall|k: int|
            0 <= k < engine.produced().len() ==> (#[trigger] engine.produced()[k]).to_multiset()
                == engine.input(),
{
}

/// Once exhausted, the engine has produced exactly the distinct permutations
/// of its input: each one, and each exactly once.
pub proof fn lemma_completeness(engine: &IntoChunks)
    requires
        engine.wf(),
        engine.exhausted(),
    ensures
        forall|s: Seq<u64>| engine.produced().contains(s) <==> #[trigger] s.to_multiset()
            == engine.input(),
        engine.produced().no_duplicates(),
        engine.produced().to_set() == all_perms(engine.input()),
{
    assert(engine.nodes() =~= Seq::<FrontierNode<u64>>::empty());
    lemma_frontier_exhausted(engine.input(), engine.produced());
}

/// Cardinality: over any duplicate-free listing of the input's distinct
/// values, the number of permutations an exhausted engine has produced,
/// times the product of the factorials of the values' counts, equals the
/// factorial of the input size — the count is the multinomial
/// `N! / (c1! · c2! · … · ck!)`, stated without division.
pub proof fn lemma_cardinality(engine: &IntoChunks, vals: Seq<u64>)
    requires
        engine.wf(),
        engine.exhausted(),
        vals.no_duplicates(),
        forall|v: u64| engine.input().count(v) > 0 ==> vals.contains(v),
    ensures
        engine.produced().len() * prod_count_factorials(engine.input(), vals)
            == crate::permutations::utils::spec_factorial(engine.input().len()),
{
    lemma_completeness(engine);
    engine.produced().unique_seq_to_set();
    lemma_all_perms_count(engine.input(), vals);
}

/// The chunk size does not affect which permutations are produced: two
/// exhausted engines over the same input have produced the same set of
/// permutations, whatever their chunk sizes.
pub proof fn lemma_chunking_fidelity(engine_a: &IntoChunks, engine_b: &IntoChunks)
    requires
        engine_a.wf(),
        engine_b.wf(),
        engine_a.exhausted(),
        engine_b.exhausted(),
        engine_a.input() == engine_b.input(),
    ensures
        engine_a.produced().to_set() == engine_b.produced().to_set(),
{
    lemma_completeness(engine_a);
    lemma_completeness(engine_b);
}

/// An exhausted engine over no values has produced exactly one permutation:
/// the empty sequence.
pub proof fn lemma_empty_input(engine: &IntoChunks)
    requires
        engine.wf(),
        engine.exhausted(),
        engine.input() == Multiset::<u64>::empty(),
    ensures
        engine.produced() == seq![Seq::<u64>::empty()],
{
    lemma_completeness(engine);
    crate::permutations::frontier::lemma_empty_to_multiset::<u64>();
    assert(engine.produced().contains(Seq::<u64>::empty()));
    let p = engine.produced();
    assert forall|k: int| 0 <= k < p.len() implies p[k] =~= Seq::<u64>::empty() by {
        assert(p.contains(p[k]));
        assert(p[k].to_multiset() == Multiset::<u64>::empty());
        assert(p[k].to_multiset().len() == 0);
    }
    if p.len() >= 2 {
        assert(p[0] == p[1]);
        assert(false);
    }
    assert(p =~= seq![Seq::<u64>::empty()]);
}

} // verus!
