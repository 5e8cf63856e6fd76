//! The compact engine: `IntoOptimizedChunks` produces the same chunks of
//! distinct permutations as the general engine, but holds each job in two
//! fixed-size arrays — remaining counts indexed by a dense id, and the
//! partial permutation of ids — so that expanding a job copies plain arrays
//! instead of cloning a table.  The id-to-value translation table is built
//! once at construction and shared, read-only, by every chunk.
//!
//! The engine is restricted to inputs of at most [`PERMUTATION_FIXED_LENGTH`]
//! values; longer inputs must use the general engine.

use vstd::array::ArrayAdditionalExecFns;
use vstd::multiset::Multiset;
use vstd::prelude::*;

use crate::permutations::frontier::{
    all_perms, child_node, children_of, frontier_inv, lemma_all_perms_count,
    lemma_frontier_exhausted, lemma_frontier_init, lemma_frontier_pop_expand,
    lemma_frontier_pop_ready, lemma_measure_pop_expand, lemma_measure_pop_ready, node_wf,
    prod_count_factorials, queue_measure, root_node, FrontierNode,
};
use crate::permutations::render::{push_perm, render_perms};
use crate::permutations::utils::{clone_values, lemma_repeat_ms_count, repeat_ms};

verus! {

broadcast use vstd::seq_lib::group_to_multiset_ensures;

/// The compact engine's fixed capacity: the longest input it accepts.
pub const PERMUTATION_FIXED_LENGTH: usize = 128;

type FixedArray = [usize; PERMUTATION_FIXED_LENGTH];

fn zeroed_fixed_array() -> (r: FixedArray)
    ensures
        forall|i: int| 0 <= i < PERMUTATION_FIXED_LENGTH ==> r@[i] == 0usize,
{
    [0; PERMUTATION_FIXED_LENGTH]
}

/// The multiset of ids denoted by a count array: id `i` occurs `c[i]` times.
pub open spec fn counts_ms(c: Seq<usize>) -> Multiset<usize>
    decreases c.len(),
{
    if c.len() == 0 {
        Multiset::empty()
    } else {
        counts_ms(c.drop_last()).add(repeat_ms((c.len() - 1) as usize, c.last() as nat))
    }
}

/// The total of a count array.
pub open spec fn sum_counts(c: Seq<usize>) -> nat
    decreases c.len(),
{
    if c.len() == 0 {
        0
    } else {
        sum_counts(c.drop_last()) + c.last() as nat
    }
}

pub proof fn lemma_counts_ms_count(c: Seq<usize>, id: usize)
    requires
        c.len() <= usize::MAX,
    ensures
        counts_ms(c).count(id) == if (id as int) < c.len() {
            c[id as int] as nat
        } else {
            0
        },
    decreases c.len(),
{
    if c.len() > 0 {
        lemma_counts_ms_count(c.drop_last(), id);
        lemma_repeat_ms_count((c.len() - 1) as usize, c.last() as nat, id);
    }
}

pub proof fn lemma_counts_ms_len(c: Seq<usize>)
    ensures
        counts_ms(c).len() == sum_counts(c),
    decreases c.len(),
{
    if c.len() > 0 {
        lemma_counts_ms_len(c.drop_last());
        crate::permutations::utils::lemma_repeat_ms_len(
            (c.len() - 1) as usize,
            c.last() as nat,
        );
    }
}

pub proof fn lemma_sum_counts_update(c: Seq<usize>, i: int, v: usize)
    requires
        0 <= i < c.len(),
    ensures
        sum_counts(c.update(i, v)) == sum_counts(c) - c[i] + v,
    decreases c.len(),
{
    let t = c.update(i, v);
    if i == c.len() - 1 {
        assert(t.drop_last() =~= c.drop_last());
    } else {
        assert(t.drop_last() =~= c.drop_last().update(i, v));
        assert(t.last() == c.last());
        lemma_sum_counts_update(c.drop_last(), i, v);
    }
}

/// Decrementing one positive count removes one occurrence of its id.
pub proof fn lemma_counts_ms_decrement(c: Seq<usize>, id: usize)
    requires
        c.len() <= usize::MAX,
        (id as int) < c.len(),
        c[id as int] >= 1,
    ensures
        counts_ms(c.update(id as int, (c[id as int] - 1) as usize)) == counts_ms(c).remove(id),
{
    let t = c.update(id as int, (c[id as int] - 1) as usize);
    assert forall|w: usize| counts_ms(t).count(w) == counts_ms(c).remove(id).count(w) by {
        lemma_counts_ms_count(t, w);
        lemma_counts_ms_count(c, w);
    }
    assert(counts_ms(t) =~= counts_ms(c).remove(id));
}

/// The ids with a positive count, in increasing order.
pub open spec fn positive_ids(c: Seq<usize>) -> Seq<usize>
    decreases c.len(),
{
    if c.len() == 0 {
        Seq::empty()
    } else if c.last() > 0 {
        positive_ids(c.drop_last()).push((c.len() - 1) as usize)
    } else {
        positive_ids(c.drop_last())
    }
}

pub proof fn lemma_positive_ids_properties(c: Seq<usize>)
    requires
        c.len() <= usize::MAX,
    ensures
        forall|j: int|
            0 <= j < positive_ids(c).len() ==> (#[trigger] positive_ids(c)[j] as int) < c.len()
                && c[positive_ids(c)[j] as int] > 0,
        forall|a: int, b: int|
            0 <= a < b < positive_ids(c).len() ==> positive_ids(c)[a] < positive_ids(c)[b],
        positive_ids(c).no_duplicates(),
        forall|i: int| 0 <= i < c.len() && c[i] > 0 ==> positive_ids(c).contains(i as usize),
    decreases c.len(),
{
    if c.len() > 0 {
        lemma_positive_ids_properties(c.drop_last());
        let p = positive_ids(c);
        let q = positive_ids(c.drop_last());
        assert forall|j: int|
            0 <= j < p.len() implies (#[trigger] p[j] as int) < c.len() && c[p[j] as int] > 0 by {
            if j < q.len() {
                assert(p[j] == q[j]);
                assert((q[j] as int) < c.drop_last().len());
                assert(c.drop_last()[q[j] as int] == c[q[j] as int]);
            } else {
                assert(c.last() > 0);
                assert(p[j] == (c.len() - 1) as usize);
                assert(c.last() == c[c.len() - 1]);
            }
        }
        assert forall|a: int, b: int| 0 <= a < b < p.len() implies p[a] < p[b] by {
            if b < q.len() {
                assert(p[a] == q[a]);
                assert(p[b] == q[b]);
            } else {
                assert(c.last() > 0);
                assert(p[b] == (c.len() - 1) as usize);
                assert(p[a] == q[a]);
                assert((q[a] as int) < c.drop_last().len());
            }
        }
        assert forall|i: int| 0 <= i < c.len() && c[i] > 0 implies p.contains(i as usize) by {
            if i < c.len() - 1 {
                assert(c.drop_last()[i] == c[i]);
                assert(q.contains(i as usize));
                let j = choose|j: int| 0 <= j < q.len() && q[j] == i as usize;
                assert(p[j] == i as usize);
            } else {
                assert(c.last() > 0);
                assert(p[p.len() - 1] == i as usize);
            }
        }
    }
}

/// The positive ids of a count multiset, packaged for the frontier lemmas.
pub proof fn lemma_positive_ids_ms(c: Seq<usize>)
    requires
        c.len() <= usize::MAX,
    ensures
        positive_ids(c).no_duplicates(),
        forall|j: int|
            0 <= j < positive_ids(c).len() ==> counts_ms(c).count(#[trigger] positive_ids(c)[j])
                > 0,
        forall|v: usize| counts_ms(c).count(v) > 0 ==> positive_ids(c).contains(v),
{
    lemma_positive_ids_properties(c);
    assert forall|j: int|
        0 <= j < positive_ids(c).len() implies counts_ms(c).count(#[trigger] positive_ids(c)[j])
        > 0 by {
        lemma_counts_ms_count(c, positive_ids(c)[j]);
    }
    assert forall|v: usize| counts_ms(c).count(v) > 0 implies positive_ids(c).contains(v) by {
        lemma_counts_ms_count(c, v);
    }
}

/// The values an id sequence stands for, through the translation table.
pub open spec fn decode_ids(ids: Seq<usize>, table: Seq<u64>) -> Seq<u64> {
    ids.map_values(|id: usize| table[id as int])
}

/// The ids a value sequence stands for, through the translation table.
pub open spec fn encode_ids(t: Seq<u64>, table: Seq<u64>) -> Seq<usize> {
    t.map_values(|w: u64| table.index_of(w) as usize)
}

/// How decoding acts on value counts: through an injective table, the count
/// of a table value among the decoded values is the count of its id, and
/// values outside the table do not occur.
pub proof fn lemma_decode_ms_counts(s: Seq<usize>, table: Seq<u64>)
    requires
        table.len() <= usize::MAX,
        table.no_duplicates(),
        forall|j: int| 0 <= j < s.len() ==> (#[trigger] s[j] as int) < table.len(),
    ensures
        decode_ids(s, table).len() == s.len(),
        forall|i: int|
            0 <= i < table.len() ==> decode_ids(s, table).to_multiset().count(#[trigger] table[i])
                == s.to_multiset().count(i as usize),
        forall|w: u64|
            !table.contains(w) ==> decode_ids(s, table).to_multiset().count(w) == 0,
    decreases s.len(),
{
    if s.len() == 0 {
        assert(decode_ids(s, table) =~= Seq::<u64>::empty());
        crate::permutations::frontier::lemma_empty_to_multiset::<u64>();
        crate::permutations::frontier::lemma_empty_to_multiset::<usize>();
        assert(s =~= Seq::<usize>::empty());
    } else {
        let s0 = s.drop_last();
        let id = s.last();
        assert forall|j: int| 0 <= j < s0.len() implies (#[trigger] s0[j] as int)
            < table.len() by {
            assert(s0[j] == s[j]);
        }
        lemma_decode_ms_counts(s0, table);
        assert(s =~= s0.push(id));
        assert(decode_ids(s, table) =~= decode_ids(s0, table).push(table[id as int]));
        assert(s.to_multiset() == s0.to_multiset().insert(id));
        assert(decode_ids(s, table).to_multiset() == decode_ids(s0, table).to_multiset().insert(
            table[id as int],
        ));
        assert forall|i: int|
            0 <= i < table.len() implies decode_ids(s, table).to_multiset().count(
            #[trigger] table[i],
        ) == s.to_multiset().count(i as usize) by {
            let iu = i as usize;
            assert(iu as int == i);
            if table[i] == table[id as int] {
                assert(i == id as int) by {
                    if i != id as int {
                        assert(table[i] != table[id as int]);
                    }
                }
                assert(iu == id);
                assert(s.to_multiset().count(iu) == s0.to_multiset().count(iu) + 1);
                assert(decode_ids(s, table).to_multiset().count(table[i]) == decode_ids(
                    s0,
                    table,
                ).to_multiset().count(table[i]) + 1);
            } else {
                assert(iu != id);
                assert(s.to_multiset().count(iu) == s0.to_multiset().count(iu));
                assert(decode_ids(s, table).to_multiset().count(table[i]) == decode_ids(
                    s0,
                    table,
                ).to_multiset().count(table[i]));
            }
        }
        assert forall|w: u64| !table.contains(w) implies decode_ids(s, table).to_multiset().count(
            w,
        ) == 0 by {
            assert(table[id as int] != w);
        }
    }
}

/// Encoding is the inverse of decoding for values the table holds.
pub proof fn lemma_encode_ids_props(t: Seq<u64>, table: Seq<u64>)
    requires
        table.len() <= usize::MAX,
        table.no_duplicates(),
        forall|j: int| 0 <= j < t.len() ==> table.contains(#[trigger] t[j]),
    ensures
        encode_ids(t, table).len() == t.len(),
        forall|j: int|
            0 <= j < t.len() ==> (#[trigger] encode_ids(t, table)[j] as int) < table.len()
                && table[encode_ids(t, table)[j] as int] == t[j],
        decode_ids(encode_ids(t, table), table) == t,
{
    let s = encode_ids(t, table);
    assert forall|j: int|
        0 <= j < t.len() implies (#[trigger] s[j] as int) < table.len() && table[s[j] as int]
        == t[j] by {
        assert(table.contains(t[j]));
        let i = table.index_of(t[j]);
        assert(exists|k: int| 0 <= k < table.len() && table[k] == t[j]);
        assert(0 <= i < table.len() && table[i] == t[j]);
        assert(s[j] == table.index_of(t[j]) as usize);
        assert(s[j] as int == i);
    }
    assert(decode_ids(s, table) =~= t);
}

/// Build the translation table and count array of `values`: each newly seen
/// distinct value gets the next id, and its count is its number of
/// occurrences.
pub(crate) fn compress_values(values: &Vec<u64>) -> (r: (FixedArray, Vec<u64>))
    requires
        values@.len() <= PERMUTATION_FIXED_LENGTH,
    ensures
        r.1@.no_duplicates(),
        r.1@.len() <= values@.len(),
        forall|k: int|
            0 <= k < r.1@.len() ==> r.0@[k] as nat == values@.to_multiset().count(
                #[trigger] r.1@[k],
            ) && r.0@[k] >= 1,
        forall|k: int| r.1@.len() <= k < PERMUTATION_FIXED_LENGTH ==> r.0@[k] == 0,
        forall|w: u64| values@.to_multiset().count(w) > 0 ==> r.1@.contains(w),
        sum_counts(r.0@) == values@.len(),
{
    let mut compressed_values = zeroed_fixed_array();
    let mut index_to_value: Vec<u64> = Vec::new();
    proof {
        assert(values@.take(0) =~= Seq::<u64>::empty());
        crate::permutations::frontier::lemma_empty_to_multiset::<u64>();
        lemma_sum_counts_zero(compressed_values@);
    }
    let mut i: usize = 0;
    while i < values.len()
        invariant
            i <= values@.len(),
            values@.len() <= PERMUTATION_FIXED_LENGTH,
            compressed_values@.len() == PERMUTATION_FIXED_LENGTH,
            index_to_value@.no_duplicates(),
            index_to_value@.len() <= i,
            forall|k: int|
                0 <= k < index_to_value@.len() ==> compressed_values@[k] as nat == values@.take(
                    i as int,
                ).to_multiset().count(#[trigger] index_to_value@[k]) && compressed_values@[k]
                    >= 1,
            forall|k: int|
                index_to_value@.len() <= k < PERMUTATION_FIXED_LENGTH ==> compressed_values@[k]
                    == 0,
            forall|w: u64|
                values@.take(i as int).to_multiset().count(w) > 0 ==> index_to_value@.contains(w),
            sum_counts(compressed_values@) == i,
        decreases values@.len() - i,
    {
        let v = values[i];
        let ghost prefix = values@.take(i as int);
        proof {
            assert(values@.take(i + 1) =~= prefix.push(v));
            assert(prefix.push(v).to_multiset() == prefix.to_multiset().insert(v));
        }
        let mut j: usize = 0;
        let mut found = false;
        while j < index_to_value.len() && !found
            invariant
                j <= index_to_value@.len(),
                !found ==> forall|k: int| 0 <= k < j ==> index_to_value@[k] != v,
                found ==> j < index_to_value@.len() && index_to_value@[j as int] == v,
            decreases index_to_value@.len() - j + (if found { 0int } else { 1int }),
        {
            if index_to_value[j] == v {
                found = true;
            } else {
                j += 1;
            }
        }
        if found {
            let ghost old_counts = compressed_values@;
            proof {
                assert(compressed_values@[j as int] as nat == prefix.to_multiset().count(v));
                assert(prefix.to_multiset().len() == prefix.len());
                assert(prefix.to_multiset().count(v) <= prefix.to_multiset().len());
            }
            let c = compressed_values[j];
            compressed_values[j] = c + 1;
            proof {
                lemma_sum_counts_update(old_counts, j as int, (c + 1) as usize);
                assert forall|w: u64|
                    values@.take(i + 1).to_multiset().count(w) > 0 implies index_to_value@
                    .contains(w) by {
                    if w == v {
                        assert(index_to_value@[j as int] == v);
                    } else {
                        assert(prefix.to_multiset().count(w) > 0);
                    }
                }
            }
        } else {
            let idx = index_to_value.len();
            let ghost old_counts = compressed_values@;
            let ghost old_table = index_to_value@;
            index_to_value.push(v);
            compressed_values[idx] = 1;
            proof {
                assert(prefix.to_multiset().count(v) == 0) by {
                    if prefix.to_multiset().count(v) > 0 {
                        assert(old_table.contains(v));
                        let k = choose|k: int|
                            0 <= k < old_table.len() && old_table[k] == v;
                        assert(old_table[k] != v);
                    }
                }
                assert(old_counts[idx as int] == 0);
                lemma_sum_counts_update(old_counts, idx as int, 1);
                assert forall|w: u64|
                    values@.take(i + 1).to_multiset().count(w) > 0 implies index_to_value@
                    .contains(w) by {
                    if w == v {
                        assert(index_to_value@[old_table.len() as int] == v);
                    } else {
                        assert(prefix.to_multiset().count(w) > 0);
                        assert(old_table.contains(w));
                        let k = choose|k: int| 0 <= k < old_table.len() && old_table[k] == w;
                        assert(index_to_value@[k] == w);
                    }
                }
            }
        }
        i += 1;
    }
    proof {
        assert(values@.take(values@.len() as int) =~= values@);
    }
    (compressed_values, index_to_value)
}

proof fn lemma_sum_counts_zero(c: Seq<usize>)
    requires
        forall|i: int| 0 <= i < c.len() ==> c[i] == 0,
    ensures
        sum_counts(c) == 0,
    decreases c.len(),
{
    if c.len() > 0 {
        lemma_sum_counts_zero(c.drop_last());
    }
}

/// The computational unit: remaining counts by id, the partial permutation of
/// ids, and how far it is filled.
#[derive(Clone, Copy)]
struct OptimizedJob {
    compressed_values: FixedArray,
    compressed_permutation: FixedArray,
    permutation_length: usize,
}

impl OptimizedJob {
    /// The frontier node this job stands for, over ids.
    spec fn node(&self) -> FrontierNode<usize> {
        FrontierNode {
            partial: self.compressed_permutation@.take(self.permutation_length as int),
            remaining: counts_ms(self.compressed_values@),
        }
    }

    spec fn wf(&self) -> bool {
        self.permutation_length <= PERMUTATION_FIXED_LENGTH
    }

    /// The root job: nothing placed yet.
    fn new(compressed_values: FixedArray) -> (r: OptimizedJob)
        ensures
            r.wf(),
            r.node() == root_node(counts_ms(compressed_values@)),
    {
        let r = OptimizedJob {
            compressed_values,
            compressed_permutation: zeroed_fixed_array(),
            permutation_length: 0,
        };
        proof {
            assert(r.compressed_permutation@.take(0) =~= Seq::<usize>::empty());
        }
        r
    }

    /// A job is ready when every remaining count is zero.
    fn is_ready(&self) -> (r: bool)
        ensures
            r == (self.node().remaining.len() == 0),
    {
        let mut idx: usize = 0;
        while idx < PERMUTATION_FIXED_LENGTH
            invariant
                idx <= PERMUTATION_FIXED_LENGTH,
                self.compressed_values@.len() == PERMUTATION_FIXED_LENGTH,
                forall|k: int| 0 <= k < idx ==> self.compressed_values@[k] == 0,
            decreases PERMUTATION_FIXED_LENGTH - idx,
        {
            if compressed_value_at(&self.compressed_values, idx) != 0 {
                proof {
                    lemma_counts_ms_count(self.compressed_values@, idx);
                }
                return false;
            }
            idx += 1;
        }
        proof {
            assert forall|w: usize| counts_ms(self.compressed_values@).count(w) == 0 by {
                lemma_counts_ms_count(self.compressed_values@, w);
            }
            assert(counts_ms(self.compressed_values@) =~= Multiset::<usize>::empty());
        }
        true
    }

    /// The id permutation this job has built.
    fn permutation(self) -> (r: FixedArray)
        ensures
            r@ == self.compressed_permutation@,
    {
        self.compressed_permutation
    }

    /// The job that places one occurrence of the id `value` next.
    fn with_new_value(&self, value: usize) -> (r: OptimizedJob)
        requires
            self.wf(),
            self.permutation_length < PERMUTATION_FIXED_LENGTH,
            (value as int) < PERMUTATION_FIXED_LENGTH,
            self.node().remaining.count(value) > 0,
        ensures
            r.wf(),
            r.node() == child_node(self.node(), value),
            r.permutation_length == self.permutation_length + 1,
    {
        proof {
            lemma_counts_ms_count(self.compressed_values@, value);
        }
        let c = compressed_value_at(&self.compressed_values, value);
        let mut frequencies = self.compressed_values;
        frequencies[value] = c - 1;
        let mut new_permutation = self.compressed_permutation;
        new_permutation[self.permutation_length] = value;
        let r = OptimizedJob {
            compressed_values: frequencies,
            compressed_permutation: new_permutation,
            permutation_length: self.permutation_length + 1,
        };
        proof {
            lemma_counts_ms_decrement(self.compressed_values@, value);
            assert(r.node().partial =~= self.node().partial.push(value));
        }
        r
    }

    /// One child job per id with a positive remaining count, in id order.
    fn compute_next_jobs(&self) -> (r: Vec<OptimizedJob>)
        requires
            self.wf(),
            self.permutation_length < PERMUTATION_FIXED_LENGTH,
        ensures
            forall|k: int| 0 <= k < r@.len() ==> (#[trigger] r@[k]).wf(),
            opt_nodes_of(r@) == children_of(self.node(), positive_ids(self.compressed_values@)),
    {
        let ghost c = self.compressed_values@;
        let mut result: Vec<OptimizedJob> = Vec::new();
        let mut idx: usize = 0;
        proof {
            assert(positive_ids(c.take(0)) =~= Seq::<usize>::empty());
        }
        while idx < PERMUTATION_FIXED_LENGTH
            invariant
                self.wf(),
                self.permutation_length < PERMUTATION_FIXED_LENGTH,
                c == self.compressed_values@,
                c.len() == PERMUTATION_FIXED_LENGTH,
                idx <= PERMUTATION_FIXED_LENGTH,
                result@.len() == positive_ids(c.take(idx as int)).len(),
                forall|k: int| 0 <= k < result@.len() ==> (#[trigger] result@[k]).wf(),
                forall|k: int|
                    0 <= k < result@.len() ==> (#[trigger] result@[k]).node() == child_node(
                        self.node(),
                        positive_ids(c.take(idx as int))[k],
                    ),
            decreases PERMUTATION_FIXED_LENGTH - idx,
        {
            let ghost prev = positive_ids(c.take(idx as int));
            let freq = compressed_value_at(&self.compressed_values, idx);
            proof {
                assert(c.take(idx as int + 1).drop_last() =~= c.take(idx as int));
                assert(c.take(idx as int + 1).last() == c[idx as int]);
            }
            if freq > 0 {
                proof {
                    lemma_counts_ms_count(c, idx);
                    assert(positive_ids(c.take(idx as int + 1)) =~= prev.push(idx));
                }
                let next_job = self.with_new_value(idx);
                result.push(next_job);
            } else {
                proof {
                    assert(positive_ids(c.take(idx as int + 1)) =~= prev);
                }
            }
            idx += 1;
        }
        proof {
            assert(c.take(PERMUTATION_FIXED_LENGTH as int) =~= c);
            assert(opt_nodes_of(result@) =~= children_of(self.node(), positive_ids(c)));
        }
        result
    }
}

/// Read one entry of a fixed count array.
fn compressed_value_at(a: &FixedArray, idx: usize) -> (r: usize)
    requires
        (idx as int) < PERMUTATION_FIXED_LENGTH,
    ensures
        r == a@[idx as int],
{
    a[idx]
}

/// The frontier nodes of a job queue, in order.
spec fn opt_nodes_of(q: Seq<OptimizedJob>) -> Seq<FrontierNode<usize>> {
    q.map_values(|j: OptimizedJob| j.node())
}

/// Chunk of permutations stored as raw id arrays, decoded through the
/// translation table only when rendered.
pub struct OptimizedChunk {
    permutations_compressed: Vec<FixedArray>,
    index_to_value: Vec<u64>,
    permutation_size: usize,
    size: usize,
}

impl View for OptimizedChunk {
    type V = Seq<Seq<u64>>;

    closed spec fn view(&self) -> Seq<Seq<u64>> {
        self.permutations_compressed@.map_values(
            |a: FixedArray| decode_ids(a@.take(self.permutation_size as int), self.index_to_value@),
        )
    }
}

impl OptimizedChunk {
    /// The capacity this chunk was created with.
    pub closed spec fn spec_size(&self) -> nat {
        self.size as nat
    }

    spec fn table(&self) -> Seq<u64> {
        self.index_to_value@
    }

    spec fn perm_size(&self) -> int {
        self.permutation_size as int
    }

    /// Every stored id can be looked up in the translation table.
    pub closed spec fn wf(&self) -> bool {
        &&& self.permutation_size <= PERMUTATION_FIXED_LENGTH
        &&& forall|k: int, j: int|
            0 <= k < self.permutations_compressed@.len() && 0 <= j < self.permutation_size
                ==> (#[trigger] self.permutations_compressed@[k]@[j] as int)
                < self.index_to_value@.len()
    }

    fn new(index_to_value: Vec<u64>, permutation_size: usize, size: usize) -> (r: OptimizedChunk)
        requires
            permutation_size <= PERMUTATION_FIXED_LENGTH,
        ensures
            r@ == Seq::<Seq<u64>>::empty(),
            r.wf(),
            r.spec_size() == size as nat,
            r.table() == index_to_value@,
            r.perm_size() == permutation_size as int,
    {
        let r = OptimizedChunk {
            permutations_compressed: Vec::new(),
            index_to_value,
            permutation_size,
            size,
        };
        proof {
            assert(r@ =~= Seq::<Seq<u64>>::empty());
        }
        r
    }

    fn push(&mut self, a: FixedArray)
        requires
            old(self).wf(),
            forall|j: int| 0 <= j < old(self).perm_size() ==> (#[trigger] a@[j] as int) < old(
                self,
            ).table().len(),
        ensures
            final(self).wf(),
            final(self)@ == old(self)@.push(
                decode_ids(a@.take(old(self).perm_size()), old(self).table()),
            ),
            final(self).spec_size() == old(self).spec_size(),
            final(self).table() == old(self).table(),
            final(self).perm_size() == old(self).perm_size(),
    {
        self.permutations_compressed.push(a);
        proof {
            assert(self@ =~= old(self)@.push(
                decode_ids(a@.take(self.permutation_size as int), self.index_to_value@),
            ));
        }
    }

    /// Number of permutations held.
    pub fn len(&self) -> (r: usize)
        ensures
            r == self@.len(),
    {
        self.permutations_compressed.len()
    }

    pub fn is_full(&self) -> (r: bool)
        ensures
            r == (self@.len() == self.spec_size()),
    {
        self.permutations_compressed.len() == self.size
    }

    pub fn is_empty(&self) -> (r: bool)
        ensures
            r == (self@.len() == 0),
    {
        self.permutations_compressed.len() == 0
    }

    /// The canonical text form: ids are translated back to values, then each
    /// permutation renders as one comma-separated line.
    pub fn render(&self) -> (r: String)
        requires
            self.wf(),
        ensures
            r@ == render_perms(self@),
    {
        let mut out = String::new();
        let mut k: usize = 0;
        proof {
            assert(self@.take(0) =~= Seq::<Seq<u64>>::empty());
        }
        while k < self.permutations_compressed.len()
            invariant
                self.wf(),
                k <= self.permutations_compressed@.len(),
                self@.len() == self.permutations_compressed@.len(),
                out@ == render_perms(self@.take(k as int)),
            decreases self.permutations_compressed@.len() - k,
        {
            let ghost ids = self.permutations_compressed@[k as int]@.take(
                self.permutation_size as int,
            );
            let mut decoded: Vec<u64> = Vec::new();
            let mut j: usize = 0;
            proof {
                assert(decoded@ =~= decode_ids(ids.take(0), self.index_to_value@));
            }
            while j < self.permutation_size
                invariant
                    self.wf(),
                    k < self.permutations_compressed@.len(),
                    j <= self.permutation_size,
                    self.permutation_size <= PERMUTATION_FIXED_LENGTH,
                    ids == self.permutations_compressed@[k as int]@.take(
                        self.permutation_size as int,
                    ),
                    decoded@ == decode_ids(ids.take(j as int), self.index_to_value@),
                decreases self.permutation_size - j,
            {
                let id = compressed_value_at(&self.permutations_compressed[k], j);
                decoded.push(self.index_to_value[id]);
                proof {
                    assert(ids[j as int] == id);
                    assert(decoded@ =~= decode_ids(ids.take(j as int + 1), self.index_to_value@));
                }
                j += 1;
            }
            proof {
                assert(ids.take(self.permutation_size as int) =~= ids);
                assert(decoded@ == self@[k as int]);
            }
            push_perm(&mut out, &decoded, 0);
            proof {
                assert(decoded@.skip(0) =~= decoded@);
                assert(self@.take(k as int + 1).drop_last() =~= self@.take(k as int));
                assert(self@.take(k as int + 1).last() == self@[k as int]);
            }
            k += 1;
        }
        proof {
            assert(self@.take(self@.len() as int) =~= self@);
        }
        out
    }
}

/// Optimized iterator over `OptimizedChunk`s of distinct permutations.
pub struct IntoOptimizedChunks {
    job_queue: Vec<OptimizedJob>,
    size: usize,
    index_to_value: Vec<u64>,
    permutation_size: usize,
    input: Ghost<Multiset<u64>>,
    input_ids: Ghost<Multiset<usize>>,
    produced_ids: Ghost<Seq<Seq<usize>>>,
}

impl IntoOptimizedChunks {
    /// The multiset of input values being permuted.
    pub closed spec fn input(&self) -> Multiset<u64> {
        self.input@
    }

    /// Every permutation yielded so far, decoded to values, in production order.
    pub closed spec fn produced(&self) -> Seq<Seq<u64>> {
        self.produced_ids@.map_values(|s: Seq<usize>| decode_ids(s, self.index_to_value@))
    }

    /// The chunk capacity.
    pub closed spec fn chunk_size(&self) -> nat {
        self.size as nat
    }

    /// No chunk will follow.
    pub closed spec fn exhausted(&self) -> bool {
        self.job_queue@.len() == 0
    }

    spec fn nodes(&self) -> Seq<FrontierNode<usize>> {
        opt_nodes_of(self.job_queue@)
    }

    spec fn table(&self) -> Seq<u64> {
        self.index_to_value@
    }

    pub closed spec fn wf(&self) -> bool {
        &&& self.size >= 1
        &&& self.permutation_size <= PERMUTATION_FIXED_LENGTH
        &&& self.input_ids@.len() == self.permutation_size
        &&& self.index_to_value@.len() <= PERMUTATION_FIXED_LENGTH
        &&& self.index_to_value@.no_duplicates()
        &&& forall|id: usize|
            self.input_ids@.count(id) > 0 ==> (id as int) < self.index_to_value@.len()
        &&& forall|i: int|
            0 <= i < self.index_to_value@.len() ==> self.input_ids@.count(i as usize)
                == self.input@.count(#[trigger] self.index_to_value@[i])
        &&& forall|w: u64| self.input@.count(w) > 0 ==> self.index_to_value@.contains(w)
        &&& forall|i: int| 0 <= i < self.job_queue@.len() ==> (#[trigger] self.job_queue@[i]).wf()
        &&& frontier_inv(self.input_ids@, self.nodes(), self.produced_ids@)
    }

    /// Initialize the engine: build the translation table and count array of
    /// `values` once, and queue the root job.
    pub(crate) fn new(values: Vec<u64>, size: usize) -> (r: IntoOptimizedChunks)
        requires
            size >= 1,
            values@.len() <= PERMUTATION_FIXED_LENGTH,
        ensures
            r.wf(),
            r.input() == values@.to_multiset(),
            r.produced() == Seq::<Seq<u64>>::empty(),
            r.chunk_size() == size as nat,
            !r.exhausted(),
    {
        let permutation_size = values.len();
        let (compressed_values, index_to_value) = compress_values(&values);
        let root = OptimizedJob::new(compressed_values);
        let mut job_queue: Vec<OptimizedJob> = Vec::new();
        job_queue.push(root);
        let ghost input = values@.to_multiset();
        let ghost input_ids = counts_ms(compressed_values@);
        let r = IntoOptimizedChunks {
            job_queue,
            size,
            index_to_value,
            permutation_size,
            input: Ghost(input),
            input_ids: Ghost(input_ids),
            produced_ids: Ghost(Seq::empty()),
        };
        proof {
            lemma_counts_ms_len(compressed_values@);
            assert forall|id: usize| input_ids.count(id) > 0 implies (id as int)
                < r.index_to_value@.len() by {
                lemma_counts_ms_count(compressed_values@, id);
            }
            assert forall|i: int| 0 <= i < r.index_to_value@.len() implies input_ids.count(
                i as usize,
            ) == input.count(#[trigger] r.index_to_value@[i]) by {
                lemma_counts_ms_count(compressed_values@, i as usize);
            }
            assert(r.nodes() =~= seq![root_node(input_ids)]);
            lemma_frontier_init::<usize>(input_ids);
            assert(r.produced() =~= Seq::<Seq<u64>>::empty());
        }
        r
    }

    /// Produce the following chunk: pop jobs, recording ready ones and
    /// expanding the others, until the chunk is full or the frontier is
    /// empty.  `None` means everything was already produced; a yielded chunk
    /// is never empty, and only the last one may hold fewer than
    /// `chunk_size` permutations.
    pub fn next(&mut self) -> (r: Option<OptimizedChunk>)
        requires
            old(self).wf(),
        ensures
            final(self).wf(),
            final(self).input() == old(self).input(),
            final(self).chunk_size() == old(self).chunk_size(),
            match r {
                Option::None => {
                    &&& final(self).produced() == old(self).produced()
                    &&& old(self).exhausted()
                    &&& final(self).exhausted()
                },
                Option::Some(c) => {
                    &&& c.wf()
                    &&& 1 <= c@.len() <= old(self).chunk_size()
                    &&& c.spec_size() == old(self).chunk_size()
                    &&& final(self).produced() == old(self).produced() + c@
                    &&& (c@.len() == old(self).chunk_size() || final(self).exhausted())
                },
            },
    {
        let table_copy = clone_values(&self.index_to_value);
        let mut chunk = OptimizedChunk::new(table_copy, self.permutation_size, self.size);
        while self.job_queue.len() != 0
            invariant
                self.wf(),
                self.size == old(self).size,
                self.permutation_size == old(self).permutation_size,
                self.index_to_value@ == old(self).index_to_value@,
                self.input@ == old(self).input@,
                self.input_ids@ == old(self).input_ids@,
                chunk.wf(),
                chunk.table() == self.index_to_value@,
                chunk.perm_size() == self.permutation_size as int,
                chunk.spec_size() == self.size as nat,
                chunk@.len() < self.size as nat,
                self.produced() == old(self).produced() + chunk@,
                old(self).job_queue@.len() > 0 ==> (chunk@.len() > 0 || self.job_queue@.len()
                    > 0),
            decreases queue_measure(self.nodes(), self.input_ids@.len() + 1),
        {
            let ghost q0 = self.job_queue@;
            let ghost nodes0 = self.nodes();
            let ghost base = self.input_ids@.len() + 1;
            let job = self.job_queue.pop().unwrap();
            proof {
                assert(job == q0.last());
                assert(self.job_queue@ =~= q0.drop_last());
                assert(self.nodes() =~= nodes0.drop_last());
                assert(nodes0.last() == job.node());
                assert(node_wf(self.input_ids@, nodes0[q0.len() - 1]));
            }
            if job.is_ready() {
                let ghost pre_produced = self.produced();
                let ghost pre_produced_ids = self.produced_ids@;
                let ghost pre_chunk = chunk@;
                proof {
                    lemma_frontier_pop_ready(self.input_ids@, nodes0, self.produced_ids@);
                    lemma_measure_pop_ready(nodes0, base);
                }
                let ghost ids = job.node().partial;
                proof {
                    // the finished permutation has exactly the input ids,
                    // so it is full-length and its ids are in the table
                    assert(ids.to_multiset() == self.input_ids@);
                    assert(ids.len() == self.permutation_size);
                    assert(job.permutation_length == self.permutation_size);
                    assert forall|j: int|
                        0 <= j < self.permutation_size implies (
                    #[trigger] job.compressed_permutation@[j] as int)
                        < self.index_to_value@.len() by {
                        assert(ids[j] == job.compressed_permutation@[j]);
                        assert(ids.contains(ids[j]));
                        assert(ids.to_multiset().count(ids[j]) > 0);
                    }
                }
                let permutation = job.permutation();
                proof {
                    assert(permutation@.take(self.permutation_size as int) =~= ids);
                }
                chunk.push(permutation);
                proof {
                    self.produced_ids@ = pre_produced_ids.push(ids);
                    let decoded = decode_ids(ids, self.index_to_value@);
                    assert(chunk@ =~= pre_chunk.push(decoded));
                    assert(self.produced() =~= pre_produced.push(decoded));
                    assert(self.produced() =~= old(self).produced() + chunk@);
                }
                if chunk.is_full() {
                    return Some(chunk);
                }
            } else {
                let ghost vals = positive_ids(job.compressed_values@);
                proof {
                    lemma_positive_ids_ms(job.compressed_values@);
                    assert(job.node().remaining.len() <= self.input_ids@.len()) by {
                        assert(job.node().partial.to_multiset().add(job.node().remaining)
                            == self.input_ids@);
                    }
                    assert(job.node().partial.len() < self.input_ids@.len());
                    assert(job.permutation_length < PERMUTATION_FIXED_LENGTH);
                    lemma_frontier_pop_expand(self.input_ids@, nodes0, self.produced_ids@, vals);
                    lemma_measure_pop_expand(nodes0, vals, base);
                }
                let mut next_jobs = job.compute_next_jobs();
                let ghost children = opt_nodes_of(next_jobs@);
                self.job_queue.append(&mut next_jobs);
                proof {
                    assert(self.nodes() =~= nodes0.drop_last() + children);
                    let ghost witness = job.node().remaining.choose();
                    assert(job.node().remaining.count(witness) > 0);
                    assert(vals.contains(witness));
                    assert(vals.len() > 0);
                    assert(children.len() == vals.len());
                    assert(self.job_queue@.len() > 0);
                }
            }
        }
        if chunk.is_empty() {
            proof {
                assert(self.produced() =~= old(self).produced());
            }
            None
        } else {
            Some(chunk)
        }
    }
}

/// No two produced permutations are identical, on any engine at any point.
pub proof fn lemma_optimized_no_duplicates(engine: &IntoOptimizedChunks)
    requires
        engine.wf(),
    ensures
        engine.produced().no_duplicates(),
{
    let p = engine.produced();
    assert forall|k1: int, k2: int|
        0 <= k1 < p.len() && 0 <= k2 < p.len() && k1 != k2 implies p[k1] != p[k2] by {
        lemma_produced_entry_ids(engine, k1);
        lemma_produced_entry_ids(engine, k2);
        let s1 = engine.produced_ids@[k1];
        let s2 = engine.produced_ids@[k2];
        if p[k1] == p[k2] {
            assert forall|j: int| 0 <= j < s1.len() implies s1[j] == s2[j] by {
                assert(decode_ids(s1, engine.index_to_value@)[j] == decode_ids(
                    s2,
                    engine.index_to_value@,
                )[j]);
                let a = s1[j];
                let b = s2[j];
                assert(engine.index_to_value@[a as int] == engine.index_to_value@[b as int]);
            }
            assert(s1 =~= s2);
        }
    }
}

/// Each produced entry decodes an id permutation of the input ids, whose ids
/// the table covers.
proof fn lemma_produced_entry_ids(engine: &IntoOptimizedChunks, k: int)
    requires
        engine.wf(),
        0 <= k < engine.produced_ids@.len(),
    ensures
        engine.produced()[k] == decode_ids(engine.produced_ids@[k], engine.index_to_value@),
        engine.produced_ids@[k].to_multiset() == engine.input_ids@,
        engine.produced_ids@[k].len() == engine.input_ids@.len(),
        forall|j: int|
            0 <= j < engine.produced_ids@[k].len() ==> (#[trigger] engine.produced_ids@[k][j]
                as int) < engine.index_to_value@.len(),
{
    let s = engine.produced_ids@[k];
    assert(s.to_multiset() == engine.input_ids@);
    assert forall|j: int| 0 <= j < s.len() implies (#[trigger] s[j] as int)
        < engine.index_to_value@.len() by {
        assert(s.contains(s[j]));
        assert(s.to_multiset().count(s[j]) > 0);
    }
}

/// Every produced permutation is a permutation of the engine's input values.
pub proof fn lemma_optimized_produced_are_permutations(engine: &IntoOptimizedChunks)
    requires
        engine.wf(),
    ensures
        forall|k: int|
            0 <= k < engine.produced().len() ==> (#[trigger] engine.produced()[k]).to_multiset()
                == engine.input(),
{
    let table = engine.index_to_value@;
    assert forall|k: int|
        0 <= k < engine.produced().len() implies (#[trigger] engine.produced()[k]).to_multiset()
        == engine.input() by {
        lemma_produced_entry_ids(engine, k);
        let s = engine.produced_ids@[k];
        let t = engine.produced()[k];
        lemma_decode_ms_counts(s, table);
        assert forall|w: u64| t.to_multiset().count(w) == engine.input().count(w) by {
            if table.contains(w) {
                let i = choose|i: int| 0 <= i < table.len() && table[i] == w;
                assert(t.to_multiset().count(table[i]) == s.to_multiset().count(i as usize));
            } else {
                assert(t.to_multiset().count(w) == 0);
                if engine.input().count(w) > 0 {
                    assert(table.contains(w));
                }
            }
        }
        assert(t.to_multiset() =~= engine.input());
    }
}

/// Once exhausted, the engine has produced exactly the distinct permutations
/// of its input values: each one, and each exactly once.
pub proof fn lemma_optimized_completeness(engine: &IntoOptimizedChunks)
    requires
        engine.wf(),
        engine.exhausted(),
    ensures
        forall|t: Seq<u64>| engine.produced().contains(t) <==> #[trigger] t.to_multiset()
            == engine.input(),
        engine.produced().no_duplicates(),
        engine.produced().to_set() == all_perms(engine.input()),
{
    lemma_optimized_no_duplicates(engine);
    lemma_optimized_produced_are_permutations(engine);
    assert(engine.nodes() =~= Seq::<FrontierNode<usize>>::empty());
    lemma_frontier_exhausted(engine.input_ids@, engine.produced_ids@);
    let table = engine.index_to_value@;
    let p = engine.produced();
    assert forall|t: Seq<u64>| p.contains(t) <==> #[trigger] t.to_multiset()
        == engine.input() by {
        if p.contains(t) {
            let k = choose|k: int| 0 <= k < p.len() && p[k] == t;
            assert(p[k].to_multiset() == engine.input());
        }
        if t.to_multiset() == engine.input() {
            // encode the permutation and find it among the produced ids
            assert forall|j: int| 0 <= j < t.len() implies table.contains(#[trigger] t[j]) by {
                assert(t.contains(t[j]));
                assert(t.to_multiset().count(t[j]) > 0);
                assert(engine.input().count(t[j]) > 0);
            }
            lemma_encode_ids_props(t, table);
            let s = encode_ids(t, table);
            lemma_decode_ms_counts(s, table);
            assert forall|id: usize|
                s.to_multiset().count(id) == engine.input_ids@.count(id) by {
                if (id as int) < table.len() {
                    assert(decode_ids(s, table).to_multiset().count(table[id as int])
                        == s.to_multiset().count(id));
                    assert(decode_ids(s, table) == t);
                } else {
                    assert(engine.input_ids@.count(id) == 0);
                    if s.to_multiset().count(id) > 0 {
                        assert(s.contains(id));
                        let j = choose|j: int| 0 <= j < s.len() && s[j] == id;
                        assert((s[j] as int) < table.len());
                    }
                }
            }
            assert(s.to_multiset() =~= engine.input_ids@);
            assert(engine.produced_ids@.contains(s));
            let k = choose|k: int|
                0 <= k < engine.produced_ids@.len() && engine.produced_ids@[k] == s;
            assert(p[k] == decode_ids(s, table));
            assert(p[k] == t);
            assert(p.contains(t));
        }
    }
    assert(p.to_set() =~= all_perms(engine.input())) by {
        assert forall|t: Seq<u64>| #[trigger] p.to_set().contains(t) implies all_perms(
            engine.input(),
        ).contains(t) by {
            assert(p.contains(t));
        }
        assert forall|t: Seq<u64>| #[trigger] all_perms(engine.input()).contains(t) implies p
            .to_set().contains(t) by {
            assert(t.to_multiset() == engine.input());
            assert(p.contains(t));
        }
    }
}

/// Cardinality: over any duplicate-free listing of the input's distinct
/// values, the number of permutations an exhausted engine has produced,
/// times the product of the factorials of the values' counts, equals the
/// factorial of the input size — the count is the multinomial
/// `N! / (c1! · c2! · … · ck!)`, stated without division.
pub proof fn lemma_optimized_cardinality(engine: &IntoOptimizedChunks, vals: Seq<u64>)
    requires
        engine.wf(),
        engine.exhausted(),
        vals.no_duplicates(),
        forall|v: u64| engine.input().count(v) > 0 ==> vals.contains(v),
    ensures
        engine.produced().len() * prod_count_factorials(engine.input(), vals)
            == crate::permutations::utils::spec_factorial(engine.input().len()),
{
    lemma_optimized_completeness(engine);
    engine.produced().unique_seq_to_set();
    lemma_all_perms_count(engine.input(), vals);
}

/// An exhausted engine over no values has produced exactly one permutation:
/// the empty sequence.
pub proof fn lemma_optimized_empty_input(engine: &IntoOptimizedChunks)
    requires
        engine.wf(),
        engine.exhausted(),
        engine.input() == Multiset::<u64>::empty(),
    ensures
        engine.produced() == seq![Seq::<u64>::empty()],
{
    lemma_optimized_completeness(engine);
    crate::permutations::frontier::lemma_empty_to_multiset::<u64>();
    let p = engine.produced();
    assert(p.contains(Seq::<u64>::empty()));
    assert forall|k: int| 0 <= k < p.len() implies p[k] =~= Seq::<u64>::empty() by {
        assert(p.contains(p[k]));
        assert(p[k].to_multiset() == Multiset::<u64>::empty());
        assert(p[k].to_multiset().len() == 0);
    }
    if p.len() >= 2 {
        assert(p[0] == p[1]);
        assert(false);
    }
    assert(p =~= seq![Seq::<u64>::empty()]);
}

} // verus!
