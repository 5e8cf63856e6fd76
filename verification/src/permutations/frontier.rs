//! The mathematical model of frontier expansion.
//!
//! Both engines explore the same tree: a node holds a partial permutation and
//! the multiset of values still to be placed; its children extend the partial
//! permutation by one occurrence of each distinct remaining value.  A
//! permutation `s` belongs to a node ([`completes`]) when `s` extends the
//! node's partial permutation using exactly its remaining values.
//!
//! [`frontier_inv`] ties a job queue and the list of permutations produced so
//! far to the input multiset: every produced permutation is a permutation of
//! the input, none is produced twice, and every permutation of the input is
//! either already produced or belongs to exactly one queued node.  The lemmas
//! here show that the invariant holds of the initial queue and is preserved
//! by the two steps an engine takes, and that an empty queue means the
//! produced list is exactly the set of distinct permutations.

use vstd::arithmetic::power::pow;
use vstd::multiset::Multiset;
use vstd::prelude::*;
use vstd::relations::injective_on;
use vstd::set_lib::lemma_map_size;

use crate::permutations::utils::{
    lemma_repeat_ms_count, lemma_repeat_ms_len, repeat_ms, spec_factorial,
};

verus! {

broadcast use vstd::seq_lib::group_to_multiset_ensures;

/// One frontier node: a partial permutation and the values still to place.
pub struct FrontierNode<V> {
    pub partial: Seq<V>,
    pub remaining: Multiset<V>,
}

/// All permutations of the multiset `m`, as value sequences.
pub open spec fn all_perms<V>(m: Multiset<V>) -> Set<Seq<V>> {
    Set::new(|s: Seq<V>| s.to_multiset() == m)
}

/// `s` extends the node's partial permutation using exactly its remaining values.
pub open spec fn completes<V>(n: FrontierNode<V>, s: Seq<V>) -> bool {
    &&& s.len() == n.partial.len() + n.remaining.len()
    &&& s.subrange(0, n.partial.len() as int) == n.partial
    &&& s.subrange(n.partial.len() as int, s.len() as int).to_multiset() == n.remaining
}

/// The node's two parts together hold exactly the input values.
pub open spec fn node_wf<V>(input: Multiset<V>, n: FrontierNode<V>) -> bool {
    n.partial.to_multiset().add(n.remaining) == input
}

/// The child that places one occurrence of `v` next.
pub open spec fn child_node<V>(n: FrontierNode<V>, v: V) -> FrontierNode<V> {
    FrontierNode { partial: n.partial.push(v), remaining: n.remaining.remove(v) }
}

/// The children of `n` for the candidate values `vals`, in order.
pub open spec fn children_of<V>(n: FrontierNode<V>, vals: Seq<V>) -> Seq<FrontierNode<V>> {
    vals.map_values(|v: V| child_node(n, v))
}

/// The root of the tree: nothing placed, everything remaining.
pub open spec fn root_node<V>(m: Multiset<V>) -> FrontierNode<V> {
    FrontierNode { partial: Seq::empty(), remaining: m }
}

pub proof fn lemma_empty_to_multiset<V>()
    ensures
        Seq::<V>::empty().to_multiset() == Multiset::<V>::empty(),
{
    assert(Seq::<V>::empty().to_multiset() =~= Multiset::<V>::empty());
}

/// Removing a present value shrinks a multiset by one.
pub proof fn lemma_remove_len<V>(m: Multiset<V>, v: V)
    requires
        m.count(v) > 0,
    ensures
        m.remove(v).len() == m.len() - 1,
{
    assert(m =~= m.remove(v).insert(v));
}

/// The root's completions are exactly the permutations of the input.
pub proof fn lemma_root_completes<V>(m: Multiset<V>, s: Seq<V>)
    ensures
        completes(root_node(m), s) <==> s.to_multiset() == m,
{
    lemma_empty_to_multiset::<V>();
    if s.to_multiset() == m {
        assert(s.subrange(0, 0) =~= Seq::<V>::empty());
        assert(s.subrange(0, s.len() as int) =~= s);
    }
    if completes(root_node(m), s) {
        assert(s.subrange(0, s.len() as int) =~= s);
    }
}

/// A node with nothing remaining is completed exactly by its own partial permutation.
pub proof fn lemma_completes_ready<V>(n: FrontierNode<V>, s: Seq<V>)
    requires
        n.remaining.len() == 0,
    ensures
        completes(n, s) <==> s == n.partial,
{
    assert(n.remaining =~= Multiset::<V>::empty());
    lemma_empty_to_multiset::<V>();
    if completes(n, s) {
        assert(s =~= s.subrange(0, n.partial.len() as int));
    }
    if s == n.partial {
        assert(s.subrange(0, n.partial.len() as int) =~= n.partial);
        assert(s.subrange(n.partial.len() as int, s.len() as int) =~= Seq::<V>::empty());
    }
}

/// A completion of the `v`-child places `v` right after the parent's partial permutation.
pub proof fn lemma_completes_first<V>(n: FrontierNode<V>, v: V, s: Seq<V>)
    requires
        completes(child_node(n, v), s),
    ensures
        0 <= n.partial.len() < s.len(),
        s[n.partial.len() as int] == v,
{
    let c = child_node(n, v);
    assert(s.subrange(0, c.partial.len() as int)[n.partial.len() as int] == v);
}

/// Whatever completes the `v`-child also completes the parent.
pub proof fn lemma_child_sound<V>(n: FrontierNode<V>, v: V, s: Seq<V>)
    requires
        n.remaining.count(v) > 0,
        completes(child_node(n, v), s),
    ensures
        completes(n, s),
{
    let p = n.partial;
    let pl = p.len() as int;
    let c = child_node(n, v);
    lemma_remove_len(n.remaining, v);
    lemma_completes_first(n, v, s);
    assert(s.subrange(0, pl) =~= p) by {
        assert(forall|k: int|
            0 <= k < pl ==> s.subrange(0, pl)[k] == s.subrange(0, pl + 1)[k]);
    }
    let t = s.subrange(pl, s.len() as int);
    let t2 = s.subrange(pl + 1, s.len() as int);
    assert(t.remove(0) =~= t2);
    assert(t[0] == v);
    assert(t.contains(v));
    assert(t.remove(0).to_multiset() == t.to_multiset().remove(t[0]));
    assert(t.to_multiset().count(v) > 0);
    assert forall|w: V| t.to_multiset().count(w) == n.remaining.count(w) by {
        if w == v {
            assert(t.to_multiset().remove(v).count(v) == t.to_multiset().count(v) - 1);
            assert(n.remaining.remove(v).count(v) == n.remaining.count(v) - 1);
        } else {
            assert(t.to_multiset().remove(v).count(w) == t.to_multiset().count(w));
            assert(n.remaining.remove(v).count(w) == n.remaining.count(w));
        }
    }
    assert(t.to_multiset() =~= n.remaining);
}

/// A completion of a node with values remaining completes the child that
/// places the completion's next value.
pub proof fn lemma_child_complete<V>(n: FrontierNode<V>, s: Seq<V>)
    requires
        completes(n, s),
        n.remaining.len() > 0,
    ensures
        0 <= n.partial.len() < s.len(),
        n.remaining.count(s[n.partial.len() as int]) > 0,
        completes(child_node(n, s[n.partial.len() as int]), s),
{
    let p = n.partial;
    let pl = p.len() as int;
    let t = s.subrange(pl, s.len() as int);
    let v = s[pl];
    assert(t[0] == v);
    assert(t.contains(v));
    assert(n.remaining.count(v) > 0);
    lemma_remove_len(n.remaining, v);
    let c = child_node(n, v);
    assert(s.subrange(0, pl + 1) =~= p.push(v)) by {
        assert(forall|k: int|
            0 <= k < pl ==> s.subrange(0, pl + 1)[k] == s.subrange(0, pl)[k]);
    }
    let t2 = s.subrange(pl + 1, s.len() as int);
    assert(t.remove(0) =~= t2);
    assert(t.remove(0).to_multiset() == t.to_multiset().remove(t[0]));
}

/// The engine invariant: every queued node is well formed; the produced
/// permutations are distinct permutations of the input, none still belonging
/// to a queued node; no permutation belongs to two queued nodes; and every
/// permutation of the input is produced or belongs to some queued node.
pub open spec fn frontier_inv<V>(
    input: Multiset<V>,
    queue: Seq<FrontierNode<V>>,
    produced: Seq<Seq<V>>,
) -> bool {
    &&& forall|i: int| 0 <= i < queue.len() ==> node_wf(input, #[trigger] queue[i])
    &&& forall|k: int| 0 <= k < produced.len() ==> (#[trigger] produced[k]).to_multiset() == input
    &&& forall|k1: int, k2: int|
        0 <= k1 < k2 < produced.len() ==> produced[k1] != produced[k2]
    &&& forall|i: int, k: int|
        0 <= i < queue.len() && 0 <= k < produced.len() ==> !completes(
            #[trigger] queue[i],
            #[trigger] produced[k],
        )
    &&& forall|i1: int, i2: int, s: Seq<V>|
        #![trigger completes(queue[i1], s), completes(queue[i2], s)]
        0 <= i1 < i2 < queue.len() ==> !(completes(queue[i1], s) && completes(queue[i2], s))
    &&& forall|s: Seq<V>|
        #[trigger] s.to_multiset() == input ==> produced.contains(s) || exists|i: int|
            0 <= i < queue.len() && completes(#[trigger] queue[i], s)
}

/// The invariant holds of a queue holding only the root, with nothing produced.
pub proof fn lemma_frontier_init<V>(input: Multiset<V>)
    ensures
        frontier_inv(input, seq![root_node(input)], Seq::<Seq<V>>::empty()),
{
    let queue = seq![root_node(input)];
    lemma_empty_to_multiset::<V>();
    assert(node_wf(input, queue[0])) by {
        assert(Multiset::<V>::empty().add(input) =~= input);
    }
    assert forall|s: Seq<V>| #[trigger] s.to_multiset() == input implies exists|i: int|
        0 <= i < queue.len() && completes(#[trigger] queue[i], s) by {
        lemma_root_completes(input, s);
        assert(completes(queue[0], s));
    }
}

/// Popping a node with nothing remaining and recording its permutation
/// preserves the invariant; the permutation is new and complete.
pub proof fn lemma_frontier_pop_ready<V>(
    input: Multiset<V>,
    queue: Seq<FrontierNode<V>>,
    produced: Seq<Seq<V>>,
)
    requires
        frontier_inv(input, queue, produced),
        queue.len() > 0,
        queue.last().remaining.len() == 0,
    ensures
        frontier_inv(input, queue.drop_last(), produced.push(queue.last().partial)),
        queue.last().partial.to_multiset() == input,
{
    let n = queue.last();
    let q2 = queue.drop_last();
    let perm = n.partial;
    let p2 = produced.push(perm);
    let last = queue.len() - 1;
    assert(node_wf(input, queue[last]));
    assert(n.remaining =~= Multiset::<V>::empty());
    assert(perm.to_multiset() == input) by {
        assert(perm.to_multiset().add(Multiset::<V>::empty()) =~= perm.to_multiset());
    }
    lemma_completes_ready(n, perm);
    assert(completes(queue[last], perm));

    // the recorded permutation is new
    assert forall|k1: int, k2: int| 0 <= k1 < k2 < p2.len() implies p2[k1] != p2[k2] by {
        if k2 == produced.len() {
            assert(!completes(queue[last], produced[k1]));
            lemma_completes_ready(n, produced[k1]);
        }
    }
    // nothing queued still completes a produced permutation
    assert forall|i: int, k: int|
        0 <= i < q2.len() && 0 <= k < p2.len() implies !completes(
        #[trigger] q2[i],
        #[trigger] p2[k],
    ) by {
        assert(q2[i] == queue[i]);
        if k < produced.len() {
            assert(!completes(queue[i], produced[k]));
        } else {
            assert(p2[k] == perm);
            assert(!(completes(queue[i], perm) && completes(queue[last], perm)));
        }
    }
    // coverage
    assert forall|s: Seq<V>| #[trigger] s.to_multiset() == input implies p2.contains(s)
        || exists|i: int| 0 <= i < q2.len() && completes(#[trigger] q2[i], s) by {
        if produced.contains(s) {
            let k = choose|k: int| 0 <= k < produced.len() && produced[k] == s;
            assert(p2[k] == s);
        } else {
            let i = choose|i: int| 0 <= i < queue.len() && completes(#[trigger] queue[i], s);
            if i == last {
                lemma_completes_ready(n, s);
                assert(p2[produced.len() as int] == s);
            } else {
                assert(q2[i] == queue[i]);
                assert(completes(q2[i], s));
            }
        }
    }
}

/// Popping a node with values remaining and queueing one child per distinct
/// remaining value preserves the invariant.
pub proof fn lemma_frontier_pop_expand<V>(
    input: Multiset<V>,
    queue: Seq<FrontierNode<V>>,
    produced: Seq<Seq<V>>,
    vals: Seq<V>,
)
    requires
        frontier_inv(input, queue, produced),
        queue.len() > 0,
        queue.last().remaining.len() > 0,
        vals.no_duplicates(),
        forall|j: int| 0 <= j < vals.len() ==> queue.last().remaining.count(#[trigger] vals[j])
            > 0,
        forall|v: V| queue.last().remaining.count(v) > 0 ==> vals.contains(v),
    ensures
        frontier_inv(input, queue.drop_last() + children_of(queue.last(), vals), produced),
{
    let n = queue.last();
    let last = queue.len() - 1;
    let cs = children_of(n, vals);
    let q2 = queue.drop_last() + cs;
    let m = queue.len() - 1;
    assert(node_wf(input, queue[last]));

    // children are well formed
    assert forall|j: int| 0 <= j < cs.len() implies node_wf(input, #[trigger] cs[j]) by {
        let v = vals[j];
        assert(cs[j] == child_node(n, v));
        assert(n.partial.push(v).to_multiset() == n.partial.to_multiset().insert(v));
        assert forall|w: V|
            n.partial.push(v).to_multiset().add(n.remaining.remove(v)).count(w)
                == n.partial.to_multiset().add(n.remaining).count(w) by {
            if w == v {
                assert(n.remaining.remove(v).count(v) == n.remaining.count(v) - 1);
            }
        }
        assert(n.partial.push(v).to_multiset().add(n.remaining.remove(v)) =~= input);
    }
    assert forall|i: int| 0 <= i < q2.len() implies node_wf(input, #[trigger] q2[i]) by {
        if i < m {
            assert(q2[i] == queue[i]);
        }
    }
    // nothing queued completes a produced permutation
    assert forall|i: int, k: int|
        0 <= i < q2.len() && 0 <= k < produced.len() implies !completes(
        #[trigger] q2[i],
        #[trigger] produced[k],
    ) by {
        if i < m {
            assert(q2[i] == queue[i]);
            assert(!completes(queue[i], produced[k]));
        } else {
            let v = vals[i - m];
            assert(q2[i] == child_node(n, v));
            if completes(q2[i], produced[k]) {
                lemma_child_sound(n, v, produced[k]);
                assert(completes(queue[last], produced[k]));
            }
        }
    }
    // no permutation completes two queued nodes
    assert forall|i1: int, i2: int, s: Seq<V>|
        #![trigger completes(q2[i1], s), completes(q2[i2], s)]
        0 <= i1 < i2 < q2.len() implies !(completes(q2[i1], s) && completes(q2[i2], s)) by {
        if completes(q2[i1], s) && completes(q2[i2], s) {
            if i2 < m {
                assert(q2[i1] == queue[i1]);
                assert(q2[i2] == queue[i2]);
                assert(!(completes(queue[i1], s) && completes(queue[i2], s)));
            } else if i1 < m {
                let v = vals[i2 - m];
                assert(q2[i1] == queue[i1]);
                assert(q2[i2] == child_node(n, v));
                lemma_child_sound(n, v, s);
                assert(!(completes(queue[i1], s) && completes(queue[last], s)));
            } else {
                let v1 = vals[i1 - m];
                let v2 = vals[i2 - m];
                assert(q2[i1] == child_node(n, v1));
                assert(q2[i2] == child_node(n, v2));
                lemma_completes_first(n, v1, s);
                lemma_completes_first(n, v2, s);
                assert(v1 == v2);
                assert(v1 != v2);
            }
        }
    }
    // coverage
    assert forall|s: Seq<V>| #[trigger] s.to_multiset() == input implies produced.contains(s)
        || exists|i: int| 0 <= i < q2.len() && completes(#[trigger] q2[i], s) by {
        if !produced.contains(s) {
            let i = choose|i: int| 0 <= i < queue.len() && completes(#[trigger] queue[i], s);
            if i < m {
                assert(q2[i] == queue[i]);
                assert(completes(q2[i], s));
            } else {
                assert(queue[i] == n);
                lemma_child_complete(n, s);
                let v = s[n.partial.len() as int];
                assert(n.remaining.count(v) > 0);
                assert(vals.contains(v));
                let j = choose|j: int| 0 <= j < vals.len() && vals[j] == v;
                assert(q2[m + j] == cs[j]);
                assert(cs[j] == child_node(n, v));
                assert(completes(q2[m + j], s));
            }
        }
    }
}

/// With an empty queue the produced list is exactly the distinct permutations
/// of the input, each exactly once.
pub proof fn lemma_frontier_exhausted<V>(input: Multiset<V>, produced: Seq<Seq<V>>)
    requires
        frontier_inv(input, Seq::<FrontierNode<V>>::empty(), produced),
    ensures
        forall|s: Seq<V>| produced.contains(s) <==> #[trigger] s.to_multiset() == input,
        produced.no_duplicates(),
        produced.to_set() == all_perms(input),
{
    assert forall|s: Seq<V>| produced.contains(s) <==> #[trigger] s.to_multiset() == input by {
        if produced.contains(s) {
            let k = choose|k: int| 0 <= k < produced.len() && produced[k] == s;
            assert(produced[k].to_multiset() == input);
        }
        if s.to_multiset() == input {
            assert(produced.contains(s) || exists|i: int|
                0 <= i < Seq::<FrontierNode<V>>::empty().len() && completes(
                    #[trigger] Seq::<FrontierNode<V>>::empty()[i],
                    s,
                ));
        }
    }
    assert(produced.to_set() =~= all_perms(input)) by {
        assert forall|s: Seq<V>| #[trigger] produced.to_set().contains(s) implies all_perms(
            input,
        ).contains(s) by {
            assert(produced.contains(s));
        }
        assert forall|s: Seq<V>| #[trigger] all_perms(input).contains(s) implies produced.to_set()
            .contains(s) by {
            assert(s.to_multiset() == input);
            assert(produced.contains(s));
        }
    }
}

/// The termination measure of a queue: each node weighs `base` to the power
/// of how many values it still has to place.
pub open spec fn queue_measure<V>(queue: Seq<FrontierNode<V>>, base: nat) -> nat
    decreases queue.len(),
{
    if queue.len() == 0 {
        0
    } else {
        queue_measure(queue.drop_last(), base) + pow(base as int, queue.last().remaining.len())
            as nat
    }
}

pub proof fn lemma_queue_measure_concat<V>(a: Seq<FrontierNode<V>>, b: Seq<FrontierNode<V>>, base: nat)
    ensures
        queue_measure(a + b, base) == queue_measure(a, base) + queue_measure(b, base),
    decreases b.len(),
{
    if b.len() == 0 {
        assert(a + b =~= a);
    } else {
        assert((a + b).drop_last() =~= a + b.drop_last());
        assert((a + b).last() == b.last());
        lemma_queue_measure_concat(a, b.drop_last(), base);
    }
}

/// A queue of nodes that all have `e` values remaining weighs its length
/// times `base` to the `e`.
pub proof fn lemma_queue_measure_uniform<V>(cs: Seq<FrontierNode<V>>, base: nat, e: nat)
    requires
        base >= 1,
        forall|j: int| 0 <= j < cs.len() ==> (#[trigger] cs[j]).remaining.len() == e,
    ensures
        queue_measure(cs, base) == cs.len() * pow(base as int, e),
    decreases cs.len(),
{
    vstd::arithmetic::power::lemma_pow_positive(base as int, e);
    if cs.len() == 0 {
    } else {
        assert(cs.last().remaining.len() == e);
        lemma_queue_measure_uniform(cs.drop_last(), base, e);
        assert((cs.len() - 1) * pow(base as int, e) + pow(base as int, e) == cs.len() * pow(
            base as int,
            e,
        )) by (nonlinear_arith);
    }
}

/// Distinct values all present in `m` number at most `m.len()`.
pub proof fn lemma_distinct_support_len<V>(m: Multiset<V>, vals: Seq<V>)
    requires
        vals.no_duplicates(),
        forall|j: int| 0 <= j < vals.len() ==> m.count(#[trigger] vals[j]) > 0,
    ensures
        vals.len() <= m.len(),
    decreases vals.len(),
{
    if vals.len() > 0 {
        let v = vals.last();
        let m2 = m.remove(v);
        lemma_remove_len(m, v);
        assert forall|j: int| 0 <= j < vals.drop_last().len() implies m2.count(
            #[trigger] vals.drop_last()[j],
        ) > 0 by {
            assert(vals[j] != v);
        }
        lemma_distinct_support_len(m2, vals.drop_last());
    }
}

/// The product of the factorials of the counts of the listed values.
pub open spec fn prod_count_factorials<V>(m: Multiset<V>, vals: Seq<V>) -> nat
    decreases vals.len(),
{
    if vals.len() == 0 {
        1
    } else {
        prod_count_factorials(m, vals.drop_last()) * spec_factorial(m.count(vals.last()))
    }
}

/// The total of the counts of the listed values.
pub open spec fn sum_counts_list<V>(m: Multiset<V>, vals: Seq<V>) -> nat
    decreases vals.len(),
{
    if vals.len() == 0 {
        0
    } else {
        sum_counts_list(m, vals.drop_last()) + m.count(vals.last())
    }
}

/// The permutations of `m` whose first value is one of `vals`.
spec fn perms_first_in<V>(m: Multiset<V>, vals: Seq<V>) -> Set<Seq<V>> {
    Set::new(|s: Seq<V>| s.to_multiset() == m && s.len() > 0 && vals.contains(s[0]))
}

/// The permutations of `m` whose first value is `v`.
spec fn perms_first_is<V>(m: Multiset<V>, v: V) -> Set<Seq<V>> {
    Set::new(|s: Seq<V>| s.to_multiset() == m && s.len() > 0 && s[0] == v)
}

proof fn lemma_listed_counts_congr<V>(m1: Multiset<V>, m2: Multiset<V>, vals: Seq<V>)
    requires
        forall|j: int| 0 <= j < vals.len() ==> m1.count(#[trigger] vals[j]) == m2.count(vals[j]),
    ensures
        prod_count_factorials(m1, vals) == prod_count_factorials(m2, vals),
        sum_counts_list(m1, vals) == sum_counts_list(m2, vals),
    decreases vals.len(),
{
    if vals.len() > 0 {
        assert forall|j: int|
            0 <= j < vals.drop_last().len() implies m1.count(#[trigger] vals.drop_last()[j])
            == m2.count(vals.drop_last()[j]) by {
            assert(vals.drop_last()[j] == vals[j]);
        }
        lemma_listed_counts_congr(m1, m2, vals.drop_last());
        assert(vals.last() == vals[vals.len() - 1]);
    }
}

proof fn lemma_prod_count_factorials_ones<V>(m: Multiset<V>, vals: Seq<V>)
    requires
        forall|j: int| 0 <= j < vals.len() ==> m.count(#[trigger] vals[j]) == 0,
    ensures
        prod_count_factorials(m, vals) == 1,
    decreases vals.len(),
{
    if vals.len() > 0 {
        assert forall|j: int|
            0 <= j < vals.drop_last().len() implies m.count(#[trigger] vals.drop_last()[j])
            == 0 by {
            assert(vals.drop_last()[j] == vals[j]);
        }
        lemma_prod_count_factorials_ones(m, vals.drop_last());
        assert(m.count(vals[vals.len() - 1]) == 0);
        assert(vals.last() == vals[vals.len() - 1]);
        assert(spec_factorial(0) == 1);
        assert(prod_count_factorials(m, vals) == prod_count_factorials(m, vals.drop_last())
            * spec_factorial(m.count(vals.last())));
    }
}

/// Removing one occurrence of a listed value divides the factorial product
/// by that value's count.
proof fn lemma_prod_count_factorials_remove<V>(m: Multiset<V>, vals: Seq<V>, v: V)
    requires
        vals.no_duplicates(),
        vals.contains(v),
        m.count(v) > 0,
    ensures
        prod_count_factorials(m.remove(v), vals) * m.count(v) == prod_count_factorials(m, vals),
    decreases vals.len(),
{
    let m2 = m.remove(v);
    let c = m.count(v);
    let rest = vals.drop_last();
    if vals.last() == v {
        assert forall|j: int| 0 <= j < rest.len() implies m2.count(#[trigger] rest[j]) == m.count(
            rest[j],
        ) by {
            assert(rest[j] == vals[j]);
            assert(vals[j] != v);
        }
        lemma_listed_counts_congr(m2, m, rest);
        let p0 = prod_count_factorials(m, rest);
        assert(m2.count(v) == c - 1);
        assert(spec_factorial(c) == c * spec_factorial((c - 1) as nat));
        assert((p0 * spec_factorial((c - 1) as nat)) * c == p0 * (c * spec_factorial(
            (c - 1) as nat,
        ))) by (nonlinear_arith);
    } else {
        assert(rest.contains(v)) by {
            let j = choose|j: int| 0 <= j < vals.len() && vals[j] == v;
            assert(j < vals.len() - 1);
            assert(rest[j] == v);
        }
        lemma_prod_count_factorials_remove(m, rest, v);
        assert(m2.count(vals.last()) == m.count(vals.last()));
        let q = prod_count_factorials(m2, rest);
        let f = spec_factorial(m.count(vals.last()));
        assert((q * f) * c == (q * c) * f) by (nonlinear_arith);
    }
}

proof fn lemma_update_zero_len<V>(m: Multiset<V>, v: V)
    ensures
        m.update(v, 0).len() == m.len() - m.count(v),
        forall|w: V| w != v ==> m.update(v, 0).count(w) == m.count(w),
        m.update(v, 0).count(v) == 0,
    decreases m.len(),
{
    let r = repeat_ms(v, m.count(v));
    lemma_repeat_ms_len(v, m.count(v));
    assert forall|w: V| true implies r.count(w) <= m.count(w) by {
        lemma_repeat_ms_count(v, m.count(v), w);
    }
    assert(r.subset_of(m));
    assert forall|w: V| m.update(v, 0).count(w) == m.sub(r).count(w) by {
        lemma_repeat_ms_count(v, m.count(v), w);
        vstd::multiset::lemma_update_same(m, v, 0);
        if w != v {
            vstd::multiset::lemma_update_different(m, v, 0, w);
        }
    }
    assert(m.update(v, 0) =~= m.sub(r));
    vstd::multiset::lemma_update_same(m, v, 0);
    assert forall|w: V| w != v implies m.update(v, 0).count(w) == m.count(w) by {
        vstd::multiset::lemma_update_different(m, v, 0, w);
    }
}

/// A duplicate-free listing that covers the support of `m` has counts
/// totalling the size of `m`.
proof fn lemma_sum_counts_list_full<V>(m: Multiset<V>, vals: Seq<V>)
    requires
        vals.no_duplicates(),
        forall|v: V| m.count(v) > 0 ==> vals.contains(v),
    ensures
        sum_counts_list(m, vals) == m.len(),
    decreases vals.len(),
{
    if vals.len() == 0 {
        assert(m.len() == 0) by {
            if m.len() > 0 {
                assert(m.count(m.choose()) > 0);
                assert(vals.contains(m.choose()));
            }
        }
        assert(sum_counts_list(m, vals) == 0);
    } else {
        let v = vals.last();
        let rest = vals.drop_last();
        let m2 = m.update(v, 0);
        lemma_update_zero_len(m, v);
        assert forall|j: int| 0 <= j < rest.len() implies m2.count(#[trigger] rest[j]) == m.count(
            rest[j],
        ) by {
            assert(rest[j] == vals[j]);
            assert(vals[j] != v);
        }
        lemma_listed_counts_congr(m2, m, rest);
        assert forall|w: V| m2.count(w) > 0 implies rest.contains(w) by {
            assert(w != v);
            assert(m.count(w) > 0);
            assert(vals.contains(w));
            let j = choose|j: int| 0 <= j < vals.len() && vals[j] == w;
            assert(j < vals.len() - 1);
            assert(rest[j] == w);
        }
        assert(rest.no_duplicates()) by {
            assert forall|i: int, j: int|
                0 <= i < rest.len() && 0 <= j < rest.len() && i != j implies rest[i]
                != rest[j] by {
                assert(rest[i] == vals[i]);
                assert(rest[j] == vals[j]);
            }
        }
        lemma_sum_counts_list_full(m2, rest);
        assert(sum_counts_list(m2, rest) == m.len() - m.count(v));
        assert(sum_counts_list(m, vals) == sum_counts_list(m, rest) + m.count(v));
    }
}

/// Prefixing the permutations of `m` less one `v` with `v` gives exactly the
/// permutations of `m` that start with `v`, one for one.
proof fn lemma_prepend_count<V>(m: Multiset<V>, v: V)
    requires
        m.count(v) > 0,
        all_perms(m.remove(v)).finite(),
    ensures
        perms_first_is(m, v).finite(),
        perms_first_is(m, v).len() == all_perms(m.remove(v)).len(),
{
    broadcast use vstd::seq_lib::group_to_multiset_ensures;

    let sub = all_perms(m.remove(v));
    let target = perms_first_is(m, v);
    let f = |t: Seq<V>| seq![v] + t;
    assert forall|t1: Seq<V>, t2: Seq<V>|
        sub.contains(t1) && sub.contains(t2) && #[trigger] f(t1) == #[trigger] f(t2) implies t1
        == t2 by {
        assert(f(t1).len() == 1 + t1.len());
        assert(f(t2).len() == 1 + t2.len());
        assert forall|i: int| 0 <= i < t1.len() implies t1[i] == t2[i] by {
            assert(f(t1)[i + 1] == t1[i]);
            assert(f(t2)[i + 1] == t2[i]);
        }
        assert(t1 =~= t2);
    }
    assert(injective_on(f, sub));
    assert(sub.map(f) =~= target) by {
        assert forall|s: Seq<V>| #[trigger] sub.map(f).contains(s) implies target.contains(s) by {
            let t = choose|t: Seq<V>| sub.contains(t) && s == f(t);
            assert(s =~= seq![v] + t);
            vstd::seq_lib::lemma_multiset_commutative(seq![v], t);
            assert(seq![v] =~= Seq::<V>::empty().push(v));
            lemma_empty_to_multiset::<V>();
            assert(seq![v].to_multiset() =~= Multiset::<V>::empty().insert(v));
            assert forall|w: V| s.to_multiset().count(w) == m.count(w) by {
                if w == v {
                    assert(m.remove(v).count(v) == m.count(v) - 1);
                }
            }
            assert(s.to_multiset() =~= m);
            assert(s[0] == v);
        }
        assert forall|s: Seq<V>| #[trigger] target.contains(s) implies sub.map(f).contains(s) by {
            let t = s.subrange(1, s.len() as int);
            assert(s.remove(0) =~= t);
            assert(s.remove(0).to_multiset() == s.to_multiset().remove(s[0]));
            assert(t.to_multiset() == m.remove(v));
            assert(sub.contains(t));
            assert(s =~= f(t));
            assert(sub.contains(t) && s == f(t));
        }
    }
    lemma_map_size(sub, target, f);
}

/// The permutations of a nonempty `m` starting with one of the first `p`
/// listed values, counted: their number times the full factorial product is
/// the factorial of `m.len() - 1` times the counts of those `p` values.
proof fn lemma_perms_prefix<V>(m: Multiset<V>, p: int, vals: Seq<V>)
    requires
        m.len() > 0,
        vals.no_duplicates(),
        forall|v: V| m.count(v) > 0 ==> vals.contains(v),
        0 <= p <= vals.len(),
    ensures
        perms_first_in(m, vals.take(p)).finite(),
        perms_first_in(m, vals.take(p)).len() * prod_count_factorials(m, vals) == spec_factorial(
            (m.len() - 1) as nat,
        ) * sum_counts_list(m, vals.take(p)),
    decreases m.len(), p,
{
    broadcast use vstd::set_lib::group_set_properties;

    if p == 0 {
        assert(vals.take(0) =~= Seq::<V>::empty());
        assert(perms_first_in(m, Seq::<V>::empty()) =~= Set::<Seq<V>>::empty());
        assert(perms_first_in(m, vals.take(p)).len() == 0);
        assert(sum_counts_list(m, vals.take(p)) == 0);
    } else {
        lemma_perms_prefix(m, p - 1, vals);
        let v = vals[p - 1];
        let pre = vals.take(p - 1);
        let cur = vals.take(p);
        assert(cur.drop_last() =~= pre);
        assert(cur.last() == v);
        let before = perms_first_in(m, pre);
        let at = perms_first_is(m, v);
        let c = m.count(v);
        let np = prod_count_factorials(m, vals);
        let fsub = spec_factorial((m.len() - 1) as nat);
        assert(perms_first_in(m, cur) =~= before + at) by {
            assert forall|s: Seq<V>|
                perms_first_in(m, cur).contains(s) <==> (before + at).contains(s) by {
                if s.to_multiset() == m && s.len() > 0 {
                    assert(cur.contains(s[0]) <==> (pre.contains(s[0]) || s[0] == v)) by {
                        if cur.contains(s[0]) {
                            let j = choose|j: int| 0 <= j < cur.len() && cur[j] == s[0];
                            if j < p - 1 {
                                assert(pre[j] == s[0]);
                            }
                        }
                        if pre.contains(s[0]) {
                            let j = choose|j: int| 0 <= j < pre.len() && pre[j] == s[0];
                            assert(cur[j] == s[0]);
                        }
                        if s[0] == v {
                            assert(cur[p - 1] == s[0]);
                        }
                    }
                }
            }
        }
        assert(before.disjoint(at)) by {
            assert forall|s: Seq<V>| before.contains(s) implies !at.contains(s) by {
                if at.contains(s) {
                    assert(pre.contains(v));
                    let j = choose|j: int| 0 <= j < pre.len() && pre[j] == v;
                    assert(vals[j] == vals[p - 1]);
                    assert(j != p - 1);
                }
            }
        }
        if c > 0 {
            let m2 = m.remove(v);
            assert forall|w: V| m2.count(w) > 0 implies vals.contains(w) by {
                assert(m.count(w) > 0);
            }
            lemma_all_perms_count(m2, vals);
            lemma_remove_len(m, v);
            lemma_prepend_count(m, v);
            lemma_prod_count_factorials_remove(m, vals, v);
            vstd::set_lib::lemma_set_union_finite_iff(before, at);
            assert((before + at).len() == before.len() + at.len());
            assert(at.len() * np == fsub * c) by {
                let sub_len = all_perms(m2).len();
                let sub_prod = prod_count_factorials(m2, vals);
                assert(sub_len * sub_prod == spec_factorial(m2.len()));
                assert(sub_prod * c == np);
                assert(sub_len * np == (sub_len * sub_prod) * c) by (nonlinear_arith)
                    requires
                        np == sub_prod * c,
                ;
            }
            assert((before.len() + at.len()) * np == before.len() * np + at.len() * np)
                by (nonlinear_arith);
            assert(fsub * (sum_counts_list(m, pre) + c) == fsub * sum_counts_list(m, pre) + fsub
                * c) by (nonlinear_arith);
            assert(before.len() * np == fsub * sum_counts_list(m, pre));
            assert(sum_counts_list(m, cur) == sum_counts_list(m, pre) + c);
            assert(perms_first_in(m, cur).len() == before.len() + at.len());
            assert(perms_first_in(m, cur).len() * np == fsub * sum_counts_list(m, cur));
        } else {
            assert(at =~= Set::<Seq<V>>::empty()) by {
                assert forall|s: Seq<V>| !at.contains(s) by {
                    if at.contains(s) {
                        broadcast use vstd::seq_lib::group_to_multiset_ensures;

                        assert(s.contains(s[0]));
                        assert(s.to_multiset().count(v) > 0);
                    }
                }
            }
            assert(before + at =~= before);
            assert(sum_counts_list(m, cur) == sum_counts_list(m, pre));
            assert(perms_first_in(m, cur).len() * np == fsub * sum_counts_list(m, cur));
        }
    }
}

/// Cardinality: over any duplicate-free listing of the input's distinct
/// values, the number of distinct permutations times the product of the
/// factorials of the value counts equals the factorial of the input size —
/// the multinomial coefficient, stated without division.
pub proof fn lemma_all_perms_count<V>(m: Multiset<V>, vals: Seq<V>)
    requires
        vals.no_duplicates(),
        forall|v: V| m.count(v) > 0 ==> vals.contains(v),
    ensures
        all_perms(m).finite(),
        all_perms(m).len() * prod_count_factorials(m, vals) == spec_factorial(m.len()),
    decreases m.len(), vals.len() + 1,
{
    broadcast use vstd::seq_lib::group_to_multiset_ensures;
    broadcast use vstd::set_lib::group_set_properties;

    if m.len() == 0 {
        lemma_empty_to_multiset::<V>();
        assert(all_perms(m) =~= Set::<Seq<V>>::empty().insert(Seq::<V>::empty())) by {
            assert forall|s: Seq<V>| all_perms(m).contains(s) implies s == Seq::<V>::empty() by {
                assert(s.to_multiset() == m);
                assert(s.len() == 0);
                assert(s =~= Seq::<V>::empty());
            }
            assert(Seq::<V>::empty().to_multiset() =~= m);
        }
        assert(all_perms(m).len() == 1);
        assert forall|j: int| 0 <= j < vals.len() implies m.count(#[trigger] vals[j]) == 0 by {
            assert(m.count(vals[j]) <= m.len());
        }
        lemma_prod_count_factorials_ones(m, vals);
    } else {
        lemma_perms_prefix(m, vals.len() as int, vals);
        assert(vals.take(vals.len() as int) =~= vals);
        assert(perms_first_in(m, vals) =~= all_perms(m)) by {
            assert forall|s: Seq<V>| all_perms(m).contains(s) implies perms_first_in(
                m,
                vals,
            ).contains(s) by {
                assert(s.to_multiset() == m);
                assert(s.len() == m.len());
                assert(s.contains(s[0]));
                assert(s.to_multiset().count(s[0]) > 0);
            }
        }
        lemma_sum_counts_list_full(m, vals);
        assert(spec_factorial(m.len()) == m.len() * spec_factorial((m.len() - 1) as nat));
        assert(spec_factorial((m.len() - 1) as nat) * m.len() == m.len() * spec_factorial(
            (m.len() - 1) as nat,
        )) by (nonlinear_arith);
    }
}

/// Popping a ready node shrinks the measure.
pub proof fn lemma_measure_pop_ready<V>(queue: Seq<FrontierNode<V>>, base: nat)
    requires
        queue.len() > 0,
        base >= 1,
    ensures
        queue_measure(queue.drop_last(), base) < queue_measure(queue, base),
{
    vstd::arithmetic::power::lemma_pow_positive(base as int, queue.last().remaining.len());
}

/// Replacing a node by one child per distinct remaining value shrinks the measure.
pub proof fn lemma_measure_pop_expand<V>(queue: Seq<FrontierNode<V>>, vals: Seq<V>, base: nat)
    requires
        queue.len() > 0,
        queue.last().remaining.len() > 0,
        queue.last().remaining.len() < base,
        vals.no_duplicates(),
        forall|j: int| 0 <= j < vals.len() ==> queue.last().remaining.count(#[trigger] vals[j])
            > 0,
    ensures
        queue_measure(queue.drop_last() + children_of(queue.last(), vals), base) < queue_measure(
            queue,
            base,
        ),
{
    let n = queue.last();
    let r = n.remaining.len();
    let cs = children_of(n, vals);
    lemma_queue_measure_concat(queue.drop_last(), cs, base);
    assert forall|j: int| 0 <= j < cs.len() implies (#[trigger] cs[j]).remaining.len() == (r
        - 1) as nat by {
        assert(cs[j] == child_node(n, vals[j]));
        lemma_remove_len(n.remaining, vals[j]);
    }
    lemma_queue_measure_uniform(cs, base, (r - 1) as nat);
    lemma_distinct_support_len(n.remaining, vals);
    vstd::arithmetic::power::lemma_pow_positive(base as int, (r - 1) as nat);
    assert(pow(base as int, r) == base as int * pow(base as int, (r - 1) as nat)) by {
        vstd::arithmetic::power::lemma_pow1(base as int);
        vstd::arithmetic::power::lemma_pow_adds(base as int, 1, (r - 1) as nat);
        assert(r == 1 + (r - 1) as nat);
    }
    assert(cs.len() * pow(base as int, (r - 1) as nat) < base as int * pow(
        base as int,
        (r - 1) as nat,
    )) by (nonlinear_arith)
        requires
            cs.len() < base,
            pow(base as int, (r - 1) as nat) >= 1,
    ;
}

} // verus!
