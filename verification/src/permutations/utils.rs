//! Shared helpers: the factorial and the value-frequency table that seeds
//! both engines.
//!
//! The frequency table is an association vector from a value to its positive
//! number of remaining occurrences; its mathematical content is the multiset
//! [`freqs_ms`] it denotes.

use vstd::multiset::Multiset;
use vstd::prelude::*;

verus! {

broadcast use vstd::seq_lib::group_to_multiset_ensures;

/// One entry of a frequency table: a value together with how many
/// occurrences of it remain.
#[derive(Clone, Copy)]
pub struct Frequency {
    pub value: u64,
    pub count: usize,
}

/// A multiset holding `n` occurrences of `v` and nothing else.
pub open spec fn repeat_ms<V>(v: V, n: nat) -> Multiset<V>
    decreases n,
{
    if n == 0 {
        Multiset::empty()
    } else {
        repeat_ms(v, (n - 1) as nat).insert(v)
    }
}

pub proof fn lemma_repeat_ms_count<V>(v: V, n: nat, w: V)
    ensures
        repeat_ms(v, n).count(w) == if w == v {
            n
        } else {
            0
        },
    decreases n,
{
    if n > 0 {
        lemma_repeat_ms_count(v, (n - 1) as nat, w);
    }
}

pub proof fn lemma_repeat_ms_len<V>(v: V, n: nat)
    ensures
        repeat_ms(v, n).len() == n,
    decreases n,
{
    if n > 0 {
        lemma_repeat_ms_len(v, (n - 1) as nat);
    }
}

/// How many occurrences of `w` a single table entry contributes.
pub open spec fn freq_contrib(f: Frequency, w: u64) -> nat {
    if f.value == w {
        f.count as nat
    } else {
        0
    }
}

/// Total number of occurrences of `w` recorded in the table.
pub open spec fn freqs_count(s: Seq<Frequency>, w: u64) -> nat
    decreases s.len(),
{
    if s.len() == 0 {
        0
    } else {
        freqs_count(s.drop_last(), w) + freq_contrib(s.last(), w)
    }
}

/// The multiset of values denoted by a frequency table.
pub open spec fn freqs_ms(s: Seq<Frequency>) -> Multiset<u64>
    decreases s.len(),
{
    if s.len() == 0 {
        Multiset::empty()
    } else {
        freqs_ms(s.drop_last()).add(repeat_ms(s.last().value, s.last().count as nat))
    }
}

/// A well-formed table mentions each value at most once, with a positive count.
pub open spec fn freqs_wf(s: Seq<Frequency>) -> bool {
    &&& forall|a: int, b: int|
        0 <= a < b < s.len() ==> (#[trigger] s[a]).value != (#[trigger] s[b]).value
    &&& forall|i: int| 0 <= i < s.len() ==> (#[trigger] s[i]).count >= 1
}

pub proof fn lemma_freqs_ms_count(s: Seq<Frequency>, w: u64)
    ensures
        freqs_ms(s).count(w) == freqs_count(s, w),
    decreases s.len(),
{
    if s.len() > 0 {
        lemma_freqs_ms_count(s.drop_last(), w);
        lemma_repeat_ms_count(s.last().value, s.last().count as nat, w);
    }
}

/// In a well-formed table the count of a recorded value is its entry's count.
pub proof fn lemma_freqs_count_at(s: Seq<Frequency>, i: int)
    requires
        freqs_wf(s),
        0 <= i < s.len(),
    ensures
        freqs_count(s, s[i].value) == s[i].count,
    decreases s.len(),
{
    if i == s.len() - 1 {
        lemma_freqs_count_absent(s.drop_last(), s[i].value);
    } else {
        assert(freqs_wf(s.drop_last()));
        lemma_freqs_count_at(s.drop_last(), i);
    }
}

/// A value recorded in no entry has count zero.
pub proof fn lemma_freqs_count_absent(s: Seq<Frequency>, w: u64)
    requires
        forall|i: int| 0 <= i < s.len() ==> (#[trigger] s[i]).value != w,
    ensures
        freqs_count(s, w) == 0,
    decreases s.len(),
{
    if s.len() > 0 {
        lemma_freqs_count_absent(s.drop_last(), w);
    }
}

/// A value with a positive count stands in some entry.
pub proof fn lemma_freqs_count_support(s: Seq<Frequency>, w: u64)
    requires
        freqs_count(s, w) > 0,
    ensures
        exists|i: int| 0 <= i < s.len() && (#[trigger] s[i]).value == w,
    decreases s.len(),
{
    if s.len() > 0 {
        if s.last().value == w {
            assert(s[s.len() - 1].value == w);
        } else {
            lemma_freqs_count_support(s.drop_last(), w);
            let i = choose|i: int| 0 <= i < s.drop_last().len() && (#[trigger] s.drop_last()[i]).value == w;
            assert(s[i].value == w);
        }
    }
}

pub proof fn lemma_freqs_count_update(s: Seq<Frequency>, i: int, f: Frequency, w: u64)
    requires
        0 <= i < s.len(),
    ensures
        freqs_count(s.update(i, f), w) == freqs_count(s, w) - freq_contrib(s[i], w) + freq_contrib(
            f,
            w,
        ),
    decreases s.len(),
{
    let t = s.update(i, f);
    if i == s.len() - 1 {
        assert(t.drop_last() =~= s.drop_last());
    } else {
        assert(t.drop_last() =~= s.drop_last().update(i, f));
        assert(t.last() == s.last());
        lemma_freqs_count_update(s.drop_last(), i, f, w);
    }
}

pub proof fn lemma_freqs_count_remove(s: Seq<Frequency>, i: int, w: u64)
    requires
        0 <= i < s.len(),
    ensures
        freqs_count(s.remove(i), w) == freqs_count(s, w) - freq_contrib(s[i], w),
    decreases s.len(),
{
    let t = s.remove(i);
    if i == s.len() - 1 {
        assert(t =~= s.drop_last());
    } else {
        assert(t.drop_last() =~= s.drop_last().remove(i));
        assert(t.last() == s.last());
        lemma_freqs_count_remove(s.drop_last(), i, w);
    }
}

pub proof fn lemma_freqs_count_push(s: Seq<Frequency>, f: Frequency, w: u64)
    ensures
        freqs_count(s.push(f), w) == freqs_count(s, w) + freq_contrib(f, w),
{
    assert(s.push(f).drop_last() =~= s);
}

/// The values recorded in a frequency table, in entry order.
pub open spec fn freq_values(s: Seq<Frequency>) -> Seq<u64> {
    s.map_values(|f: Frequency| f.value)
}

pub proof fn lemma_freq_values_index(s: Seq<Frequency>, i: int)
    requires
        0 <= i < s.len(),
    ensures
        freq_values(s).len() == s.len(),
        freq_values(s)[i] == s[i].value,
{
}

/// In a well-formed table the recorded values are distinct and are exactly
/// the values the table's multiset holds.
pub proof fn lemma_freq_values_properties(s: Seq<Frequency>)
    requires
        freqs_wf(s),
    ensures
        freq_values(s).no_duplicates(),
        forall|j: int| 0 <= j < s.len() ==> freqs_ms(s).count(#[trigger] freq_values(s)[j]) > 0,
        forall|v: u64| freqs_ms(s).count(v) > 0 ==> freq_values(s).contains(v),
{
    let vals = freq_values(s);
    assert forall|j: int| 0 <= j < s.len() implies freqs_ms(s).count(#[trigger] vals[j]) > 0 by {
        lemma_freqs_count_at(s, j);
        lemma_freqs_ms_count(s, s[j].value);
    }
    assert forall|v: u64| freqs_ms(s).count(v) > 0 implies vals.contains(v) by {
        lemma_freqs_ms_count(s, v);
        lemma_freqs_count_support(s, v);
        let i = choose|i: int| 0 <= i < s.len() && (#[trigger] s[i]).value == v;
        assert(vals[i] == v);
    }
}

/// Copy a frequency table.
pub(crate) fn clone_frequencies(v: &Vec<Frequency>) -> (r: Vec<Frequency>)
    ensures
        r@ == v@,
{
    let mut r: Vec<Frequency> = Vec::new();
    let mut i: usize = 0;
    while i < v.len()
        invariant
            i <= v@.len(),
            r@ == v@.take(i as int),
        decreases v@.len() - i,
    {
        r.push(v[i]);
        i += 1;
        assert(r@ =~= v@.take(i as int));
    }
    assert(v@.take(v@.len() as int) =~= v@);
    r
}

/// Copy a value sequence.
pub(crate) fn clone_values(v: &Vec<u64>) -> (r: Vec<u64>)
    ensures
        r@ == v@,
{
    let mut r: Vec<u64> = Vec::new();
    let mut i: usize = 0;
    while i < v.len()
        invariant
            i <= v@.len(),
            r@ == v@.take(i as int),
        decreases v@.len() - i,
    {
        r.push(v[i]);
        i += 1;
        assert(r@ =~= v@.take(i as int));
    }
    assert(v@.take(v@.len() as int) =~= v@);
    r
}

/// Mathematical factorial.
pub open spec fn spec_factorial(n: nat) -> nat
    decreases n,
{
    if n == 0 {
        1
    } else {
        n * spec_factorial((n - 1) as nat)
    }
}

/// The factorial is at least one.
pub proof fn lemma_factorial_positive(n: nat)
    ensures
        spec_factorial(n) >= 1,
    decreases n,
{
    if n > 0 {
        lemma_factorial_positive((n - 1) as nat);
        assert(n * spec_factorial((n - 1) as nat) >= spec_factorial((n - 1) as nat))
            by (nonlinear_arith)
            requires
                n >= 1 && spec_factorial((n - 1) as nat) >= 1,
        ;
    }
}

/// Compute the factorial of `n`; the result must fit in a machine word.
pub fn factorial(n: usize) -> (r: usize)
    requires
        spec_factorial(n as nat) <= usize::MAX,
    ensures
        r == spec_factorial(n as nat),
    decreases n,
{
    if n == 0 {
        1
    } else {
        proof {
            lemma_factorial_positive((n - 1) as nat);
            assert(spec_factorial((n - 1) as nat) <= spec_factorial(n as nat))
                by (nonlinear_arith)
                requires
                    n >= 1,
                    spec_factorial(n as nat) == n * spec_factorial((n - 1) as nat),
                    spec_factorial((n - 1) as nat) >= 1,
            ;
        }
        factorial(n - 1) * n
    }
}

/// Compute the frequency table of `values`: each distinct value appears in
/// exactly one entry, whose count is its number of occurrences.
pub fn values_with_frequency(values: &Vec<u64>) -> (r: Vec<Frequency>)
    ensures
        freqs_wf(r@),
        freqs_ms(r@) == values@.to_multiset(),
{
    let mut r: Vec<Frequency> = Vec::new();
    assert(values@.take(0) =~= Seq::<u64>::empty());
    assert(freqs_ms(r@) =~= values@.take(0).to_multiset()) by {
        assert(forall|w: u64| Seq::<u64>::empty().to_multiset().count(w) == 0);
    }
    let mut i: usize = 0;
    while i < values.len()
        invariant
            i <= values@.len(),
            freqs_wf(r@),
            freqs_ms(r@) == values@.take(i as int).to_multiset(),
            forall|j: int| 0 <= j < r@.len() ==> (#[trigger] r@[j]).count <= i,
        decreases values@.len() - i,
    {
        let v = values[i];
        let ghost prefix = values@.take(i as int);
        assert(values@.take(i + 1) =~= prefix.push(v));
        assert(prefix.push(v).to_multiset() == prefix.to_multiset().insert(v));
        let mut j: usize = 0;
        let mut found = false;
        while j < r.len() && !found
            invariant
                j <= r@.len(),
                !found ==> forall|k: int| 0 <= k < j ==> (#[trigger] r@[k]).value != v,
                found ==> j < r@.len() && r@[j as int].value == v,
            decreases r@.len() - j + (if found { 0int } else { 1int }),
        {
            if r[j].value == v {
                found = true;
            } else {
                j += 1;
            }
        }
        if found {
            let c = r[j].count;
            let ghost old_r = r@;
            r.set(j, Frequency { value: v, count: c + 1 });
            proof {
                assert forall|w: u64| freqs_ms(r@).count(w) == prefix.to_multiset().insert(
                    v,
                ).count(w) by {
                    lemma_freqs_ms_count(r@, w);
                    lemma_freqs_ms_count(old_r, w);
                    lemma_freqs_count_update(old_r, j as int, r@[j as int], w);
                }
                assert(freqs_ms(r@) =~= prefix.to_multiset().insert(v));
            }
        } else {
            let ghost old_r = r@;
            r.push(Frequency { value: v, count: 1 });
            proof {
                assert forall|w: u64| freqs_ms(r@).count(w) == prefix.to_multiset().insert(
                    v,
                ).count(w) by {
                    lemma_freqs_ms_count(r@, w);
                    lemma_freqs_ms_count(old_r, w);
                    lemma_freqs_count_push(old_r, Frequency { value: v, count: 1 }, w);
                }
                assert(freqs_ms(r@) =~= prefix.to_multiset().insert(v));
            }
        }
        i += 1;
        assert(values@.take(i as int) =~= prefix.push(v));
    }
    assert(values@.take(values@.len() as int) =~= values@);
    r
}

/// Decrease the recorded count of `value` by one, deleting its entry when the
/// count reaches zero; a value with no entry leaves the table unchanged.
pub fn decrease_or_remove_positive_frequency(
    values_with_frequency: &mut Vec<Frequency>,
    value: u64,
)
    requires
        freqs_wf(old(values_with_frequency)@),
    ensures
        freqs_wf(final(values_with_frequency)@),
        freqs_ms(final(values_with_frequency)@) == freqs_ms(old(values_with_frequency)@).remove(
            value,
        ),
{
    let ghost s0 = values_with_frequency@;
    let mut j: usize = 0;
    let mut found = false;
    while j < values_with_frequency.len() && !found
        invariant
            values_with_frequency@ == s0,
            j <= s0.len(),
            !found ==> forall|k: int| 0 <= k < j ==> (#[trigger] s0[k]).value != value,
            found ==> j < s0.len() && s0[j as int].value == value,
        decreases s0.len() - j + (if found { 0int } else { 1int }),
    {
        if values_with_frequency[j].value == value {
            found = true;
        } else {
            j += 1;
        }
    }
    if !found {
        proof {
            lemma_freqs_count_absent(s0, value);
            lemma_freqs_ms_count(s0, value);
            assert(freqs_ms(s0).count(value) == 0);
            assert(freqs_ms(s0) =~= freqs_ms(s0).remove(value));
        }
        return ;
    }
    let c = values_with_frequency[j].count;
    if c == 1 {
        values_with_frequency.remove(j);
        proof {
            assert forall|w: u64|
                freqs_ms(values_with_frequency@).count(w) == freqs_ms(s0).remove(value).count(
                    w,
                ) by {
                lemma_freqs_ms_count(values_with_frequency@, w);
                lemma_freqs_ms_count(s0, w);
                lemma_freqs_count_remove(s0, j as int, w);
            }
            assert(freqs_ms(values_with_frequency@) =~= freqs_ms(s0).remove(value));
        }
    } else {
        values_with_frequency.set(j, Frequency { value, count: c - 1 });
        proof {
            assert forall|w: u64|
                freqs_ms(values_with_frequency@).count(w) == freqs_ms(s0).remove(value).count(
                    w,
                ) by {
                lemma_freqs_ms_count(values_with_frequency@, w);
                lemma_freqs_ms_count(s0, w);
                lemma_freqs_count_update(s0, j as int, Frequency { value, count: (c - 1) as usize }, w);
            }
            assert(freqs_ms(values_with_frequency@) =~= freqs_ms(s0).remove(value));
        }
    }
}

} // verus!
