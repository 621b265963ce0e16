use vstd::prelude::*;

verus! {

/// Sum of a sequence of mathematical integers.
pub open spec fn sum(s: Seq<int>) -> int
    decreases s.len(),
{
    if s.len() == 0 {
        0
    } else {
        sum(s.drop_last()) + s.last()
    }
}

/// View of a vector of `i32` values as a sequence of integers.
pub open spec fn to_int32(s: Seq<i32>) -> Seq<int> {
    s.map_values(|x: i32| x as int)
}

/// Integer views of a vector of `i32` vectors.
pub open spec fn views_of(s: Seq<Vec<i32>>) -> Seq<Seq<int>> {
    s.map_values(|v: Vec<i32>| to_int32(v@))
}

/// View of a vector of `u32` values as a sequence of integers.
pub open spec fn to_intu32(s: Seq<u32>) -> Seq<int> {
    s.map_values(|x: u32| x as int)
}

/// A one-element sequence sums to its entry.
pub proof fn lemma_sum_singleton(s: Seq<int>)
    requires
        s.len() == 1,
    ensures
        sum(s) == s[0],
{
    reveal_with_fuel(sum, 2);
    assert(s.drop_last() =~= Seq::<int>::empty());
}

/// Taking one more element adds it to the sum of the prefix.
pub proof fn lemma_sum_take_step(s: Seq<int>, k: int)
    requires
        0 <= k < s.len(),
    ensures
        sum(s.take(k + 1)) == sum(s.take(k)) + s[k],
{
    assert(s.take(k + 1).drop_last() =~= s.take(k));
}

/// The sum of the full-length prefix is the sum of the sequence.
pub proof fn lemma_sum_take_all(s: Seq<int>)
    ensures
        sum(s.take(s.len() as int)) == sum(s),
{
    assert(s.take(s.len() as int) =~= s);
}

/// A sequence of non-negative values has a non-negative sum.
pub proof fn lemma_sum_nonneg(s: Seq<int>)
    requires
        forall|i: int| 0 <= i < s.len() ==> s[i] >= 0,
    ensures
        sum(s) >= 0,
    decreases s.len(),
{
    if s.len() > 0 {
        lemma_sum_nonneg(s.drop_last());
    }
}

/// In a sequence of non-negative values, each element is at most the sum.
pub proof fn lemma_sum_elem_bound(s: Seq<int>, k: int)
    requires
        forall|i: int| 0 <= i < s.len() ==> s[i] >= 0,
        0 <= k < s.len(),
    ensures
        s[k] <= sum(s),
    decreases s.len(),
{
    if k == s.len() - 1 {
        lemma_sum_nonneg(s.drop_last());
    } else {
        lemma_sum_elem_bound(s.drop_last(), k);
    }
}

/// For non-negative values, every prefix sum lies between zero and the total.
pub proof fn lemma_sum_take_le(s: Seq<int>, k: int)
    requires
        forall|i: int| 0 <= i < s.len() ==> s[i] >= 0,
        0 <= k <= s.len(),
    ensures
        0 <= sum(s.take(k)),
        sum(s.take(k)) <= sum(s),
    decreases s.len() - k,
{
    assert(forall|i: int| 0 <= i < s.take(k).len() ==> s.take(k)[i] >= 0);
    lemma_sum_nonneg(s.take(k));
    if k == s.len() {
        lemma_sum_take_all(s);
    } else {
        lemma_sum_take_step(s, k);
        lemma_sum_take_le(s, k + 1);
    }
}

/// Replacing one element changes the sum by the difference.
pub proof fn lemma_sum_update(s: Seq<int>, k: int, v: int)
    requires
        0 <= k < s.len(),
    ensures
        sum(s.update(k, v)) == sum(s) - s[k] + v,
    decreases s.len(),
{
    if k == s.len() - 1 {
        assert(s.update(k, v).drop_last() =~= s.drop_last());
    } else {
        lemma_sum_update(s.drop_last(), k, v);
        assert(s.update(k, v).drop_last() =~= s.drop_last().update(k, v));
    }
}

/// Summation distributes over a pointwise sum of two sequences.
pub proof fn lemma_sum_pointwise_add(a: Seq<int>, b: Seq<int>, c: Seq<int>)
    requires
        a.len() == b.len(),
        a.len() == c.len(),
        forall|j: int| 0 <= j < a.len() ==> c[j] == a[j] + b[j],
    ensures
        sum(c) == sum(a) + sum(b),
    decreases a.len(),
{
    if a.len() > 0 {
        lemma_sum_pointwise_add(a.drop_last(), b.drop_last(), c.drop_last());
    }
}

/// Two equal-by-element sequences have the same sum.
pub proof fn lemma_sum_congruence(a: Seq<int>, b: Seq<int>)
    requires
        a.len() == b.len(),
        forall|j: int| 0 <= j < a.len() ==> a[j] == b[j],
    ensures
        sum(a) == sum(b),
{
    assert(a =~= b);
}

/// A sequence that is zero everywhere but possibly at one index sums to that entry.
pub proof fn lemma_sum_unit(s: Seq<int>, k: int)
    requires
        0 <= k < s.len(),
        forall|j: int| 0 <= j < s.len() && j != k ==> s[j] == 0,
    ensures
        sum(s) == s[k],
    decreases s.len(),
{
    if k == s.len() - 1 {
        lemma_sum_zero(s.drop_last());
    } else {
        lemma_sum_unit(s.drop_last(), k);
    }
}

/// A sequence that is zero everywhere but possibly at two indices sums to
/// those two entries.
pub proof fn lemma_sum_two_units(s: Seq<int>, k1: int, k2: int)
    requires
        0 <= k1 < s.len(),
        0 <= k2 < s.len(),
        k1 != k2,
        forall|j: int| 0 <= j < s.len() && j != k1 && j != k2 ==> s[j] == 0,
    ensures
        sum(s) == s[k1] + s[k2],
    decreases s.len(),
{
    if k1 == s.len() - 1 {
        lemma_sum_unit(s.drop_last(), k2);
    } else if k2 == s.len() - 1 {
        lemma_sum_unit(s.drop_last(), k1);
    } else {
        lemma_sum_two_units(s.drop_last(), k1, k2);
    }
}

/// Summation is monotone under a pointwise bound.
pub proof fn lemma_sum_le(a: Seq<int>, b: Seq<int>)
    requires
        a.len() == b.len(),
        forall|j: int| 0 <= j < a.len() ==> a[j] <= b[j],
    ensures
        sum(a) <= sum(b),
    decreases a.len(),
{
    if a.len() > 0 {
        lemma_sum_le(a.drop_last(), b.drop_last());
    }
}

/// A constant sequence sums to length times the constant.
pub proof fn lemma_sum_const(s: Seq<int>, v: int)
    requires
        forall|j: int| 0 <= j < s.len() ==> s[j] == v,
    ensures
        sum(s) == s.len() * v,
    decreases s.len(),
{
    if s.len() > 0 {
        lemma_sum_const(s.drop_last(), v);
        assert((s.len() as int) * v == (s.len() - 1) * v + v) by (nonlinear_arith);
    }
}

/// A sequence of zeroes sums to zero.
pub proof fn lemma_sum_zero(s: Seq<int>)
    requires
        forall|j: int| 0 <= j < s.len() ==> s[j] == 0,
    ensures
        sum(s) == 0,
    decreases s.len(),
{
    if s.len() > 0 {
        lemma_sum_zero(s.drop_last());
    }
}

} // verus!
