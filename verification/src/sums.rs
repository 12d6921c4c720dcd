//! Sums of an integer measure over a sequence, and how they react to edits.

use vstd::prelude::*;

verus! {

/// The sum of `f(x)` over every element `x` of `s`.
pub open spec fn sum_by<T>(s: Seq<T>, f: spec_fn(T) -> int) -> int
    decreases s.len(),
{
    if s.len() == 0 {
        0
    } else {
        sum_by(s.drop_last(), f) + f(s.last())
    }
}

/// Extending a prefix by the next element adds that element's measure.
pub proof fn lemma_sum_by_step<T>(s: Seq<T>, k: int, f: spec_fn(T) -> int)
    requires
        0 <= k < s.len(),
    ensures
        sum_by(s.subrange(0, k + 1), f) == sum_by(s.subrange(0, k), f) + f(s[k]),
{
    assert(s.subrange(0, k + 1).drop_last() =~= s.subrange(0, k));
}

/// Sequences whose elements measure the same, position by position, sum the same.
pub proof fn lemma_sum_by_pointwise<T>(s: Seq<T>, t: Seq<T>, f: spec_fn(T) -> int)
    requires
        s.len() == t.len(),
        forall|i: int| 0 <= i < s.len() ==> f(#[trigger] s[i]) == f(t[i]),
    ensures
        sum_by(s, f) == sum_by(t, f),
    decreases s.len(),
{
    if s.len() > 0 {
        lemma_sum_by_pointwise(s.drop_last(), t.drop_last(), f);
    }
}

/// Two measures that agree on every element of the sequence sum the same.
pub proof fn lemma_sum_by_same<T>(s: Seq<T>, f: spec_fn(T) -> int, g: spec_fn(T) -> int)
    requires
        forall|i: int| 0 <= i < s.len() ==> f(#[trigger] s[i]) == g(s[i]),
    ensures
        sum_by(s, f) == sum_by(s, g),
    decreases s.len(),
{
    if s.len() > 0 {
        lemma_sum_by_same(s.drop_last(), f, g);
    }
}

/// Two sequences that differ in one position differ in sum by the change of
/// that position's measure.
pub proof fn lemma_sum_by_one_change<T>(s: Seq<T>, t: Seq<T>, k: int, f: spec_fn(T) -> int)
    requires
        s.len() == t.len(),
        0 <= k < s.len(),
        forall|i: int| 0 <= i < s.len() && i != k ==> f(#[trigger] s[i]) == f(t[i]),
    ensures
        sum_by(t, f) == sum_by(s, f) - f(s[k]) + f(t[k]),
    decreases s.len(),
{
    if k == s.len() - 1 {
        lemma_sum_by_pointwise(s.drop_last(), t.drop_last(), f);
    } else {
        lemma_sum_by_one_change(s.drop_last(), t.drop_last(), k, f);
    }
}

/// A measure that is nowhere negative on the sequence sums to no less than zero.
pub proof fn lemma_sum_by_not_negative<T>(s: Seq<T>, f: spec_fn(T) -> int)
    requires
        forall|i: int| 0 <= i < s.len() ==> 0 <= f(#[trigger] s[i]),
    ensures
        0 <= sum_by(s, f),
    decreases s.len(),
{
    if s.len() > 0 {
        lemma_sum_by_not_negative(s.drop_last(), f);
    }
}

/// A measure that vanishes on every element sums to zero.
pub proof fn lemma_sum_by_zero<T>(s: Seq<T>, f: spec_fn(T) -> int)
    requires
        forall|i: int| 0 <= i < s.len() ==> f(#[trigger] s[i]) == 0,
    ensures
        sum_by(s, f) == 0,
    decreases s.len(),
{
    if s.len() > 0 {
        lemma_sum_by_zero(s.drop_last(), f);
    }
}

/// A measure that is nowhere larger than another sums to no more.
pub proof fn lemma_sum_by_monotone<T>(s: Seq<T>, f: spec_fn(T) -> int, g: spec_fn(T) -> int)
    requires
        forall|i: int| 0 <= i < s.len() ==> f(#[trigger] s[i]) <= g(s[i]),
    ensures
        sum_by(s, f) <= sum_by(s, g),
    decreases s.len(),
{
    if s.len() > 0 {
        lemma_sum_by_monotone(s.drop_last(), f, g);
    }
}

/// Under a measure that is nowhere negative, a prefix sums to no more than
/// the whole.
pub proof fn lemma_sum_by_prefix_least<T>(s: Seq<T>, n: int, f: spec_fn(T) -> int)
    requires
        0 <= n <= s.len(),
        forall|i: int| 0 <= i < s.len() ==> 0 <= f(#[trigger] s[i]),
    ensures
        sum_by(s.subrange(0, n), f) <= sum_by(s, f),
    decreases s.len() - n,
{
    if n == s.len() {
        assert(s.subrange(0, n) =~= s);
    } else {
        lemma_sum_by_step(s, n, f);
        lemma_sum_by_prefix_least(s, n + 1, f);
    }
}

} // verus!
