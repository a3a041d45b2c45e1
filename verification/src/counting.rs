//! Counting and summation over sequences, used to state the conservation
//! invariant (slots held across cores) and the exact meaning of the metric
//! counters (how many requests stand in each lifecycle phase).

use vstd::prelude::*;

verus! {

/// Number of elements of `s` satisfying `f`.
pub open spec fn count_where<T>(s: Seq<T>, f: spec_fn(T) -> bool) -> int
    decreases s.len(),
{
    if s.len() == 0 {
        0
    } else {
        count_where(s.drop_last(), f) + if f(s.last()) {
            1int
        } else {
            0int
        }
    }
}

/// Sum of `f` over the elements of `s`.
pub open spec fn sum_of<T>(s: Seq<T>, f: spec_fn(T) -> int) -> int
    decreases s.len(),
{
    if s.len() == 0 {
        0
    } else {
        sum_of(s.drop_last(), f) + f(s.last())
    }
}

pub proof fn lemma_count_where_bounds<T>(s: Seq<T>, f: spec_fn(T) -> bool)
    ensures
        0 <= count_where(s, f) <= s.len(),
    decreases s.len(),
{
    if s.len() > 0 {
        lemma_count_where_bounds(s.drop_last(), f);
    }
}

pub proof fn lemma_count_where_push<T>(s: Seq<T>, f: spec_fn(T) -> bool, x: T)
    ensures
        count_where(s.push(x), f) == count_where(s, f) + if f(x) {
            1int
        } else {
            0int
        },
{
    assert(s.push(x).drop_last() =~= s);
}

pub proof fn lemma_count_where_update<T>(s: Seq<T>, f: spec_fn(T) -> bool, i: int, x: T)
    requires
        0 <= i < s.len(),
    ensures
        count_where(s.update(i, x), f) == count_where(s, f) - (if f(s[i]) {
            1int
        } else {
            0int
        }) + (if f(x) {
            1int
        } else {
            0int
        }),
    decreases s.len(),
{
    let t = s.update(i, x);
    if i == s.len() - 1 {
        assert(t.drop_last() =~= s.drop_last());
    } else {
        assert(t.drop_last() =~= s.drop_last().update(i, x));
        lemma_count_where_update(s.drop_last(), f, i, x);
    }
}

/// If `f` implies `g` pointwise on `s`, then `f` counts no more than `g`.
pub proof fn lemma_count_where_le<T>(s: Seq<T>, f: spec_fn(T) -> bool, g: spec_fn(T) -> bool)
    requires
        forall|i: int| 0 <= i < s.len() && f(#[trigger] s[i]) ==> g(s[i]),
    ensures
        count_where(s, f) <= count_where(s, g),
    decreases s.len(),
{
    if s.len() > 0 {
        assert(s.last() == s[s.len() - 1]);
        assert(forall|i: int|
            0 <= i < s.drop_last().len() && f(#[trigger] s.drop_last()[i]) ==> g(s.drop_last()[i]));
        lemma_count_where_le(s.drop_last(), f, g);
    }
}

/// Two disjoint conditions that each imply a third together count no more
/// than the third.
pub proof fn lemma_count_where_disjoint<T>(
    s: Seq<T>,
    f: spec_fn(T) -> bool,
    g: spec_fn(T) -> bool,
    h: spec_fn(T) -> bool,
)
    requires
        forall|i: int| 0 <= i < s.len() ==> !(f(#[trigger] s[i]) && g(s[i])),
        forall|i: int| 0 <= i < s.len() && f(#[trigger] s[i]) ==> h(s[i]),
        forall|i: int| 0 <= i < s.len() && g(#[trigger] s[i]) ==> h(s[i]),
    ensures
        count_where(s, f) + count_where(s, g) <= count_where(s, h),
    decreases s.len(),
{
    if s.len() > 0 {
        assert(s.last() == s[s.len() - 1]);
        assert(forall|i: int| 0 <= i < s.drop_last().len() ==> #[trigger] s.drop_last()[i] == s[i]);
        lemma_count_where_disjoint(s.drop_last(), f, g, h);
    }
}

pub proof fn lemma_count_where_insert<T>(s: Seq<T>, f: spec_fn(T) -> bool, i: int, x: T)
    requires
        0 <= i <= s.len(),
    ensures
        count_where(s.insert(i, x), f) == count_where(s, f) + if f(x) {
            1int
        } else {
            0int
        },
    decreases s.len(),
{
    let t = s.insert(i, x);
    if i == s.len() {
        assert(t =~= s.push(x));
        lemma_count_where_push(s, f, x);
    } else {
        assert(t.drop_last() =~= s.drop_last().insert(i, x));
        assert(t.last() == s.last());
        lemma_count_where_insert(s.drop_last(), f, i, x);
    }
}

/// A sequence with no element satisfying `f` counts zero.
pub proof fn lemma_count_where_none<T>(s: Seq<T>, f: spec_fn(T) -> bool)
    requires
        forall|i: int| 0 <= i < s.len() ==> !f(#[trigger] s[i]),
    ensures
        count_where(s, f) == 0,
    decreases s.len(),
{
    if s.len() > 0 {
        assert(s.last() == s[s.len() - 1]);
        assert(forall|i: int|
            0 <= i < s.drop_last().len() ==> #[trigger] s.drop_last()[i] == s[i]);
        lemma_count_where_none(s.drop_last(), f);
    }
}

/// A positive count names a witness.
pub proof fn lemma_count_where_witness<T>(s: Seq<T>, f: spec_fn(T) -> bool)
    requires
        count_where(s, f) >= 1,
    ensures
        exists|i: int| 0 <= i < s.len() && f(#[trigger] s[i]),
    decreases s.len(),
{
    if s.len() > 0 {
        if f(s.last()) {
            assert(s.last() == s[s.len() - 1]);
        } else {
            lemma_count_where_witness(s.drop_last(), f);
            let i = choose|i: int| 0 <= i < s.drop_last().len() && f(#[trigger] s.drop_last()[i]);
            assert(f(s[i]));
        }
    }
}

/// An element known to satisfy `f` makes the count at least one.
pub proof fn lemma_count_where_member<T>(s: Seq<T>, f: spec_fn(T) -> bool, i: int)
    requires
        0 <= i < s.len(),
        f(s[i]),
    ensures
        count_where(s, f) >= 1,
    decreases s.len(),
{
    lemma_count_where_bounds(s.drop_last(), f);
    if i < s.len() - 1 {
        lemma_count_where_member(s.drop_last(), f, i);
    }
}

/// If elements satisfying `f` contribute at least `b` and the rest at
/// least zero, the sum dominates the count of `f` times `b`.
pub proof fn lemma_sum_of_dominates_count<T>(
    s: Seq<T>,
    f: spec_fn(T) -> bool,
    g: spec_fn(T) -> int,
    b: int,
)
    requires
        b >= 0,
        forall|i: int| 0 <= i < s.len() && f(#[trigger] s[i]) ==> g(s[i]) >= b,
        forall|i: int| 0 <= i < s.len() && !f(#[trigger] s[i]) ==> g(s[i]) >= 0,
    ensures
        sum_of(s, g) >= count_where(s, f) * b,
    decreases s.len(),
{
    if s.len() == 0 {
    } else {
        assert(s.last() == s[s.len() - 1]);
        assert(forall|i: int|
            0 <= i < s.drop_last().len() ==> #[trigger] s.drop_last()[i] == s[i]);
        lemma_sum_of_dominates_count(s.drop_last(), f, g, b);
        let k = count_where(s.drop_last(), f);
        lemma_count_where_bounds(s.drop_last(), f);
        if f(s.last()) {
            assert((k + 1) * b == k * b + b) by (nonlinear_arith);
        }
    }
}

pub proof fn lemma_sum_of_push<T>(s: Seq<T>, f: spec_fn(T) -> int, x: T)
    ensures
        sum_of(s.push(x), f) == sum_of(s, f) + f(x),
{
    assert(s.push(x).drop_last() =~= s);
}

pub proof fn lemma_sum_of_update<T>(s: Seq<T>, f: spec_fn(T) -> int, i: int, x: T)
    requires
        0 <= i < s.len(),
    ensures
        sum_of(s.update(i, x), f) == sum_of(s, f) - f(s[i]) + f(x),
    decreases s.len(),
{
    let t = s.update(i, x);
    if i == s.len() - 1 {
        assert(t.drop_last() =~= s.drop_last());
    } else {
        assert(t.drop_last() =~= s.drop_last().update(i, x));
        lemma_sum_of_update(s.drop_last(), f, i, x);
    }
}

/// A sum of non-negative contributions is non-negative.
pub proof fn lemma_sum_of_nonneg<T>(s: Seq<T>, f: spec_fn(T) -> int)
    requires
        forall|i: int| 0 <= i < s.len() ==> f(#[trigger] s[i]) >= 0,
    ensures
        sum_of(s, f) >= 0,
    decreases s.len(),
{
    if s.len() > 0 {
        assert(s.last() == s[s.len() - 1]);
        assert(forall|i: int|
            0 <= i < s.drop_last().len() ==> f(#[trigger] s.drop_last()[i]) >= 0);
        lemma_sum_of_nonneg(s.drop_last(), f);
    }
}

/// If every element contributes at least zero and element `i` contributes at
/// least `v`, the sum is at least `v`.
pub proof fn lemma_sum_of_member_lower<T>(s: Seq<T>, f: spec_fn(T) -> int, i: int, v: int)
    requires
        0 <= i < s.len(),
        f(s[i]) >= v,
        forall|k: int| 0 <= k < s.len() ==> f(#[trigger] s[k]) >= 0,
    ensures
        sum_of(s, f) >= v,
    decreases s.len(),
{
    assert(s.last() == s[s.len() - 1]);
    assert(forall|k: int| 0 <= k < s.drop_last().len() ==> #[trigger] s.drop_last()[k] == s[k]);
    if i < s.len() - 1 {
        lemma_sum_of_member_lower(s.drop_last(), f, i, v);
    } else {
        lemma_sum_of_nonneg(s.drop_last(), f);
    }
}

} // verus!
