//! Sums over sequences of records, with the bounds that keep running totals
//! inside machine integers.

use crate::money::abs;
use vstd::prelude::*;

verus! {

pub open spec fn sum_seq<T>(s: Seq<T>, f: spec_fn(T) -> int) -> int
    decreases s.len(),
{
    if s.len() == 0 {
        0
    } else {
        sum_seq(s.drop_last(), f) + f(s.last())
    }
}

pub open spec fn abs_fn<T>(f: spec_fn(T) -> int) -> spec_fn(T) -> int {
    |x: T| abs(f(x)) as int
}

pub proof fn lemma_sum_seq_step<T>(s: Seq<T>, i: int, f: spec_fn(T) -> int)
    requires
        0 <= i < s.len(),
    ensures
        sum_seq(s.subrange(0, i + 1), f) == sum_seq(s.subrange(0, i), f) + f(s[i]),
{
    assert(s.subrange(0, i + 1).drop_last() =~= s.subrange(0, i));
}

pub proof fn lemma_sum_seq_whole<T>(s: Seq<T>, f: spec_fn(T) -> int)
    ensures
        sum_seq(s.subrange(0, s.len() as int), f) == sum_seq(s, f),
{
    assert(s.subrange(0, s.len() as int) =~= s);
}

/// The magnitude of a sum is at most the sum of magnitudes, which is never
/// negative.
pub proof fn lemma_sum_seq_abs<T>(s: Seq<T>, f: spec_fn(T) -> int)
    ensures
        abs(sum_seq(s, f)) <= sum_seq(s, abs_fn(f)),
        sum_seq(s, abs_fn(f)) >= 0,
    decreases s.len(),
{
    if s.len() > 0 {
        lemma_sum_seq_abs(s.drop_last(), f);
        assert(abs_fn(f)(s.last()) == abs(f(s.last())));
    }
}

/// A prefix's sum of magnitudes is at most the whole sequence's.
pub proof fn lemma_sum_seq_abs_prefix<T>(s: Seq<T>, i: int, f: spec_fn(T) -> int)
    requires
        0 <= i <= s.len(),
    ensures
        sum_seq(s.subrange(0, i), abs_fn(f)) <= sum_seq(s, abs_fn(f)),
        abs(sum_seq(s.subrange(0, i), f)) <= sum_seq(s, abs_fn(f)),
    decreases s.len() - i,
{
    lemma_sum_seq_abs(s.subrange(0, i), f);
    if i < s.len() {
        lemma_sum_seq_abs_prefix(s.drop_last(), i, f);
        assert(s.drop_last().subrange(0, i) =~= s.subrange(0, i));
        assert(abs_fn(f)(s.last()) >= 0);
    } else {
        assert(s.subrange(0, i) =~= s);
    }
}

/// One element's magnitude is at most the sum of magnitudes.
pub proof fn lemma_sum_seq_abs_element<T>(s: Seq<T>, i: int, f: spec_fn(T) -> int)
    requires
        0 <= i < s.len(),
    ensures
        abs(f(s[i])) <= sum_seq(s, abs_fn(f)),
{
    lemma_sum_seq_abs_prefix(s, i + 1, f);
    lemma_sum_seq_step(s, i, abs_fn(f));
    lemma_sum_seq_abs(s.subrange(0, i), f);
}

} // verus!
