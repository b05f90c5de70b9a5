//! Totals of sequences whose terms may be missing.

use vstd::prelude::*;

verus! {

/// The sum of the terms of `s`, or `None` where a term is missing.
pub open spec fn sum_opt(s: Seq<Option<int>>) -> Option<int>
    decreases s.len(),
{
    if s.len() == 0 {
        Some(0)
    } else {
        match (sum_opt(s.drop_last()), s.last()) {
            (Some(a), Some(b)) => Some(a + b),
            _ => None,
        }
    }
}

/// The sum of the terms of `s`.
pub open spec fn sum(s: Seq<int>) -> int
    decreases s.len(),
{
    if s.len() == 0 {
        0
    } else {
        sum(s.drop_last()) + s.last()
    }
}

/// The sum of the first `n + 1` terms is that of the first `n`, plus the
/// next.
pub proof fn lemma_sum_opt_next(s: Seq<Option<int>>, n: int)
    requires
        0 <= n < s.len(),
    ensures
        sum_opt(s.take(n + 1)) == match (sum_opt(s.take(n)), s[n]) {
            (Some(a), Some(b)) => Some(a + b),
            _ => None,
        },
{
    assert(s.take(n + 1).drop_last() == s.take(n));
}

/// Where a prefix has no sum, the whole has none.
pub proof fn lemma_sum_opt_none(s: Seq<Option<int>>, n: int)
    requires
        0 <= n <= s.len(),
        sum_opt(s.take(n)) is None,
    ensures
        sum_opt(s) is None,
    decreases s.len() - n,
{
    if n == s.len() {
        assert(s.take(n) == s);
    } else {
        lemma_sum_opt_next(s, n);
        lemma_sum_opt_none(s, n + 1);
    }
}

/// The sum of terms that are never negative does not fall as terms are
/// added.
pub proof fn lemma_sum_opt_grows(s: Seq<Option<int>>, n: int)
    requires
        0 <= n <= s.len(),
        forall|i: int| 0 <= i < s.len() ==> ((#[trigger] s[i]) matches Some(x) ==> x >= 0),
        sum_opt(s) is Some,
    ensures
        sum_opt(s.take(n)) is Some,
        0 <= sum_opt(s.take(n))->0 <= sum_opt(s)->0,
    decreases s.len() - n,
{
    if n == s.len() {
        assert(s.take(n) == s);
        lemma_sum_opt_nonneg(s);
    } else {
        lemma_sum_opt_grows(s, n + 1);
        lemma_sum_opt_next(s, n);
        if sum_opt(s.take(n)) is Some {
            lemma_sum_opt_nonneg(s.take(n));
        }
    }
}

/// The sum of terms that are never negative is not negative.
pub proof fn lemma_sum_opt_nonneg(s: Seq<Option<int>>)
    requires
        forall|i: int| 0 <= i < s.len() ==> ((#[trigger] s[i]) matches Some(x) ==> x >= 0),
        sum_opt(s) is Some,
    ensures
        sum_opt(s)->0 >= 0,
    decreases s.len(),
{
    if s.len() > 0 {
        lemma_sum_opt_nonneg(s.drop_last());
    }
}

/// Where the terms are never negative, the whole sum, if there is one, is
/// no less than the sum of a prefix.
pub proof fn lemma_sum_opt_grows_from(s: Seq<Option<int>>, n: int)
    requires
        0 <= n <= s.len(),
        forall|i: int| 0 <= i < s.len() ==> ((#[trigger] s[i]) matches Some(x) ==> x >= 0),
        sum_opt(s.take(n)) is Some,
    ensures
        sum_opt(s) matches Some(t) ==> t >= sum_opt(s.take(n))->0,
{
    if sum_opt(s) is Some {
        lemma_sum_opt_grows(s, n);
    }
}

/// Where a term is missing, there is no sum.
pub proof fn lemma_sum_opt_missing(s: Seq<Option<int>>, i: int)
    requires
        0 <= i < s.len(),
        s[i] is None,
    ensures
        sum_opt(s) is None,
{
    lemma_sum_opt_next(s, i);
    lemma_sum_opt_none(s, i + 1);
}

/// Whether a number is within the range of a signed 64-bit integer.
pub open spec fn in_i64(x: int) -> bool {
    i64::MIN <= x <= i64::MAX
}

/// The sum of the terms of `s`, added one by one from the first; `None`
/// where a term is missing or the running sum leaves the range of a signed
/// 64-bit integer.
pub open spec fn running_sum(s: Seq<Option<int>>) -> Option<int>
    decreases s.len(),
{
    if s.len() == 0 {
        Some(0)
    } else {
        match (running_sum(s.drop_last()), s.last()) {
            (Some(a), Some(b)) => if in_i64(a + b) {
                Some(a + b)
            } else {
                None
            },
            _ => None,
        }
    }
}

/// The running sum of the first `n + 1` terms is that of the first `n`,
/// plus the next.
pub proof fn lemma_running_sum_next(s: Seq<Option<int>>, n: int)
    requires
        0 <= n < s.len(),
    ensures
        running_sum(s.take(n + 1)) == match (running_sum(s.take(n)), s[n]) {
            (Some(a), Some(b)) => if in_i64(a + b) {
                Some(a + b)
            } else {
                None
            },
            _ => None,
        },
{
    assert(s.take(n + 1).drop_last() == s.take(n));
}

/// Where a prefix has no running sum, the whole has none.
pub proof fn lemma_running_sum_none(s: Seq<Option<int>>, n: int)
    requires
        0 <= n <= s.len(),
        running_sum(s.take(n)) is None,
    ensures
        running_sum(s) is None,
    decreases s.len() - n,
{
    if n == s.len() {
        assert(s.take(n) == s);
    } else {
        lemma_running_sum_next(s, n);
        lemma_running_sum_none(s, n + 1);
    }
}

/// The sum of the terms of `s`, added one by one from the first; `None`
/// where a term is missing or the running sum leaves the range from zero
/// to `max`.
pub open spec fn capped_sum(s: Seq<Option<int>>, max: int) -> Option<int>
    decreases s.len(),
{
    if s.len() == 0 {
        Some(0)
    } else {
        match (capped_sum(s.drop_last(), max), s.last()) {
            (Some(a), Some(b)) => if 0 <= a + b <= max {
                Some(a + b)
            } else {
                None
            },
            _ => None,
        }
    }
}

/// The capped sum of the first `n + 1` terms is that of the first `n`,
/// plus the next.
pub proof fn lemma_capped_sum_next(s: Seq<Option<int>>, max: int, n: int)
    requires
        0 <= n < s.len(),
    ensures
        capped_sum(s.take(n + 1), max) == match (capped_sum(s.take(n), max), s[n]) {
            (Some(a), Some(b)) => if 0 <= a + b <= max {
                Some(a + b)
            } else {
                None
            },
            _ => None,
        },
{
    assert(s.take(n + 1).drop_last() == s.take(n));
}

/// Where a prefix has no capped sum, the whole has none.
pub proof fn lemma_capped_sum_none(s: Seq<Option<int>>, max: int, n: int)
    requires
        0 <= n <= s.len(),
        capped_sum(s.take(n), max) is None,
    ensures
        capped_sum(s, max) is None,
    decreases s.len() - n,
{
    if n == s.len() {
        assert(s.take(n) == s);
    } else {
        lemma_capped_sum_next(s, max, n);
        lemma_capped_sum_none(s, max, n + 1);
    }
}

} // verus!
