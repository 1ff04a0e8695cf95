//! Counting arguments that bound how long the walks of the planner run.

use vstd::prelude::*;

verus! {

/// A list of distinct numbers below `bound` is no longer than `bound`.
pub proof fn lemma_distinct_bounded(s: Seq<int>, bound: int)
    requires
        s.no_duplicates(),
        forall|i: int| 0 <= i < s.len() ==> 0 <= #[trigger] s[i] < bound,
    ensures
        s.len() <= bound || s.len() == 0,
{
    if s.len() > 0 {
        assert(0 <= s[0] < bound);
        s.unique_seq_to_set();
        let r = vstd::set_lib::set_int_range(0, bound);
        vstd::set_lib::lemma_int_range(0, bound);
        assert forall|x: int| s.to_set().contains(x) implies r.contains(x) by {
            let i = choose|i: int| 0 <= i < s.len() && s[i] == x;
            assert(0 <= s[i] < bound);
        }
        vstd::set_lib::lemma_len_subset(s.to_set(), r);
    }
}

/// A number written as `high * base + low` with `low` below `base`
/// determines both `high` and `low`.
pub proof fn lemma_digits(high: int, low: int, high2: int, low2: int, base: int)
    requires
        0 <= low < base,
        0 <= low2 < base,
        high * base + low == high2 * base + low2,
    ensures
        high == high2,
        low == low2,
{
    assert(high == high2) by (nonlinear_arith)
        requires
            0 <= low < base,
            0 <= low2 < base,
            high * base + low == high2 * base + low2,
    ;
    assert(high * base == high2 * base);
}

/// `high * base + low` with `high` below `count` and `low` below `base`
/// lies below `count * base`.
pub proof fn lemma_digit_range(high: int, low: int, count: int, base: int)
    requires
        0 <= high < count,
        0 <= low < base,
    ensures
        0 <= high * base + low < count * base,
{
    assert(0 <= high * base + low < count * base) by (nonlinear_arith)
        requires
            0 <= high < count,
            0 <= low < base,
    ;
}

} // verus!
