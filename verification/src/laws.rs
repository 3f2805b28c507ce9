//! The laws both tree representations obey, stated over the mathematical
//! model their contracts share: the logical value sequence and
//! `range_total`. Each is proved once here and applies to either
//! representation through the `range_sum` and `setitem` contracts.

use vstd::prelude::*;
use crate::complete_tree::SegmentTreeWithEphemeralId;
use crate::sparse_tree::SegmentTreeWithRealId;
use crate::sums::{range_total, get0, lemma_range_total_singleton, lemma_sum_to_update};

verus! {

/// Round-trip law: querying the single-index range `[i, i]` of any value
/// sequence returns the element at `i` unchanged. Combined with
/// `range_sum`'s contract, a tree built from `[v0 .. vn-1]` answers
/// `range_sum(i, i)` with `vi`.
pub proof fn lemma_single_index_round_trip(s: Seq<u64>, i: int)
    requires
        0 <= i < s.len(),
    ensures
        range_total(s, i, i + 1) == s[i],
{
    lemma_range_total_singleton(s, i);
    assert(get0(s, i) == s[i]);
}

/// Build-idempotence law: two trees holding the same logical values — in
/// particular two trees built from the same input, of either
/// representation — answer every valid range query identically, because
/// each `range_sum` result is pinned to `range_total` of the view.
pub proof fn lemma_build_deterministic(
    t1: &SegmentTreeWithRealId,
    t2: &SegmentTreeWithEphemeralId,
    lower: int,
    upper: int,
)
    requires
        t1@ == t2@,
        0 <= lower <= upper < t1@.len(),
    ensures
        range_total(t1@, lower, upper + 1) == range_total(t2@, lower, upper + 1),
{
}

/// Update-locality law: replacing the element at `k` changes a range
/// query's value only if the range contains `k` — and then by exactly the
/// difference of the old and new element.
pub proof fn lemma_update_locality(s: Seq<u64>, k: int, x: u64, lower: int, upper: int)
    requires
        0 <= k < s.len(),
        0 <= lower <= upper < s.len(),
    ensures
        !(lower <= k <= upper) ==> range_total(s.update(k, x), lower, upper + 1) == range_total(
            s,
            lower,
            upper + 1,
        ),
        lower <= k <= upper ==> range_total(s.update(k, x), lower, upper + 1) == range_total(
            s,
            lower,
            upper + 1,
        ) + x - s[k],
{
    lemma_sum_to_update(s, k, x, upper + 1);
    lemma_sum_to_update(s, k, x, lower);
}

} // verus!
