//! The mathematical model shared by both tree representations.
//!
//! A segment tree is modelled as a stack of levels: level 0 holds the leaf
//! values, and each entry of a higher level combines two adjacent entries of
//! the level below (a missing entry counts as the combinator's identity, 0).
//! The entry at position `j` of level `k` then equals the sum of the leaf
//! block of width `2^k` starting at `j * 2^k` — the fact every tree
//! operation's proof rests on.

use vstd::prelude::*;
use vstd::arithmetic::power2::{pow2, lemma_pow2_unfold, lemma_pow2_pos, lemma2_to64};
use vstd::arithmetic::div_mod::{
    lemma_fundamental_div_mod, lemma_div_denominator, lemma_div_is_ordered, lemma_div_basics,
    lemma_div_pos_is_pos, lemma_div_multiples_vanish_fancy, lemma_mod_bound,
};

verus! {

/// The element at position `i`, or the combinator's identity outside the
/// sequence.
pub open spec fn get0(s: Seq<u64>, i: int) -> int {
    if 0 <= i < s.len() {
        s[i] as int
    } else {
        0
    }
}

/// Sum of the elements at positions `0 .. n` (elements past the end count
/// as 0, so the value is the whole sum for any `n >= s.len()`).
pub open spec fn sum_to(s: Seq<u64>, n: int) -> int
    decreases n,
{
    if n <= 0 {
        0
    } else {
        sum_to(s, n - 1) + get0(s, n - 1)
    }
}

/// Sum of the elements at positions `lo .. hi` (`hi` exclusive): the value
/// every range query returns.
pub open spec fn range_total(s: Seq<u64>, lo: int, hi: int) -> int {
    sum_to(s, hi) - sum_to(s, lo)
}

/// Sum of the leaf block of width `2^k` covered by the node at position `j`
/// of level `k`, over leaf sequence `s`.
pub open spec fn node_total(s: Seq<u64>, k: int, j: int) -> int {
    range_total(s, j * pow2(k as nat), (j + 1) * pow2(k as nat))
}

/// An entry of the level stack: `data(k, p)` inside level `k`, identity
/// outside it.
pub open spec fn level_entry(lens: Seq<int>, data: spec_fn(int, int) -> int, k: int, p: int) -> int {
    if 0 <= p < lens[k] {
        data(k, p)
    } else {
        0
    }
}

/// Well-formedness of a level stack with level lengths `lens` and entries
/// `data`: every level is non-empty, no level drops entries of the level
/// below (`lens[k] <= 2 * lens[k + 1]`), leaves are non-negative, and every
/// entry above the leaves combines the two entries below it.
pub open spec fn levels_wf(lens: Seq<int>, data: spec_fn(int, int) -> int) -> bool {
    &&& lens.len() >= 1
    &&& forall|k: int| 0 <= k < lens.len() ==> #[trigger] lens[k] >= 1
    &&& forall|k: int| 0 <= k < lens.len() - 1 ==> #[trigger] lens[k] <= 2 * lens[k + 1]
    &&& forall|j: int| 0 <= j < lens[0] ==> #[trigger] data(0, j) >= 0
    &&& forall|k: int, j: int|
        1 <= k < lens.len() && 0 <= j < lens[k] ==> #[trigger] data(k, j) == level_entry(
            lens,
            data,
            k - 1,
            2 * j,
        ) + level_entry(lens, data, k - 1, 2 * j + 1)
}

pub proof fn lemma_sum_to_monotone(s: Seq<u64>, a: int, b: int)
    requires
        a <= b,
    ensures
        sum_to(s, a) <= sum_to(s, b),
    decreases b - a,
{
    if a < b {
        lemma_sum_to_monotone(s, a, b - 1);
    }
}

pub proof fn lemma_sum_to_flat(s: Seq<u64>, n: int)
    requires
        n >= s.len(),
    ensures
        sum_to(s, n) == sum_to(s, s.len() as int),
    decreases n,
{
    if n > s.len() {
        lemma_sum_to_flat(s, n - 1);
    }
}

/// Replacing one element changes every prefix sum that covers it by the
/// difference, and no other.
pub proof fn lemma_sum_to_update(s: Seq<u64>, x: int, v: u64, n: int)
    requires
        0 <= x < s.len(),
    ensures
        sum_to(s.update(x, v), n) == sum_to(s, n) + if x < n {
            v - s[x]
        } else {
            0
        },
    decreases n,
{
    if n > 0 {
        lemma_sum_to_update(s, x, v, n - 1);
    }
}

/// Prefix sums ignore everything past the prefix.
pub proof fn lemma_sum_to_take(s: Seq<u64>, m: int, n: int)
    requires
        n <= m <= s.len(),
    ensures
        sum_to(s.take(m), n) == sum_to(s, n),
    decreases n,
{
    if n > 0 {
        lemma_sum_to_take(s, m, n - 1);
    }
}

/// A stretch of zero elements contributes nothing.
pub proof fn lemma_sum_to_zero_range(s: Seq<u64>, a: int, b: int)
    requires
        a <= b,
        forall|i: int| a <= i < b ==> get0(s, i) == 0,
    ensures
        sum_to(s, b) == sum_to(s, a),
    decreases b - a,
{
    if a < b {
        lemma_sum_to_zero_range(s, a, b - 1);
    }
}

/// A single-element range holds exactly that element.
pub proof fn lemma_range_total_singleton(s: Seq<u64>, i: int)
    ensures
        range_total(s, i, i + 1) == get0(s, i),
{
    if i < 0 {
        assert(sum_to(s, i) == 0 && sum_to(s, i + 1) == 0);
    }
}

/// A node's block splits into the blocks of its two children.
pub proof fn lemma_node_total_split(s: Seq<u64>, k: int, j: int)
    requires
        k >= 1,
    ensures
        node_total(s, k, j) == node_total(s, k - 1, 2 * j) + node_total(s, k - 1, 2 * j + 1),
{
    let h = pow2((k - 1) as nat) as int;
    lemma_pow2_unfold(k as nat);
    assert(j * (2 * h) == (2 * j) * h) by (nonlinear_arith);
    assert((j + 1) * (2 * h) == (2 * j + 2) * h) by (nonlinear_arith);
}

/// A block that starts at or past the end of the leaves sums to 0.
pub proof fn lemma_node_total_beyond(s: Seq<u64>, k: int, j: int)
    requires
        k >= 0,
        j * pow2(k as nat) >= s.len(),
        j >= 0,
    ensures
        node_total(s, k, j) == 0,
{
    let p = pow2(k as nat) as int;
    lemma_pow2_pos(k as nat);
    assert(j * p <= (j + 1) * p) by (nonlinear_arith)
        requires p > 0 && j >= 0;
    lemma_sum_to_flat(s, j * p);
    lemma_sum_to_flat(s, (j + 1) * p);
}

/// At the leaf level a block is a single element.
pub proof fn lemma_node_total_leaf(s: Seq<u64>, j: int)
    ensures
        node_total(s, 0, j) == get0(s, j),
{
    lemma2_to64();
    lemma_range_total_singleton(s, j);
    assert(j * pow2(0) == j);
    assert((j + 1) * pow2(0) == j + 1);
}

/// Every block sum is non-negative and at most the sum of all leaves.
pub proof fn lemma_node_total_bounds(s: Seq<u64>, k: int, j: int)
    requires
        k >= 0,
        j >= 0,
    ensures
        0 <= node_total(s, k, j) <= sum_to(s, s.len() as int),
{
    let p = pow2(k as nat) as int;
    lemma_pow2_pos(k as nat);
    assert(0 <= j * p <= (j + 1) * p) by (nonlinear_arith)
        requires p > 0 && j >= 0;
    lemma_sum_to_monotone(s, j * p, (j + 1) * p);
    if (j + 1) * p <= s.len() {
        lemma_sum_to_monotone(s, (j + 1) * p, s.len() as int);
        lemma_sum_to_monotone(s, 0, j * p);
    } else {
        lemma_sum_to_flat(s, (j + 1) * p);
        lemma_sum_to_monotone(s, 0, j * p);
    }
}

/// Replacing a leaf outside a node's block leaves that node's sum unchanged.
pub proof fn lemma_node_total_update_other(s: Seq<u64>, x: int, v: u64, k: int, j: int)
    requires
        0 <= x < s.len(),
        k >= 0,
        j >= 0,
        j != x / pow2(k as nat) as int,
    ensures
        node_total(s.update(x, v), k, j) == node_total(s, k, j),
{
    let p = pow2(k as nat) as int;
    lemma_pow2_pos(k as nat);
    lemma_fundamental_div_mod(x, p);
    let q = x / p;
    assert(j * p + p == (j + 1) * p) by (nonlinear_arith);
    if q < j {
        assert(x < j * p) by (nonlinear_arith)
            requires x == p * q + x % p && 0 <= x % p < p && q < j && p > 0;
    } else {
        assert(x >= (j + 1) * p) by (nonlinear_arith)
            requires x == p * q + x % p && 0 <= x % p < p && q > j && p > 0;
    }
    lemma_sum_to_update(s, x, v, j * p);
    lemma_sum_to_update(s, x, v, (j + 1) * p);
}

/// In a well-formed stack no level shrinks below coverage of the leaves:
/// `2^k` entries of width 1 at level `k` cover all of level 0.
pub proof fn lemma_level_coverage(lens: Seq<int>, k: int)
    requires
        forall|m: int| 0 <= m < lens.len() ==> #[trigger] lens[m] >= 1,
        forall|m: int| 0 <= m < lens.len() - 1 ==> #[trigger] lens[m] <= 2 * lens[m + 1],
        0 <= k < lens.len(),
    ensures
        pow2(k as nat) * lens[k] >= lens[0],
    decreases k,
{
    if k == 0 {
        lemma2_to64();
        assert(pow2(0) * lens[0] == lens[0]);
    } else {
        lemma_level_coverage(lens, k - 1);
        let h = pow2((k - 1) as nat) as int;
        lemma_pow2_unfold(k as nat);
        lemma_pow2_pos((k - 1) as nat);
        assert(lens[k - 1] <= 2 * lens[k]);
        assert(h * lens[k - 1] >= lens[0]);
        assert((2 * h) * lens[k] >= h * lens[k - 1]) by (nonlinear_arith)
            requires
                h > 0 && lens[k - 1] <= 2 * lens[k],
        ;
        assert(pow2(k as nat) * lens[k] == (2 * h) * lens[k]) by (nonlinear_arith)
            requires
                pow2(k as nat) == 2 * h,
        ;
    }
}

/// The key structural fact: in a well-formed level stack whose level 0
/// equals the leaf sequence `s`, the entry at `(k, j)` is the sum of its
/// leaf block.
pub proof fn lemma_node_value(lens: Seq<int>, data: spec_fn(int, int) -> int, s: Seq<u64>, k: int, j: int)
    requires
        levels_wf(lens, data),
        s.len() == lens[0],
        forall|i: int| 0 <= i < lens[0] ==> get0(s, i) == #[trigger] data(0, i),
        0 <= k < lens.len(),
        0 <= j < lens[k],
    ensures
        data(k, j) == node_total(s, k, j),
    decreases k,
{
    if k == 0 {
        lemma_node_total_leaf(s, j);
    } else {
        let h = pow2((k - 1) as nat) as int;
        lemma_pow2_pos((k - 1) as nat);
        let left = 2 * j;
        let right = 2 * j + 1;
        if left < lens[k - 1] {
            lemma_node_value(lens, data, s, k - 1, left);
        } else {
            lemma_level_coverage(lens, k - 1);
            assert(left * h >= lens[k - 1] * h) by (nonlinear_arith)
                requires left >= lens[k - 1] && h > 0;
            assert(lens[k - 1] * h == h * lens[k - 1]) by (nonlinear_arith);
            lemma_node_total_beyond(s, k - 1, left);
        }
        if right < lens[k - 1] {
            lemma_node_value(lens, data, s, k - 1, right);
        } else {
            lemma_level_coverage(lens, k - 1);
            assert(right * h >= lens[k - 1] * h) by (nonlinear_arith)
                requires right >= lens[k - 1] && h > 0;
            assert(lens[k - 1] * h == h * lens[k - 1]) by (nonlinear_arith);
            lemma_node_total_beyond(s, k - 1, right);
        }
        lemma_node_total_split(s, k, j);
    }
}

/// Positions of one leaf's ancestors stay inside their levels: the
/// ancestor of leaf `x` at level `k` sits at position `x / 2^k`.
pub proof fn lemma_ancestor_in_level(lens: Seq<int>, x: int, k: int)
    requires
        forall|m: int| 0 <= m < lens.len() ==> #[trigger] lens[m] >= 1,
        forall|m: int| 0 <= m < lens.len() - 1 ==> #[trigger] lens[m] <= 2 * lens[m + 1],
        0 <= x < lens[0],
        0 <= k < lens.len(),
    ensures
        0 <= (x / pow2(k as nat) as int) < lens[k],
    decreases k,
{
    lemma_pow2_pos(k as nat);
    let p = pow2(k as nat) as int;
    if k == 0 {
        lemma2_to64();
        lemma_div_basics(x);
    } else {
        lemma_ancestor_in_level(lens, x, k - 1);
        let h = pow2((k - 1) as nat) as int;
        lemma_pow2_pos((k - 1) as nat);
        let q = x / h;
        lemma_half_step(x, k - 1);
        lemma_div_pos_is_pos(q, 2);
        lemma_div_is_ordered(q, 2 * lens[k] - 1, 2);
        lemma_div_multiples_vanish_fancy(lens[k] - 1, 1, 2);
        assert(2 * (lens[k] - 1) + 1 == 2 * lens[k] - 1);
    }
}

/// Halving keeps a position inside the half-sized level above.
pub proof fn lemma_halve_below(x: int, bound: int)
    requires
        0 <= x,
        x < 2 * bound,
    ensures
        0 <= x / 2 < bound,
{
    lemma_div_pos_is_pos(x, 2);
    lemma_div_is_ordered(x, 2 * bound - 1, 2);
    lemma_div_multiples_vanish_fancy(bound - 1, 1, 2);
    assert(2 * (bound - 1) + 1 == 2 * bound - 1);
}

/// Halving a quotient of `2^k` gives the quotient of `2^(k+1)`.
pub proof fn lemma_half_step(x: int, k: int)
    requires
        x >= 0,
        k >= 0,
    ensures
        (x / pow2(k as nat) as int) / 2 == x / pow2((k + 1) as nat) as int,
{
    lemma_pow2_pos(k as nat);
    lemma_pow2_unfold((k + 1) as nat);
    lemma_div_denominator(x, pow2(k as nat) as int, 2);
}

/// Starting offsets of the levels inside the arena: entry `k` is the slot
/// where level `k` begins, and the final entry is the total node count.
pub open spec fn starts_wf(starts: Seq<usize>) -> bool {
    &&& starts.len() >= 2
    &&& starts[0] == 0
    &&& forall|k: int| 1 <= k < starts.len() ==> starts[k - 1] < #[trigger] starts[k]
}

/// The length of level `k` under offset table `starts`.
pub open spec fn lev_len(starts: Seq<usize>, k: int) -> int {
    starts[k + 1] - starts[k]
}

/// Level offsets never decrease along the table.
pub proof fn lemma_starts_monotone(starts: Seq<usize>, k1: int, k2: int)
    requires
        starts_wf(starts),
        0 <= k1 <= k2 < starts.len(),
    ensures
        starts[k1] <= starts[k2],
    decreases k2 - k1,
{
    if k1 < k2 {
        lemma_starts_monotone(starts, k1, k2 - 1);
    }
}

/// A strictly increasing table that starts at 0 grows at least one per
/// entry.
pub proof fn lemma_starts_growth(starts: Seq<usize>, k: int)
    requires
        starts_wf(starts),
        0 <= k < starts.len(),
    ensures
        starts[k] >= k,
    decreases k,
{
    if k > 0 {
        lemma_starts_growth(starts, k - 1);
    }
}

/// The lengths of the levels described by an offset table.
pub open spec fn table_lens(starts: Seq<usize>) -> Seq<int> {
    Seq::new((starts.len() - 1) as nat, |k: int| lev_len(starts, k))
}


/// Coverage, phrased over the offset table: level `k` spans all leaves.
pub proof fn lemma_table_coverage(s: Seq<usize>, k: int)
    requires
        starts_wf(s),
        forall|m: int|
            0 <= m < s.len() - 2 ==> #[trigger] lev_len(s, m) <= 2 * lev_len(s, m + 1),
        0 <= k < s.len() - 1,
    ensures
        pow2(k as nat) * lev_len(s, k) >= lev_len(s, 0),
{
    let lens = table_lens(s);
    assert forall|m: int| 0 <= m < lens.len() implies #[trigger] lens[m] >= 1 by {
        assert(s[m] < s[m + 1]);
    }
    assert forall|m: int| 0 <= m < lens.len() - 1 implies #[trigger] lens[m] <= 2 * lens[m
        + 1] by {
        assert(lev_len(s, m) <= 2 * lev_len(s, m + 1));
    }
    lemma_level_coverage(lens, k);
}

/// A leaf's ancestor at level `k` sits at position `x / 2^k`, inside
/// the level.
pub proof fn lemma_table_ancestor(s: Seq<usize>, x: int, k: int)
    requires
        starts_wf(s),
        forall|m: int|
            0 <= m < s.len() - 2 ==> #[trigger] lev_len(s, m) <= 2 * lev_len(s, m + 1),
        0 <= x < lev_len(s, 0),
        0 <= k < s.len() - 1,
    ensures
        0 <= (x / pow2(k as nat) as int) < lev_len(s, k),
{
    let lens = table_lens(s);
    assert forall|m: int| 0 <= m < lens.len() implies #[trigger] lens[m] >= 1 by {
        assert(s[m] < s[m + 1]);
    }
    assert forall|m: int| 0 <= m < lens.len() - 1 implies #[trigger] lens[m] <= 2 * lens[m
        + 1] by {
        assert(lev_len(s, m) <= 2 * lev_len(s, m + 1));
    }
    lemma_ancestor_in_level(lens, x, k);
}



/// How absorbing the far sibling extends the gathered range of a
/// query half-walk, in either direction, and that every intermediate
/// range stays between 0 and the whole sum.
#[verifier::rlimit(100)]
pub proof fn lemma_walk_ranges(l0: Seq<u64>, x: int, i: int)
    requires
        0 <= x,
        0 <= i,
    ensures
        x / pow2(i as nat) as int == 2 * (x / pow2((i + 1) as nat) as int) ==> range_total(
            l0,
            x,
            (x / pow2(i as nat) as int + 1) * pow2(i as nat),
        ) + node_total(l0, i, x / pow2(i as nat) as int + 1) == range_total(
            l0,
            x,
            (x / pow2((i + 1) as nat) as int + 1) * pow2((i + 1) as nat),
        ),
        x / pow2(i as nat) as int == 2 * (x / pow2((i + 1) as nat) as int) + 1 ==> (x / pow2(
            i as nat,
        ) as int + 1) * pow2(i as nat) == (x / pow2((i + 1) as nat) as int + 1) * pow2(
            (i + 1) as nat,
        ),
        x / pow2(i as nat) as int == 2 * (x / pow2((i + 1) as nat) as int) + 1 ==> node_total(
            l0,
            i,
            x / pow2(i as nat) as int - 1,
        ) + range_total(l0, (x / pow2(i as nat) as int) * pow2(i as nat), x + 1)
            == range_total(l0, (x / pow2((i + 1) as nat) as int) * pow2((i + 1) as nat), x + 1),
        x / pow2(i as nat) as int == 2 * (x / pow2((i + 1) as nat) as int) ==> (x / pow2(
            i as nat,
        ) as int) * pow2(i as nat) == (x / pow2((i + 1) as nat) as int) * pow2((i + 1) as nat),
        0 <= range_total(
            l0,
            x,
            (x / pow2((i + 1) as nat) as int + 1) * pow2((i + 1) as nat),
        ) <= sum_to(l0, l0.len() as int),
        0 <= range_total(l0, (x / pow2((i + 1) as nat) as int) * pow2((i + 1) as nat), x + 1)
            <= sum_to(l0, l0.len() as int),
{
    let w = pow2(i as nat) as int;
    let j = x / w;
    let pp = x / pow2((i + 1) as nat) as int;
    lemma_pow2_unfold((i + 1) as nat);
    lemma_pow2_pos(i as nat);
    lemma_half_step(x, i);
    lemma_fundamental_div_mod(j, 2);
    lemma_fundamental_div_mod(x, w);
    lemma_mod_bound(x, w);
    assert(j * w <= x < (j + 1) * w) by (nonlinear_arith)
        requires
            x == w * j + x % w && 0 <= x % w < w,
    ;
    if j == 2 * pp {
        assert((j + 2) * w == (pp + 1) * (2 * w)) by (nonlinear_arith)
            requires
                j == 2 * pp,
        ;
        assert(j * w == pp * (2 * w)) by (nonlinear_arith)
            requires
                j == 2 * pp,
        ;
        assert((j + 1) * w <= (j + 2) * w) by (nonlinear_arith)
            requires
                w > 0,
        ;
        lemma_sum_to_monotone(l0, x, (j + 2) * w);
        lemma_sum_to_monotone(l0, 0, x);
        if (j + 2) * w <= l0.len() {
            lemma_sum_to_monotone(l0, (j + 2) * w, l0.len() as int);
        } else {
            lemma_sum_to_flat(l0, (j + 2) * w);
        }
        lemma_sum_to_monotone(l0, j * w, x + 1);
        lemma_sum_to_monotone(l0, 0, j * w);
        if x + 1 <= l0.len() {
            lemma_sum_to_monotone(l0, x + 1, l0.len() as int);
        } else {
            lemma_sum_to_flat(l0, x + 1);
        }
    } else {
        assert(j == 2 * pp + 1);
        assert((j + 1) * w == (pp + 1) * (2 * w)) by (nonlinear_arith)
            requires
                j == 2 * pp + 1,
        ;
        assert((j - 1) * w == pp * (2 * w)) by (nonlinear_arith)
            requires
                j == 2 * pp + 1,
        ;
        assert((j - 1) * w <= j * w) by (nonlinear_arith)
            requires
                w > 0,
        ;
        lemma_sum_to_monotone(l0, x, (j + 1) * w);
        lemma_sum_to_monotone(l0, 0, x);
        if (j + 1) * w <= l0.len() {
            lemma_sum_to_monotone(l0, (j + 1) * w, l0.len() as int);
        } else {
            lemma_sum_to_flat(l0, (j + 1) * w);
        }
        lemma_sum_to_monotone(l0, (j - 1) * w, x + 1);
        lemma_sum_to_monotone(l0, 0, (j - 1) * w);
        if x + 1 <= l0.len() {
            lemma_sum_to_monotone(l0, x + 1, l0.len() as int);
        } else {
            lemma_sum_to_flat(l0, x + 1);
        }
    }
}

} // verus!
