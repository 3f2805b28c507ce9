//! The sparse (linked) segment tree: nodes store explicit child handles,
//! and every traversal follows those links through the arena — the
//! pointer-chasing counterpart of the arithmetic navigation in the
//! complete representation.
//!
//! Levels are not padded: a pairing without a right partner combines with
//! the identity and stores no right link. A ghost copy of the per-level
//! starting offsets names each node's position for the proofs; the
//! executable code itself only ever follows links.

use vstd::prelude::*;
use vstd::arithmetic::power2::{pow2, lemma_pow2_pos, lemma2_to64};
use vstd::arithmetic::div_mod::{
    lemma_fundamental_div_mod, lemma_div_basics, lemma_div_is_ordered, lemma_mod_bound,
};
use crate::arena::{Arena, Id};
use crate::node_path::{NodePath, WalkDirection, sparse_links_wf, node_at, ceil_level, lemma_sparse_coverage, lemma_sparse_ancestor};
use crate::nodes::PhysicalIdBinaryTreeNode;
use crate::sums::{
    sum_to, range_total, node_total, lemma_half_step, lemma_node_total_split,
    lemma_node_total_leaf, lemma_node_total_beyond, lemma_node_total_bounds,
    lemma_node_total_update_other, lemma_sum_to_monotone, lemma_sum_to_flat,
    lemma_range_total_singleton, lemma_walk_ranges, starts_wf, lev_len, lemma_starts_monotone,
    lemma_starts_growth,
};

verus! {

/// The sparse-representation segment tree. Its view is the logical
/// sequence of values; `range_sum` and `setitem` are specified against it.
pub struct SegmentTreeWithRealId {
    arena: Arena<PhysicalIdBinaryTreeNode>,
    len: usize,
    root: Id,
    degree: usize,
    level_starts: Ghost<Seq<usize>>,
}

impl View for SegmentTreeWithRealId {
    type V = Seq<u64>;

    closed spec fn view(&self) -> Seq<u64> {
        Seq::new(self.len as nat, |i: int| self.arena@[i].data)
    }
}

impl SegmentTreeWithRealId {
    /// Every node holds exactly the sum of its leaf block.
    pub(crate) open spec fn nodes_total(
        a: Seq<PhysicalIdBinaryTreeNode>,
        s: Seq<usize>,
        l0: Seq<u64>,
    ) -> bool {
        forall|k: int, j: int|
            0 <= k < s.len() - 1 && 0 <= j < lev_len(s, k) ==> a[s[k] + j].data as int
                == #[trigger] node_total(l0, k, j)
    }

    /// The structural invariant: well-formed links over a level layout
    /// whose level 0 is exactly the logical values (no padding), every
    /// node holding its block sum, and the root in the last slot. It holds
    /// after construction and is preserved by every update.
    pub closed spec fn wf(self) -> bool {
        let s = self.level_starts@;
        &&& sparse_links_wf(self.arena@, s)
        &&& s.len() == self.degree + 2
        &&& lev_len(s, self.degree as int) == 1
        &&& lev_len(s, 0) == self.len
        &&& 1 <= self.len
        &&& Self::nodes_total(self.arena@, s, self@)
        &&& self.root@ == self.arena@.len()
    }

    /// The whole sum fits in the combinator's carrier: the root holds it.
    proof fn lemma_total_fits(self)
        requires
            self.wf(),
        ensures
            sum_to(self@, self@.len() as int) <= u64::MAX,
    {
        let s = self.level_starts@;
        let d = self.degree as int;
        let l0 = self@;
        lemma_sparse_coverage(s, d);
        assert(self.arena@[s[d] + 0].data as int == node_total(l0, d, 0));
        lemma_pow2_pos(d as nat);
        assert(pow2(d as nat) * 1 == pow2(d as nat));
        lemma_sum_to_flat(l0, pow2(d as nat) as int);
        assert(0 * pow2(d as nat) == 0);
        assert(1 * pow2(d as nat) == pow2(d as nat));
        assert(node_total(l0, d, 0) == sum_to(l0, pow2(d as nat) as int));
    }

    /// Any overwrite that keeps every link intact keeps the link
    /// structure well-formed.
    proof fn lemma_links_preserved(
        a_old: Seq<PhysicalIdBinaryTreeNode>,
        a_new: Seq<PhysicalIdBinaryTreeNode>,
        s: Seq<usize>,
    )
        requires
            sparse_links_wf(a_old, s),
            a_new.len() == a_old.len(),
            forall|x: int|
                0 <= x < a_old.len() ==> (#[trigger] a_new[x]).left == a_old[x].left && a_new[x].right
                    == a_old[x].right,
        ensures
            sparse_links_wf(a_new, s),
    {
        assert forall|j: int|
            0 <= j < lev_len(s, 0) implies (#[trigger] node_at(a_new, s, 0, j)).left is None
            && node_at(a_new, s, 0, j).right is None by {
            lemma_starts_monotone(s, 1, s.len() - 1);
            assert(s[0] + j < s[1]);
            assert(node_at(a_old, s, 0, j).left is None);
        }
        assert forall|k: int, j: int|
            1 <= k < s.len() - 1 && 0 <= j < lev_len(s, k) implies {
            &&& (#[trigger] node_at(a_new, s, k, j)).left is Some
            &&& node_at(a_new, s, k, j).left->0@ == s[k - 1] + 2 * j + 1
            &&& (2 * j + 1 < lev_len(s, k - 1) ==> node_at(a_new, s, k, j).right is Some
                && node_at(a_new, s, k, j).right->0@ == s[k - 1] + 2 * j + 2)
            &&& (2 * j + 1 >= lev_len(s, k - 1) ==> node_at(a_new, s, k, j).right is None)
        } by {
            lemma_starts_monotone(s, k + 1, s.len() - 1);
            assert(s[k] + j < s[k + 1]);
            assert(node_at(a_old, s, k, j).left is Some);
        }
    }

    /// Each adjacent pair of the topmost finished level sums to something
    /// the carrier holds.
    proof fn lemma_pairs_fit(
        a: Seq<PhysicalIdBinaryTreeNode>,
        s: Seq<usize>,
        l0: Seq<u64>,
        cur_start: int,
        cur_len: int,
    )
        requires
            starts_wf(s),
            Self::nodes_total(a, s, l0),
            sum_to(l0, l0.len() as int) <= u64::MAX,
            cur_start == s[s.len() - 2],
            cur_len == lev_len(s, s.len() - 2),
        ensures
            forall|q: int|
                0 <= q < cur_len / 2 ==> (#[trigger] a[cur_start + 2 * q].data) + a[cur_start + 2
                    * q + 1].data <= u64::MAX,
    {
        let t = s.len() - 2;
        assert forall|q: int| 0 <= q < cur_len / 2 implies (#[trigger] a[cur_start + 2
            * q].data) + a[cur_start + 2 * q + 1].data <= u64::MAX by {
            assert(a[s[t] + 2 * q].data as int == node_total(l0, t, 2 * q));
            assert(a[s[t] + 2 * q + 1].data as int == node_total(l0, t, 2 * q + 1));
            lemma_node_total_split(l0, t + 1, q);
            lemma_node_total_bounds(l0, t + 1, q);
            lemma_node_total_bounds(l0, t, 2 * q);
            lemma_node_total_bounds(l0, t, 2 * q + 1);
        }
    }

    /// Appending one freshly built level keeps every node at its block sum.
    #[verifier::rlimit(100)]
    proof fn lemma_extend_totals(
        a_old: Seq<PhysicalIdBinaryTreeNode>,
        a_new: Seq<PhysicalIdBinaryTreeNode>,
        s_old: Seq<usize>,
        s_new: Seq<usize>,
        l0: Seq<u64>,
        cur_start: int,
        cur_len: int,
        new_len: int,
    )
        requires
            starts_wf(s_old),
            forall|m: int| 0 <= m < s_old.len() - 2 ==> #[trigger] ceil_level(s_old, m),
            Self::nodes_total(a_old, s_old, l0),
            lev_len(s_old, 0) == l0.len(),
            cur_start == s_old[s_old.len() - 2],
            cur_len == lev_len(s_old, s_old.len() - 2),
            cur_len >= 2,
            a_old.len() == cur_start + cur_len,
            new_len == (cur_len + 1) / 2,
            s_new.len() == s_old.len() + 1,
            forall|k: int| 0 <= k < s_old.len() ==> #[trigger] s_new[k] == s_old[k],
            s_new.last() == a_old.len() + new_len,
            a_new.len() == a_old.len() + new_len,
            forall|i: int| 0 <= i < a_old.len() ==> #[trigger] a_new[i] == a_old[i],
            forall|q: int|
                0 <= q < cur_len / 2 ==> (#[trigger] a_new[a_old.len() + q].data) as int == a_old[
                    cur_start + 2 * q].data + a_old[cur_start + 2 * q + 1].data,
            cur_len % 2 == 1 ==> (a_new[a_old.len() + new_len - 1].data) as int == a_old[cur_start
                + cur_len - 1].data,
        ensures
            Self::nodes_total(a_new, s_new, l0),
    {
        let t = s_old.len() - 2;
        let h = pow2(t as nat) as int;
        lemma_pow2_pos(t as nat);
        lemma_fundamental_div_mod(cur_len, 2);
        lemma_mod_bound(cur_len, 2);
        lemma_fundamental_div_mod(cur_len + 1, 2);
        lemma_mod_bound(cur_len + 1, 2);
        lemma_sparse_coverage(s_old, t);
        assert forall|k: int, j: int|
            0 <= k < s_new.len() - 1 && 0 <= j < lev_len(s_new, k) implies a_new[s_new[k]
            + j].data as int == #[trigger] node_total(l0, k, j) by {
            assert(s_new[k] == s_old[k]);
            if k <= t {
                assert(s_new[k + 1] == s_old[k + 1]);
                lemma_starts_monotone(s_old, k + 1, s_old.len() - 1);
                assert(a_new[s_old[k] + j] == a_old[s_old[k] + j]);
                assert(a_old[s_old[k] + j].data as int == node_total(l0, k, j));
            } else {
                assert(k == t + 1);
                assert(s_new[k] == a_old.len());
                lemma_node_total_split(l0, t + 1, j);
                if j < cur_len / 2 {
                    assert(a_old[s_old[t] + 2 * j].data as int == node_total(l0, t, 2 * j));
                    assert(a_old[s_old[t] + 2 * j + 1].data as int == node_total(l0, t, 2 * j + 1));
                } else {
                    assert(cur_len % 2 == 1 && j == new_len - 1);
                    assert(2 * j == cur_len - 1);
                    assert(a_old[s_old[t] + 2 * j].data as int == node_total(l0, t, 2 * j));
                    assert(2 * j + 1 == cur_len);
                    assert((2 * j + 1) * h >= cur_len * h) by (nonlinear_arith)
                        requires
                            2 * j + 1 >= cur_len && h > 0,
                    ;
                    assert(cur_len * h == h * cur_len) by (nonlinear_arith);
                    lemma_node_total_beyond(l0, t, 2 * j + 1);
                }
            }
        }
    }

    /// Appending one freshly built level keeps the links well-formed.
    #[verifier::rlimit(100)]
    proof fn lemma_extend_links(
        a_old: Seq<PhysicalIdBinaryTreeNode>,
        a_new: Seq<PhysicalIdBinaryTreeNode>,
        s_old: Seq<usize>,
        s_new: Seq<usize>,
        cur_start: int,
        cur_len: int,
        new_len: int,
    )
        requires
            sparse_links_wf(a_old, s_old),
            cur_start == s_old[s_old.len() - 2],
            cur_len == lev_len(s_old, s_old.len() - 2),
            cur_len >= 2,
            a_old.len() == cur_start + cur_len,
            new_len == (cur_len + 1) / 2,
            s_new.len() == s_old.len() + 1,
            forall|k: int| 0 <= k < s_old.len() ==> #[trigger] s_new[k] == s_old[k],
            s_new.last() == a_old.len() + new_len,
            a_new.len() == a_old.len() + new_len,
            forall|i: int| 0 <= i < a_old.len() ==> #[trigger] a_new[i] == a_old[i],
            forall|q: int|
                0 <= q < cur_len / 2 ==> (#[trigger] a_new[a_old.len() + q].left) is Some
                    && a_new[a_old.len() + q].left->0@ == cur_start + 2 * q + 1 && a_new[a_old.len()
                    + q].right is Some && a_new[a_old.len() + q].right->0@ == cur_start + 2 * q
                    + 2,
            cur_len % 2 == 1 ==> a_new[a_old.len() + new_len - 1].left is Some && a_new[a_old.len()
                + new_len - 1].left->0@ == cur_start + cur_len && a_new[a_old.len() + new_len
                - 1].right is None,
        ensures
            sparse_links_wf(a_new, s_new),
    {
        let t = s_old.len() - 2;
        lemma_fundamental_div_mod(cur_len, 2);
        lemma_mod_bound(cur_len, 2);
        lemma_fundamental_div_mod(cur_len + 1, 2);
        lemma_mod_bound(cur_len + 1, 2);
        assert forall|k: int| 1 <= k < s_new.len() implies s_new[k - 1] < #[trigger] s_new[k] by {
            assert(s_new[k - 1] == s_old[k - 1]);
            if k < s_old.len() {
                assert(s_new[k] == s_old[k]);
            } else {
                assert(s_new[k - 1] == s_old[s_old.len() - 1]);
            }
        }
        assert forall|k: int| 0 <= k < s_new.len() - 2 implies #[trigger] ceil_level(s_new, k) by {
            assert(s_new[k] == s_old[k]);
            assert(s_new[k + 1] == s_old[k + 1]);
            if k < t {
                assert(s_new[k + 2] == s_old[k + 2]);
                assert(ceil_level(s_old, k));
            } else {
                assert(k == t);
                assert(lev_len(s_new, t + 1) == new_len);
                assert(lev_len(s_new, t) == cur_len);
            }
        }
        assert forall|j: int|
            0 <= j < lev_len(s_new, 0) implies (#[trigger] node_at(a_new, s_new, 0, j)).left
            is None && node_at(a_new, s_new, 0, j).right is None by {
            assert(s_new[0] == s_old[0]);
            assert(s_new[1] == s_old[1]);
            lemma_starts_monotone(s_old, 1, s_old.len() - 1);
            assert(a_new[s_old[0] + j] == a_old[s_old[0] + j]);
            assert(node_at(a_old, s_old, 0, j).left is None);
        }
        assert forall|k: int, j: int|
            1 <= k < s_new.len() - 1 && 0 <= j < lev_len(s_new, k) implies {
            &&& (#[trigger] node_at(a_new, s_new, k, j)).left is Some
            &&& node_at(a_new, s_new, k, j).left->0@ == s_new[k - 1] + 2 * j + 1
            &&& (2 * j + 1 < lev_len(s_new, k - 1) ==> node_at(a_new, s_new, k, j).right is Some
                && node_at(a_new, s_new, k, j).right->0@ == s_new[k - 1] + 2 * j + 2)
            &&& (2 * j + 1 >= lev_len(s_new, k - 1) ==> node_at(a_new, s_new, k, j).right is None)
        } by {
            assert(s_new[k - 1] == s_old[k - 1]);
            assert(s_new[k] == s_old[k]);
            if k <= t {
                assert(s_new[k + 1] == s_old[k + 1]);
                lemma_starts_monotone(s_old, k + 1, s_old.len() - 1);
                assert(a_new[s_old[k] + j] == a_old[s_old[k] + j]);
                assert(node_at(a_old, s_old, k, j).left is Some);
            } else {
                assert(k == t + 1);
                assert(s_new[k] == a_old.len());
                assert(lev_len(s_new, t) == cur_len);
                if j < cur_len / 2 {
                    assert((a_new[a_old.len() + j].left) is Some);
                    assert(a_new[a_old.len() + j].left->0@ == cur_start + 2 * j + 1);
                    assert(2 * j + 1 < cur_len);
                } else {
                    assert(cur_len % 2 == 1 && j == new_len - 1);
                    assert(2 * j + 1 == cur_len);
                    assert(a_new[a_old.len() + j].right is None);
                }
            }
        }
    }

    /// Builds the next level: one aggregate node per adjacent pair, each
    /// holding handles to its children; an odd leftover child is combined
    /// with the identity and gets no right link.
    #[verifier::loop_isolation(false)]
    fn build_level(
        arena: &mut Arena<PhysicalIdBinaryTreeNode>,
        prev_start: usize,
        prev_len: usize,
    ) -> (new_len: usize)
        requires
            old(arena)@.len() == prev_start + prev_len,
            prev_len >= 2,
            prev_len + old(arena)@.len() <= usize::MAX,
            forall|q: int|
                0 <= q < prev_len / 2 ==> (#[trigger] old(arena)@[prev_start + 2 * q].data) + old(
                    arena,
                )@[prev_start + 2 * q + 1].data <= u64::MAX,
        ensures
            new_len == (prev_len + 1) / 2,
            final(arena)@.len() == old(arena)@.len() + new_len,
            forall|i: int| 0 <= i < old(arena)@.len() ==> final(arena)@[i] == old(arena)@[i],
            forall|q: int|
                0 <= q < prev_len / 2 ==> (#[trigger] final(arena)@[old(arena)@.len()
                    + q].data) as int == old(arena)@[prev_start + 2 * q].data
                    + old(arena)@[prev_start + 2 * q + 1].data,
            forall|q: int|
                0 <= q < prev_len / 2 ==> (#[trigger] final(arena)@[old(arena)@.len() + q].left)
                    is Some && final(arena)@[old(arena)@.len() + q].left->0@ == prev_start + 2 * q
                    + 1 && final(arena)@[old(arena)@.len() + q].right is Some
                    && final(arena)@[old(arena)@.len() + q].right->0@ == prev_start + 2 * q + 2,
            prev_len % 2 == 1 ==> (final(arena)@[old(arena)@.len() + new_len - 1].data) as int
                == old(arena)@[prev_start + prev_len - 1].data && final(arena)@[old(arena)@.len()
                + new_len - 1].left is Some && final(arena)@[old(arena)@.len() + new_len
                - 1].left->0@ == prev_start + prev_len && final(arena)@[old(arena)@.len() + new_len
                - 1].right is None,
    {
        let pairs = prev_len / 2;
        let mut q: usize = 0;
        while q < pairs
            invariant
                q <= pairs,
                arena@.len() == old(arena)@.len() + q,
                forall|i: int| 0 <= i < old(arena)@.len() ==> arena@[i] == old(arena)@[i],
                forall|p: int|
                    0 <= p < q ==> (#[trigger] arena@[old(arena)@.len() + p].data) as int == old(
                        arena,
                    )@[prev_start + 2 * p].data + old(arena)@[prev_start + 2 * p + 1].data,
                forall|p: int|
                    0 <= p < q ==> (#[trigger] arena@[old(arena)@.len() + p].left) is Some
                        && arena@[old(arena)@.len() + p].left->0@ == prev_start + 2 * p + 1
                        && arena@[old(arena)@.len() + p].right is Some && arena@[old(arena)@.len()
                        + p].right->0@ == prev_start + 2 * p + 2,
            decreases pairs - q,
        {
            let left_id = Id::from_array_index(prev_start + 2 * q);
            let right_id = Id::from_array_index(prev_start + 2 * q + 1);
            let left_agg = arena.get(&left_id).data;
            let right_agg = arena.get(&right_id).data;
            arena.allocate(
                PhysicalIdBinaryTreeNode {
                    data: left_agg + right_agg,
                    left: Some(left_id),
                    right: Some(right_id),
                },
            );
            q += 1;
        }
        if prev_len % 2 == 1 {
            let ghost a_mid = arena@;
            let last_id = Id::from_array_index(prev_start + prev_len - 1);
            let last_agg = arena.get(&last_id).data;
            arena.allocate(
                PhysicalIdBinaryTreeNode { data: last_agg, left: Some(last_id), right: None },
            );
            proof {
                assert forall|i: int| 0 <= i < a_mid.len() implies arena@[i] == a_mid[i] by {
                    assert(arena@[i] == a_mid.push(arena@[a_mid.len() as int])[i]);
                }
            }
            pairs + 1
        } else {
            pairs
        }
    }

    /// Builds the tree bottom-up: one leaf per value, then level after
    /// level of aggregates until a single root remains.
    ///
    /// An empty input is rejected as a contract violation: the tree always
    /// holds at least one value.
    #[verifier::rlimit(100)]
    pub fn new(items: Vec<u64>) -> (r: Self)
        requires
            items@.len() >= 1,
            3 * (items@.len() + 1) <= usize::MAX,
            sum_to(items@, items@.len() as int) <= u64::MAX,
        ensures
            r.wf(),
            r@ == items@,
    {
        let n = items.len();
        let mut arena = Arena::<PhysicalIdBinaryTreeNode>::with_capacity(3 * n);
        let mut idx: usize = 0;
        while idx < n
            invariant
                idx <= n,
                n == items@.len(),
                3 * (n as int + 1) <= usize::MAX,
                arena@.len() == idx,
                forall|i: int|
                    0 <= i < idx ==> (#[trigger] arena@[i].data) == items@[i] && arena@[i].left
                        is None && arena@[i].right is None,
            decreases n - idx,
        {
            arena.allocate(PhysicalIdBinaryTreeNode::leaf(&items[idx]));
            idx += 1;
        }
        let ghost l0 = items@;
        let ghost mut level_starts: Seq<usize> = seq![0usize, n];
        let mut cur_start: usize = 0;
        let mut cur_len: usize = n;
        let mut degree: usize = 0;
        proof {
            assert forall|k: int, j: int|
                0 <= k < level_starts.len() - 1 && 0 <= j < lev_len(level_starts, k) implies
                arena@[level_starts[k] + j].data as int == #[trigger] node_total(l0, k, j) by {
                lemma_node_total_leaf(l0, j);
            }
            assert forall|j: int|
                0 <= j < lev_len(level_starts, 0) implies (#[trigger] node_at(
                arena@,
                level_starts,
                0,
                j,
            )).left is None && node_at(arena@, level_starts, 0, j).right is None by {
                assert(arena@[j].data == items@[j]);
            }
        }
        while cur_len > 1
            invariant
                n as int == items@.len(),
                1 <= n,
                3 * (n as int + 1) <= usize::MAX,
                l0 == items@,
                sparse_links_wf(arena@, level_starts),
                level_starts.len() == degree + 2,
                cur_start == level_starts[level_starts.len() - 2],
                cur_len as int == lev_len(level_starts, level_starts.len() - 2),
                1 <= cur_len,
                Self::nodes_total(arena@, level_starts, l0),
                lev_len(level_starts, 0) == n,
                forall|i: int| 0 <= i < n ==> (#[trigger] arena@[i].data) == items@[i],
                arena@.len() + 2 * cur_len <= 3 * (n as int) + 2,
                sum_to(l0, l0.len() as int) <= u64::MAX,
            decreases cur_len,
        {
            let ghost s_old = level_starts;
            let ghost a_old = arena@;
            proof {
                Self::lemma_pairs_fit(a_old, s_old, l0, cur_start as int, cur_len as int);
                lemma_fundamental_div_mod(cur_len as int, 2);
                lemma_mod_bound(cur_len as int, 2);
                lemma_fundamental_div_mod(cur_len as int + 1, 2);
                lemma_mod_bound(cur_len as int + 1, 2);
            }
            let new_start = cur_start + cur_len;
            let new_len = Self::build_level(&mut arena, cur_start, cur_len);
            proof {
                level_starts = level_starts.push((new_start + new_len) as usize);
                Self::lemma_extend_totals(
                    a_old,
                    arena@,
                    s_old,
                    level_starts,
                    l0,
                    cur_start as int,
                    cur_len as int,
                    new_len as int,
                );
                Self::lemma_extend_links(
                    a_old,
                    arena@,
                    s_old,
                    level_starts,
                    cur_start as int,
                    cur_len as int,
                    new_len as int,
                );
                lemma_starts_monotone(s_old, 1, s_old.len() - 1);
                assert forall|i: int| 0 <= i < n implies (#[trigger] arena@[i].data)
                    == items@[i] by {
                    assert(arena@[i] == a_old[i]);
                }
                lemma_starts_growth(level_starts, level_starts.len() - 1);
            }
            cur_start = new_start;
            cur_len = new_len;
            degree = degree + 1;
        }
        let root = Id::from_array_index(arena.len() - 1);
        let r = SegmentTreeWithRealId { arena, len: n, root, degree, level_starts: Ghost(level_starts) };
        proof {
            assert(r@ =~= items@);
        }
        r
    }

    /// Walks from the root down to the leaf of a logical index, one stored
    /// link per level, returning every node visited (root first).
    #[verifier::rlimit(100)]
    fn descend(&self, index: usize) -> (path: Vec<Id>)
        requires
            self.wf(),
            index < self@.len(),
        ensures
            path@.len() == self.degree + 1,
            forall|m: int|
                0 <= m <= self.degree as int ==> (#[trigger] path@[m])@
                    == self.level_starts@[self.degree - m] + (index as int / pow2(
                    (self.degree - m) as nat,
                ) as int) + 1,
    {
        let ghost s = self.level_starts@;
        let mut path: Vec<Id> = Vec::new();
        path.push(self.root);
        proof {
            lemma_sparse_ancestor(s, index as int, self.degree as int);
            assert(lev_len(s, self.degree as int) == 1);
            lemma_starts_growth(s, s.len() - 1);
            assert((index as int / pow2(self.degree as nat) as int) == 0);
            assert(self.root@ == s[s.len() - 1]);
            assert(s[self.degree as int + 1] == s[self.degree as int] + 1);
        }
        let mut np = NodePath::from_index(index, self.root, self.degree);
        let mut m: usize = 0;
        while m < self.degree
            invariant
                self.wf(),
                s == self.level_starts@,
                index < self.len,
                m <= self.degree,
                np.index_of() == index,
                np.stop_of() == 0,
                np.offset_of() == self.degree - m,
                np.chain_wf(self.degree as int),
                np.at_node(s),
                path@.len() == m + 1,
                forall|i: int|
                    0 <= i <= m as int ==> (#[trigger] path@[i])@ == s[self.degree - i] + (
                    index as int / pow2((self.degree - i) as nat) as int) + 1,
            decreases self.degree - m,
        {
            let ghost p_old = path@;
            let id = np.step(&self.arena, Ghost(s)).unwrap();
            path.push(id);
            m += 1;
            proof {
                assert forall|i: int|
                    0 <= i <= m as int implies (#[trigger] path@[i])@ == s[self.degree - i] + (
                    index as int / pow2((self.degree - i) as nat) as int) + 1 by {
                    if i < m as int {
                        assert(path@[i] == p_old[i]);
                    } else {
                        assert(path@[i] == id);
                    }
                }
            }
        }
        path
    }

    /// The arithmetic facts one upward step of the update walk relies on:
    /// where the parent sits, that its left child exists, that a missing
    /// right child contributes the identity, and that the parent's block
    /// sum fits the carrier.
    #[verifier::rlimit(100)]
    proof fn lemma_set_step(s: Seq<usize>, l0: Seq<u64>, at: int, i: int)
        requires
            starts_wf(s),
            forall|m: int| 0 <= m < s.len() - 2 ==> #[trigger] ceil_level(s, m),
            0 <= at < l0.len(),
            lev_len(s, 0) == l0.len(),
            sum_to(l0, l0.len() as int) <= u64::MAX,
            0 <= i < s.len() - 2,
        ensures
            (at / pow2(i as nat) as int) / 2 == at / pow2((i + 1) as nat) as int,
            0 <= (at / pow2(i as nat) as int) < lev_len(s, i),
            0 <= (at / pow2((i + 1) as nat) as int) < lev_len(s, i + 1),
            2 * (at / pow2((i + 1) as nat) as int) < lev_len(s, i),
            2 * (at / pow2((i + 1) as nat) as int) + 1 >= lev_len(s, i) ==> node_total(
                l0,
                i,
                2 * (at / pow2((i + 1) as nat) as int) + 1,
            ) == 0,
            node_total(l0, i, 2 * (at / pow2((i + 1) as nat) as int)) + node_total(
                l0,
                i,
                2 * (at / pow2((i + 1) as nat) as int) + 1,
            ) == node_total(l0, i + 1, at / pow2((i + 1) as nat) as int),
            0 <= node_total(l0, i, 2 * (at / pow2((i + 1) as nat) as int)),
            0 <= node_total(l0, i, 2 * (at / pow2((i + 1) as nat) as int) + 1),
            node_total(l0, i + 1, at / pow2((i + 1) as nat) as int) <= sum_to(
                l0,
                l0.len() as int,
            ),
    {
        let j = at / pow2(i as nat) as int;
        let pp = at / pow2((i + 1) as nat) as int;
        let h = pow2(i as nat) as int;
        lemma_pow2_pos(i as nat);
        lemma_half_step(at, i);
        lemma_sparse_ancestor(s, at, i);
        lemma_sparse_ancestor(s, at, i + 1);
        lemma_fundamental_div_mod(j, 2);
        lemma_mod_bound(j, 2);
        lemma_node_total_split(l0, i + 1, pp);
        lemma_node_total_bounds(l0, i, 2 * pp);
        lemma_node_total_bounds(l0, i, 2 * pp + 1);
        lemma_node_total_bounds(l0, i + 1, pp);
        if 2 * pp + 1 >= lev_len(s, i) {
            lemma_sparse_coverage(s, i);
            assert((2 * pp + 1) * h >= lev_len(s, i) * h) by (nonlinear_arith)
                requires
                    2 * pp + 1 >= lev_len(s, i) && h > 0,
            ;
            assert(lev_len(s, i) * h == h * lev_len(s, i)) by (nonlinear_arith);
            lemma_node_total_beyond(l0, i, 2 * pp + 1);
        }
    }

    /// After the leaf itself is overwritten, level 0 agrees with the new
    /// leaf sequence while every higher level still shows the old one.
    #[verifier::rlimit(100)]
    proof fn lemma_leaf_write(
        a_old: Seq<PhysicalIdBinaryTreeNode>,
        a_new: Seq<PhysicalIdBinaryTreeNode>,
        s: Seq<usize>,
        l0_old: Seq<u64>,
        l0_new: Seq<u64>,
        at: int,
        v: u64,
    )
        requires
            starts_wf(s),
            Self::nodes_total(a_old, s, l0_old),
            lev_len(s, 0) == l0_old.len(),
            0 <= at < l0_old.len(),
            l0_new == l0_old.update(at, v),
            s.last() == a_old.len(),
            a_new.len() == a_old.len(),
            forall|i: int| 0 <= i < a_old.len() && i != at ==> #[trigger] a_new[i] == a_old[i],
            a_new[at].data == v,
        ensures
            forall|k: int, j: int|
                0 <= k <= 0 && 0 <= j < lev_len(s, k) ==> a_new[s[k] + j].data as int
                    == #[trigger] node_total(l0_new, k, j),
            forall|k: int, j: int|
                0 < k < s.len() - 1 && 0 <= j < lev_len(s, k) ==> a_new[s[k] + j].data as int
                    == #[trigger] node_total(l0_old, k, j),
    {
        lemma2_to64();
        assert forall|j: int| 0 <= j < lev_len(s, 0) implies a_new[s[0] + j].data as int
            == #[trigger] node_total(l0_new, 0, j) by {
            lemma_node_total_leaf(l0_new, j);
            if j != at {
                lemma_node_total_leaf(l0_old, j);
                lemma_starts_monotone(s, 1, s.len() - 1);
                assert(s[0] + j < s[1]);
                assert(a_new[s[0] + j] == a_old[s[0] + j]);
                assert(a_old[s[0] + j].data as int == node_total(l0_old, 0, j));
            }
        }
        assert forall|k: int, j: int|
            0 < k < s.len() - 1 && 0 <= j < lev_len(s, k) implies a_new[s[k] + j].data as int
            == #[trigger] node_total(l0_old, k, j) by {
            lemma_starts_monotone(s, 1, k);
            lemma_starts_monotone(s, k + 1, s.len() - 1);
            assert(at < s[1]);
            assert(s[k] + j < s[k + 1]);
            assert(a_new[s[k] + j] == a_old[s[k] + j]);
            assert(a_old[s[k] + j].data as int == node_total(l0_old, k, j));
        }
    }

    /// After one ancestor is recomputed from its children (the identity
    /// standing in for a missing right child), the new leaf sequence is
    /// reflected one level higher.
    #[verifier::rlimit(100)]
    proof fn lemma_parent_write(
        a_prev: Seq<PhysicalIdBinaryTreeNode>,
        a_new: Seq<PhysicalIdBinaryTreeNode>,
        s: Seq<usize>,
        l0_old: Seq<u64>,
        l0_new: Seq<u64>,
        at: int,
        v: u64,
        i: int,
        pp: int,
        d: u64,
    )
        requires
            starts_wf(s),
            0 <= i < s.len() - 2,
            lev_len(s, 0) == l0_old.len(),
            0 <= at < l0_old.len(),
            l0_new == l0_old.update(at, v),
            s.last() == a_prev.len(),
            forall|k: int, j: int|
                0 <= k <= i && 0 <= j < lev_len(s, k) ==> a_prev[s[k] + j].data as int
                    == #[trigger] node_total(l0_new, k, j),
            forall|k: int, j: int|
                i < k < s.len() - 1 && 0 <= j < lev_len(s, k) ==> a_prev[s[k] + j].data as int
                    == #[trigger] node_total(l0_old, k, j),
            pp == at / pow2((i + 1) as nat) as int,
            0 <= pp < lev_len(s, i + 1),
            d as int == node_total(l0_new, i, 2 * pp) + node_total(l0_new, i, 2 * pp + 1),
            a_new.len() == a_prev.len(),
            a_new[s[i + 1] + pp].data == d,
            forall|x: int|
                0 <= x < a_prev.len() && x != s[i + 1] + pp ==> #[trigger] a_new[x] == a_prev[x],
        ensures
            forall|k: int, j: int|
                0 <= k <= i + 1 && 0 <= j < lev_len(s, k) ==> a_new[s[k] + j].data as int
                    == #[trigger] node_total(l0_new, k, j),
            forall|k: int, j: int|
                i + 1 < k < s.len() - 1 && 0 <= j < lev_len(s, k) ==> a_new[s[k] + j].data as int
                    == #[trigger] node_total(l0_old, k, j),
    {
        let target = s[i + 1] + pp;
        lemma_pow2_pos((i + 1) as nat);
        lemma_starts_monotone(s, i + 2, s.len() - 1);
        assert(target < s[i + 2]);
        assert forall|k: int, j: int|
            0 <= k <= i + 1 && 0 <= j < lev_len(s, k) implies a_new[s[k] + j].data as int
            == #[trigger] node_total(l0_new, k, j) by {
            if k <= i {
                lemma_starts_monotone(s, k + 1, i + 1);
                lemma_starts_monotone(s, k + 1, s.len() - 1);
                assert(s[k] + j < s[k + 1]);
                assert(a_new[s[k] + j] == a_prev[s[k] + j]);
            } else {
                if j == pp {
                    lemma_node_total_split(l0_new, i + 1, pp);
                } else {
                    lemma_starts_monotone(s, k + 1, s.len() - 1);
                    assert(s[k] + j < s[k + 1]);
                    assert(a_new[s[k] + j] == a_prev[s[k] + j]);
                    assert(a_prev[s[k] + j].data as int == node_total(l0_old, i + 1, j));
                    lemma_node_total_update_other(l0_old, at, v, i + 1, j);
                }
            }
        }
        assert forall|k: int, j: int|
            i + 1 < k < s.len() - 1 && 0 <= j < lev_len(s, k) implies a_new[s[k] + j].data as int
            == #[trigger] node_total(l0_old, k, j) by {
            lemma_starts_monotone(s, i + 2, k);
            lemma_starts_monotone(s, k + 1, s.len() - 1);
            assert(s[k] + j >= s[i + 2]);
            assert(s[k] + j < s[k + 1]);
            assert(a_new[s[k] + j] == a_prev[s[k] + j]);
        }
    }

    /// Once every level reflects the new leaf sequence, the tree is
    /// well-formed again and its view is the old view with one element
    /// replaced.
    #[verifier::rlimit(100)]
    proof fn lemma_setitem_finish(t_old: Self, t_new: Self, at: int, v: u64, l0_new: Seq<u64>)
        requires
            t_old.wf(),
            0 <= at < t_old.len,
            l0_new == t_old@.update(at, v),
            t_new.level_starts@ == t_old.level_starts@,
            t_new.len == t_old.len,
            t_new.root == t_old.root,
            t_new.degree == t_old.degree,
            t_new.arena@.len() == t_old.arena@.len(),
            sparse_links_wf(t_new.arena@, t_new.level_starts@),
            forall|k: int, j: int|
                0 <= k < t_old.level_starts@.len() - 1 && 0 <= j < lev_len(t_old.level_starts@, k)
                    ==> t_new.arena@[t_old.level_starts@[k] + j].data as int
                    == #[trigger] node_total(l0_new, k, j),
        ensures
            t_new.wf(),
            t_new@ == t_old@.update(at, v),
    {
        let s = t_old.level_starts@;
        assert forall|i2: int| 0 <= i2 < t_new.len as int implies (#[trigger] t_new.arena@[
            i2].data) == l0_new[i2] by {
            lemma_node_total_leaf(l0_new, i2);
            assert(t_new.arena@[s[0] + i2].data as int == node_total(l0_new, 0, i2));
            assert(s[0] == 0);
        }
        assert(t_new@ =~= t_old@.update(at, v));
        assert(Self::nodes_total(t_new.arena@, s, t_new@));
        assert(t_new.wf());
    }

    /// One step of the update walk: recomputes the given ancestor as the
    /// combination of its two children (the identity standing in for a
    /// missing right child), reaching them through its stored links.
    #[verifier::rlimit(100)]
    fn recompute_parent(
        arena: &mut Arena<PhysicalIdBinaryTreeNode>,
        parent_id: Id,
        Ghost(s): Ghost<Seq<usize>>,
        Ghost(l0_old): Ghost<Seq<u64>>,
        Ghost(l0_new): Ghost<Seq<u64>>,
        Ghost(at): Ghost<int>,
        Ghost(v): Ghost<u64>,
        Ghost(i): Ghost<int>,
    )
        requires
            sparse_links_wf(old(arena)@, s),
            0 <= i < s.len() - 2,
            lev_len(s, 0) == l0_new.len(),
            l0_new.len() == l0_old.len(),
            0 <= at < l0_old.len(),
            l0_new == l0_old.update(at, v),
            sum_to(l0_new, l0_new.len() as int) <= u64::MAX,
            parent_id@ == s[i + 1] + (at / pow2((i + 1) as nat) as int) + 1,
            forall|k: int, j: int|
                0 <= k <= i && 0 <= j < lev_len(s, k) ==> old(arena)@[s[k] + j].data as int
                    == #[trigger] node_total(l0_new, k, j),
            forall|k: int, j: int|
                i < k < s.len() - 1 && 0 <= j < lev_len(s, k) ==> old(arena)@[s[k] + j].data as int
                    == #[trigger] node_total(l0_old, k, j),
        ensures
            final(arena)@.len() == old(arena)@.len(),
            sparse_links_wf(final(arena)@, s),
            forall|k: int, j: int|
                0 <= k <= i + 1 && 0 <= j < lev_len(s, k) ==> final(arena)@[s[k] + j].data as int
                    == #[trigger] node_total(l0_new, k, j),
            forall|k: int, j: int|
                i + 1 < k < s.len() - 1 && 0 <= j < lev_len(s, k) ==> final(arena)@[s[k]
                    + j].data as int == #[trigger] node_total(l0_old, k, j),
    {
        let ghost pp = at / pow2((i + 1) as nat) as int;
        proof {
            Self::lemma_set_step(s, l0_new, at, i);
            lemma_starts_monotone(s, i + 2, s.len() - 1);
            assert(node_at(old(arena)@, s, i + 1, pp).left is Some);
        }
        let (left_opt, right_opt) = {
            let nd = arena.get(&parent_id);
            (nd.left, nd.right)
        };
        let left_id = left_opt.unwrap();
        proof {
            lemma_starts_monotone(s, i + 1, s.len() - 1);
            assert(left_id@ == s[i] + 2 * pp + 1);
        }
        let left_data = arena.get(&left_id).data;
        let right_data = match right_opt {
            Some(rid) => {
                proof {
                    assert(rid@ == s[i] + 2 * pp + 2);
                }
                arena.get(&rid).data
            },
            None => {
                proof {
                    assert(2 * pp + 1 >= lev_len(s, i));
                    assert(node_total(l0_new, i, 2 * pp + 1) == 0);
                }
                0
            },
        };
        proof {
            assert(left_data as int == node_total(l0_new, i, 2 * pp));
            assert(right_data as int == node_total(l0_new, i, 2 * pp + 1));
        }
        let sum = left_data + right_data;
        let ghost a_prev = arena@;
        arena.get_mut(&parent_id).data = sum;
        proof {
            let target = s[i + 1] + pp;
            let node = PhysicalIdBinaryTreeNode {
                data: sum,
                left: a_prev[target].left,
                right: a_prev[target].right,
            };
            assert(arena@ == a_prev.update(target, node));
            assert(a_prev.update(target, node)[target] == node);
            assert forall|x: int|
                0 <= x < a_prev.len() && x != target implies #[trigger] arena@[x] == a_prev[x] by {
                assert(a_prev.update(target, node)[x] == a_prev[x]);
            }
            Self::lemma_parent_write(a_prev, arena@, s, l0_old, l0_new, at, v, i, pp, sum);
            assert forall|x: int|
                0 <= x < a_prev.len() implies (#[trigger] arena@[x]).left == a_prev[x].left
                && arena@[x].right == a_prev[x].right by {
                if x != target {
                    assert(arena@[x] == a_prev[x]);
                }
            }
            Self::lemma_links_preserved(a_prev, arena@, s);
        }
    }

    /// Point update: walk the stored links down to the leaf for logical
    /// index `at`, overwrite it, then recompute each recorded ancestor on
    /// the way back up to the root.
    #[verifier::rlimit(100)]
    pub fn setitem(&mut self, at: usize, item: &u64)
        requires
            old(self).wf(),
            at < old(self)@.len(),
            sum_to(old(self)@.update(at as int, *item), old(self)@.len() as int) <= u64::MAX,
        ensures
            final(self).wf(),
            final(self)@ == old(self)@.update(at as int, *item),
    {
        let ghost s = self.level_starts@;
        let ghost l0_old = old(self)@;
        let ghost l0_new = l0_old.update(at as int, *item);
        let ghost d = old(self).degree as int;
        let path = self.descend(at);
        let leaf_id = path[self.degree];
        proof {
            lemma2_to64();
            lemma_div_basics(at as int);
            lemma_starts_monotone(s, 1, s.len() - 1);
            assert(leaf_id@ == s[0] + at + 1);
        }
        let ghost a_before = self.arena@;
        self.arena.get_mut(&leaf_id).data = *item;
        proof {
            let upd = PhysicalIdBinaryTreeNode {
                data: *item,
                left: a_before[at as int].left,
                right: a_before[at as int].right,
            };
            assert(self.arena@ == a_before.update(at as int, upd));
            assert(a_before.update(at as int, upd)[at as int] == upd);
            assert forall|x: int|
                0 <= x < a_before.len() && x != at implies #[trigger] self.arena@[x] == a_before[x] by {
                assert(a_before.update(at as int, upd)[x] == a_before[x]);
            }
            Self::lemma_leaf_write(a_before, self.arena@, s, l0_old, l0_new, at as int, *item);
            assert forall|x: int|
                0 <= x < a_before.len() implies (#[trigger] self.arena@[x]).left == a_before[
                x].left && self.arena@[x].right == a_before[x].right by {
                if x != at {
                    assert(self.arena@[x] == a_before[x]);
                }
            }
            Self::lemma_links_preserved(a_before, self.arena@, s);
        }
        let mut i: usize = 0;
        while i < self.degree
            invariant
                0 <= (at as int) < l0_new.len(),
                l0_new == l0_old.update(at as int, *item),
                l0_new.len() == l0_old.len(),
                lev_len(s, 0) == l0_new.len(),
                d == s.len() - 2,
                self.level_starts@ == s,
                self.len == old(self).len,
                self.root == old(self).root,
                self.degree == old(self).degree,
                self.degree as int == d,
                i <= self.degree,
                sparse_links_wf(self.arena@, s),
                self.arena@.len() == old(self).arena@.len(),
                path@.len() == self.degree + 1,
                forall|m: int|
                    0 <= m <= d ==> (#[trigger] path@[m])@ == s[d - m] + (at as int / pow2(
                        (d - m) as nat,
                    ) as int) + 1,
                forall|k: int, j: int|
                    0 <= k <= i as int && 0 <= j < lev_len(s, k) ==> self.arena@[s[k]
                        + j].data as int == #[trigger] node_total(l0_new, k, j),
                forall|k: int, j: int|
                    (i as int) < k < s.len() - 1 && 0 <= j < lev_len(s, k) ==> self.arena@[s[k]
                        + j].data as int == #[trigger] node_total(l0_old, k, j),
                sum_to(l0_new, l0_new.len() as int) <= u64::MAX,
            decreases self.degree - i,
        {
            let parent_id = path[self.degree - (i + 1)];
            proof {
                assert(path@[d - (i as int + 1)]@ == s[i as int + 1] + (at as int / pow2(
                    (i as int + 1) as nat,
                ) as int) + 1);
            }
            Self::recompute_parent(
                &mut self.arena,
                parent_id,
                Ghost(s),
                Ghost(l0_old),
                Ghost(l0_new),
                Ghost(at as int),
                Ghost(*item),
                Ghost(i as int),
            );
            i += 1;
        }
        proof {
            Self::lemma_setitem_finish(*old(self), *self, at as int, *item, l0_new);
        }
    }

    /// One half of a range query: climbs a recorded root-to-leaf path from
    /// the leaf towards the stop level, absorbing through the parents'
    /// stored links the sibling on the far side of the walk. A missing
    /// right sibling contributes the identity.
    #[verifier::rlimit(100)]
    fn sum_half(
        &self,
        path: &Vec<Id>,
        index: usize,
        stop_level: usize,
        direction: WalkDirection,
    ) -> (r: u64)
        requires
            self.wf(),
            index < self@.len(),
            stop_level <= self.degree,
            path@.len() == self.degree + 1,
            forall|m: int|
                0 <= m <= self.degree as int ==> (#[trigger] path@[m])@
                    == self.level_starts@[self.degree - m] + (index as int / pow2(
                    (self.degree - m) as nat,
                ) as int) + 1,
        ensures
            direction == WalkDirection::Up ==> r as int == range_total(
                self@,
                index as int,
                ((index as int / pow2(stop_level as nat) as int) + 1) * pow2(stop_level as nat),
            ),
            direction == WalkDirection::Down ==> r as int == range_total(
                self@,
                (index as int / pow2(stop_level as nat) as int) * pow2(stop_level as nat),
                index as int + 1,
            ),
    {
        let ghost s = self.level_starts@;
        let ghost l0 = self@;
        let ghost d = self.degree as int;
        proof {
            lemma2_to64();
            lemma_div_basics(index as int);
            lemma_starts_monotone(s, 1, s.len() - 1);
            assert(path@[d]@ == s[0] + index + 1);
            assert(self.arena@[s[0] + index].data as int == node_total(l0, 0, index as int));
            lemma_node_total_leaf(l0, index as int);
            lemma_range_total_singleton(l0, index as int);
            assert(index as int * pow2(0) == index as int);
            assert((index as int + 1) * pow2(0) == index as int + 1);
            self.lemma_total_fits();
        }
        let leaf_id = path[self.degree];
        let mut total = self.arena.get(&leaf_id).data;
        let mut i: usize = 0;
        while i < stop_level
            invariant
                self.wf(),
                s == self.level_starts@,
                l0 == self@,
                d == self.degree as int,
                index < self.len,
                stop_level <= self.degree,
                i <= stop_level,
                path@.len() == self.degree + 1,
                forall|m: int|
                    0 <= m <= d ==> (#[trigger] path@[m])@ == s[d - m] + (index as int / pow2(
                        (d - m) as nat,
                    ) as int) + 1,
                direction == WalkDirection::Up ==> total as int == range_total(
                    l0,
                    index as int,
                    ((index as int / pow2(i as nat) as int) + 1) * pow2(i as nat),
                ),
                direction == WalkDirection::Down ==> total as int == range_total(
                    l0,
                    (index as int / pow2(i as nat) as int) * pow2(i as nat),
                    index as int + 1,
                ),
                sum_to(l0, l0.len() as int) <= u64::MAX,
            decreases stop_level - i,
        {
            let ghost ii = i as int;
            let ghost j = index as int / pow2(ii as nat) as int;
            let ghost pp = index as int / pow2((ii + 1) as nat) as int;
            proof {
                lemma_walk_ranges(l0, index as int, ii);
                lemma_half_step(index as int, ii);
                lemma_sparse_ancestor(s, index as int, ii);
                lemma_sparse_ancestor(s, index as int, ii + 1);
                lemma_fundamental_div_mod(j, 2);
                lemma_mod_bound(j, 2);
                lemma_starts_monotone(s, ii + 1, s.len() - 1);
                lemma_starts_monotone(s, ii + 2, s.len() - 1);
                assert(path@[d - (ii + 1)]@ == s[ii + 1] + pp + 1);
                assert(path@[d - ii]@ == s[ii] + j + 1);
                assert(node_at(self.arena@, s, ii + 1, pp).left is Some);
            }
            let parent_id = path[self.degree - (i + 1)];
            let current_id = path[self.degree - i];
            let (left_opt, right_opt) = {
                let nd = self.arena.get(&parent_id);
                (nd.left, nd.right)
            };
            match direction {
                WalkDirection::Up => {
                    match right_opt {
                        Some(rid) => {
                            if rid.value() != current_id.value() {
                                proof {
                                    assert(rid@ == s[ii] + 2 * pp + 2);
                                    assert(j == 2 * pp);
                                    assert(self.arena@[s[ii] + 2 * pp + 1].data as int
                                        == node_total(l0, ii, 2 * pp + 1));
                                }
                                total = total + self.arena.get(&rid).data;
                            } else {
                                proof {
                                    assert(rid@ == s[ii] + 2 * pp + 2);
                                    assert(j == 2 * pp + 1);
                                }
                            }
                        },
                        None => {
                            proof {
                                assert(2 * pp + 1 >= lev_len(s, ii));
                                assert(j == 2 * pp);
                                lemma_sparse_coverage(s, ii);
                                let h = pow2(ii as nat) as int;
                                lemma_pow2_pos(ii as nat);
                                assert((2 * pp + 1) * h >= lev_len(s, ii) * h) by (nonlinear_arith)
                                    requires
                                        2 * pp + 1 >= lev_len(s, ii) && h > 0,
                                ;
                                assert(lev_len(s, ii) * h == h * lev_len(s, ii)) by (nonlinear_arith);
                                lemma_node_total_beyond(l0, ii, 2 * pp + 1);
                            }
                        },
                    }
                },
                WalkDirection::Down => {
                    let lid = left_opt.unwrap();
                    if lid.value() != current_id.value() {
                        proof {
                            assert(lid@ == s[ii] + 2 * pp + 1);
                            assert(j == 2 * pp + 1);
                            assert(self.arena@[s[ii] + 2 * pp].data as int == node_total(
                                l0,
                                ii,
                                2 * pp,
                            ));
                        }
                        total = total + self.arena.get(&lid).data;
                    } else {
                        proof {
                            assert(lid@ == s[ii] + 2 * pp + 1);
                            assert(j == 2 * pp);
                        }
                    }
                },
            }
            i += 1;
        }
        total
    }

    /// Inclusive range query: the sum of the values at positions
    /// `lower ..= upper`. Walks both leaves' parent chains in lockstep to
    /// their lowest common ancestor, then adds the two link-following
    /// half-walks that meet under it.
    #[verifier::rlimit(100)]
    pub fn range_sum(&self, lower: usize, upper: usize) -> (r: u64)
        requires
            self.wf(),
            lower <= upper,
            upper < self@.len(),
        ensures
            r as int == range_total(self@, lower as int, upper as int + 1),
    {
        let ghost s = self.level_starts@;
        let ghost l0 = self@;
        if lower == upper {
            let path = self.descend(lower);
            let leaf_id = path[self.degree];
            proof {
                lemma2_to64();
                lemma_div_basics(lower as int);
                lemma_starts_monotone(s, 1, s.len() - 1);
                assert(leaf_id@ == s[0] + lower + 1);
                assert(self.arena@[s[0] + lower].data as int == node_total(l0, 0, lower as int));
                lemma_node_total_leaf(l0, lower as int);
                lemma_range_total_singleton(l0, lower as int);
            }
            return self.arena.get(&leaf_id).data;
        }
        let mut a = lower;
        let mut b = upper;
        let mut k: usize = 0;
        proof {
            lemma2_to64();
            lemma_div_basics(lower as int);
            lemma_div_basics(upper as int);
        }
        while a != b
            invariant
                self.wf(),
                s == self.level_starts@,
                lower <= upper < self.len,
                k <= self.degree,
                a as int == lower as int / pow2(k as nat) as int,
                b as int == upper as int / pow2(k as nat) as int,
                a <= b,
                k >= 1 ==> lower as int / pow2((k - 1) as nat) as int != upper as int / pow2(
                    (k - 1) as nat,
                ) as int,
            decreases b,
        {
            proof {
                lemma_sparse_ancestor(s, lower as int, k as int);
                lemma_sparse_ancestor(s, upper as int, k as int);
                if k == self.degree {
                    assert(lev_len(s, self.degree as int) == 1);
                    assert(false);
                }
                lemma_half_step(lower as int, k as int);
                lemma_half_step(upper as int, k as int);
                lemma_div_is_ordered(a as int, b as int, 2);
            }
            a = a / 2;
            b = b / 2;
            k = k + 1;
        }
        let ghost c = a as int;
        proof {
            lemma2_to64();
            lemma_div_basics(lower as int);
            lemma_div_basics(upper as int);
            if k == 0 {
                assert(a as int == lower as int && b as int == upper as int);
                assert(false);
            }
            let w = pow2((k - 1) as nat) as int;
            let aa = lower as int / w;
            let bb = upper as int / w;
            lemma_pow2_pos((k - 1) as nat);
            lemma_half_step(lower as int, k as int - 1);
            lemma_half_step(upper as int, k as int - 1);
            lemma_fundamental_div_mod(aa, 2);
            lemma_fundamental_div_mod(bb, 2);
            lemma_mod_bound(aa, 2);
            lemma_mod_bound(bb, 2);
            lemma_div_is_ordered(lower as int, upper as int, w);
            assert(aa != bb);
            assert(aa == 2 * c && bb == 2 * c + 1);
        }
        let path_low = self.descend(lower);
        let path_up = self.descend(upper);
        let low_sum = self.sum_half(&path_low, lower, k - 1, WalkDirection::Up);
        let up_sum = self.sum_half(&path_up, upper, k - 1, WalkDirection::Down);
        proof {
            self.lemma_total_fits();
            lemma_sum_to_monotone(l0, 0, lower as int);
            if upper as int + 1 <= l0.len() {
                lemma_sum_to_monotone(l0, upper as int + 1, l0.len() as int);
            } else {
                lemma_sum_to_flat(l0, upper as int + 1);
            }
            lemma_sum_to_monotone(l0, lower as int, upper as int + 1);
        }
        low_sum + up_sum
    }
}

} // verus!
