//! The complete (implicit) segment tree: nodes hold data only, and every
//! parent/child step is integer arithmetic on arena handles — no links are
//! stored and navigation reads nothing from the arena.
//!
//! The arena is filled level by level, leaves first, so the root ends up in
//! the last slot. A table with each level's starting offset, computed once
//! at construction, turns a `(level, position)` pair into a handle; every
//! level except the root's is padded with identity nodes to an even length
//! so that each position's sibling physically exists.

use vstd::prelude::*;
use vstd::arithmetic::power2::{pow2, lemma_pow2_unfold, lemma_pow2_pos, lemma2_to64};
use vstd::arithmetic::div_mod::{lemma_fundamental_div_mod, lemma_div_basics, lemma_div_is_ordered, lemma_mod_bound};
use crate::arena::{Arena, Id};
use crate::node_path::WalkDirection;
use crate::nodes::CompleteBinaryTreeNode;
use crate::sums::{
    get0, sum_to, range_total, node_total, levels_wf, level_entry, lemma_node_value,
    lemma_half_step, lemma_halve_below, lemma_node_total_split,
    lemma_node_total_leaf, lemma_node_total_beyond, lemma_node_total_bounds,
    lemma_node_total_update_other, lemma_sum_to_monotone,
    lemma_sum_to_flat, lemma_sum_to_take, lemma_sum_to_zero_range,
    lemma_range_total_singleton, lemma_level_coverage, lemma_walk_ranges, starts_wf, lev_len, table_lens, lemma_starts_monotone,
    lemma_table_coverage, lemma_table_ancestor,
};

verus! {

/// The level-stack entries stored in an arena laid out by `starts`.
pub open spec fn arena_data(a: Seq<CompleteBinaryTreeNode>, starts: Seq<usize>) -> spec_fn(
    int,
    int,
) -> int {
    |k: int, j: int| a[starts[k] + j].data as int
}

/// A `(handle, level)` pair: the addressing state of the arithmetic
/// navigator while it walks the implicit tree.
#[derive(Clone, Copy)]
pub(crate) struct NodeReference {
    pub(crate) id: Id,
    pub(crate) level: usize,
}

impl NodeReference {
    /// The 0-based position of this node inside its level.
    pub(crate) open spec fn pos(self, starts: Seq<usize>) -> int {
        self.id@ - 1 - starts[self.level as int]
    }

    /// The node sits inside its level's slice of the arena.
    pub(crate) open spec fn is_at(self, starts: Seq<usize>) -> bool {
        &&& self.level + 2 <= starts.len()
        &&& 0 <= self.pos(starts) < lev_len(starts, self.level as int)
    }

    pub(crate) fn new(id: Id, level: usize) -> (r: Self)
        ensures
            r.id == id,
            r.level == level,
    {
        NodeReference { id, level }
    }

    /// The parent: one level up, at half the position.
    pub(crate) fn parent(&self, starts: &Vec<usize>) -> (r: Self)
        requires
            starts_wf(starts@),
            self.is_at(starts@),
            self.level + 3 <= starts@.len(),
            lev_len(starts@, self.level as int) <= 2 * lev_len(starts@, self.level as int + 1),
        ensures
            r.level == self.level + 1,
            r.pos(starts@) == self.pos(starts@) / 2,
            r.is_at(starts@),
    {
        // reading the table's length pins it to a machine word, which the
        // overflow reasoning for the parent's slot needs
        let _table_len = starts.len();
        let p = self.id.value() - 1 - starts[self.level];
        let half = p / 2;
        proof {
            lemma_halve_below(p as int, lev_len(starts@, self.level as int + 1));
        }
        NodeReference { id: Id::from_array_index(starts[self.level + 1] + half), level: self.level + 1 }
    }

    /// The left child: one level down, at twice the position.
    pub(crate) fn left(&self, starts: &Vec<usize>) -> (r: Self)
        requires
            starts_wf(starts@),
            self.is_at(starts@),
            self.level >= 1,
            2 * self.pos(starts@) < lev_len(starts@, self.level as int - 1),
        ensures
            r.level == self.level - 1,
            r.pos(starts@) == 2 * self.pos(starts@),
            r.is_at(starts@),
    {
        let p = self.id.value() - 1 - starts[self.level];
        NodeReference { id: Id::from_array_index(starts[self.level - 1] + 2 * p), level: self.level - 1 }
    }

    /// The right child: one level down, just past the left child.
    pub(crate) fn right(&self, starts: &Vec<usize>) -> (r: Self)
        requires
            starts_wf(starts@),
            self.is_at(starts@),
            self.level >= 1,
            2 * self.pos(starts@) + 1 < lev_len(starts@, self.level as int - 1),
        ensures
            r.level == self.level - 1,
            r.pos(starts@) == 2 * self.pos(starts@) + 1,
            r.is_at(starts@),
    {
        let p = self.id.value() - 1 - starts[self.level];
        NodeReference { id: Id::from_array_index(starts[self.level - 1] + 2 * p + 1), level: self.level - 1 }
    }
}

/// The complete-representation segment tree. Its view is the logical
/// sequence of values; `range_sum` and `setitem` are specified against it.
pub struct SegmentTreeWithEphemeralId {
    arena: Arena<CompleteBinaryTreeNode>,
    len: usize,
    root: Id,
    level_starts: Vec<usize>,
}

impl View for SegmentTreeWithEphemeralId {
    type V = Seq<u64>;

    closed spec fn view(&self) -> Seq<u64> {
        Seq::new(self.len as nat, |i: int| self.arena@[i].data)
    }
}

impl SegmentTreeWithEphemeralId {
    /// The number of levels above the leaves: the tree's degree.
    pub closed spec fn height(self) -> int {
        self.level_starts@.len() - 2
    }

    /// How many nodes level `k` holds, padding included.
    pub closed spec fn level_len(self, k: int) -> int {
        lev_len(self.level_starts@, k)
    }

    /// The aggregate stored in the node at position `j` of level `k`.
    pub closed spec fn node_value(self, k: int, j: int) -> int {
        self.arena@[self.level_starts@[k] + j].data as int
    }

    /// Level 0 as stored: the logical values followed by identity padding.
    pub closed spec fn leaves(self) -> Seq<u64> {
        Seq::new(self.level_len(0) as nat, |i: int| self.arena@[i].data)
    }

    /// The structural invariant: a well-formed level stack over the arena,
    /// all levels below the single-node root level padded to even length,
    /// and identity padding after the logical values on the leaf level.
    /// It holds after construction and is preserved by every update.
    pub closed spec fn wf(self) -> bool {
        let starts = self.level_starts@;
        &&& starts_wf(starts)
        &&& starts.last() == self.arena@.len()
        &&& levels_wf(table_lens(starts), arena_data(self.arena@, starts))
        &&& self.level_len(self.height()) == 1
        &&& forall|k: int|
            0 <= k < self.height() ==> #[trigger] self.level_len(k) % 2 == 0
        &&& 1 <= self.len
        &&& self.len <= self.level_len(0) <= self.len + 1
        &&& forall|i: int|
            self.len <= i < self.level_len(0) ==> #[trigger] self.node_value(0, i) == 0
        &&& self.root@ == self.arena@.len()
    }

    /// Every stored node value is the sum of its leaf block.
    proof fn lemma_node_is_total(self, k: int, j: int)
        requires
            self.wf(),
            0 <= k <= self.height(),
            0 <= j < self.level_len(k),
        ensures
            self.node_value(k, j) == node_total(self.leaves(), k, j),
    {
        let starts = self.level_starts@;
        let lens = table_lens(starts);
        let data = arena_data(self.arena@, starts);
        assert(self.leaves().len() == lens[0]);
        assert forall|i: int| 0 <= i < lens[0] implies get0(self.leaves(), i) == #[trigger] data(
            0,
            i,
        ) by {
            assert(starts[0] == 0);
        }
        lemma_node_value(lens, data, self.leaves(), k, j);
    }

    /// Prefix sums over the view and over the stored leaf level agree:
    /// the padding contributes nothing.
    proof fn lemma_view_sum(self, n: int)
        requires
            self.wf(),
        ensures
            sum_to(self@, n) == sum_to(self.leaves(), n),
    {
        let l0 = self.leaves();
        let len = self.len as int;
        assert(self@ =~= l0.take(len));
        if n <= len {
            if n >= 0 {
                lemma_sum_to_take(l0, len, n);
            }
        } else {
            lemma_sum_to_flat(self@, n);
            lemma_sum_to_take(l0, len, len);
            assert forall|i: int| len <= i < l0.len() implies get0(l0, i) == 0 by {
                assert(self.node_value(0, i) == 0);
                assert(self.level_starts@[0] == 0);
            }
            if n <= l0.len() {
                lemma_sum_to_zero_range(l0, len, n);
            } else {
                lemma_sum_to_flat(l0, n);
                lemma_sum_to_zero_range(l0, len, l0.len() as int);
            }
        }
    }

    /// The whole sum fits in the combinator's carrier: the root holds it.
    proof fn lemma_total_fits(self)
        requires
            self.wf(),
        ensures
            sum_to(self.leaves(), self.leaves().len() as int) <= u64::MAX,
            sum_to(self@, self@.len() as int) <= sum_to(self.leaves(), self.leaves().len() as int),
    {
        let d = self.height();
        let starts = self.level_starts@;
        let lens = table_lens(starts);
        let l0 = self.leaves();
        self.lemma_node_is_total(d, 0);
        lemma_level_coverage(lens, d);
        assert(pow2(d as nat) * 1 == pow2(d as nat));
        lemma_sum_to_flat(l0, pow2(d as nat) as int);
        assert(0 * pow2(d as nat) == 0);
        assert(1 * pow2(d as nat) == pow2(d as nat));
        assert(node_total(l0, d, 0) == sum_to(l0, pow2(d as nat) as int));
        self.lemma_view_sum(self@.len() as int);
        lemma_sum_to_monotone(l0, self@.len() as int, l0.len() as int);
    }

    /// Builds the next level: one aggregate node per adjacent pair of the
    /// previous level, then an identity node if the new level would
    /// otherwise be odd and is not the root.
    #[verifier::loop_isolation(false)]
    fn build_level(arena: &mut Arena<CompleteBinaryTreeNode>, prev_start: usize, prev_len: usize) -> (new_len: usize)
        requires
            old(arena)@.len() == prev_start + prev_len,
            prev_len >= 2,
            prev_len % 2 == 0,
            prev_len + old(arena)@.len() <= usize::MAX,
            forall|q: int|
                0 <= q < prev_len / 2 ==> (#[trigger] old(arena)@[prev_start + 2 * q].data) + old(
                    arena,
                )@[prev_start + 2 * q + 1].data <= u64::MAX,
        ensures
            final(arena)@.len() == old(arena)@.len() + new_len,
            new_len == if prev_len / 2 > 1 && (prev_len / 2) % 2 == 1 {
                prev_len / 2 + 1
            } else {
                (prev_len / 2) as int
            },
            forall|i: int| 0 <= i < old(arena)@.len() ==> final(arena)@[i] == old(arena)@[i],
            forall|q: int|
                0 <= q < prev_len / 2 ==> (#[trigger] final(arena)@[old(arena)@.len() + q].data)
                    as int == old(arena)@[prev_start + 2 * q].data + old(arena)@[prev_start + 2 * q
                    + 1].data,
            forall|q: int|
                prev_len / 2 <= q < new_len ==> (#[trigger] final(arena)@[old(arena)@.len()
                    + q].data) == 0,
    {
        let pairs = prev_len / 2;
        let mut q: usize = 0;
        while q < pairs
            invariant
                q <= pairs,
                arena@.len() == old(arena)@.len() + q,
                forall|i: int| 0 <= i < old(arena)@.len() ==> arena@[i] == old(arena)@[i],
                forall|p: int|
                    0 <= p < q ==> (#[trigger] arena@[old(arena)@.len() + p].data) as int == old(
                        arena,
                    )@[prev_start + 2 * p].data + old(arena)@[prev_start + 2 * p + 1].data,
            decreases pairs - q,
        {
            let left = arena.get(&Id::from_array_index(prev_start + 2 * q)).data;
            let right = arena.get(&Id::from_array_index(prev_start + 2 * q + 1)).data;
            arena.allocate(CompleteBinaryTreeNode { data: left + right });
            q += 1;
        }
        if pairs > 1 && pairs % 2 == 1 {
            arena.allocate(CompleteBinaryTreeNode::default());
            pairs + 1
        } else {
            pairs
        }
    }

    /// During construction and updates, every finished node holds exactly
    /// the sum of its leaf block.
    pub(crate) open spec fn all_nodes_total(
        a: Seq<CompleteBinaryTreeNode>,
        s: Seq<usize>,
        l0: Seq<u64>,
    ) -> bool {
        forall|k: int, j: int|
            0 <= k < s.len() - 1 && 0 <= j < lev_len(s, k) ==> a[s[k] + j].data as int
                == #[trigger] node_total(l0, k, j)
    }

    /// The arithmetic facts one upward step of the update walk relies on:
    /// where the parent sits, that both its children physically exist, and
    /// that their combined block sum is the parent's and fits the carrier.
    #[verifier::rlimit(100)]
    proof fn lemma_set_step(s: Seq<usize>, l0: Seq<u64>, at: int, i: int)
        requires
            starts_wf(s),
            forall|m: int|
                0 <= m < s.len() - 2 ==> #[trigger] lev_len(s, m) <= 2 * lev_len(s, m + 1),
            forall|m: int| 0 <= m < s.len() - 2 ==> #[trigger] lev_len(s, m) % 2 == 0,
            0 <= at < l0.len(),
            lev_len(s, 0) == l0.len(),
            sum_to(l0, l0.len() as int) <= u64::MAX,
            0 <= i < s.len() - 2,
        ensures
            (at / pow2(i as nat) as int) / 2 == at / pow2((i + 1) as nat) as int,
            0 <= (at / pow2(i as nat) as int) < lev_len(s, i),
            0 <= (at / pow2((i + 1) as nat) as int) < lev_len(s, i + 1),
            at / pow2(i as nat) as int == 2 * (at / pow2((i + 1) as nat) as int) || at / pow2(
                i as nat,
            ) as int == 2 * (at / pow2((i + 1) as nat) as int) + 1,
            2 * (at / pow2((i + 1) as nat) as int) < lev_len(s, i),
            2 * (at / pow2((i + 1) as nat) as int) + 1 < lev_len(s, i),
            node_total(l0, i, 2 * (at / pow2((i + 1) as nat) as int)) + node_total(
                l0,
                i,
                2 * (at / pow2((i + 1) as nat) as int) + 1,
            ) == node_total(l0, i + 1, at / pow2((i + 1) as nat) as int),
            0 <= node_total(l0, i, 2 * (at / pow2((i + 1) as nat) as int)),
            0 <= node_total(l0, i, 2 * (at / pow2((i + 1) as nat) as int) + 1),
            node_total(l0, i + 1, at / pow2((i + 1) as nat) as int) <= sum_to(
                l0,
                l0.len() as int,
            ),
    {
        let j = at / pow2(i as nat) as int;
        let pp = at / pow2((i + 1) as nat) as int;
        lemma_half_step(at, i);
        lemma_table_ancestor(s, at, i);
        lemma_table_ancestor(s, at, i + 1);
        lemma_fundamental_div_mod(j, 2);
        assert(lev_len(s, i) % 2 == 0);
        lemma_node_total_split(l0, i + 1, pp);
        lemma_node_total_bounds(l0, i, 2 * pp);
        lemma_node_total_bounds(l0, i, 2 * pp + 1);
        lemma_node_total_bounds(l0, i + 1, pp);
    }

    /// The arithmetic facts one upward step of a query half-walk relies
    /// on: the parent's position, its two physically present children,
    /// their stored block sums, and how absorbing the far sibling extends
    /// the gathered range in either direction.
    #[verifier::rlimit(100)]
    proof fn lemma_walk_step(self, x: int, i: int)
        requires
            self.wf(),
            0 <= x < self.len,
            0 <= i < self.height(),
        ensures
            pow2((i + 1) as nat) == 2 * pow2(i as nat),
            (x / pow2(i as nat) as int) / 2 == x / pow2((i + 1) as nat) as int,
            0 <= (x / pow2(i as nat) as int) < self.level_len(i),
            0 <= (x / pow2((i + 1) as nat) as int) < self.level_len(i + 1),
            x / pow2(i as nat) as int == 2 * (x / pow2((i + 1) as nat) as int) || x / pow2(
                i as nat,
            ) as int == 2 * (x / pow2((i + 1) as nat) as int) + 1,
            2 * (x / pow2((i + 1) as nat) as int) < self.level_len(i),
            2 * (x / pow2((i + 1) as nat) as int) + 1 < self.level_len(i),
            self.node_value(i, 2 * (x / pow2((i + 1) as nat) as int)) == node_total(
                self.leaves(),
                i,
                2 * (x / pow2((i + 1) as nat) as int),
            ),
            self.node_value(i, 2 * (x / pow2((i + 1) as nat) as int) + 1) == node_total(
                self.leaves(),
                i,
                2 * (x / pow2((i + 1) as nat) as int) + 1,
            ),
            sum_to(self.leaves(), self.leaves().len() as int) <= u64::MAX,
    {
        let s = self.level_starts@;
        let w2 = pow2((i + 1) as nat) as int;
        let j = x / pow2(i as nat) as int;
        let pp = x / w2;
        lemma_pow2_unfold((i + 1) as nat);
        lemma_pow2_pos(i as nat);
        lemma_half_step(x, i);
        assert forall|m: int|
            0 <= m < s.len() - 2 implies #[trigger] lev_len(s, m) <= 2 * lev_len(s, m + 1) by {
            assert(table_lens(s)[m] == lev_len(s, m));
            assert(table_lens(s)[m + 1] == lev_len(s, m + 1));
        }
        lemma_table_ancestor(s, x, i);
        lemma_table_ancestor(s, x, i + 1);
        lemma_fundamental_div_mod(j, 2);
        assert(self.level_len(i) % 2 == 0);
        self.lemma_node_is_total(i, 2 * pp);
        self.lemma_node_is_total(i, 2 * pp + 1);
        self.lemma_total_fits();
    }

    /// Each adjacent pair of the topmost finished level sums to something
    /// the carrier holds, because the pair's combined value is itself a
    /// block sum of the leaves.
    proof fn lemma_pairs_fit(
        a: Seq<CompleteBinaryTreeNode>,
        s: Seq<usize>,
        l0: Seq<u64>,
        cur_start: int,
        cur_len: int,
    )
        requires
            starts_wf(s),
            Self::all_nodes_total(a, s, l0),
            sum_to(l0, l0.len() as int) <= u64::MAX,
            cur_start == s[s.len() - 2],
            cur_len == lev_len(s, s.len() - 2),
        ensures
            forall|q: int|
                0 <= q < cur_len / 2 ==> (#[trigger] a[cur_start + 2 * q].data) + a[cur_start + 2
                    * q + 1].data <= u64::MAX,
    {
        let t = s.len() - 2;
        assert forall|q: int| 0 <= q < cur_len / 2 implies (#[trigger] a[cur_start + 2
            * q].data) + a[cur_start + 2 * q + 1].data <= u64::MAX by {
            assert(a[s[t] + 2 * q].data as int == node_total(l0, t, 2 * q));
            assert(a[s[t] + 2 * q + 1].data as int == node_total(l0, t, 2 * q + 1));
            lemma_node_total_split(l0, t + 1, q);
            lemma_node_total_bounds(l0, t + 1, q);
            lemma_node_total_bounds(l0, t, 2 * q);
            lemma_node_total_bounds(l0, t, 2 * q + 1);
        }
    }

    /// Appending one freshly built level keeps every node at its block sum.
    proof fn lemma_extend_totals(
        a_old: Seq<CompleteBinaryTreeNode>,
        a_new: Seq<CompleteBinaryTreeNode>,
        s_old: Seq<usize>,
        s_new: Seq<usize>,
        l0: Seq<u64>,
        cur_start: int,
        cur_len: int,
        new_len: int,
    )
        requires
            starts_wf(s_old),
            Self::all_nodes_total(a_old, s_old, l0),
            forall|m: int|
                0 <= m < s_old.len() - 2 ==> #[trigger] lev_len(s_old, m) <= 2 * lev_len(
                    s_old,
                    m + 1,
                ),
            lev_len(s_old, 0) == l0.len(),
            cur_start == s_old[s_old.len() - 2],
            cur_len == lev_len(s_old, s_old.len() - 2),
            cur_len >= 2,
            cur_len % 2 == 0,
            a_old.len() == cur_start + cur_len,
            cur_len / 2 <= new_len <= cur_len / 2 + 1,
            s_new.len() == s_old.len() + 1,
            forall|k: int| 0 <= k < s_old.len() ==> #[trigger] s_new[k] == s_old[k],
            s_new.last() == a_old.len() + new_len,
            a_new.len() == a_old.len() + new_len,
            forall|i: int| 0 <= i < a_old.len() ==> #[trigger] a_new[i] == a_old[i],
            forall|q: int|
                0 <= q < cur_len / 2 ==> (#[trigger] a_new[a_old.len() + q].data) as int == a_old[
                    cur_start + 2 * q].data + a_old[cur_start + 2 * q + 1].data,
            forall|q: int|
                cur_len / 2 <= q < new_len ==> (#[trigger] a_new[a_old.len() + q].data) == 0,
        ensures
            Self::all_nodes_total(a_new, s_new, l0),
    {
        let t = s_old.len() - 2;
        let h = pow2(t as nat) as int;
        assert forall|k: int, j: int|
            0 <= k < s_new.len() - 1 && 0 <= j < lev_len(s_new, k) implies a_new[s_new[k]
            + j].data as int == #[trigger] node_total(l0, k, j) by {
            if k <= t {
                assert(s_new[k] == s_old[k]);
                assert(s_new[k + 1] == s_old[k + 1]);
                lemma_starts_monotone(s_old, k + 1, s_old.len() - 1);
                assert(a_new[s_old[k] + j] == a_old[s_old[k] + j]);
                assert(a_old[s_old[k] + j].data as int == node_total(l0, k, j));
            } else {
                assert(k == t + 1);
                assert(s_new[k] == a_old.len());
                lemma_node_total_split(l0, t + 1, j);
                if j < cur_len / 2 {
                    assert(a_new[a_old.len() + j].data as int == a_old[cur_start + 2 * j].data
                        + a_old[cur_start + 2 * j + 1].data);
                    assert(a_old[s_old[t] + 2 * j].data as int == node_total(l0, t, 2 * j));
                    assert(a_old[s_old[t] + 2 * j + 1].data as int == node_total(l0, t, 2 * j + 1));
                } else {
                    assert(a_new[a_old.len() + j].data == 0);
                    lemma_table_coverage(s_old, t);
                    lemma_pow2_pos(t as nat);
                    assert(2 * j >= cur_len);
                    assert((2 * j) * h >= cur_len * h) by (nonlinear_arith)
                        requires
                            2 * j >= cur_len && h > 0,
                    ;
                    assert(cur_len * h == h * cur_len) by (nonlinear_arith);
                    assert((2 * j) * h >= l0.len());
                    assert((2 * j + 1) * h >= (2 * j) * h) by (nonlinear_arith)
                        requires
                            h > 0,
                    ;
                    lemma_node_total_beyond(l0, t, 2 * j);
                    lemma_node_total_beyond(l0, t, 2 * j + 1);
                }
            }
        }
    }


    /// A level stack whose every entry is its block sum is well-formed.
    #[verifier::rlimit(100)]
    proof fn lemma_wf_from_totals(a: Seq<CompleteBinaryTreeNode>, s: Seq<usize>, l0: Seq<u64>)
        requires
            starts_wf(s),
            Self::all_nodes_total(a, s, l0),
            forall|m: int|
                0 <= m < s.len() - 2 ==> #[trigger] lev_len(s, m) <= 2 * lev_len(s, m + 1),
            lev_len(s, 0) == l0.len(),
        ensures
            levels_wf(table_lens(s), arena_data(a, s)),
    {
        let lens = table_lens(s);
        let data = arena_data(a, s);
        assert forall|m: int| 0 <= m < lens.len() implies #[trigger] lens[m] >= 1 by {
            assert(s[m] < s[m + 1]);
        }
        assert forall|m: int| 0 <= m < lens.len() - 1 implies #[trigger] lens[m] <= 2 * lens[m
            + 1] by {
            assert(lev_len(s, m) <= 2 * lev_len(s, m + 1));
        }
        assert forall|j: int| 0 <= j < lens[0] implies #[trigger] data(0, j) >= 0 by {
            assert(a[s[0] + j].data >= 0);
        }
        assert forall|k: int, j: int|
            1 <= k < lens.len() && 0 <= j < lens[k] implies #[trigger] data(k, j) == level_entry(
            lens,
            data,
            k - 1,
            2 * j,
        ) + level_entry(lens, data, k - 1, 2 * j + 1) by {
            let h = pow2((k - 1) as nat) as int;
            lemma_pow2_pos((k - 1) as nat);
            assert(data(k, j) == node_total(l0, k, j));
            lemma_node_total_split(l0, k, j);
            if 2 * j < lens[k - 1] {
                assert(level_entry(lens, data, k - 1, 2 * j) == data(k - 1, 2 * j));
                assert(a[s[k - 1] + 2 * j].data as int == node_total(l0, k - 1, 2 * j));
            } else {
                lemma_table_coverage(s, k - 1);
                assert((2 * j) * h >= lens[k - 1] * h) by (nonlinear_arith)
                    requires
                        2 * j >= lens[k - 1] && h > 0,
                ;
                assert(lens[k - 1] * h == h * lens[k - 1]) by (nonlinear_arith);
                lemma_node_total_beyond(l0, k - 1, 2 * j);
            }
            if 2 * j + 1 < lens[k - 1] {
                assert(level_entry(lens, data, k - 1, 2 * j + 1) == data(k - 1, 2 * j + 1));
                assert(a[s[k - 1] + 2 * j + 1].data as int == node_total(l0, k - 1, 2 * j + 1));
            } else {
                lemma_table_coverage(s, k - 1);
                assert((2 * j + 1) * h >= lens[k - 1] * h) by (nonlinear_arith)
                    requires
                        2 * j + 1 >= lens[k - 1] && h > 0,
                ;
                assert(lens[k - 1] * h == h * lens[k - 1]) by (nonlinear_arith);
                lemma_node_total_beyond(l0, k - 1, 2 * j + 1);
            }
        }
    }

    /// Builds the tree bottom-up from the logical values: allocates the
    /// leaves (padded to an even count), then level after level of
    /// aggregates until a single root remains. The per-level offset table
    /// is recorded as construction goes.
    ///
    /// An empty input is rejected as a contract violation: the tree always
    /// holds at least one value.
    #[verifier::rlimit(100)]
    pub fn new(items: Vec<u64>) -> (r: Self)
        requires
            items@.len() >= 1,
            3 * (items@.len() + 1) <= usize::MAX,
            sum_to(items@, items@.len() as int) <= u64::MAX,
        ensures
            r.wf(),
            r@ == items@,
    {
        let n = items.len();
        let mut arena = Arena::<CompleteBinaryTreeNode>::with_capacity(3 * n);
        let mut idx: usize = 0;
        while idx < n
            invariant
                idx <= n,
                n == items@.len(),
                3 * (n as int + 1) <= usize::MAX,
                arena@.len() == idx,
                forall|i: int| 0 <= i < idx ==> (#[trigger] arena@[i].data) == items@[i],
            decreases n - idx,
        {
            arena.allocate(CompleteBinaryTreeNode::new(&items[idx]));
            idx += 1;
        }
        let mut cur_len = n;
        if cur_len % 2 == 1 {
            arena.allocate(CompleteBinaryTreeNode::default());
            cur_len = cur_len + 1;
        }
        let ghost l0 = Seq::new(cur_len as nat, |i: int| arena@[i].data);
        proof {
            assert(l0.take(n as int) =~= items@);
            lemma_sum_to_take(l0, n as int, n as int);
            lemma_sum_to_zero_range(l0, n as int, l0.len() as int);
        }
        let mut level_starts: Vec<usize> = Vec::new();
        level_starts.push(0);
        level_starts.push(cur_len);
        proof {
            assert forall|k: int, j: int|
                0 <= k < level_starts@.len() - 1 && 0 <= j < lev_len(level_starts@, k) implies
                arena@[level_starts@[k] + j].data as int == #[trigger] node_total(l0, k, j) by {
                lemma_node_total_leaf(l0, j);
            }
        }
        let mut cur_start: usize = 0;
        while cur_len > 1
            invariant
                n as int == items@.len(),
                1 <= n,
                3 * (n as int + 1) <= usize::MAX,
                n <= l0.len() <= n + 1,
                forall|i: int| 0 <= i < n ==> l0[i] == items@[i],
                starts_wf(level_starts@),
                level_starts@.last() as int == arena@.len(),
                cur_start == level_starts@[level_starts@.len() - 2],
                cur_len as int == lev_len(level_starts@, level_starts@.len() - 2),
                1 <= cur_len,
                cur_len % 2 == 0 || cur_len == 1,
                forall|k: int|
                    0 <= k < level_starts@.len() - 2 ==> #[trigger] lev_len(level_starts@, k) % 2
                        == 0,
                forall|k: int|
                    0 <= k < level_starts@.len() - 2 ==> #[trigger] lev_len(level_starts@, k) <= 2
                        * lev_len(level_starts@, k + 1),
                Self::all_nodes_total(arena@, level_starts@, l0),
                lev_len(level_starts@, 0) == l0.len(),
                l0.len() <= arena@.len(),
                forall|i: int| 0 <= i < l0.len() ==> (#[trigger] arena@[i].data) == l0[i],
                forall|i: int| n <= i < l0.len() ==> get0(l0, i) == 0,
                arena@.len() + 2 * cur_len <= 3 * l0.len(),
                sum_to(l0, l0.len() as int) <= u64::MAX,
            decreases cur_len,
        {
            let ghost s_old = level_starts@;
            let ghost a_old = arena@;
            proof {
                Self::lemma_pairs_fit(a_old, s_old, l0, cur_start as int, cur_len as int);
            }
            let new_start = cur_start + cur_len;
            let new_len = Self::build_level(&mut arena, cur_start, cur_len);
            level_starts.push(new_start + new_len);
            proof {
                Self::lemma_extend_totals(
                    a_old,
                    arena@,
                    s_old,
                    level_starts@,
                    l0,
                    cur_start as int,
                    cur_len as int,
                    new_len as int,
                );
                let ghost t = s_old.len() - 2;
                assert forall|k: int|
                    0 <= k < level_starts@.len() - 2 implies #[trigger] lev_len(level_starts@, k)
                    % 2 == 0 by {
                    assert(level_starts@[k] == s_old[k]);
                    assert(level_starts@[k + 1] == s_old[k + 1]);
                    if k < t {
                        assert(lev_len(s_old, k) % 2 == 0);
                    } else {
                        assert(lev_len(s_old, t) == cur_len);
                    }
                }
                assert forall|i: int| 0 <= i < l0.len() implies (#[trigger] arena@[i].data)
                    == l0[i] by {
                    assert(arena@[i] == a_old[i]);
                }
                assert forall|k: int|
                    0 <= k < level_starts@.len() - 2 implies #[trigger] lev_len(level_starts@, k)
                    <= 2 * lev_len(level_starts@, k + 1) by {
                    assert(level_starts@[k] == s_old[k]);
                    assert(level_starts@[k + 1] == s_old[k + 1]);
                    if k + 1 < s_old.len() - 1 {
                        assert(level_starts@[k + 2] == s_old[k + 2]);
                    }
                    if k < t {
                        assert(lev_len(s_old, k) <= 2 * lev_len(s_old, k + 1));
                    } else {
                        assert(lev_len(s_old, t) == cur_len);
                    }
                }
            }
            cur_start = new_start;
            cur_len = new_len;
        }
        proof {
            Self::lemma_wf_from_totals(arena@, level_starts@, l0);
        }
        let root = Id::from_array_index(arena.len() - 1);
        let r = SegmentTreeWithEphemeralId { arena, len: n, root, level_starts };
        proof {
            assert(r@ =~= items@);
        }
        r
    }

    /// Turns a logical leaf index into its navigator state: the handle is
    /// the index's own slot, since leaves fill the arena first. A
    /// nonsensical index yields nothing.
    fn leaf_to_noderef(
        array_index: usize,
        level_starts: &Vec<usize>,
        leaf_count: usize,
    ) -> (r: Option<NodeReference>)
        requires
            starts_wf(level_starts@),
            leaf_count as int <= lev_len(level_starts@, 0),
        ensures
            match r {
                Some(nr) => {
                    &&& array_index < leaf_count
                    &&& nr.level == 0
                    &&& nr.id@ == array_index + 1
                    &&& nr.is_at(level_starts@)
                    &&& nr.pos(level_starts@) == array_index
                },
                None => array_index >= leaf_count,
            },
    {
        if array_index >= leaf_count {
            None
        } else {
            Some(NodeReference::new(Id::from_array_index(array_index), 0))
        }
    }

    /// After the leaf itself is overwritten, level 0 agrees with the new
    /// leaf sequence while every higher level still shows the old one.
    #[verifier::rlimit(100)]
    proof fn lemma_after_leaf_write(
        a_old: Seq<CompleteBinaryTreeNode>,
        a_new: Seq<CompleteBinaryTreeNode>,
        s: Seq<usize>,
        l0_old: Seq<u64>,
        l0_new: Seq<u64>,
        at: int,
        v: u64,
    )
        requires
            starts_wf(s),
            Self::all_nodes_total(a_old, s, l0_old),
            lev_len(s, 0) == l0_old.len(),
            0 <= at < l0_old.len(),
            l0_new == l0_old.update(at, v),
            s.last() == a_old.len(),
            a_new.len() == a_old.len(),
            forall|i: int| 0 <= i < a_old.len() && i != at ==> #[trigger] a_new[i] == a_old[i],
            a_new[at].data == v,
        ensures
            forall|k: int, j: int|
                0 <= k <= 0 && 0 <= j < lev_len(s, k) ==> a_new[s[k] + j].data as int
                    == #[trigger] node_total(l0_new, k, j),
            forall|k: int, j: int|
                0 < k < s.len() - 1 && 0 <= j < lev_len(s, k) ==> a_new[s[k] + j].data as int
                    == #[trigger] node_total(l0_old, k, j),
    {
        lemma2_to64();
        assert forall|j: int| 0 <= j < lev_len(s, 0) implies a_new[s[0] + j].data as int
            == #[trigger] node_total(l0_new, 0, j) by {
            lemma_node_total_leaf(l0_new, j);
            if j != at {
                lemma_node_total_leaf(l0_old, j);
                lemma_starts_monotone(s, 1, s.len() - 1);
                assert(s[0] + j < s[1]);
                assert(a_new[s[0] + j] == a_old[s[0] + j]);
                assert(a_old[s[0] + j].data as int == node_total(l0_old, 0, j));
            }
        }
        assert forall|k: int, j: int|
            0 < k < s.len() - 1 && 0 <= j < lev_len(s, k) implies a_new[s[k] + j].data as int
            == #[trigger] node_total(l0_old, k, j) by {
            lemma_starts_monotone(s, 1, k);
            lemma_starts_monotone(s, k + 1, s.len() - 1);
            assert(at < s[1]);
            assert(s[k] + j < s[k + 1]);
            assert(a_new[s[k] + j] == a_old[s[k] + j]);
            assert(a_old[s[k] + j].data as int == node_total(l0_old, k, j));
        }
    }

    /// After one ancestor is recomputed from its two children, the new
    /// leaf sequence is reflected one level higher.
    #[verifier::rlimit(100)]
    proof fn lemma_after_parent_write(
        a_prev: Seq<CompleteBinaryTreeNode>,
        a_new: Seq<CompleteBinaryTreeNode>,
        s: Seq<usize>,
        l0_old: Seq<u64>,
        l0_new: Seq<u64>,
        at: int,
        v: u64,
        i: int,
        pp: int,
    )
        requires
            starts_wf(s),
            0 <= i < s.len() - 2,
            lev_len(s, 0) == l0_old.len(),
            0 <= at < l0_old.len(),
            l0_new == l0_old.update(at, v),
            s.last() == a_prev.len(),
            forall|k: int, j: int|
                0 <= k <= i && 0 <= j < lev_len(s, k) ==> a_prev[s[k] + j].data as int
                    == #[trigger] node_total(l0_new, k, j),
            forall|k: int, j: int|
                i < k < s.len() - 1 && 0 <= j < lev_len(s, k) ==> a_prev[s[k] + j].data as int
                    == #[trigger] node_total(l0_old, k, j),
            pp == at / pow2((i + 1) as nat) as int,
            0 <= pp < lev_len(s, i + 1),
            0 <= 2 * pp < lev_len(s, i),
            0 <= 2 * pp + 1 < lev_len(s, i),
            a_new == a_prev.update(
                s[i + 1] + pp,
                CompleteBinaryTreeNode {
                    data: (a_prev[s[i] + 2 * pp].data + a_prev[s[i] + 2 * pp + 1].data) as u64,
                },
            ),
            a_prev[s[i] + 2 * pp].data + a_prev[s[i] + 2 * pp + 1].data <= u64::MAX,
        ensures
            forall|k: int, j: int|
                0 <= k <= i + 1 && 0 <= j < lev_len(s, k) ==> a_new[s[k] + j].data as int
                    == #[trigger] node_total(l0_new, k, j),
            forall|k: int, j: int|
                i + 1 < k < s.len() - 1 && 0 <= j < lev_len(s, k) ==> a_new[s[k] + j].data as int
                    == #[trigger] node_total(l0_old, k, j),
    {
        let target = s[i + 1] + pp;
        lemma_pow2_pos((i + 1) as nat);
        let node = CompleteBinaryTreeNode {
            data: (a_prev[s[i] + 2 * pp].data + a_prev[s[i] + 2 * pp + 1].data) as u64,
        };
        lemma_starts_monotone(s, i + 2, s.len() - 1);
        assert(target < s[i + 2]);
        assert(a_prev.update(target, node)[target] == node);
        assert(a_new[target] == node);
        assert forall|x: int| 0 <= x < a_prev.len() && x != target implies #[trigger] a_new[x]
            == a_prev[x] by {
            assert(a_prev.update(target, node)[x] == a_prev[x]);
        }
        assert forall|k: int, j: int|
            0 <= k <= i + 1 && 0 <= j < lev_len(s, k) implies a_new[s[k] + j].data as int
            == #[trigger] node_total(l0_new, k, j) by {
            if k <= i {
                lemma_starts_monotone(s, k + 1, i + 1);
                lemma_starts_monotone(s, k + 1, s.len() - 1);
                assert(s[k] + j < s[k + 1]);
                assert(a_new[s[k] + j] == a_prev[s[k] + j]);
            } else {
                if j == pp {
                    assert(a_new[target].data as int == a_prev[s[i] + 2 * pp].data + a_prev[s[i] + 2
                        * pp + 1].data);
                    assert(a_prev[s[i] + 2 * pp].data as int == node_total(l0_new, i, 2 * pp));
                    assert(a_prev[s[i] + 2 * pp + 1].data as int == node_total(
                        l0_new,
                        i,
                        2 * pp + 1,
                    ));
                    lemma_node_total_split(l0_new, i + 1, pp);
                } else {
                    lemma_starts_monotone(s, k + 1, s.len() - 1);
                    assert(s[k] + j < s[k + 1]);
                    assert(a_new[s[k] + j] == a_prev[s[k] + j]);
                    assert(a_prev[s[k] + j].data as int == node_total(l0_old, i + 1, j));
                    lemma_node_total_update_other(l0_old, at, v, i + 1, j);
                }
            }
        }
        assert forall|k: int, j: int|
            i + 1 < k < s.len() - 1 && 0 <= j < lev_len(s, k) implies a_new[s[k] + j].data as int
            == #[trigger] node_total(l0_old, k, j) by {
            lemma_starts_monotone(s, i + 2, k);
            lemma_starts_monotone(s, k + 1, s.len() - 1);
            assert(target < s[i + 2]);
            assert(s[k] + j >= s[i + 2]);
            assert(s[k] + j < s[k + 1]);
            assert(a_new[s[k] + j] == a_prev[s[k] + j]);
        }
    }

    /// Once every level reflects the new leaf sequence, the tree is
    /// well-formed again and its view is the old view with one element
    /// replaced.
    #[verifier::rlimit(100)]
    proof fn lemma_setitem_finish(t_old: Self, t_new: Self, at: int, v: u64, l0_new: Seq<u64>)
        requires
            t_old.wf(),
            0 <= at < t_old.len,
            l0_new == t_old.leaves().update(at, v),
            t_new.level_starts@ == t_old.level_starts@,
            t_new.len == t_old.len,
            t_new.root == t_old.root,
            t_new.arena@.len() == t_old.arena@.len(),
            forall|k: int, j: int|
                0 <= k < t_old.level_starts@.len() - 1 && 0 <= j < lev_len(t_old.level_starts@, k)
                    ==> t_new.arena@[t_old.level_starts@[k] + j].data as int
                    == #[trigger] node_total(l0_new, k, j),
        ensures
            t_new.wf(),
            t_new@ == t_old@.update(at, v),
    {
        let s = t_old.level_starts@;
        let l0_old = t_old.leaves();
        assert forall|m: int|
            0 <= m < s.len() - 2 implies #[trigger] lev_len(s, m) <= 2 * lev_len(s, m + 1) by {
            assert(table_lens(s)[m] == lev_len(s, m));
            assert(table_lens(s)[m + 1] == lev_len(s, m + 1));
        }
        Self::lemma_wf_from_totals(t_new.arena@, s, l0_new);
        assert forall|i2: int|
            0 <= i2 < lev_len(s, 0) implies (#[trigger] t_new.arena@[i2].data) == l0_new[i2] by {
            lemma_node_total_leaf(l0_new, i2);
            assert(t_new.arena@[s[0] + i2].data as int == node_total(l0_new, 0, i2));
            assert(s[0] == 0);
        }
        assert(t_new.height() == t_old.height());
        assert(t_new.level_len(t_new.height()) == lev_len(s, t_old.height()));
        assert forall|k: int|
            0 <= k < t_new.height() implies #[trigger] t_new.level_len(k) % 2 == 0 by {
            assert(t_old.level_len(k) % 2 == 0);
        }
        assert forall|i2: int|
            t_new.len <= i2 < lev_len(s, 0) implies #[trigger] t_new.node_value(0, i2) == 0 by {
            assert(t_new.arena@[i2].data == l0_new[i2]);
            assert(l0_new[i2] == l0_old[i2]);
            t_old.lemma_node_is_total(0, i2);
            lemma_node_total_leaf(l0_old, i2);
            assert(t_old.node_value(0, i2) == 0);
        }
        assert(t_new.wf());
        assert forall|i2: int| 0 <= i2 < t_new.len as int implies t_new@[i2] == t_old@.update(
            at,
            v,
        )[i2] by {
            assert(t_new@[i2] == t_new.arena@[i2].data);
            assert(t_new.arena@[i2].data == l0_new[i2]);
            if i2 != at {
                assert(l0_new[i2] == l0_old[i2]);
                assert(t_old@[i2] == t_old.arena@[i2].data);
            }
        }
        assert(t_new@ =~= t_old@.update(at, v));
    }

    /// Point update: overwrite the leaf for logical index `at`, then walk
    /// parent by parent up to the root, recomputing each ancestor as the
    /// combination of its two children. Only the leaf's ancestors are
    /// touched, and the walk is as long as the tree's degree.
    #[verifier::rlimit(100)]
    pub fn setitem(&mut self, at: usize, item: &u64)
        requires
            old(self).wf(),
            at < old(self)@.len(),
            sum_to(old(self)@.update(at as int, *item), old(self)@.len() as int) <= u64::MAX,
        ensures
            final(self).wf(),
            final(self)@ == old(self)@.update(at as int, *item),
    {
        let ghost s = self.level_starts@;
        let ghost l0_old = old(self).leaves();
        let ghost l0_new = l0_old.update(at as int, *item);
        let ghost d = old(self).height();
        proof {
            assert(old(self)@.update(at as int, *item) =~= l0_new.take(old(self).len as int));
            lemma_sum_to_take(l0_new, old(self).len as int, old(self).len as int);
            assert forall|i: int| old(self).len <= i < l0_new.len() implies get0(l0_new, i)
                == 0 by {
                assert(old(self).node_value(0, i) == 0);
                assert(s[0] == 0);
            }
            lemma_sum_to_zero_range(l0_new, old(self).len as int, l0_new.len() as int);
        }
        let leaf = Self::leaf_to_noderef(at, &self.level_starts, self.len).unwrap();
        let ghost a_before = self.arena@;
        proof {
            lemma_starts_monotone(s, 1, s.len() - 1);
            assert(at + 1 <= s[1]);
        }
        self.arena.get_mut(&leaf.id).data = *item;
        proof {
            assert forall|k: int, j: int|
                0 <= k < s.len() - 1 && 0 <= j < lev_len(s, k) implies a_before[s[k] + j].data
                as int == #[trigger] node_total(l0_old, k, j) by {
                old(self).lemma_node_is_total(k, j);
            }
            let upd = CompleteBinaryTreeNode { data: *item };
            assert(self.arena@ == a_before.update(at as int, upd));
            assert(a_before.update(at as int, upd)[at as int] == upd);
            assert forall|i: int|
                0 <= i < a_before.len() && i != at implies #[trigger] self.arena@[i] == a_before[i] by {
                assert(a_before.update(at as int, upd)[i] == a_before[i]);
            }
            Self::lemma_after_leaf_write(
                a_before,
                self.arena@,
                s,
                l0_old,
                l0_new,
                at as int,
                *item,
            );
            lemma2_to64();
            lemma_div_basics(at as int);
            assert forall|m: int|
                0 <= m < s.len() - 2 implies #[trigger] lev_len(s, m) <= 2 * lev_len(s, m + 1) by {
                assert(table_lens(s)[m] == lev_len(s, m));
                assert(table_lens(s)[m + 1] == lev_len(s, m + 1));
            }
            assert forall|m: int| 0 <= m < s.len() - 2 implies #[trigger] lev_len(s, m) % 2
                == 0 by {
                assert(old(self).level_len(m) % 2 == 0);
            }
        }
        let mut node_ref = leaf;
        while node_ref.id.value() != self.root.value()
            invariant
                starts_wf(s),
                forall|m: int|
                    0 <= m < s.len() - 2 ==> #[trigger] lev_len(s, m) <= 2 * lev_len(s, m + 1),
                forall|m: int| 0 <= m < s.len() - 2 ==> #[trigger] lev_len(s, m) % 2 == 0,
                d == s.len() - 2,
                lev_len(s, d) == 1,
                0 <= (at as int) < l0_new.len(),
                l0_new == l0_old.update(at as int, *item),
                l0_new.len() == l0_old.len(),
                lev_len(s, 0) == l0_new.len(),
                self.level_starts@ == s,
                self.len == old(self).len,
                self.root == old(self).root,
                self.root@ == s.last() as int,
                self.arena@.len() == s.last() as int,
                node_ref.is_at(s),
                node_ref.level as int <= d,
                node_ref.pos(s) == at as int / pow2(node_ref.level as nat) as int,
                forall|k: int, j: int|
                    0 <= k <= node_ref.level as int && 0 <= j < lev_len(s, k)
                        ==> self.arena@[s[k] + j].data as int == #[trigger] node_total(
                        l0_new,
                        k,
                        j,
                    ),
                forall|k: int, j: int|
                    (node_ref.level as int) < k < s.len() - 1 && 0 <= j < lev_len(s, k)
                        ==> self.arena@[s[k] + j].data as int == #[trigger] node_total(
                        l0_old,
                        k,
                        j,
                    ),
                sum_to(l0_new, l0_new.len() as int) <= u64::MAX,
            decreases d - node_ref.level,
        {
            proof {
                if node_ref.level as int == d {
                    assert(lev_len(s, d) == 1);
                    assert(node_ref.pos(s) == 0);
                    assert(node_ref.id@ == s[d] + 1);
                    assert(self.root@ == s[s.len() - 1] as int);
                    assert(false);
                }
            }
            node_ref = Self::recompute_parent(
                &mut self.arena,
                &self.level_starts,
                node_ref,
                Ghost(l0_old),
                Ghost(l0_new),
                Ghost(at as int),
                Ghost(*item),
            );
        }
        proof {
            let i = node_ref.level as int;
            if i < d {
                lemma_starts_monotone(s, i + 1, d);
                assert(node_ref.id@ <= s[i + 1]);
                assert(s[d] < s[d + 1]);
                assert(old(self).root@ == s[s.len() - 1]);
                assert(false);
            }
            assert forall|k: int, j: int|
                0 <= k < s.len() - 1 && 0 <= j < lev_len(s, k) implies self.arena@[s[k]
                + j].data as int == #[trigger] node_total(l0_new, k, j) by {
                assert(0 <= k <= node_ref.level as int);
            }
            Self::lemma_setitem_finish(*old(self), *self, at as int, *item, l0_new);
        }
    }

    /// One step of the update walk: moves to the parent and recomputes it
    /// as the combination of its two children, which already reflect the
    /// new leaf sequence.
    #[verifier::rlimit(100)]
    fn recompute_parent(
        arena: &mut Arena<CompleteBinaryTreeNode>,
        level_starts: &Vec<usize>,
        node_ref: NodeReference,
        Ghost(l0_old): Ghost<Seq<u64>>,
        Ghost(l0_new): Ghost<Seq<u64>>,
        Ghost(at): Ghost<int>,
        Ghost(v): Ghost<u64>,
    ) -> (r: NodeReference)
        requires
            starts_wf(level_starts@),
            forall|m: int|
                0 <= m < level_starts@.len() - 2 ==> #[trigger] lev_len(level_starts@, m) <= 2
                    * lev_len(level_starts@, m + 1),
            forall|m: int|
                0 <= m < level_starts@.len() - 2 ==> #[trigger] lev_len(level_starts@, m) % 2 == 0,
            0 <= at < l0_new.len(),
            l0_new == l0_old.update(at, v),
            l0_new.len() == l0_old.len(),
            lev_len(level_starts@, 0) == l0_new.len(),
            sum_to(l0_new, l0_new.len() as int) <= u64::MAX,
            old(arena)@.len() == level_starts@.last(),
            node_ref.is_at(level_starts@),
            (node_ref.level as int) < level_starts@.len() - 2,
            node_ref.pos(level_starts@) == at / pow2(node_ref.level as nat) as int,
            forall|k: int, j: int|
                0 <= k <= node_ref.level as int && 0 <= j < lev_len(level_starts@, k)
                    ==> old(arena)@[level_starts@[k] + j].data as int == #[trigger] node_total(
                    l0_new,
                    k,
                    j,
                ),
            forall|k: int, j: int|
                (node_ref.level as int) < k < level_starts@.len() - 1 && 0 <= j < lev_len(
                    level_starts@,
                    k,
                ) ==> old(arena)@[level_starts@[k] + j].data as int == #[trigger] node_total(
                    l0_old,
                    k,
                    j,
                ),
        ensures
            final(arena)@.len() == old(arena)@.len(),
            r.level == node_ref.level + 1,
            r.is_at(level_starts@),
            r.pos(level_starts@) == at / pow2(r.level as nat) as int,
            forall|k: int, j: int|
                0 <= k <= r.level as int && 0 <= j < lev_len(level_starts@, k)
                    ==> final(arena)@[level_starts@[k] + j].data as int == #[trigger] node_total(
                    l0_new,
                    k,
                    j,
                ),
            forall|k: int, j: int|
                (r.level as int) < k < level_starts@.len() - 1 && 0 <= j < lev_len(
                    level_starts@,
                    k,
                ) ==> final(arena)@[level_starts@[k] + j].data as int == #[trigger] node_total(
                    l0_old,
                    k,
                    j,
                ),
    {
        let ghost s = level_starts@;
        let ghost i = node_ref.level as int;
        proof {
            Self::lemma_set_step(s, l0_new, at, i);
        }
        let parent = node_ref.parent(level_starts);
        let left_ref = parent.left(level_starts);
        let right_ref = parent.right(level_starts);
        proof {
            lemma_starts_monotone(s, i + 1, s.len() - 1);
            assert(left_ref.id@ - 1 == s[i] + 2 * parent.pos(s));
            assert(right_ref.id@ - 1 == s[i] + 2 * parent.pos(s) + 1);
        }
        let left_data = arena.get(&left_ref.id).data;
        let right_data = arena.get(&right_ref.id).data;
        let ghost pp = parent.pos(s);
        proof {
            assert(left_data as int == node_total(l0_new, i, 2 * pp));
            assert(right_data as int == node_total(l0_new, i, 2 * pp + 1));
            lemma_starts_monotone(s, i + 2, s.len() - 1);
            assert(parent.id@ - 1 == s[i + 1] + pp);
        }
        let sum = left_data + right_data;
        let ghost a_prev = arena@;
        arena.get_mut(&parent.id).data = sum;
        proof {
            assert(arena@ == a_prev.update(s[i + 1] + pp, CompleteBinaryTreeNode { data: sum }));
            Self::lemma_after_parent_write(
                a_prev,
                arena@,
                s,
                l0_old,
                l0_new,
                at,
                v,
                i,
                pp,
            );
        }
        parent
    }

    /// Climbs from two nodes of the same level in lockstep until their
    /// handles coincide: the lowest common ancestor, by pure arithmetic.
    #[verifier::rlimit(100)]
    fn common_ancestor_of(
        this: NodeReference,
        that: NodeReference,
        level_starts: &Vec<usize>,
    ) -> (r: NodeReference)
        requires
            starts_wf(level_starts@),
            this.is_at(level_starts@),
            that.is_at(level_starts@),
            this.level == that.level,
            this.pos(level_starts@) <= that.pos(level_starts@),
            forall|m: int|
                0 <= m < level_starts@.len() - 2 ==> #[trigger] lev_len(level_starts@, m) <= 2
                    * lev_len(level_starts@, m + 1),
            lev_len(level_starts@, level_starts@.len() - 2) == 1,
        ensures
            r.is_at(level_starts@),
            this.level <= r.level,
            r.level + 2 <= level_starts@.len(),
            r.pos(level_starts@) == this.pos(level_starts@) / pow2(
                (r.level - this.level) as nat,
            ) as int,
            r.pos(level_starts@) == that.pos(level_starts@) / pow2(
                (r.level - this.level) as nat,
            ) as int,
            r.level > this.level ==> this.pos(level_starts@) / pow2(
                (r.level - this.level - 1) as nat,
            ) as int != that.pos(level_starts@) / pow2((r.level - this.level - 1) as nat) as int,
            this.pos(level_starts@) == that.pos(level_starts@) ==> r.level == this.level,
    {
        let ghost s = level_starts@;
        let ghost x = this.pos(s);
        let ghost y = that.pos(s);
        let mut a = this;
        let mut b = that;
        proof {
            lemma2_to64();
            lemma_div_basics(x);
            lemma_div_basics(y);
        }
        while a.id.value() != b.id.value()
            invariant
                starts_wf(s),
                s == level_starts@,
                forall|m: int|
                    0 <= m < s.len() - 2 ==> #[trigger] lev_len(s, m) <= 2 * lev_len(s, m + 1),
                lev_len(s, s.len() - 2) == 1,
                a.is_at(s),
                b.is_at(s),
                a.level == b.level,
                this.level <= a.level,
                a.level + 2 <= s.len(),
                x == this.pos(s),
                y == that.pos(s),
                0 <= x <= y,
                a.pos(s) == x / pow2((a.level - this.level) as nat) as int,
                b.pos(s) == y / pow2((a.level - this.level) as nat) as int,
                a.pos(s) <= b.pos(s),
                a.level > this.level ==> x / pow2((a.level - this.level - 1) as nat) as int != y
                    / pow2((a.level - this.level - 1) as nat) as int,
                x == y ==> a.level == this.level,
            decreases s.len() - a.level,
        {
            proof {
                if a.level as int == s.len() - 2 {
                    assert(lev_len(s, s.len() - 2) == 1);
                    assert(a.pos(s) == 0 && b.pos(s) == 0);
                    assert(a.id@ == s[a.level as int] + 1);
                    assert(b.id@ == s[b.level as int] + 1);
                    assert(false);
                }
            }
            let a2 = a.parent(level_starts);
            let b2 = b.parent(level_starts);
            proof {
                let dl = (a.level - this.level) as nat;
                lemma_half_step(x, dl as int);
                lemma_half_step(y, dl as int);
                lemma_div_is_ordered(a.pos(s), b.pos(s), 2);
                assert(a.pos(s) != b.pos(s));
            }
            a = a2;
            b = b2;
        }
        a
    }

    /// One half of a range query: climbs from a leaf to a stopping
    /// ancestor, absorbing the sibling on the far side of the walk at each
    /// step. `Up` gathers everything from the leaf rightwards to the edge
    /// of the stop node's block; `Down` gathers everything from the block's
    /// left edge up to the leaf.
    #[verifier::rlimit(100)]
    fn sum_half(&self, start: NodeReference, stop: NodeReference, direction: WalkDirection) -> (r:
        u64)
        requires
            self.wf(),
            start.is_at(self.level_starts@),
            start.level == 0,
            start.pos(self.level_starts@) < self.len,
            stop.is_at(self.level_starts@),
            stop.level as int <= self.height(),
            stop.pos(self.level_starts@) == start.pos(self.level_starts@) / pow2(
                stop.level as nat,
            ) as int,
        ensures
            direction == WalkDirection::Up ==> r as int == range_total(
                self.leaves(),
                start.pos(self.level_starts@),
                (stop.pos(self.level_starts@) + 1) * pow2(stop.level as nat),
            ),
            direction == WalkDirection::Down ==> r as int == range_total(
                self.leaves(),
                stop.pos(self.level_starts@) * pow2(stop.level as nat),
                start.pos(self.level_starts@) + 1,
            ),
    {
        let ghost s = self.level_starts@;
        let ghost x = start.pos(s);
        let ghost l0 = self.leaves();
        let mut current = start;
        proof {
            lemma2_to64();
            lemma_div_basics(x);
            lemma_starts_monotone(s, 1, s.len() - 1);
            self.lemma_node_is_total(0, x);
            lemma_node_total_leaf(l0, x);
            lemma_range_total_singleton(l0, x);
            assert(start.id@ - 1 == s[0] + x);
            assert(x * pow2(0) == x);
            assert((x + 1) * pow2(0) == x + 1);
            self.lemma_total_fits();
        }
        let mut total = self.arena.get(&start.id).data;
        while current.level < stop.level
            invariant
                self.wf(),
                s == self.level_starts@,
                l0 == self.leaves(),
                current.is_at(s),
                current.level <= stop.level,
                stop.is_at(s),
                stop.level as int <= self.height(),
                x == start.pos(s),
                0 <= x < self.len,
                start.level == 0,
                current.pos(s) == x / pow2(current.level as nat) as int,
                stop.pos(s) == x / pow2(stop.level as nat) as int,
                direction == WalkDirection::Up ==> total as int == range_total(
                    l0,
                    x,
                    (current.pos(s) + 1) * pow2(current.level as nat),
                ),
                direction == WalkDirection::Down ==> total as int == range_total(
                    l0,
                    current.pos(s) * pow2(current.level as nat),
                    x + 1,
                ),
            decreases stop.level - current.level,
        {
            let ghost i = current.level as int;
            let ghost j = current.pos(s);
            proof {
                self.lemma_walk_step(x, i);
                lemma_walk_ranges(l0, x, i);
                assert(table_lens(s)[i] == lev_len(s, i));
                assert(table_lens(s)[i + 1] == lev_len(s, i + 1));
            }
            let parent = current.parent(&self.level_starts);
            let ghost pp = parent.pos(s);
            let child = match direction {
                WalkDirection::Up => parent.right(&self.level_starts),
                WalkDirection::Down => parent.left(&self.level_starts),
            };
            proof {
                lemma_starts_monotone(s, i + 1, s.len() - 1);
                assert(child.id@ - 1 == s[i] + child.pos(s));
                assert(self.node_value(i, child.pos(s)) == self.arena@[s[i] + child.pos(
                    s,
                )].data as int);
            }
            if child.id.value() != current.id.value() {
                total = total + self.arena.get(&child.id).data;
            }
            current = parent;
        }
        proof {
            assert(current.level == stop.level);
            assert(current.pos(s) == stop.pos(s));
        }
        total
    }

    /// Aggregate-correctness law: in a well-formed tree, every node above
    /// the leaves holds exactly the combination of its two children, a
    /// child missing from the level below counting as the identity. The
    /// invariant holds after construction and after every update, since
    /// both establish `wf`.
    pub proof fn lemma_aggregate_invariant(&self, k: int, j: int)
        requires
            self.wf(),
            0 <= k < self.height(),
            0 <= j < self.level_len(k + 1),
        ensures
            self.node_value(k + 1, j) == (if 2 * j < self.level_len(k) {
                self.node_value(k, 2 * j)
            } else {
                0
            }) + (if 2 * j + 1 < self.level_len(k) {
                self.node_value(k, 2 * j + 1)
            } else {
                0
            }),
    {
        let s = self.level_starts@;
        let lens = table_lens(s);
        let data = arena_data(self.arena@, s);
        assert(lens[k] == lev_len(s, k));
        assert(lens[k + 1] == lev_len(s, k + 1));
        assert(data(k + 1, j) == level_entry(lens, data, k, 2 * j) + level_entry(
            lens,
            data,
            k,
            2 * j + 1,
        ));
    }

    /// Inclusive range query: the sum of the values at positions
    /// `lower ..= upper`. Finds the two leaves' lowest common ancestor by
    /// arithmetic ascent, then adds the two half-walks that meet under it.
    #[verifier::rlimit(100)]
    pub fn range_sum(&self, lower: usize, upper: usize) -> (r: u64)
        requires
            self.wf(),
            lower <= upper,
            upper < self@.len(),
        ensures
            r as int == range_total(self@, lower as int, upper as int + 1),
    {
        let ghost s = self.level_starts@;
        let ghost l0 = self.leaves();
        let lower_ref = Self::leaf_to_noderef(lower, &self.level_starts, self.len).unwrap();
        let upper_ref = Self::leaf_to_noderef(upper, &self.level_starts, self.len).unwrap();
        if lower == upper {
            proof {
                lemma_starts_monotone(s, 1, s.len() - 1);
                self.lemma_node_is_total(0, lower as int);
                lemma_node_total_leaf(l0, lower as int);
                lemma_range_total_singleton(self@, lower as int);
                self.lemma_view_sum(lower as int);
                self.lemma_view_sum(lower as int + 1);
                lemma_range_total_singleton(l0, lower as int);
            }
            return self.arena.get(&lower_ref.id).data;
        }
        proof {
            assert forall|m: int|
                0 <= m < s.len() - 2 implies #[trigger] lev_len(s, m) <= 2 * lev_len(s, m + 1) by {
                assert(table_lens(s)[m] == lev_len(s, m));
                assert(table_lens(s)[m + 1] == lev_len(s, m + 1));
            }
            assert(self.level_len(self.height()) == 1);
        }
        let lca = Self::common_ancestor_of(lower_ref, upper_ref, &self.level_starts);
        let ghost k = lca.level as int;
        let ghost c = lca.pos(s);
        proof {
            lemma2_to64();
            if k == 0 {
                lemma_div_basics(lower as int);
                lemma_div_basics(upper as int);
                assert(false);
            }
            let w = pow2((k - 1) as nat) as int;
            let aa = lower as int / w;
            let bb = upper as int / w;
            lemma_pow2_pos((k - 1) as nat);
            lemma_half_step(lower as int, k - 1);
            lemma_half_step(upper as int, k - 1);
            lemma_fundamental_div_mod(aa, 2);
            lemma_fundamental_div_mod(bb, 2);
            lemma_mod_bound(aa, 2);
            lemma_mod_bound(bb, 2);
            lemma_div_is_ordered(lower as int, upper as int, w);
            assert(aa == 2 * c && bb == 2 * c + 1);
            lemma_table_ancestor(s, lower as int, k - 1);
            lemma_table_ancestor(s, upper as int, k - 1);
            assert(2 * c < lev_len(s, k - 1));
            assert(2 * c + 1 < lev_len(s, k - 1));
        }
        let stop_low = lca.left(&self.level_starts);
        let stop_up = lca.right(&self.level_starts);
        let low_sum = self.sum_half(lower_ref, stop_low, WalkDirection::Up);
        let up_sum = self.sum_half(upper_ref, stop_up, WalkDirection::Down);
        proof {
            self.lemma_total_fits();
            lemma_sum_to_monotone(l0, 0, lower as int);
            if upper as int + 1 <= l0.len() {
                lemma_sum_to_monotone(l0, upper as int + 1, l0.len() as int);
            } else {
                lemma_sum_to_flat(l0, upper as int + 1);
            }
            lemma_sum_to_monotone(l0, lower as int, upper as int + 1);
            self.lemma_view_sum(lower as int);
            self.lemma_view_sum(upper as int + 1);
        }
        low_sum + up_sum
    }
}

} // verus!
