//! Walking help for the trees: the direction of a query half-walk, the
//! link layout of the sparse tree, and its bit-path descent. The descent
//! reads stored links — unlike the complete representation's navigator,
//! which is pure arithmetic.

use vstd::prelude::*;
use vstd::arithmetic::power2::{pow2, lemma2_to64};
use vstd::arithmetic::div_mod::{
    lemma_fundamental_div_mod, lemma_div_basics, lemma_mod_bound,
};
use crate::arena::{Arena, Id};
use crate::nodes::PhysicalIdBinaryTreeNode;
use crate::sums::{starts_wf, lev_len, lemma_starts_monotone, lemma_half_step};

verus! {

/// Which half of a range query a walk gathers: `Up` climbs from the lower
/// leaf collecting right-hand siblings, `Down` climbs from the upper leaf
/// collecting left-hand ones.
#[derive(Clone, Copy, PartialEq, Eq, Structural)]
pub enum WalkDirection {
    Up,
    Down,
}

/// The node at position `j` of level `k` of a sparse arena laid out by
/// offset table `s`.
pub open spec fn node_at(
    a: Seq<PhysicalIdBinaryTreeNode>,
    s: Seq<usize>,
    k: int,
    j: int,
) -> PhysicalIdBinaryTreeNode {
    a[s[k] + j]
}

/// Each level is the half, rounded up, of the level below it.
pub open spec fn ceil_level(s: Seq<usize>, k: int) -> bool {
    lev_len(s, k + 1) == (lev_len(s, k) + 1) / 2
}

/// The link structure of a sparse arena: levels shrink by halves rounded
/// up, leaves carry no links, and every inner node points at its two
/// children in the level below — the right link absent exactly when the
/// level below ends at the left child.
pub open spec fn sparse_links_wf(a: Seq<PhysicalIdBinaryTreeNode>, s: Seq<usize>) -> bool {
    &&& starts_wf(s)
    &&& s.last() == a.len()
    &&& forall|k: int| 0 <= k < s.len() - 2 ==> #[trigger] ceil_level(s, k)
    &&& forall|j: int|
        0 <= j < lev_len(s, 0) ==> (#[trigger] node_at(a, s, 0, j)).left is None && node_at(
            a,
            s,
            0,
            j,
        ).right is None
    &&& forall|k: int, j: int|
        1 <= k < s.len() - 1 && 0 <= j < lev_len(s, k) ==> {
            &&& (#[trigger] node_at(a, s, k, j)).left is Some
            &&& node_at(a, s, k, j).left->0@ == s[k - 1] + 2 * j + 1
            &&& (2 * j + 1 < lev_len(s, k - 1) ==> node_at(a, s, k, j).right is Some && node_at(
                a,
                s,
                k,
                j,
            ).right->0@ == s[k - 1] + 2 * j + 2)
            &&& (2 * j + 1 >= lev_len(s, k - 1) ==> node_at(a, s, k, j).right is None)
        }
}

/// Levels that shrink by halves rounded up keep covering the leaves:
/// `2^k` entries of width 1 at level `k` span all of level 0.
pub proof fn lemma_sparse_coverage(s: Seq<usize>, k: int)
    requires
        starts_wf(s),
        forall|m: int| 0 <= m < s.len() - 2 ==> #[trigger] ceil_level(s, m),
        0 <= k < s.len() - 1,
    ensures
        pow2(k as nat) * lev_len(s, k) >= lev_len(s, 0),
    decreases k,
{
    lemma2_to64();
    if k == 0 {
        assert(pow2(0) * lev_len(s, 0) == lev_len(s, 0));
    } else {
        lemma_sparse_coverage(s, k - 1);
        let h = pow2((k - 1) as nat) as int;
        let prev = lev_len(s, k - 1);
        let cur = lev_len(s, k);
        vstd::arithmetic::power2::lemma_pow2_unfold(k as nat);
        vstd::arithmetic::power2::lemma_pow2_pos((k - 1) as nat);
        assert(ceil_level(s, k - 1));
        lemma_fundamental_div_mod(prev + 1, 2);
        lemma_mod_bound(prev + 1, 2);
        assert(prev <= 2 * cur);
        assert(h * prev >= lev_len(s, 0));
        assert((2 * h) * cur >= h * prev) by (nonlinear_arith)
            requires
                h > 0 && prev <= 2 * cur,
        ;
        assert(pow2(k as nat) * cur == (2 * h) * cur) by (nonlinear_arith)
            requires
                pow2(k as nat) == 2 * h,
        ;
    }
}

/// A leaf's ancestor at level `k` sits at position `x / 2^k`, inside the
/// level, when levels shrink by halves rounded up.
pub proof fn lemma_sparse_ancestor(s: Seq<usize>, x: int, k: int)
    requires
        starts_wf(s),
        forall|m: int| 0 <= m < s.len() - 2 ==> #[trigger] ceil_level(s, m),
        0 <= x < lev_len(s, 0),
        0 <= k < s.len() - 1,
    ensures
        0 <= (x / pow2(k as nat) as int) < lev_len(s, k),
    decreases k,
{
    lemma2_to64();
    if k == 0 {
        lemma_div_basics(x);
    } else {
        lemma_sparse_ancestor(s, x, k - 1);
        let h = pow2((k - 1) as nat) as int;
        let prev = lev_len(s, k - 1);
        let cur = lev_len(s, k);
        vstd::arithmetic::power2::lemma_pow2_pos((k - 1) as nat);
        let q = x / h;
        lemma_half_step(x, k - 1);
        assert(ceil_level(s, k - 1));
        vstd::arithmetic::div_mod::lemma_div_pos_is_pos(q, 2);
        vstd::arithmetic::div_mod::lemma_div_is_ordered(q, prev - 1, 2);
        lemma_fundamental_div_mod(prev - 1, 2);
        lemma_mod_bound(prev - 1, 2);
        lemma_fundamental_div_mod(prev + 1, 2);
        lemma_mod_bound(prev + 1, 2);
        assert((prev - 1) / 2 < cur);
    }
}

/// A root-to-leaf path through the sparse tree, advanced one stored link
/// at a time. At each level the next hop is decided by one bit of the
/// logical index: the quotient chain `index / 2^k` holds exactly those
/// bits. The walk starts `offset` levels above the leaves and ends at
/// level `stop`.
pub struct NodePath {
    index: usize,
    quotients: Vec<usize>,
    offset: usize,
    stop: usize,
    current: Id,
}

impl NodePath {
    /// The logical leaf index whose path this is.
    pub closed spec fn index_of(self) -> int {
        self.index as int
    }

    /// How many levels above the leaves the walk currently stands.
    pub closed spec fn offset_of(self) -> int {
        self.offset as int
    }

    /// The level at which the walk ends.
    pub closed spec fn stop_of(self) -> int {
        self.stop as int
    }

    /// The handle of the node the walk currently stands on.
    pub closed spec fn current_id(self) -> int {
        self.current@
    }

    /// The quotient chain is complete for a tree of the given degree.
    pub closed spec fn chain_wf(self, degree: int) -> bool {
        &&& self.quotients@.len() == degree + 1
        &&& self.stop <= self.offset <= degree
        &&& forall|m: int|
            0 <= m <= degree ==> (#[trigger] self.quotients@[m]) as int == self.index as int
                / pow2(m as nat) as int
    }

    /// The walk stands on the ancestor of its leaf at its current level,
    /// under offset table `s`.
    pub open spec fn at_node(self, s: Seq<usize>) -> bool {
        self.current_id() == s[self.offset_of()] + (self.index_of() / pow2(
            self.offset_of() as nat,
        ) as int) + 1
    }

    /// Starts a walk for logical index `index` at node `start`, `tree_degree`
    /// levels above the leaves, computing the index's quotient chain.
    pub fn from_index(index: usize, start: Id, tree_degree: usize) -> (r: NodePath)
        requires
            tree_degree < usize::MAX,
        ensures
            r.index_of() == index,
            r.offset_of() == tree_degree,
            r.stop_of() == 0,
            r.current_id() == start@,
            r.chain_wf(tree_degree as int),
    {
        let mut quotients: Vec<usize> = Vec::new();
        quotients.push(index);
        proof {
            lemma2_to64();
            lemma_div_basics(index as int);
        }
        let mut q = index;
        let mut i: usize = 0;
        while i < tree_degree
            invariant
                i <= tree_degree,
                quotients@.len() == i + 1,
                q as int == index as int / pow2(i as nat) as int,
                forall|m: int|
                    0 <= m <= i ==> (#[trigger] quotients@[m]) as int == index as int / pow2(
                        m as nat,
                    ) as int,
            decreases tree_degree - i,
        {
            proof {
                lemma_half_step(index as int, i as int);
            }
            q = q / 2;
            quotients.push(q);
            i += 1;
        }
        NodePath { index, quotients, offset: tree_degree, stop: 0, current: start }
    }

    /// Follows one stored link downwards: left when the next bit of the
    /// index is 0, right when it is 1. Yields nothing once the walk has
    /// reached its stop level.
    pub(crate) fn step(
        &mut self,
        arena: &Arena<PhysicalIdBinaryTreeNode>,
        Ghost(s): Ghost<Seq<usize>>,
    ) -> (r: Option<Id>)
        requires
            sparse_links_wf(arena@, s),
            old(self).chain_wf(s.len() - 2),
            old(self).index_of() < lev_len(s, 0),
            old(self).at_node(s),
        ensures
            final(self).chain_wf(s.len() - 2),
            final(self).index_of() == old(self).index_of(),
            final(self).stop_of() == old(self).stop_of(),
            old(self).offset_of() == old(self).stop_of() ==> r is None && *final(self) == *old(
                self,
            ),
            old(self).offset_of() > old(self).stop_of() ==> {
                &&& r is Some
                &&& final(self).offset_of() == old(self).offset_of() - 1
                &&& final(self).at_node(s)
                &&& r->0@ == final(self).current_id()
            },
    {
        if self.offset == self.stop {
            return None;
        }
        let ghost off = self.offset as int;
        let ghost pos = self.index as int / pow2(off as nat) as int;
        proof {
            lemma_sparse_ancestor(s, self.index as int, off);
            lemma_sparse_ancestor(s, self.index as int, off - 1);
            lemma_starts_monotone(s, off + 1, s.len() - 1);
            lemma_half_step(self.index as int, off - 1);
            let t = self.quotients@[off - 1] as int;
            lemma_fundamental_div_mod(t, 2);
            lemma_mod_bound(t, 2);
        }
        let node = arena.get(&self.current);
        let target = self.quotients[self.offset - 1];
        let here = self.quotients[self.offset];
        proof {
            assert(*node == node_at(arena@, s, off, pos));
            assert(here as int == pos);
            assert(target as int == self.index as int / pow2((off - 1) as nat) as int);
            assert(target as int == 2 * pos || target as int == 2 * pos + 1);
            if target as int == 2 * pos {
                assert(node_at(arena@, s, off, pos).left is Some);
                assert(node_at(arena@, s, off, pos).left->0@ == s[off - 1] + 2 * pos + 1);
            } else {
                assert((target as int) < lev_len(s, off - 1));
                assert(node_at(arena@, s, off, pos).right is Some);
                assert(node_at(arena@, s, off, pos).right->0@ == s[off - 1] + 2 * pos + 2);
            }
        }
        let next_opt = if target == 2 * here {
            node.left
        } else {
            node.right
        };
        let id = next_opt.unwrap();
        self.current = id;
        self.offset = self.offset - 1;
        Some(id)
    }
}

} // verus!
