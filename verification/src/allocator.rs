//! The buddy allocation system over a binary tree of 2-bit node states.
//!
//! A tree of order `k` manages `2^k` minimal units.  Node `i`'s children are
//! `2i+1` and `2i+2`; the root is node `0` and spans the whole unit range.
//! Each node holds one of four states: `UNUSED` (the whole span is free,
//! whatever stale bits its descendants hold), `USED` (the whole span was
//! granted as one block), `SPLIT` (both children are meaningful), and `FULL`
//! (split, with both children entirely granted).

use vstd::arithmetic::power2::{
    lemma2_to64, lemma_pow2_adds, lemma_pow2_pos, lemma_pow2_strictly_increases, pow2,
};
use vstd::prelude::*;

use crate::bitv::Bitv;

verus! {

/// Node state: the whole span is free.
pub const UNUSED: u8 = 0;

/// Node state: the span was granted as one block.
pub const USED: u8 = 1;

/// Node state: the node was split; its children are meaningful.
pub const SPLIT: u8 = 2;

/// Node state: split, and both children are entirely granted.
pub const FULL: u8 = 3;

/// The largest supported tree order: node indices of an order-30 tree still
/// fit a 32-bit `usize`.
pub const MAX_ORDER: usize = 30;

/// Whether node `j` lies in the subtree rooted at node `i` (including `i`).
pub open spec fn descendant(i: int, j: int) -> bool
    decreases (if j > 0 {
        j
    } else {
        0
    }),
{
    if j < i {
        false
    } else if j == i {
        true
    } else if j <= 0 {
        false
    } else {
        descendant(i, (j - 1) / 2)
    }
}

/// Well-formedness of the subtree rooted at `i`, spanning `pow2(lvl)` units:
/// states are in range, split nodes sit above the leaf level, and a `FULL`
/// node has both children entirely granted.
pub open spec fn valid(t: Seq<u8>, i: int, lvl: nat) -> bool
    decreases lvl,
{
    &&& 0 <= i < t.len()
    &&& t[i] <= 3
    &&& (t[i] == SPLIT || t[i] == FULL) ==> (lvl > 0 && valid(t, 2 * i + 1, (lvl - 1) as nat)
        && valid(t, 2 * i + 2, (lvl - 1) as nat) && (t[i] == FULL ==> granted(t[2 * i + 1])
        && granted(t[2 * i + 2])) && (t[i] == SPLIT ==> !(t[2 * i + 1] == UNUSED && t[2 * i + 2]
        == UNUSED)))
}

/// Whether a node state stands for an entirely granted span.
pub open spec fn granted(s: u8) -> bool {
    s == USED || s == FULL
}

/// The live allocations of the subtree rooted at `i`, which starts at
/// absolute unit offset `off` and spans `pow2(lvl)` units: a map from each
/// granted block's start offset to its size.
pub open spec fn blocks(t: Seq<u8>, i: int, lvl: nat, off: int) -> Map<int, int>
    decreases lvl,
{
    if t[i] == USED {
        Map::empty().insert(off, pow2(lvl) as int)
    } else if (t[i] == SPLIT || t[i] == FULL) && lvl > 0 {
        blocks(t, 2 * i + 1, (lvl - 1) as nat, off).union_prefer_right(
            blocks(t, 2 * i + 2, (lvl - 1) as nat, off + pow2((lvl - 1) as nat)),
        )
    } else {
        Map::empty()
    }
}

/// Whether the subtree rooted at `i` still holds a free block of
/// `pow2(target)` units.
pub open spec fn avail(t: Seq<u8>, i: int, lvl: nat, target: nat) -> bool
    decreases lvl,
{
    if t[i] == UNUSED {
        lvl >= target
    } else if t[i] == SPLIT && lvl > target {
        avail(t, 2 * i + 1, (lvl - 1) as nat, target) || avail(
            t,
            2 * i + 2,
            (lvl - 1) as nat,
            target,
        )
    } else {
        false
    }
}

/// Whether a grant of `pow2(target)` units could start at unit offset `o`
/// within the subtree rooted at `i`, whose span starts at `off`.
pub open spec fn claimable(t: Seq<u8>, i: int, lvl: nat, off: int, target: nat, o: int) -> bool
    decreases lvl,
{
    if t[i] == UNUSED {
        lvl >= target && off <= o < off + pow2(lvl)
    } else if t[i] == SPLIT && lvl > target {
        if o < off + pow2((lvl - 1) as nat) {
            claimable(t, 2 * i + 1, (lvl - 1) as nat, off, target, o)
        } else {
            claimable(t, 2 * i + 2, (lvl - 1) as nat, off + pow2((lvl - 1) as nat), target, o)
        }
    } else {
        false
    }
}

/// The total of the granted block sizes in the subtree rooted at `i`.
pub open spec fn used_units(t: Seq<u8>, i: int, lvl: nat) -> int
    decreases lvl,
{
    if t[i] == USED {
        pow2(lvl) as int
    } else if (t[i] == SPLIT || t[i] == FULL) && lvl > 0 {
        used_units(t, 2 * i + 1, (lvl - 1) as nat) + used_units(t, 2 * i + 2, (lvl - 1) as nat)
    } else {
        0
    }
}

/// Whether unit offset `x` lies inside some granted block of `m`.
pub open spec fn covered(m: Map<int, int>, x: int) -> bool {
    exists|b: int| m.dom().contains(b) && b <= x < b + m[b]
}

/// The start of the granted block of `m` that holds `x` (meaningful only
/// when `covered(m, x)`; unique whenever `m`'s blocks do not overlap).
pub open spec fn block_start(m: Map<int, int>, x: int) -> int {
    choose|b: int| m.dom().contains(b) && b <= x < b + m[b]
}

/// Whether the blocks of `m` are pairwise disjoint.
pub open spec fn no_overlap(m: Map<int, int>) -> bool {
    forall|b1: int, b2: int|
        m.dom().contains(b1) && m.dom().contains(b2) && b1 < b2 ==> b1 + m[b1] <= b2
}

/// Whether node `i` sits at depth `order - lvl` of an order-`order` tree
/// with its span starting at absolute unit offset `off`.
pub open spec fn position(order: nat, i: int, lvl: nat, off: int) -> bool {
    &&& lvl <= order
    &&& pow2((order - lvl) as nat) <= i + 1 < 2 * pow2((order - lvl) as nat)
    &&& off == (i + 1 - pow2((order - lvl) as nat)) * pow2(lvl)
}

/// The smallest level whose span, `pow2` of it, reaches `size` units.
pub open spec fn request_level(size: nat) -> nat
    decreases size,
{
    if size <= 1 {
        0
    } else {
        (1 + request_level(((size + 1) / 2) as nat)) as nat
    }
}

proof fn lemma_descendant_self(i: int)
    ensures
        descendant(i, i),
{
}

proof fn lemma_descendant_ge(i: int, j: int)
    ensures
        descendant(i, j) ==> j >= i,
    decreases (if j > 0 {
        j
    } else {
        0
    }),
{
}

proof fn lemma_descendant_child(i: int, j: int)
    requires
        i >= 0,
    ensures
        descendant(2 * i + 1, j) ==> descendant(i, j),
        descendant(2 * i + 2, j) ==> descendant(i, j),
        descendant(i, j) && j != i ==> (descendant(2 * i + 1, j) || descendant(2 * i + 2, j)),
    decreases (if j > 0 {
        j
    } else {
        0
    }),
{
    reveal_with_fuel(descendant, 4);
    if j > 2 * i + 2 {
        lemma_descendant_child(i, (j - 1) / 2);
    }
}

proof fn lemma_siblings_disjoint(i: int, j: int)
    requires
        i >= 0,
    ensures
        !(descendant(2 * i + 1, j) && descendant(2 * i + 2, j)),
    decreases (if j > 0 {
        j
    } else {
        0
    }),
{
    reveal_with_fuel(descendant, 4);
    if j > 2 * i + 2 {
        lemma_siblings_disjoint(i, (j - 1) / 2);
    }
}

/// A node's position hands its children theirs, and bounds index and offset.
proof fn lemma_position_child(order: nat, i: int, lvl: nat, off: int)
    requires
        position(order, i, lvl, off),
    ensures
        lvl > 0 ==> position(order, 2 * i + 1, (lvl - 1) as nat, off),
        lvl > 0 ==> position(order, 2 * i + 2, (lvl - 1) as nat, off + pow2((lvl - 1) as nat)),
        0 <= i && i + 1 < pow2((order + 1) as nat),
        0 <= off && off + pow2(lvl) <= pow2(order),
        off % (pow2(lvl) as int) == 0,
{
    let d = (order - lvl) as nat;
    lemma_pow2_pos(d);
    lemma_pow2_pos(lvl);
    lemma_pow2_adds(d, lvl);
    lemma_pow2_adds(d, 1);
    assert(pow2((order + 1) as nat) == 2 * pow2(order)) by {
        lemma_pow2_adds(order, 1);
        lemma2_to64();
    }
    assert(pow2(order) == pow2(d) * pow2(lvl));
    // index bound: i + 1 < 2 * pow2(d) <= 2 * pow2(order) = pow2(order + 1)
    assert(pow2(d) <= pow2(order)) by {
        if d < order {
            lemma_pow2_strictly_increases(d, order);
        }
    }
    // offset bound: off = (i + 1 - pow2(d)) * pow2(lvl) with i + 1 - pow2(d) < pow2(d)
    let q = i + 1 - pow2(d);
    assert(0 <= q < pow2(d));
    assert(off == q * pow2(lvl));
    assert(q * pow2(lvl) >= 0) by (nonlinear_arith)
        requires
            q >= 0,
            pow2(lvl) >= 1,
    ;
    assert(q * pow2(lvl) + pow2(lvl) <= pow2(d) * pow2(lvl)) by (nonlinear_arith)
        requires
            q < pow2(d),
            pow2(lvl) >= 1,
    ;
    assert(off % (pow2(lvl) as int) == 0) by {
        vstd::arithmetic::div_mod::lemma_mod_multiples_basic(q, pow2(lvl) as int);
    }
    if lvl > 0 {
        let l = (lvl - 1) as nat;
        lemma_pow2_adds((d + 1) as nat, l);
        assert(pow2((d + 1) as nat) == 2 * pow2(d)) by {
            lemma_pow2_adds(d, 1);
            lemma2_to64();
        }
        assert(pow2(lvl) == 2 * pow2(l)) by {
            lemma_pow2_adds(l, 1);
            lemma2_to64();
        }
        // left child: index 2i+1, span starts at off
        assert((2 * i + 1 + 1 - pow2((d + 1) as nat)) * pow2(l) == (i + 1 - pow2(d)) * pow2(lvl))
            by (nonlinear_arith)
            requires
                pow2((d + 1) as nat) == 2 * pow2(d),
                pow2(lvl) == 2 * pow2(l),
        ;
        // right child: index 2i+2, span starts at off + pow2(l)
        assert((2 * i + 2 + 1 - pow2((d + 1) as nat)) * pow2(l) == (i + 1 - pow2(d)) * pow2(lvl)
            + pow2(l)) by (nonlinear_arith)
            requires
                pow2((d + 1) as nat) == 2 * pow2(d),
                pow2(lvl) == 2 * pow2(l),
        ;
        assert(order - l == d + 1);
    }
}

/// `valid`, `blocks` and `used_units` read only the subtree's own cells.
proof fn lemma_subtree_frame(t1: Seq<u8>, t2: Seq<u8>, i: int, lvl: nat, off: int)
    requires
        t1.len() == t2.len(),
        i >= 0,
        valid(t1, i, lvl),
        forall|j: int| 0 <= j < t1.len() && descendant(i, j) ==> t1[j] == t2[j],
    ensures
        valid(t2, i, lvl),
        blocks(t2, i, lvl, off) == blocks(t1, i, lvl, off),
        used_units(t2, i, lvl) == used_units(t1, i, lvl),
    decreases lvl,
{
    lemma_descendant_self(i);
    assert(t2[i] == t1[i]);
    if t1[i] == SPLIT || t1[i] == FULL {
        let l = (lvl - 1) as nat;
        assert forall|j: int|
            0 <= j < t1.len() && (descendant(2 * i + 1, j) || descendant(2 * i + 2, j)) implies t1[j]
            == t2[j] by {
            lemma_descendant_child(i, j);
        }
        lemma_subtree_frame(t1, t2, 2 * i + 1, l, off);
        lemma_subtree_frame(t1, t2, 2 * i + 2, l, off + pow2(l));
        lemma_descendant_self(2 * i + 1);
        lemma_descendant_self(2 * i + 2);
    }
}

/// In a well-formed subtree the granted blocks lie inside the subtree's
/// span, have positive sizes, and are pairwise disjoint.
proof fn lemma_blocks_wf(t: Seq<u8>, i: int, lvl: nat, off: int)
    requires
        valid(t, i, lvl),
    ensures
        forall|b: int| #[trigger]
            blocks(t, i, lvl, off).dom().contains(b) ==> off <= b && 0 < blocks(t, i, lvl, off)[b]
                && b + blocks(t, i, lvl, off)[b] <= off + pow2(lvl),
        no_overlap(blocks(t, i, lvl, off)),
    decreases lvl,
{
    lemma_pow2_pos(lvl);
    let m = blocks(t, i, lvl, off);
    if t[i] == USED {
    } else if (t[i] == SPLIT || t[i] == FULL) && lvl > 0 {
        let l = (lvl - 1) as nat;
        let ml = blocks(t, 2 * i + 1, l, off);
        let mr = blocks(t, 2 * i + 2, l, off + pow2(l));
        lemma_blocks_wf(t, 2 * i + 1, l, off);
        lemma_blocks_wf(t, 2 * i + 2, l, off + pow2(l));
        assert(pow2(lvl) == 2 * pow2(l)) by {
            lemma_pow2_adds(l, 1);
            lemma2_to64();
        }
        assert forall|b: int| #[trigger] m.dom().contains(b) implies off <= b && 0 < m[b] && b
            + m[b] <= off + pow2(lvl) by {
            if mr.dom().contains(b) {
                assert(m[b] == mr[b]);
            } else {
                assert(ml.dom().contains(b));
                assert(m[b] == ml[b]);
            }
        }
        assert forall|b1: int, b2: int|
            m.dom().contains(b1) && m.dom().contains(b2) && b1 < b2 implies b1 + m[b1] <= b2 by {
            if ml.dom().contains(b1) && mr.dom().contains(b2) {
                assert(b1 + ml[b1] <= off + pow2(l) <= b2);
                assert(!mr.dom().contains(b1));
            } else if ml.dom().contains(b2) && mr.dom().contains(b1) {
                assert(b1 >= off + pow2(l) && b2 + ml[b2] <= off + pow2(l));
                assert(false);
            }
        }
    }
}

/// In a well-formed subtree the granted total never exceeds the span.
proof fn lemma_used_bounded(t: Seq<u8>, i: int, lvl: nat)
    requires
        valid(t, i, lvl),
    ensures
        0 <= used_units(t, i, lvl) <= pow2(lvl),
    decreases lvl,
{
    lemma_pow2_pos(lvl);
    if (t[i] == SPLIT || t[i] == FULL) && lvl > 0 {
        let l = (lvl - 1) as nat;
        lemma_used_bounded(t, 2 * i + 1, l);
        lemma_used_bounded(t, 2 * i + 2, l);
        assert(pow2(lvl) == 2 * pow2(l)) by {
            lemma_pow2_adds(l, 1);
            lemma2_to64();
        }
    }
}

proof fn lemma_union_insert_left(a: Map<int, int>, b: Map<int, int>, k: int, v: int)
    requires
        !b.dom().contains(k),
    ensures
        a.insert(k, v).union_prefer_right(b) == a.union_prefer_right(b).insert(k, v),
{
    assert(a.insert(k, v).union_prefer_right(b) =~= a.union_prefer_right(b).insert(k, v));
}

proof fn lemma_union_insert_right(a: Map<int, int>, b: Map<int, int>, k: int, v: int)
    ensures
        a.union_prefer_right(b.insert(k, v)) == a.union_prefer_right(b).insert(k, v),
{
    assert(a.union_prefer_right(b.insert(k, v)) =~= a.union_prefer_right(b).insert(k, v));
}

proof fn lemma_union_remove_left(a: Map<int, int>, b: Map<int, int>, k: int)
    requires
        !b.dom().contains(k),
    ensures
        a.remove(k).union_prefer_right(b) == a.union_prefer_right(b).remove(k),
{
    assert(a.remove(k).union_prefer_right(b) =~= a.union_prefer_right(b).remove(k));
}

proof fn lemma_union_remove_right(a: Map<int, int>, b: Map<int, int>, k: int)
    requires
        !a.dom().contains(k),
    ensures
        a.union_prefer_right(b.remove(k)) == a.union_prefer_right(b).remove(k),
{
    assert(a.union_prefer_right(b.remove(k)) =~= a.union_prefer_right(b).remove(k));
}

/// With pairwise-disjoint blocks, at most one block covers an offset.
proof fn lemma_cover_unique(m: Map<int, int>, x: int, b1: int, b2: int)
    requires
        no_overlap(m),
        m.dom().contains(b1) && b1 <= x < b1 + m[b1],
        m.dom().contains(b2) && b2 <= x < b2 + m[b2],
    ensures
        b1 == b2,
{
}

/// Any offset a grant could start at witnesses availability.
proof fn lemma_claimable_avail(t: Seq<u8>, i: int, lvl: nat, off: int, target: nat, o: int)
    requires
        claimable(t, i, lvl, off, target, o),
    ensures
        avail(t, i, lvl, target),
    decreases lvl,
{
    if t[i] == UNUSED {
    } else {
        let half = off + pow2((lvl - 1) as nat);
        if o < half {
            lemma_claimable_avail(t, 2 * i + 1, (lvl - 1) as nat, off, target, o);
        } else {
            lemma_claimable_avail(t, 2 * i + 2, (lvl - 1) as nat, half, target, o);
        }
    }
}

/// No level above the subtree's own can be satisfied from it.
pub proof fn lemma_avail_level_too_high(t: Seq<u8>, i: int, lvl: nat, target: nat)
    requires
        target > lvl,
    ensures
        !avail(t, i, lvl, target),
{
}

/// Exact power of two, as an executable value.
pub fn pow2_usize(k: usize) -> (r: usize)
    requires
        k <= 31,
    ensures
        r == pow2(k as nat),
{
    proof {
        lemma2_to64();
        vstd::bits::lemma_usize_shl_is_mul(1usize, k);
        if k < 31 {
            lemma_pow2_strictly_increases(k as nat, 31);
        }
    }
    1usize << k
}

} // verus!

verus! {

/// The buddy allocator: an order-`k` binary tree of node states over
/// `pow2(k)` minimal units, packed into a [`Bitv`].
pub struct BuddyAlloc {
    order: usize,
    tree: Bitv,
}

impl BuddyAlloc {
    /// The tree's order: it manages `pow2` of it many units.
    pub closed spec fn order_spec(&self) -> nat {
        self.order as nat
    }

    /// The packed node states.
    pub closed spec fn tree_view(&self) -> Seq<u8> {
        self.tree@
    }

    /// Well-formedness: the storage covers the whole tree and every
    /// reachable node state is consistent.
    pub open spec fn wf(&self) -> bool {
        &&& self.order_spec() <= MAX_ORDER
        &&& self.tree_view().len() >= pow2((self.order_spec() + 1) as nat)
        &&& valid(self.tree_view(), 0, self.order_spec())
    }

    /// The managed unit count.
    pub open spec fn capacity(&self) -> int {
        pow2(self.order_spec()) as int
    }

    /// The live allocations: each granted block's start offset and size.
    pub open spec fn live(&self) -> Map<int, int> {
        blocks(self.tree_view(), 0, self.order_spec(), 0)
    }

    /// The total of the granted sizes.
    pub open spec fn used(&self) -> int {
        used_units(self.tree_view(), 0, self.order_spec())
    }

    /// Whether a free block of `pow2(target)` units is still available.
    pub open spec fn free_at(&self, target: nat) -> bool {
        avail(self.tree_view(), 0, self.order_spec(), target)
    }

    /// Builds an allocator of the given order over `storage`, which must
    /// hold a cell for every tree node; the whole range starts free.
    pub fn new(order: usize, storage: Bitv) -> (r: BuddyAlloc)
        requires
            order <= MAX_ORDER,
            storage@.len() >= pow2((order + 1) as nat),
        ensures
            r.wf(),
            r.order_spec() == order,
            r.live() == Map::<int, int>::empty(),
            r.used() == 0,
            forall|target: nat| target <= order ==> r.free_at(target),
            forall|i: int| 0 <= i < r.tree_view().len() ==> r.tree_view()[i] == UNUSED,
    {
        let mut storage = storage;
        storage.clear();
        let r = BuddyAlloc { order, tree: storage };
        proof {
            lemma_pow2_pos((order + 1) as nat);
            assert(r.tree_view()[0] == UNUSED);
            assert(r.live() =~= Map::<int, int>::empty());
        }
        r
    }

    /// The tree's order.
    pub fn order_exec(&self) -> (r: usize)
        ensures
            r == self.order_spec(),
    {
        self.order
    }

    fn node(&self, i: usize) -> (r: u8)
        requires
            i < self.tree_view().len(),
        ensures
            r == self.tree_view()[i as int],
            r < 4,
    {
        self.tree.get(i)
    }

    fn set_node(&mut self, i: usize, x: u8)
        requires
            i < old(self).tree_view().len(),
            x < 4,
        ensures
            final(self).order_spec() == old(self).order_spec(),
            final(self).tree_view() == old(self).tree_view().update(i as int, x),
    {
        self.tree.set(i, x);
        proof {
            assert(self.tree_view() =~= old(self).tree_view().update(i as int, x));
        }
    }

    /// Depth-first search for a free node of span `pow2(target)` in the
    /// subtree rooted at `index`, preferring the left child; claims it and
    /// marks every ancestor whose children are then both entirely granted.
    #[verifier::rlimit(100)]
    fn try_alloc(&mut self, index: usize, lvl: usize, target: usize, off: usize) -> (r: Option<
        usize,
    >)
        requires
            old(self).order_spec() <= MAX_ORDER,
            old(self).tree_view().len() >= pow2((old(self).order_spec() + 1) as nat),
            valid(old(self).tree_view(), index as int, lvl as nat),
            position(old(self).order_spec(), index as int, lvl as nat, off as int),
            target <= lvl,
        ensures
            final(self).order_spec() == old(self).order_spec(),
            final(self).tree_view().len() == old(self).tree_view().len(),
            r is None ==> *final(self) == *old(self) && !avail(
                old(self).tree_view(),
                index as int,
                lvl as nat,
                target as nat,
            ),
            r matches Some(o) ==> valid(final(self).tree_view(), index as int, lvl as nat),
            r matches Some(o) ==> forall|j: int|
                0 <= j < old(self).tree_view().len() && !descendant(index as int, j)
                    ==> final(self).tree_view()[j] == old(self).tree_view()[j],
            r matches Some(o) ==> final(self).tree_view()[index as int] != UNUSED,
            r matches Some(o) ==> off <= o && o + pow2(target as nat) <= off + pow2(lvl as nat) && (
            o as int) % (pow2(target as nat) as int) == 0,
            r matches Some(o) ==> blocks(
                final(self).tree_view(),
                index as int,
                lvl as nat,
                off as int,
            ) == blocks(old(self).tree_view(), index as int, lvl as nat, off as int).insert(
                o as int,
                pow2(target as nat) as int,
            ),
            r matches Some(o) ==> !blocks(
                old(self).tree_view(),
                index as int,
                lvl as nat,
                off as int,
            ).dom().contains(o as int),
            r matches Some(o) ==> avail(
                old(self).tree_view(),
                index as int,
                lvl as nat,
                target as nat,
            ),
            r matches Some(o) ==> used_units(final(self).tree_view(), index as int, lvl as nat)
                == used_units(old(self).tree_view(), index as int, lvl as nat) + pow2(
                target as nat,
            ),
            r matches Some(o) ==> (old(self).tree_view()[index as int] == UNUSED ==> o == off),
            r matches Some(o) ==> forall|x: int|
                off <= x < o ==> !claimable(
                    old(self).tree_view(),
                    index as int,
                    lvl as nat,
                    off as int,
                    target as nat,
                    x,
                ),
        decreases lvl,
    {
        proof {
            lemma_position_child(old(self).order_spec(), index as int, lvl as nat, off as int);
            lemma2_to64();
            if old(self).order_spec() < 31 {
                lemma_pow2_strictly_increases((old(self).order_spec() + 1) as nat, 32);
            }
            lemma_descendant_self(index as int);
        }
        let ghost t0 = old(self).tree_view();
        let ghost ord = old(self).order_spec();
        let s = self.node(index);
        if lvl == target {
            if s == UNUSED {
                self.set_node(index, USED);
                proof {
                    let t1 = self.tree_view();
                    assert(blocks(t1, index as int, lvl as nat, off as int) =~= blocks(
                        t0,
                        index as int,
                        lvl as nat,
                        off as int,
                    ).insert(off as int, pow2(target as nat) as int));
                }
                Some(off)
            } else {
                None
            }
        } else if s == UNUSED || s == SPLIT {
            let left: usize = 2 * index + 1;
            let right: usize = 2 * index + 2;
            proof {
                lemma_position_child(ord, 2 * index as int + 1, (lvl - 1) as nat, off as int);
                lemma_position_child(
                    ord,
                    2 * index as int + 2,
                    (lvl - 1) as nat,
                    off + pow2((lvl - 1) as nat),
                );
            }
            if s == UNUSED {
                self.set_node(index, SPLIT);
                self.set_node(left, UNUSED);
                self.set_node(right, UNUSED);
                proof {
                    let t1 = self.tree_view();
                    assert(t1[index as int] == SPLIT && t1[left as int] == UNUSED && t1[right
                        as int] == UNUSED);
                    assert(valid(t1, left as int, (lvl - 1) as nat));
                    assert(valid(t1, right as int, (lvl - 1) as nat));
                    assert(blocks(t1, left as int, (lvl - 1) as nat, off as int) =~= Map::<
                        int,
                        int,
                    >::empty());
                    assert(blocks(
                        t1,
                        right as int,
                        (lvl - 1) as nat,
                        off + pow2((lvl - 1) as nat),
                    ) =~= Map::<int, int>::empty());
                    assert(blocks(t1, index as int, lvl as nat, off as int) =~= Map::<
                        int,
                        int,
                    >::empty());
                    assert(blocks(t0, index as int, lvl as nat, off as int) =~= Map::<
                        int,
                        int,
                    >::empty());
                }
            }
            let half = pow2_usize(lvl - 1);
            let ghost ta = self.tree_view();
            proof {
                assert(valid(ta, left as int, (lvl - 1) as nat));
                assert(valid(ta, right as int, (lvl - 1) as nat));
                assert(pow2(lvl as nat) == 2 * pow2((lvl - 1) as nat)) by {
                    lemma_pow2_adds((lvl - 1) as nat, 1);
                    lemma2_to64();
                }
                lemma_blocks_wf(ta, left as int, (lvl - 1) as nat, off as int);
                lemma_blocks_wf(ta, right as int, (lvl - 1) as nat, off + pow2((lvl - 1) as nat));
            }
            let mut r = self.try_alloc(left, lvl - 1, target, off);
            let ghost tb = self.tree_view();
            let ghost left_won = r is Some;
            if r.is_none() {
                proof {
                    assert(*self == *old(self) || s == SPLIT);
                    if s == UNUSED {
                        assert(avail(ta, left as int, (lvl - 1) as nat, target as nat));
                        assert(false);
                    }
                }
                r = self.try_alloc(right, lvl - 1, target, off + half);
            }
            let ghost tm = self.tree_view();
            match r {
                Some(o) => {
                    proof {
                        let tc = tm;
                        // the untouched sibling keeps its state and blocks
                        if left_won {
                            assert forall|j: int|
                                0 <= j < ta.len() && descendant(right as int, j) implies tb[j]
                                == ta[j] by {
                                lemma_siblings_disjoint(index as int, j);
                            }
                            lemma_subtree_frame(
                                ta,
                                tb,
                                right as int,
                                (lvl - 1) as nat,
                                off + pow2((lvl - 1) as nat),
                            );
                            assert(!descendant(left as int, index as int)) by {
                                lemma_descendant_ge(left as int, index as int);
                            }
                            assert(tb[index as int] == ta[index as int]);
                        } else {
                            assert(tb == ta);
                            assert forall|j: int|
                                0 <= j < ta.len() && descendant(left as int, j) implies tc[j]
                                == tb[j] by {
                                lemma_siblings_disjoint(index as int, j);
                            }
                            lemma_subtree_frame(tb, tc, left as int, (lvl - 1) as nat, off as int);
                            assert(!descendant(right as int, index as int)) by {
                                lemma_descendant_ge(right as int, index as int);
                            }
                            assert(tc[index as int] == ta[index as int]);
                        }
                    }
                    let ls = self.node(left);
                    let rs = self.node(right);
                    if (ls == USED || ls == FULL) && (rs == USED || rs == FULL) {
                        self.set_node(index, FULL);
                    }
                    proof {
                        let tc = tm;
                        let td = self.tree_view();
                        let l = (lvl - 1) as nat;
                        let half_off = off + pow2(l);
                        // the final index write leaves both subtrees as they were
                        assert forall|j: int|
                            0 <= j < ta.len() && (descendant(left as int, j) || descendant(
                                right as int,
                                j,
                            )) implies td[j] == tc[j] by {
                            lemma_descendant_ge(left as int, j);
                            lemma_descendant_ge(right as int, j);
                        }
                        lemma_subtree_frame(tc, td, left as int, l, off as int);
                        lemma_subtree_frame(tc, td, right as int, l, half_off);
                        assert(valid(td, left as int, l));
                        assert(valid(td, right as int, l));
                        assert(td[index as int] == SPLIT || td[index as int] == FULL);
                        assert(valid(td, index as int, lvl as nat));
                        // the blocks of the subtree gain exactly the claimed one
                        let bl0 = blocks(ta, left as int, l, off as int);
                        let br0 = blocks(ta, right as int, l, half_off);
                        let pw = pow2(target as nat) as int;
                        if left_won {
                            assert(blocks(td, left as int, l, off as int) == bl0.insert(
                                o as int,
                                pw,
                            ));
                            assert(blocks(td, right as int, l, half_off) == br0);
                            assert(!br0.dom().contains(o as int));
                            lemma_union_insert_left(bl0, br0, o as int, pw);
                        } else {
                            assert(blocks(td, left as int, l, off as int) == bl0);
                            assert(blocks(td, right as int, l, half_off) == br0.insert(
                                o as int,
                                pw,
                            ));
                            lemma_union_insert_right(bl0, br0, o as int, pw);
                            assert(!bl0.dom().contains(o as int));
                        }
                        assert(blocks(td, index as int, lvl as nat, off as int) == blocks(
                            ta,
                            index as int,
                            lvl as nat,
                            off as int,
                        ).insert(o as int, pw));
                        // cells outside this subtree kept their values
                        assert forall|j: int|
                            0 <= j < t0.len() && !descendant(index as int, j) implies td[j]
                            == t0[j] by {
                            lemma_descendant_child(index as int, j);
                        }
                        // availability held before the call
                        if s == SPLIT {
                            assert(ta == t0);
                            assert(avail(t0, index as int, lvl as nat, target as nat));
                        }
                        // first-fit: no grant could have started lower
                        let halfo = off + pow2(l);
                        if s == UNUSED {
                            assert(ta[left as int] == UNUSED);
                            assert(left_won);
                            assert(o == off);
                        } else if left_won {
                            assert forall|x: int|
                                off <= x < o implies !claimable(
                                t0,
                                index as int,
                                lvl as nat,
                                off as int,
                                target as nat,
                                x,
                            ) by {
                                assert(o + pow2(target as nat) <= halfo);
                                assert(x < halfo);
                                assert(!claimable(t0, left as int, l, off as int, target as nat, x));
                            }
                        } else {
                            assert forall|x: int|
                                off <= x < o implies !claimable(
                                t0,
                                index as int,
                                lvl as nat,
                                off as int,
                                target as nat,
                                x,
                            ) by {
                                if x < halfo {
                                    if claimable(t0, left as int, l, off as int, target as nat, x) {
                                        lemma_claimable_avail(
                                            t0,
                                            left as int,
                                            l,
                                            off as int,
                                            target as nat,
                                            x,
                                        );
                                        assert(false);
                                    }
                                } else {
                                    assert(!claimable(t0, right as int, l, halfo, target as nat, x));
                                }
                            }
                        }
                    }
                    Some(o)
                }
                None => {
                    proof {
                        assert(s == SPLIT);
                        assert(!avail(t0, index as int, lvl as nat, target as nat));
                    }
                    None
                }
            }
        } else {
            None
        }
    }
}

} // verus!

verus! {

/// Levels at or below a well-formed tree's own never exceed `pow2(order)`;
/// any exponent not above another gives a power not above the other's.
proof fn lemma_pow2_le(e1: nat, e2: nat)
    requires
        e1 <= e2,
    ensures
        pow2(e1) <= pow2(e2),
{
    if e1 < e2 {
        lemma_pow2_strictly_increases(e1, e2);
    }
}

/// A level that spans the request and whose half does not is the request's.
proof fn lemma_level_unique(s: nat, t: nat)
    requires
        pow2(t) >= s,
        t == 0 || pow2((t - 1) as nat) < s,
    ensures
        t == request_level(s),
    decreases s,
{
    lemma_pow2_pos(t);
    if s <= 1 {
        if t > 0 {
            lemma_pow2_pos((t - 1) as nat);
        }
    } else {
        assert(t >= 1) by {
            if t == 0 {
                assert(pow2(0) == 1) by {
                    lemma2_to64();
                }
            }
        }
        let h = ((s + 1) / 2) as nat;
        assert(pow2(t) == 2 * pow2((t - 1) as nat)) by {
            lemma_pow2_adds((t - 1) as nat, 1);
            lemma2_to64();
        }
        if t >= 2 {
            assert(pow2((t - 1) as nat) == 2 * pow2((t - 2) as nat)) by {
                lemma_pow2_adds((t - 2) as nat, 1);
                lemma2_to64();
            }
        }
        lemma_level_unique(h, (t - 1) as nat);
    }
}

impl BuddyAlloc {
    /// Frees the block whose span holds unit `offset`: descends through
    /// split nodes, releases the granted node it reaches, and merges the
    /// freed node with its buddy as far as both halves are free; a span
    /// that is already free is left untouched.
    #[verifier::rlimit(80)]
    fn release(&mut self, index: usize, lvl: usize, off: usize, offset: usize) -> (r: bool)
        requires
            old(self).order_spec() <= MAX_ORDER,
            old(self).tree_view().len() >= pow2((old(self).order_spec() + 1) as nat),
            valid(old(self).tree_view(), index as int, lvl as nat),
            position(old(self).order_spec(), index as int, lvl as nat, off as int),
            off <= offset < off + pow2(lvl as nat),
        ensures
            final(self).order_spec() == old(self).order_spec(),
            final(self).tree_view().len() == old(self).tree_view().len(),
            !r ==> *final(self) == *old(self) && !covered(
                blocks(old(self).tree_view(), index as int, lvl as nat, off as int),
                offset as int,
            ),
            r ==> valid(final(self).tree_view(), index as int, lvl as nat),
            r ==> forall|j: int|
                0 <= j < old(self).tree_view().len() && !descendant(index as int, j)
                    ==> final(self).tree_view()[j] == old(self).tree_view()[j],
            r ==> covered(
                blocks(old(self).tree_view(), index as int, lvl as nat, off as int),
                offset as int,
            ),
            r ==> blocks(final(self).tree_view(), index as int, lvl as nat, off as int) == blocks(
                old(self).tree_view(),
                index as int,
                lvl as nat,
                off as int,
            ).remove(
                block_start(
                    blocks(old(self).tree_view(), index as int, lvl as nat, off as int),
                    offset as int,
                ),
            ),
            r ==> used_units(final(self).tree_view(), index as int, lvl as nat) == used_units(
                old(self).tree_view(),
                index as int,
                lvl as nat,
            ) - blocks(old(self).tree_view(), index as int, lvl as nat, off as int)[block_start(
                blocks(old(self).tree_view(), index as int, lvl as nat, off as int),
                offset as int,
            )],
            r ==> !granted(final(self).tree_view()[index as int]),
        decreases lvl,
    {
        proof {
            lemma_position_child(old(self).order_spec(), index as int, lvl as nat, off as int);
            lemma2_to64();
            if old(self).order_spec() < 31 {
                lemma_pow2_strictly_increases((old(self).order_spec() + 1) as nat, 32);
            }
            lemma_descendant_self(index as int);
        }
        let ghost t0 = old(self).tree_view();
        let ghost ord = old(self).order_spec();
        let s = self.node(index);
        if s == UNUSED {
            false
        } else if s == USED {
            self.set_node(index, UNUSED);
            proof {
                let m0 = blocks(t0, index as int, lvl as nat, off as int);
                assert(m0.dom().contains(off as int) && off <= offset < off + m0[off as int]);
                assert(covered(m0, offset as int));
                let b = block_start(m0, offset as int);
                assert(m0.dom().contains(b) && b <= offset < b + m0[b]);
                assert(b == off as int);
                assert(blocks(self.tree_view(), index as int, lvl as nat, off as int) =~= m0.remove(
                    off as int,
                ));
            }
            true
        } else {
            let left: usize = 2 * index + 1;
            let right: usize = 2 * index + 2;
            let half = pow2_usize(lvl - 1);
            let ghost l = (lvl - 1) as nat;
            let ghost half_off = off + pow2(l);
            let ghost ml0 = blocks(t0, left as int, l, off as int);
            let ghost mr0 = blocks(t0, right as int, l, half_off);
            let ghost m0 = blocks(t0, index as int, lvl as nat, off as int);
            proof {
                lemma_position_child(ord, left as int, l, off as int);
                lemma_position_child(ord, right as int, l, half_off);
                assert(pow2(lvl as nat) == 2 * pow2(l)) by {
                    lemma_pow2_adds(l, 1);
                    lemma2_to64();
                }
                lemma_blocks_wf(t0, left as int, l, off as int);
                lemma_blocks_wf(t0, right as int, l, half_off);
                lemma_blocks_wf(t0, index as int, lvl as nat, off as int);
            }
            let went_left = offset < off + half;
            let r = if went_left {
                self.release(left, lvl - 1, off, offset)
            } else {
                self.release(right, lvl - 1, off + half, offset)
            };
            let ghost tm = self.tree_view();
            proof {
                if r {
                    // the untouched sibling keeps its state and blocks
                    if went_left {
                        assert forall|j: int|
                            0 <= j < t0.len() && descendant(right as int, j) implies tm[j]
                            == t0[j] by {
                            lemma_siblings_disjoint(index as int, j);
                        }
                        lemma_subtree_frame(t0, tm, right as int, l, half_off);
                    } else {
                        assert forall|j: int|
                            0 <= j < t0.len() && descendant(left as int, j) implies tm[j]
                            == t0[j] by {
                            lemma_siblings_disjoint(index as int, j);
                        }
                        lemma_subtree_frame(t0, tm, left as int, l, off as int);
                    }
                    lemma_descendant_ge(left as int, index as int);
                    lemma_descendant_ge(right as int, index as int);
                    assert(tm[index as int] == s);
                }
            }
            if r {
                let ls = self.node(left);
                let rs = self.node(right);
                if ls == UNUSED && rs == UNUSED {
                    self.set_node(index, UNUSED);
                } else if self.node(index) == FULL {
                    self.set_node(index, SPLIT);
                }
                proof {
                    let td = self.tree_view();
                    // the final index write leaves both subtrees as they were
                    assert forall|j: int|
                        0 <= j < t0.len() && (descendant(left as int, j) || descendant(
                            right as int,
                            j,
                        )) implies td[j] == tm[j] by {
                        lemma_descendant_ge(left as int, j);
                        lemma_descendant_ge(right as int, j);
                    }
                    lemma_subtree_frame(tm, td, left as int, l, off as int);
                    lemma_subtree_frame(tm, td, right as int, l, half_off);
                    assert(valid(td, left as int, l));
                    assert(valid(td, right as int, l));
                    // the covering block and its start, lifted to this node's map
                    let bs = if went_left {
                        block_start(ml0, offset as int)
                    } else {
                        block_start(mr0, offset as int)
                    };
                    if went_left {
                        assert(ml0.dom().contains(bs) && bs <= offset < bs + ml0[bs]);
                        assert(!mr0.dom().contains(bs));
                        assert(m0.dom().contains(bs));
                        assert(m0[bs] == ml0[bs]);
                        assert(covered(m0, offset as int));
                        lemma_cover_unique(m0, offset as int, block_start(m0, offset as int), bs);
                        lemma_union_remove_left(ml0, mr0, bs);
                    } else {
                        assert(mr0.dom().contains(bs) && bs <= offset < bs + mr0[bs]);
                        assert(m0.dom().contains(bs));
                        assert(m0[bs] == mr0[bs]);
                        assert(covered(m0, offset as int));
                        lemma_cover_unique(m0, offset as int, block_start(m0, offset as int), bs);
                        assert(!ml0.dom().contains(bs));
                        lemma_union_remove_right(ml0, mr0, bs);
                    }
                    assert(block_start(m0, offset as int) == bs);
                    if td[index as int] == UNUSED {
                        // both halves free: the merged node absorbs them
                        assert(blocks(td, left as int, l, off as int) =~= Map::<int, int>::empty());
                        assert(blocks(td, right as int, l, half_off) =~= Map::<int, int>::empty());
                        assert(blocks(td, index as int, lvl as nat, off as int) =~= m0.remove(bs));
                    } else {
                        assert(td[index as int] == SPLIT);
                        assert(valid(td, index as int, lvl as nat));
                        assert(blocks(td, index as int, lvl as nat, off as int) == m0.remove(bs));
                    }
                    // cells outside this subtree kept their values
                    assert forall|j: int|
                        0 <= j < t0.len() && !descendant(index as int, j) implies td[j]
                        == t0[j] by {
                        lemma_descendant_child(index as int, j);
                    }
                }
                true
            } else {
                proof {
                    assert forall|b: int|
                        m0.dom().contains(b) implies !(b <= offset < b + m0[b]) by {
                        if went_left {
                            if mr0.dom().contains(b) {
                                assert(b >= half_off > offset);
                            } else {
                                assert(ml0.dom().contains(b) && m0[b] == ml0[b]);
                                assert(!covered(ml0, offset as int));
                            }
                        } else {
                            if mr0.dom().contains(b) {
                                assert(m0[b] == mr0[b]);
                                assert(!covered(mr0, offset as int));
                            } else {
                                assert(ml0.dom().contains(b));
                                assert(b + ml0[b] <= half_off <= offset);
                            }
                        }
                    }
                    assert(!covered(m0, offset as int));
                }
                false
            }
        }
    }

    /// Grants a block of the smallest power-of-two span that reaches
    /// `size` units (one unit for a zero request), preferring the lowest
    /// such offset; returns the granted offset and span, or `(0, 0)` when
    /// no such block is free.
    pub fn allocate(&mut self, size: usize) -> (r: (usize, usize))
        requires
            old(self).wf(),
        ensures
            final(self).wf(),
            final(self).order_spec() == old(self).order_spec(),
            r.1 == 0 ==> r.0 == 0 && *final(self) == *old(self),
            (r.1 != 0) <==> old(self).free_at(request_level(size as nat)),
            r.1 != 0 ==> r.1 == pow2(request_level(size as nat)) && size <= r.1,
            r.1 != 0 ==> (r.0 as int) % (r.1 as int) == 0 && r.0 + r.1 <= old(self).capacity(),
            r.1 != 0 ==> final(self).live() == old(self).live().insert(r.0 as int, r.1 as int)
                && !old(self).live().dom().contains(r.0 as int),
            r.1 != 0 ==> final(self).used() == old(self).used() + r.1,
            r.1 != 0 ==> forall|x: int|
                0 <= x < r.0 ==> !claimable(
                    old(self).tree_view(),
                    0,
                    old(self).order_spec(),
                    0,
                    request_level(size as nat),
                    x,
                ),
            (r.1 != 0) <==> can_place(
                old(self).live(),
                old(self).capacity(),
                pow2(request_level(size as nat)) as int,
            ),
            r.1 != 0 ==> forall|x: int|
                0 <= x < r.0 && x % (r.1 as int) == 0 ==> !range_free(
                    old(self).live(),
                    x,
                    r.1 as int,
                ),
    {
        proof {
            lemma2_to64();
            lemma_pow2_le(old(self).order_spec(), 30);
        }
        let ghost rl = request_level(size as nat);
        let mut target: usize = 0;
        let mut span: usize = 1;
        while span < size && target < self.order
            invariant
                *self == *old(self),
                span == pow2(target as nat),
                target <= self.order,
                self.order <= MAX_ORDER,
                span <= pow2(self.order_spec()),
                target > 0 ==> pow2((target - 1) as nat) < size,
            decreases self.order - target,
        {
            proof {
                lemma_pow2_adds(target as nat, 1);
                lemma2_to64();
                lemma_pow2_le((target + 1) as nat, self.order_spec());
            }
            target = target + 1;
            span = span * 2;
        }
        if span < size {
            proof {
                // the request outgrows the tree: no level can satisfy it
                assert(pow2(rl) >= size) by {
                    lemma_request_level_spans(size as nat);
                }
                if rl <= old(self).order_spec() {
                    lemma_pow2_le(rl, old(self).order_spec());
                }
                lemma_avail_level_too_high(
                    old(self).tree_view(),
                    0,
                    old(self).order_spec(),
                    rl,
                );
                assert forall|o: int|
                    placed(0, old(self).capacity(), pow2(rl) as int, o) implies !range_free(
                    old(self).live(),
                    o,
                    pow2(rl) as int,
                ) by {
                    lemma_pow2_pos(rl);
                    assert(o + pow2(rl) <= old(self).capacity() < pow2(rl) + o);
                }
            }
            return (0, 0);
        }
        proof {
            lemma_level_unique(size as nat, target as nat);
            lemma_pow2_pos(0);
            assert(position(old(self).order_spec(), 0, old(self).order_spec(), 0)) by {
                lemma2_to64();
            }
        }
        let ord = self.order;
        let res = self.try_alloc(0, ord, target, 0);
        proof {
            let t0 = old(self).tree_view();
            let o0 = old(self).order_spec();
            lemma_avail_range(t0, 0, o0, 0, target as nat);
            lemma_pow2_pos(target as nat);
            if res is Some {
                // no aligned free range sits below the granted offset
                let o = res->0;
                assert forall|x: int|
                    0 <= x < o && x % (span as int) == 0 implies !range_free(
                    old(self).live(),
                    x,
                    span as int,
                ) by {
                    if range_free(old(self).live(), x, span as int) {
                        lemma_aligned_spacing(x, o as int, span as int);
                        assert((x - 0) % (pow2(target as nat) as int) == 0);
                        lemma_free_claimable(t0, 0, o0, 0, target as nat, x);
                    }
                }
            }
        }
        match res {
            Some(o) => (o, span),
            None => (0, 0),
        }
    }

    /// Releases the granted block whose unit range holds `offset`; an
    /// offset in no granted block, or outside the managed range, leaves
    /// the allocator untouched.
    pub fn free(&mut self, offset: usize)
        requires
            old(self).wf(),
        ensures
            final(self).wf(),
            final(self).order_spec() == old(self).order_spec(),
            covered(old(self).live(), offset as int) ==> final(self).live() == old(self).live().remove(block_start(old(self).live(), offset as int)) && final(self).used()
                == old(self).used() - old(self).live()[block_start(
                old(self).live(),
                offset as int,
            )],
            !covered(old(self).live(), offset as int) ==> *final(self) == *old(self),
    {
        proof {
            lemma2_to64();
            lemma_pow2_le(old(self).order_spec(), 30);
        }
        let cap = pow2_usize(self.order);
        if offset >= cap {
            proof {
                lemma_blocks_wf(old(self).tree_view(), 0, old(self).order_spec(), 0);
                assert forall|b: int|
                    old(self).live().dom().contains(b) implies !(b <= offset < b + old(self).live()[b]) by {}
                assert(!covered(old(self).live(), offset as int));
            }
            return ;
        }
        proof {
            lemma_pow2_pos(0);
            assert(position(old(self).order_spec(), 0, old(self).order_spec(), 0)) by {
                lemma2_to64();
            }
        }
        let ord = self.order;
        let r = self.release(0, ord, 0, offset);
    }
}

/// The level granted for a request spans it.
pub proof fn lemma_request_level_spans(size: nat)
    ensures
        pow2(request_level(size)) >= size,
        pow2(request_level(size)) >= 1,
    decreases size,
{
    lemma_pow2_pos(request_level(size));
    if size > 1 {
        let h = ((size + 1) / 2) as nat;
        lemma_request_level_spans(h);
        assert(pow2(request_level(size)) == 2 * pow2(request_level(h))) by {
            lemma_pow2_adds(request_level(h), 1);
            lemma2_to64();
        }
    }
}

/// Whether no unit of `[o, o + len)` lies in a granted block of `m`.
pub open spec fn range_free(m: Map<int, int>, o: int, len: int) -> bool {
    forall|x: int| o <= x < o + len ==> !covered(m, x)
}

/// Whether a block of `size` units could sit at offset `o` of a span of
/// `span` units starting at `off`: inside it, and aligned to its own size.
pub open spec fn placed(off: int, span: int, size: int, o: int) -> bool {
    off <= o && o + size <= off + span && (o - off) % size == 0
}

/// Whether `m` leaves room for an aligned block of `size` units within
/// `cap` units.
pub open spec fn can_place(m: Map<int, int>, cap: int, size: int) -> bool {
    exists|o: int| #[trigger] placed(0, cap, size, o) && range_free(m, o, size)
}

/// Coverage splits over a union of maps with disjoint keys.
proof fn lemma_covered_union(a: Map<int, int>, b: Map<int, int>, x: int)
    requires
        forall|k: int| a.dom().contains(k) ==> !b.dom().contains(k),
    ensures
        covered(a.union_prefer_right(b), x) <==> (covered(a, x) || covered(b, x)),
{
    let u = a.union_prefer_right(b);
    if covered(a, x) {
        let w = choose|w: int| a.dom().contains(w) && w <= x < w + a[w];
        assert(u.dom().contains(w) && w <= x < w + u[w]);
    }
    if covered(b, x) {
        let w = choose|w: int| b.dom().contains(w) && w <= x < w + b[w];
        assert(u.dom().contains(w) && w <= x < w + u[w]);
    }
    if covered(u, x) {
        let w = choose|w: int| u.dom().contains(w) && w <= x < w + u[w];
        if b.dom().contains(w) {
            assert(covered(b, x));
        } else {
            assert(a.dom().contains(w) && w <= x < w + a[w]);
            assert(covered(a, x));
        }
    }
}

/// Two multiples of a positive size leave at least one whole size apart.
proof fn lemma_aligned_spacing(a: int, b: int, size: int)
    requires
        0 < size,
        a % size == 0,
        b % size == 0,
        a < b,
    ensures
        a + size <= b,
{
    vstd::arithmetic::div_mod::lemma_fundamental_div_mod(a, size);
    vstd::arithmetic::div_mod::lemma_fundamental_div_mod(b, size);
    assert(a + size <= b) by (nonlinear_arith)
        requires
            a == size * (a / size),
            b == size * (b / size),
            a < b,
            size > 0,
    ;
}

/// In a well-formed subtree, availability of a level is exactly room in
/// the allocation map for an aligned free block of that span; entirely
/// granted nodes cover every unit, and split or full nodes cover some.
#[verifier::rlimit(100)]
proof fn lemma_avail_range(t: Seq<u8>, i: int, lvl: nat, off: int, target: nat)
    requires
        valid(t, i, lvl),
        target <= lvl,
    ensures
        avail(t, i, lvl, target) <==> (exists|o: int| #[trigger] placed(
            off,
            pow2(lvl) as int,
            pow2(target) as int,
            o,
        ) && range_free(blocks(t, i, lvl, off), o, pow2(target) as int)),
        granted(t[i]) ==> forall|u: int|
            off <= u < off + pow2(lvl) ==> #[trigger] covered(blocks(t, i, lvl, off), u),
        (t[i] == SPLIT || t[i] == FULL) ==> (exists|u: int|
            off <= u < off + pow2(lvl) && #[trigger] covered(blocks(t, i, lvl, off), u)),
    decreases lvl,
{
    let m = blocks(t, i, lvl, off);
    let size = pow2(target) as int;
    let span = pow2(lvl) as int;
    lemma_pow2_pos(target);
    lemma_pow2_pos(lvl);
    if target < lvl {
        lemma_pow2_strictly_increases(target, lvl);
    }
    if t[i] == UNUSED {
        assert(placed(off, span, size, off)) by {
            vstd::arithmetic::div_mod::lemma_mod_self_0(size);
            assert((off - off) % size == 0) by {
                vstd::arithmetic::div_mod::lemma_small_mod(0nat, size as nat);
            }
        }
        assert(range_free(m, off, size));
    } else if t[i] == USED {
        assert forall|u: int| off <= u < off + span implies covered(m, u) by {
            assert(m.dom().contains(off) && off <= u < off + m[off]);
        }
        assert forall|o: int|
            placed(off, span, size, o) implies !range_free(m, o, size) by {
            assert(covered(m, o));
        }
    } else {
        let l = (lvl - 1) as nat;
        let half = pow2(l) as int;
        let half_off = off + half;
        let ml = blocks(t, 2 * i + 1, l, off);
        let mr = blocks(t, 2 * i + 2, l, half_off);
        lemma_pow2_pos(l);
        assert(pow2(lvl) == 2 * pow2(l)) by {
            lemma_pow2_adds(l, 1);
            lemma2_to64();
        }
        lemma_blocks_wf(t, 2 * i + 1, l, off);
        lemma_blocks_wf(t, 2 * i + 2, l, half_off);
        assert forall|k: int| ml.dom().contains(k) implies !mr.dom().contains(k) by {
            if mr.dom().contains(k) {
                assert(k + ml[k] <= half_off && half_off <= k);
            }
        }
        let ctarget: nat = if target <= l {
            target
        } else {
            l
        };
        lemma_avail_range(t, 2 * i + 1, l, off, ctarget);
        lemma_avail_range(t, 2 * i + 2, l, half_off, ctarget);
        if target <= l {
            assert(half % size == 0) by {
                lemma_pow2_adds((l - target) as nat, target);
                vstd::arithmetic::div_mod::lemma_mod_multiples_basic(
                    pow2((l - target) as nat) as int,
                    size,
                );
            }
        }
        // some unit of the span is granted
        if t[2 * i + 1] != UNUSED {
            if granted(t[2 * i + 1]) {
                assert(covered(ml, off));
                lemma_covered_union(ml, mr, off);
                assert(off <= off < off + pow2(lvl) && covered(m, off));
            } else {
                assert(valid(t, 2 * i + 1, l));
                assert(t[2 * i + 1] == SPLIT);
                assert(exists|u: int|
                    off <= u < off + pow2(l) && #[trigger] covered(
                        blocks(t, 2 * i + 1, l, off),
                        u,
                    ));
                let u = choose|u: int|
                    off <= u < off + pow2(l) && #[trigger] covered(
                        blocks(t, 2 * i + 1, l, off),
                        u,
                    );
                lemma_covered_union(ml, mr, u);
                assert(off <= u < off + pow2(lvl) && covered(m, u));
            }
        } else {
            // the left child is free, so this node is split and the right
            // child is not
            assert(t[i] == SPLIT);
            assert(t[2 * i + 2] != UNUSED);
            if granted(t[2 * i + 2]) {
                assert(covered(mr, half_off));
                lemma_covered_union(ml, mr, half_off);
                assert(off <= half_off < off + pow2(lvl) && covered(m, half_off));
            } else {
                assert(valid(t, 2 * i + 2, l));
                assert(t[2 * i + 2] == SPLIT);
                assert(exists|u: int|
                    half_off <= u < half_off + pow2(l) && #[trigger] covered(
                        blocks(t, 2 * i + 2, l, half_off),
                        u,
                    ));
                let u = choose|u: int|
                    half_off <= u < half_off + pow2(l) && #[trigger] covered(
                        blocks(t, 2 * i + 2, l, half_off),
                        u,
                    );
                lemma_covered_union(ml, mr, u);
                assert(off <= u < off + pow2(lvl) && covered(m, u));
            }
        }
        if t[i] == FULL {
            assert forall|u: int| off <= u < off + span implies covered(m, u) by {
                lemma_covered_union(ml, mr, u);
                if u < half_off {
                    assert(covered(ml, u));
                } else {
                    assert(covered(mr, u));
                }
            }
            assert forall|o: int|
                placed(off, span, size, o) implies !range_free(m, o, size) by {
                assert(covered(m, o));
            }
        } else if lvl == target {
            // a split node at the request's own level has no room
            let u = choose|u: int| off <= u < off + span && #[trigger] covered(m, u);
            assert forall|o: int|
                placed(off, span, size, o) implies !range_free(m, o, size) by {
                assert(o == off) by {
                    if o > off {
                        lemma_aligned_spacing(0, o - off, size);
                    }
                }
            }
        } else {
            // a placed block never straddles the midpoint
            assert forall|o: int|
                placed(off, span, size, o) && o < half_off implies o + size <= half_off by {
                if o + size > half_off {
                    lemma_aligned_spacing(o - off, half, size);
                }
            }
            if avail(t, i, lvl, target) {
                if avail(t, 2 * i + 1, l, target) {
                    let o = choose|o: int| #[trigger] placed(off, half, size, o) && range_free(
                        ml,
                        o,
                        size,
                    );
                    assert(placed(off, span, size, o));
                    assert forall|x: int| o <= x < o + size implies !covered(m, x) by {
                        lemma_covered_union(ml, mr, x);
                        if covered(mr, x) {
                            let w = choose|w: int| mr.dom().contains(w) && w <= x < w + mr[w];
                            assert(half_off <= w);
                        }
                    }
                    assert(range_free(m, o, size));
                } else {
                    let o = choose|o: int| #[trigger] placed(half_off, half, size, o)
                        && range_free(mr, o, size);
                    assert(placed(off, span, size, o)) by {
                        vstd::arithmetic::div_mod::lemma_add_mod_noop(o - half_off, half, size);
                        vstd::arithmetic::div_mod::lemma_small_mod(0nat, size as nat);
                    }
                    assert forall|x: int| o <= x < o + size implies !covered(m, x) by {
                        lemma_covered_union(ml, mr, x);
                        if covered(ml, x) {
                            let w = choose|w: int| ml.dom().contains(w) && w <= x < w + ml[w];
                            assert(w + ml[w] <= half_off && half_off <= o <= x);
                        }
                    }
                    assert(range_free(m, o, size));
                }
            }
            if exists|o: int| #[trigger] placed(off, span, size, o) && range_free(m, o, size) {
                let o = choose|o: int| #[trigger] placed(off, span, size, o) && range_free(
                    m,
                    o,
                    size,
                );
                if o < half_off {
                    assert(placed(off, half, size, o));
                    assert forall|x: int| o <= x < o + size implies !covered(ml, x) by {
                        lemma_covered_union(ml, mr, x);
                    }
                    assert(range_free(ml, o, size));
                    assert(avail(t, 2 * i + 1, l, target));
                } else {
                    assert(placed(half_off, half, size, o)) by {
                        vstd::arithmetic::div_mod::lemma_sub_mod_noop(o - off, half, size);
                        vstd::arithmetic::div_mod::lemma_small_mod(0nat, size as nat);
                    }
                    assert forall|x: int| o <= x < o + size implies !covered(mr, x) by {
                        lemma_covered_union(ml, mr, x);
                    }
                    assert(range_free(mr, o, size));
                    assert(avail(t, 2 * i + 2, l, target));
                }
            }
        }
    }
}

/// An aligned block's worth of free units is always claimable: no
/// well-formed tree hides a free aligned range behind its node states.
proof fn lemma_free_claimable(t: Seq<u8>, i: int, lvl: nat, off: int, target: nat, o: int)
    requires
        valid(t, i, lvl),
        target <= lvl,
        off <= o,
        o + pow2(target) <= off + pow2(lvl),
        (o - off) % (pow2(target) as int) == 0,
        range_free(blocks(t, i, lvl, off), o, pow2(target) as int),
    ensures
        claimable(t, i, lvl, off, target, o),
    decreases lvl,
{
    let m = blocks(t, i, lvl, off);
    let size = pow2(target) as int;
    lemma_pow2_pos(target);
    lemma_pow2_pos(lvl);
    lemma_avail_range(t, i, lvl, off, target);
    if t[i] == UNUSED {
    } else if granted(t[i]) {
        assert(covered(m, o));
        assert(false);
    } else if lvl == target {
        assert(o == off);
        let u = choose|u: int| off <= u < off + pow2(lvl) && #[trigger] covered(m, u);
        assert(false);
    } else {
        let l = (lvl - 1) as nat;
        let half = pow2(l) as int;
        let half_off = off + half;
        let ml = blocks(t, 2 * i + 1, l, off);
        let mr = blocks(t, 2 * i + 2, l, half_off);
        lemma_pow2_pos(l);
        assert(pow2(lvl) == 2 * pow2(l)) by {
            lemma_pow2_adds(l, 1);
            lemma2_to64();
        }
        lemma_blocks_wf(t, 2 * i + 1, l, off);
        lemma_blocks_wf(t, 2 * i + 2, l, half_off);
        assert forall|k: int| ml.dom().contains(k) implies !mr.dom().contains(k) by {
            if mr.dom().contains(k) {
                assert(k + ml[k] <= half_off && half_off <= k);
            }
        }
        assert(half % size == 0) by {
            lemma_pow2_adds((l - target) as nat, target);
            vstd::arithmetic::div_mod::lemma_mod_multiples_basic(
                pow2((l - target) as nat) as int,
                size,
            );
        }
        if o < half_off {
            assert(o + size <= half_off) by {
                if o + size > half_off {
                    lemma_aligned_spacing(o - off, half, size);
                }
            }
            assert forall|x: int| o <= x < o + size implies !covered(ml, x) by {
                lemma_covered_union(ml, mr, x);
            }
            lemma_free_claimable(t, 2 * i + 1, l, off, target, o);
        } else {
            assert((o - half_off) % size == 0) by {
                vstd::arithmetic::div_mod::lemma_sub_mod_noop(o - off, half, size);
                vstd::arithmetic::div_mod::lemma_small_mod(0nat, size as nat);
            }
            assert forall|x: int| o <= x < o + size implies !covered(mr, x) by {
                lemma_covered_union(ml, mr, x);
            }
            lemma_free_claimable(t, 2 * i + 2, l, half_off, target, o);
        }
    }
}

/// In a well-formed subtree a single free unit survives exactly as long
/// as the granted total stays below the span; an entirely granted node
/// accounts for its whole span.
proof fn lemma_avail_unit_rec(t: Seq<u8>, i: int, lvl: nat)
    requires
        valid(t, i, lvl),
    ensures
        avail(t, i, lvl, 0) <==> used_units(t, i, lvl) < pow2(lvl),
        granted(t[i]) ==> used_units(t, i, lvl) == pow2(lvl),
    decreases lvl,
{
    lemma_pow2_pos(lvl);
    if t[i] == SPLIT || t[i] == FULL {
        let l = (lvl - 1) as nat;
        lemma_avail_unit_rec(t, 2 * i + 1, l);
        lemma_avail_unit_rec(t, 2 * i + 2, l);
        lemma_used_bounded(t, 2 * i + 1, l);
        lemma_used_bounded(t, 2 * i + 2, l);
        assert(pow2(lvl) == 2 * pow2(l)) by {
            lemma_pow2_adds(l, 1);
            lemma2_to64();
        }
    }
}

/// A well-formed allocator still holds a one-unit block exactly as long
/// as its granted total stays below its capacity.
pub proof fn lemma_avail_unit(a: &BuddyAlloc)
    requires
        a.wf(),
    ensures
        a.free_at(0) <==> a.used() < a.capacity(),
{
    lemma_avail_unit_rec(a.tree_view(), 0, a.order_spec());
}

/// Granted blocks of a well-formed allocator lie inside the managed range,
/// never overlap, and their total never exceeds the capacity.
pub proof fn lemma_no_overlap(a: &BuddyAlloc)
    requires
        a.wf(),
    ensures
        no_overlap(a.live()),
        forall|b: int| #[trigger]
            a.live().dom().contains(b) ==> 0 <= b && 0 < a.live()[b] && b + a.live()[b]
                <= a.capacity(),
        0 <= a.used() <= a.capacity(),
{
    lemma_blocks_wf(a.tree_view(), 0, a.order_spec(), 0);
    lemma_used_bounded(a.tree_view(), 0, a.order_spec());
}

/// Round-trip: granting a fresh block at `o` and releasing `o` at once
/// restores the allocation map that held before the grant.
pub proof fn lemma_alloc_free_round_trip(live0: Map<int, int>, o: int, s: int)
    requires
        !live0.dom().contains(o),
        0 < s,
        no_overlap(live0.insert(o, s)),
    ensures
        covered(live0.insert(o, s), o),
        block_start(live0.insert(o, s), o) == o,
        live0.insert(o, s).remove(o) == live0,
{
    let m = live0.insert(o, s);
    assert(m.dom().contains(o) && o <= o < o + m[o]);
    assert(covered(m, o));
    let b = block_start(m, o);
    assert(m.dom().contains(b) && b <= o < b + m[b]);
    lemma_cover_unique(m, o, b, o);
    assert(m.remove(o) =~= live0);
}

} // verus!

verus! {

use crate::mem::Memory;

/// The allocator interface the kernel's components share.  The buddy-backed
/// byte allocator implements it; `inv` is each implementor's own
/// well-formedness condition.
pub trait Allocator {
    /// The implementor's well-formedness condition, kept by every call.
    spec fn inv(&self) -> bool;

    /// Grants a block of at least `size` bytes, returning its address and
    /// granted size; a granted size of zero reports exhaustion.
    fn acquire(&mut self, size: usize) -> (r: (usize, usize))
        requires
            old(self).inv(),
        ensures
            final(self).inv(),
            r.1 != 0 ==> r.1 >= size,
    ;

    /// Returns a granted block to the pool.
    fn release(&mut self, ptr: usize)
        requires
            old(self).inv(),
        ensures
            final(self).inv(),
    ;
}

/// A byte-addressed allocator: a buddy tree whose units are scaled to bytes
/// by the shift `el_size`, handing out addresses from `base` upwards.
pub struct Alloc {
    parent: BuddyAlloc,
    base: usize,
    el_size: usize,
}

/// Units that cover `size` bytes when each unit spans `pow2(el)` bytes.
pub open spec fn units_needed(size: int, el: nat) -> int {
    if size <= 0 {
        0
    } else {
        (size - 1) / (pow2(el) as int) + 1
    }
}

impl Alloc {
    /// The underlying unit allocator.
    pub closed spec fn parent_spec(&self) -> BuddyAlloc {
        self.parent
    }

    /// The first byte address managed.
    pub closed spec fn base_spec(&self) -> int {
        self.base as int
    }

    /// The log2 of the unit size in bytes.
    pub closed spec fn el_size_spec(&self) -> nat {
        self.el_size as nat
    }

    /// Bytes per unit.
    pub open spec fn unit(&self) -> int {
        pow2(self.el_size_spec()) as int
    }

    /// The managed byte count.
    pub open spec fn capacity_bytes(&self) -> int {
        self.parent_spec().capacity() * self.unit()
    }

    /// The live allocations, in unit offsets and unit counts.
    pub open spec fn live(&self) -> Map<int, int> {
        self.parent_spec().live()
    }

    /// Well-formedness: the tree is well-formed and every managed byte
    /// address fits in `usize`.
    pub open spec fn wf(&self) -> bool {
        &&& self.parent_spec().wf()
        &&& self.el_size_spec() <= 16
        &&& 0 <= self.base_spec()
        &&& self.base_spec() + self.capacity_bytes() <= usize::MAX
    }

    /// What a successful grant `r` of `size` bytes leaves behind: a fresh
    /// power-of-two block of units, its byte range inside
    /// `[base, base + capacity_bytes)`, aligned to its own size.
    pub open spec fn granted_ok(pre: Alloc, post: Alloc, r: (usize, usize), size: int) -> bool {
        let uoff = (r.0 - pre.base_spec()) / pre.unit();
        let ucount = r.1 as int / pre.unit();
        &&& post.base_spec() == pre.base_spec()
        &&& post.el_size_spec() == pre.el_size_spec()
        &&& r.1 >= size
        &&& r.1 == pow2(request_level(units_needed(size, pre.el_size_spec()) as nat)) * pre.unit()
        &&& pre.base_spec() <= r.0
        &&& r.0 + r.1 <= pre.base_spec() + pre.capacity_bytes()
        &&& (r.0 - pre.base_spec()) % (r.1 as int) == 0
        &&& ucount > 0
        &&& post.live() == pre.live().insert(uoff, ucount)
        &&& !pre.live().dom().contains(uoff)
    }

    /// Wraps a unit allocator as a byte allocator from `base` with a unit
    /// of `pow2(el_size)` bytes.
    pub fn new(parent: BuddyAlloc, base: usize, el_size: usize) -> (r: Alloc)
        requires
            parent.wf(),
            el_size <= 16,
            base + pow2(parent.order_spec()) * pow2(el_size as nat) <= usize::MAX,
        ensures
            r.wf(),
            r.parent_spec() == parent,
            r.base_spec() == base,
            r.el_size_spec() == el_size,
    {
        Alloc { parent, base, el_size }
    }

    /// Grants at least `size` bytes: the request is rounded up to whole
    /// units and handed to the buddy tree.  On exhaustion — and only then —
    /// the granted size is zero and nothing changes.
    pub fn allocate(&mut self, size: usize) -> (r: (usize, usize))
        requires
            old(self).wf(),
        ensures
            final(self).wf(),
            final(self).parent_spec().order_spec() == old(self).parent_spec().order_spec(),
            r.1 == 0 ==> r.0 == old(self).base_spec() && *final(self) == *old(self),
            (r.1 != 0) <==> old(self).parent_spec().free_at(
                request_level(units_needed(size as int, old(self).el_size_spec()) as nat),
            ),
            r.1 != 0 ==> Alloc::granted_ok(*old(self), *final(self), r, size as int),
            r.1 != 0 ==> final(self).parent_spec().used() == old(self).parent_spec().used() + r.1
                as int / old(self).unit(),
    {
        let unit = pow2_usize(self.el_size);
        proof {
            lemma_pow2_pos(self.el_size_spec());
            lemma_no_overlap(&self.parent);
        }
        let units = if size == 0 {
            0
        } else {
            (size - 1) / unit + 1
        };
        proof {
            assert(units == units_needed(size as int, self.el_size_spec()));
            if size > 0 {
                vstd::arithmetic::div_mod::lemma_fundamental_div_mod(size - 1, unit as int);
            }
            assert(units * unit >= size) by (nonlinear_arith)
                requires
                    unit > 0,
                    size > 0 ==> (size - 1) == unit * ((size - 1) / (unit as int)) + (size - 1) % (
                    unit as int) && 0 <= (size - 1) % (unit as int) < unit,
                    units == units_needed(size as int, self.el_size_spec()),
                    size == 0 ==> units == 0,
                    size > 0 ==> units == (size - 1) / (unit as int) + 1,
            ;
        }
        let (off, got) = self.parent.allocate(units);
        if got == 0 {
            return (self.base, 0);
        }
        proof {
            let cap = pow2(self.parent.order_spec()) as int;
            assert(off + got <= cap);
            assert((off + got) * unit <= cap * unit) by (nonlinear_arith)
                requires
                    off + got <= cap,
                    unit > 0,
            ;
            assert(off * unit + got * unit == (off + got) * unit) by (nonlinear_arith);
            assert(got * unit >= units * unit) by (nonlinear_arith)
                requires
                    got >= units,
                    unit > 0,
            ;
            assert((off * unit) % ((got * unit) as int) == 0) by {
                let q = (off as int) / (got as int);
                assert((off as int) % (got as int) == 0);
                vstd::arithmetic::div_mod::lemma_fundamental_div_mod(off as int, got as int);
                assert(off == got * q);
                assert(off * unit == (got * unit) * q) by (nonlinear_arith)
                    requires
                        off == got * q,
                ;
                assert(got * unit > 0) by (nonlinear_arith)
                    requires
                        got > 0,
                        unit > 0,
                ;
                vstd::arithmetic::div_mod::lemma_mod_multiples_basic(q, (got * unit) as int);
            }
            assert(((self.base + off * unit) - self.base_spec()) / (unit as int) == off) by {
                vstd::arithmetic::div_mod::lemma_div_multiples_vanish(off as int, unit as int);
            }
            assert((got * unit) / (unit as int) == got) by {
                assert(got * unit == unit * got) by (nonlinear_arith);
                vstd::arithmetic::div_mod::lemma_div_multiples_vanish(got as int, unit as int);
            }
        }
        (self.base + off * unit, got * unit)
    }

    /// Grants at least `size` bytes and zero-fills exactly the granted
    /// range of the region `m`, which must be the one this allocator
    /// manages.
    pub fn zero_allocate(&mut self, m: &mut Memory, size: usize) -> (r: (usize, usize))
        requires
            old(self).wf(),
            old(m).wf(),
            old(m).base_spec() == old(self).base_spec(),
            old(m)@.len() == old(self).capacity_bytes(),
        ensures
            final(self).wf(),
            final(self).parent_spec().order_spec() == old(self).parent_spec().order_spec(),
            final(m).base_spec() == old(m).base_spec(),
            final(m)@.len() == old(m)@.len(),
            r.1 == 0 ==> r.0 == old(self).base_spec() && *final(self) == *old(self) && *final(m)
                == *old(m),
            (r.1 != 0) <==> old(self).parent_spec().free_at(
                request_level(units_needed(size as int, old(self).el_size_spec()) as nat),
            ),
            r.1 != 0 ==> Alloc::granted_ok(*old(self), *final(self), r, size as int),
            r.1 != 0 ==> final(self).parent_spec().used() == old(self).parent_spec().used() + r.1
                as int / old(self).unit(),
            r.1 != 0 ==> forall|i: int|
                r.0 - old(m).base_spec() <= i < r.0 - old(m).base_spec() + r.1 ==> final(m)@[i]
                    == 0,
            r.1 != 0 ==> forall|i: int|
                0 <= i < old(m)@.len() && !(r.0 - old(m).base_spec() <= i < r.0 - old(m).base_spec() + r.1) ==> final(m)@[i] == old(m)@[i],
    {
        let r = self.allocate(size);
        if r.1 != 0 {
            m.fill(r.0, r.1, 0);
        }
        r
    }

    /// Naive reallocation: frees `src`, grants a fresh block for `size`
    /// bytes, and copies the granted size over from `src` — clamped to the
    /// managed range — always relocating, never growing in place.
    pub fn realloc(&mut self, m: &mut Memory, src: usize, size: usize) -> (r: (usize, usize))
        requires
            old(self).wf(),
            old(m).wf(),
            old(m).base_spec() == old(self).base_spec(),
            old(m)@.len() == old(self).capacity_bytes(),
            old(self).base_spec() <= src,
        ensures
            final(self).wf(),
            final(self).base_spec() == old(self).base_spec(),
            final(self).el_size_spec() == old(self).el_size_spec(),
            final(m).base_spec() == old(m).base_spec(),
            final(m)@.len() == old(m)@.len(),
            r.1 == 0 ==> *final(m) == *old(m) && r.0 == old(self).base_spec() && final(self).live() == live_after_free(*old(self), src as int) && !final(self).parent_spec().free_at(
                request_level(units_needed(size as int, old(self).el_size_spec()) as nat),
            ) && !can_place(
                live_after_free(*old(self), src as int),
                old(self).parent_spec().capacity(),
                pow2(request_level(units_needed(size as int, old(self).el_size_spec()) as nat)) as int,
            ),
            r.1 != 0 ==> final(self).base_spec() == old(self).base_spec() && old(self).base_spec()
                <= r.0 && r.0 + r.1 <= old(self).base_spec() + old(self).capacity_bytes() && r.1
                >= size,
            r.1 != 0 ==> r.1 == pow2(
                request_level(units_needed(size as int, old(self).el_size_spec()) as nat),
            ) * old(self).unit() && (r.0 - old(self).base_spec()) % (r.1 as int) == 0,
            r.1 != 0 ==> final(self).live() == live_after_free(*old(self), src as int).insert(
                (r.0 - old(self).base_spec()) / old(self).unit(),
                r.1 as int / old(self).unit(),
            ) && !live_after_free(*old(self), src as int).dom().contains(
                (r.0 - old(self).base_spec()) / old(self).unit(),
            ),
            r.1 != 0 ==> forall|i: int|
                r.0 - old(m).base_spec() <= i < r.0 - old(m).base_spec() + min_int(
                    r.1 as int,
                    old(self).base_spec() + old(self).capacity_bytes() - src,
                ) ==> final(m)@[i] == old(m)@[i - r.0 + src],
    {
        self.free(src);
        let ghost mid = *self;
        let cap_units = pow2_usize(self.order());
        let unit = pow2_usize(self.el_size);
        let r = self.allocate(size);
        proof {
            assert(cap_units * unit == self.capacity_bytes());
            assert(mid.live() == live_after_free(*old(self), src as int));
            if r.1 != 0 {
                assert(Alloc::granted_ok(mid, *self, r, size as int));
            } else {
                let rl = request_level(
                    units_needed(size as int, old(self).el_size_spec()) as nat,
                );
                if rl <= mid.parent_spec().order_spec() {
                    lemma_avail_range(
                        mid.parent_spec().tree_view(),
                        0,
                        mid.parent_spec().order_spec(),
                        0,
                        rl,
                    );
                } else {
                    lemma_pow2_pos(rl);
                    lemma_pow2_strictly_increases(mid.parent_spec().order_spec(), rl);
                    assert forall|o: int|
                        placed(
                            0,
                            mid.parent_spec().capacity(),
                            pow2(rl) as int,
                            o,
                        ) implies !range_free(mid.live(), o, pow2(rl) as int) by {
                        assert(o + pow2(rl) <= mid.parent_spec().capacity() < pow2(rl) + o);
                    }
                }
            }
        }
        let end = self.base + cap_units * unit;
        if r.1 != 0 && src < end {
            let n = if r.1 < end - src {
                r.1
            } else {
                end - src
            };
            m.copy(r.0, src, n);
            proof {
                assert forall|i: int|
                    r.0 - old(m).base_spec() <= i < r.0 - old(m).base_spec() + min_int(
                        r.1 as int,
                        old(self).base_spec() + old(self).capacity_bytes() - src,
                    ) implies m@[i] == old(m)@[i - r.0 + src] by {}
            }
        }
        r
    }

    /// Returns the block holding `ptr` to the pool.  A pointer outside the
    /// managed range, or inside no granted block, changes nothing: an
    /// invalid or double free is silently absorbed.
    pub fn free(&mut self, ptr: usize)
        requires
            old(self).wf(),
        ensures
            final(self).wf(),
            final(self).base_spec() == old(self).base_spec(),
            final(self).el_size_spec() == old(self).el_size_spec(),
            final(self).parent_spec().order_spec() == old(self).parent_spec().order_spec(),
            (ptr < old(self).base_spec() || ptr >= old(self).base_spec() + old(self).capacity_bytes()) ==> *final(self) == *old(self),
            (old(self).base_spec() <= ptr < old(self).base_spec() + old(self).capacity_bytes())
                ==> {
                let u = (ptr - old(self).base_spec()) / old(self).unit();
                if covered(old(self).live(), u) {
                    final(self).live() == old(self).live().remove(
                        block_start(old(self).live(), u),
                    )
                } else {
                    *final(self) == *old(self)
                }
            },
    {
        let unit = pow2_usize(self.el_size);
        let cap_units = pow2_usize(self.order());
        proof {
            lemma_pow2_pos(self.el_size_spec());
            assert(cap_units * unit == self.capacity_bytes());
        }
        if ptr < self.base || ptr - self.base >= cap_units * unit {
            return ;
        }
        let u = (ptr - self.base) / unit;
        proof {
            assert(u < cap_units) by (nonlinear_arith)
                requires
                    unit > 0,
                    u == ((ptr - self.base) as int) / (unit as int),
                    (ptr - self.base) < cap_units * unit,
                    ptr >= self.base,
            ;
        }
        self.parent.free(u);
    }

    /// The tree order of the underlying unit allocator.
    pub fn order(&self) -> (r: usize)
        ensures
            r == self.parent_spec().order_spec(),
    {
        self.parent.order_exec()
    }
}

/// The allocation map after returning the block holding byte address
/// `src` to `a`'s pool: the covering block leaves, an address outside the
/// managed range or inside no granted block changes nothing.
pub open spec fn live_after_free(a: Alloc, src: int) -> Map<int, int> {
    let u = (src - a.base_spec()) / a.unit();
    if a.base_spec() <= src < a.base_spec() + a.capacity_bytes() && covered(a.live(), u) {
        a.live().remove(block_start(a.live(), u))
    } else {
        a.live()
    }
}

/// The smaller of two mathematical integers.
pub open spec fn min_int(a: int, b: int) -> int {
    if a < b {
        a
    } else {
        b
    }
}

impl Allocator for Alloc {
    open spec fn inv(&self) -> bool {
        self.wf()
    }

    fn acquire(&mut self, size: usize) -> (r: (usize, usize)) {
        Alloc::allocate(self, size)
    }

    fn release(&mut self, ptr: usize) {
        Alloc::free(self, ptr)
    }
}

} // verus!
