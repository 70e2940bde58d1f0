//! Packed R-Trees: levels of nodes over a sorted list of leaves.
use vstd::prelude::*;
use crate::irange::pow2;
use crate::flat::Zerocopyable;
use vstd::arithmetic::div_mod::{lemma_div_denominator, lemma_fundamental_div_mod_converse};

verus! {

/// R-Tree specification
pub trait Spec {
    /// R-Tree node
    type Node: Copy + Zerocopyable;

    /// R-Tree leaf
    type Leaf: Copy + Zerocopyable;

    /// The bounding box `outer` contains the bounding box `inner`.
    spec fn node_covers_node(outer: Self::Node, inner: Self::Node) -> bool;

    /// The bounding box `outer` contains the leaf.
    spec fn node_covers_leaf(outer: Self::Node, leaf: Self::Leaf) -> bool;

    /// The node's ranges are well formed.
    spec fn node_wf(node: Self::Node) -> bool;

    /// The leaf's ranges are well formed.
    spec fn leaf_wf(leaf: Self::Leaf) -> bool;

    /// Whether the node's ranges are well formed.
    fn node_wf_exec(node: &Self::Node) -> (r: bool)
        ensures
            r == Self::node_wf(*node),
    ;

    /// Whether the leaf's ranges are well formed.
    fn leaf_wf_exec(leaf: &Self::Leaf) -> (r: bool)
        ensures
            r == Self::leaf_wf(*leaf),
    ;

    /// Whether the bounding box `outer` contains the bounding box `inner`.
    fn node_covers_node_exec(outer: &Self::Node, inner: &Self::Node) -> (r: bool)
        ensures
            r == Self::node_covers_node(*outer, *inner),
    ;

    /// Whether the bounding box `outer` contains the leaf.
    fn node_covers_leaf_exec(outer: &Self::Node, leaf: &Self::Leaf) -> (r: bool)
        ensures
            r == Self::node_covers_leaf(*outer, *leaf),
    ;

    proof fn lemma_covers_trans(a: Self::Node, b: Self::Node, leaf: Self::Leaf)
        requires
            Self::node_covers_node(a, b),
            Self::node_covers_leaf(b, leaf),
        ensures
            Self::node_covers_leaf(a, leaf),
    ;
}

impl<S: Spec> RTree<S> {
    /// Whether the tree has a packed shape and well-formed items (see `shape_wf` and
    /// `items_wf`).
    pub fn shape_and_items_ok(&self) -> (r: bool)
        ensures
            r == (self.shape_wf() && self.items_wf()),
    {
        self.shape_ok() && self.items_ok()
    }

    /// Whether the tree is well formed (see `wf`): packed, with well-formed items, each
    /// bounding box covering what lies below it.
    pub fn wf_checked(&self) -> (r: bool)
        ensures
            r == self.wf(),
    {
        if !self.shape_ok() {
            return false;
        }
        self.items_ok() && self.bbox_ok() && self.root_ok()
    }

    /// Whether every node covers its children (see `bbox_wf`), in a tree of packed shape.
    #[verifier::spinoff_prover]
    fn bbox_ok(&self) -> (r: bool)
        requires
            self.shape_wf(),
        ensures
            r == self.bbox_wf(),
    {
        let order = self.node_size_order as usize;
        proof {
            crate::irange::lemma_shl_one_usize(order);
            crate::irange::lemma_pow2_mono(0, order as nat);
        }
        let g: usize = 1usize << order;
        assert(g == self.group());
        let depth = self.node_levels.len();
        if depth == 0 {
            return true;
        }
        let mut l: usize = 0;
        while l + 1 < depth
            invariant
                depth == self.depth_spec() > 0,
                g == self.group() >= 1,
                self.shape_wf(),
                l + 1 <= depth,
                forall|k: int, i: int|
                    0 <= k < l && 0 <= i < self.level_len(k + 1) ==> S::node_covers_node(
                        #[trigger] self.node_at(k, i / self.group()),
                        self.node_at(k + 1, i),
                    ),
            decreases depth - l,
        {
            let covered = self.level_covered(l, g);
            if !covered {
                return false;
            }
            proof {
                assert forall|k: int, i: int| 0 <= k < l + 1 && 0 <= i < self.level_len(k + 1) implies S::node_covers_node(
                    #[trigger] self.node_at(k, i / self.group()),
                    self.node_at(k + 1, i),
                ) by {
                    if k == l as int {
                        assert(0 <= i < self.level_len(l + 1));
                    }
                }
            }
            l = l + 1;
        }
        let last = &self.node_levels[depth - 1];
        assert(last@.len() == self.level_len(depth - 1));
        assert(self.leaves@.len() == self.level_len(depth as int));
        let mut j: usize = 0;
        while j < self.leaves.len()
            invariant
                depth == self.depth_spec() > 0,
                g == self.group() >= 1,
                self.shape_wf(),
                l + 1 == depth,
                last == self.node_levels@[depth - 1],
                last@.len() == self.level_len(depth - 1),
                self.leaves@.len() == self.level_len(depth as int),
                j <= self.leaves@.len(),
                forall|k: int, i: int|
                    0 <= k < depth - 1 && 0 <= i < self.level_len(k + 1) ==> S::node_covers_node(
                        #[trigger] self.node_at(k, i / self.group()),
                        self.node_at(k + 1, i),
                    ),
                forall|i: int|
                    0 <= i < j ==> S::node_covers_leaf(
                        self.node_at(depth - 1, i / self.group()),
                        #[trigger] self.leaves@[i],
                    ),
            decreases self.leaves@.len() - j,
        {
            assert(self.level_len(depth as int) <= self.level_len(depth - 1) * self.group());
            proof {
                vstd::arithmetic::div_mod::lemma_multiply_divide_lt(j as int, g as int, last@.len() as int);
                vstd::arithmetic::mul::lemma_mul_is_commutative(g as int, last@.len() as int);
            }
            let p = j / g;
            assert(self.node_at(depth - 1, j as int / self.group()) == last@[p as int]);
            if !S::node_covers_leaf_exec(&last[p], &self.leaves[j]) {
                return false;
            }
            j = j + 1;
        }
        true
    }

    /// Whether every node of the level `l + 1` is covered by its parent in the level `l`.
    #[verifier::spinoff_prover]
    fn level_covered(&self, l: usize, g: usize) -> (r: bool)
        requires
            self.shape_wf(),
            l + 1 < self.depth_spec(),
            g == self.group() >= 1,
        ensures
            r == forall|j: int|
                0 <= j < self.level_len(l + 1) ==> S::node_covers_node(
                    #[trigger] self.node_at(l as int, j / self.group()),
                    self.node_at(l + 1, j),
                ),
    {
        let depth = self.node_levels.len();
        let upper = &self.node_levels[l];
        let lower = &self.node_levels[l + 1];
        assert(upper@.len() == self.level_len(l as int) && lower@.len() == self.level_len(l + 1));
        assert(self.level_len(l + 1) <= self.level_len(l as int) * self.group());
        let mut i: usize = 0;
        while i < lower.len()
            invariant
                g == self.group() >= 1,
                l + 1 < self.depth_spec(),
                upper == self.node_levels@[l as int],
                lower == self.node_levels@[l + 1],
                upper@.len() == self.level_len(l as int),
                lower@.len() == self.level_len(l + 1),
                lower@.len() <= upper@.len() * g,
                i <= lower@.len(),
                forall|j: int|
                    0 <= j < i ==> S::node_covers_node(
                        #[trigger] self.node_at(l as int, j / self.group()),
                        self.node_at(l + 1, j),
                    ),
            decreases lower@.len() - i,
        {
            proof {
                vstd::arithmetic::div_mod::lemma_multiply_divide_lt(i as int, g as int, upper@.len() as int);
                vstd::arithmetic::mul::lemma_mul_is_commutative(g as int, upper@.len() as int);
            }
            let p = i / g;
            assert(self.node_at(l as int, i as int / self.group()) == upper@[p as int]);
            assert(self.node_at(l + 1, i as int) == lower@[i as int]);
            if !S::node_covers_node_exec(&upper[p], &lower[i]) {
                return false;
            }
            i = i + 1;
        }
        true
    }

    /// Whether the bounding box covers the root level, or every leaf of a tree without
    /// levels (see `root_wf`).
    #[verifier::spinoff_prover]
    fn root_ok(&self) -> (r: bool)
        ensures
            r == self.root_wf(),
    {
        if self.node_levels.len() > 0 {
            let root = &self.node_levels[0];
            let mut i: usize = 0;
            while i < root.len()
                invariant
                    self.depth_spec() > 0,
                    root == self.node_levels@[0],
                    i <= root@.len(),
                    forall|k: int| 0 <= k < i ==> S::node_covers_node(self.bbox, #[trigger] self.node_at(0, k)),
                decreases root@.len() - i,
            {
                assert(self.node_at(0, i as int) == root@[i as int]);
                if !S::node_covers_node_exec(&self.bbox, &root[i]) {
                    return false;
                }
                i = i + 1;
            }
            true
        } else {
            let mut j: usize = 0;
            while j < self.leaves.len()
                invariant
                    self.depth_spec() == 0,
                    j <= self.leaves@.len(),
                    forall|k: int| 0 <= k < j ==> S::node_covers_leaf(self.bbox, #[trigger] self.leaves@[k]),
                decreases self.leaves@.len() - j,
            {
                if !S::node_covers_leaf_exec(&self.bbox, &self.leaves[j]) {
                    return false;
                }
                j = j + 1;
            }
            true
        }
    }

    /// Whether the levels form a packed tree (see `shape_wf`).
    #[verifier::spinoff_prover]
    fn shape_ok(&self) -> (r: bool)
        ensures
            r == self.shape_wf(),
    {
        if self.node_size_order >= 64 {
            proof {
                assert(usize::BITS <= 64);
            }
            return false;
        }
        if self.node_size_order as u32 >= usize::BITS {
            return false;
        }
        let order = self.node_size_order as usize;
        proof {
            crate::irange::lemma_shl_one_usize(order);
            crate::irange::lemma_pow2_mono(0, order as nat);
        }
        let g: u128 = (1usize << order) as u128;
        assert(g == self.group());
        let depth = self.node_levels.len();
        let first: u128 = if depth > 0 {
            self.node_levels[0].len() as u128
        } else {
            self.leaves.len() as u128
        };
        assert(first == self.level_len(0));
        if first > g {
            return false;
        }
        let mut l: usize = 0;
        while l < depth
            invariant
                depth == self.depth_spec(),
                g == self.group(),
                1 <= g <= usize::MAX,
                l <= depth,
                self.node_size_order < usize::BITS,
                self.level_len(0) <= self.group(),
                forall|k: int|
                    0 <= k < l ==> {
                        &&& #[trigger] self.level_len(k) >= 1
                        &&& (self.level_len(k) - 1) * self.group() < self.level_len(k + 1)
                        &&& self.level_len(k + 1) <= self.level_len(k) * self.group()
                    },
            decreases depth - l,
        {
            let len: u128 = self.node_levels[l].len() as u128;
            let next: u128 = if l + 1 < depth {
                self.node_levels[l + 1].len() as u128
            } else {
                self.leaves.len() as u128
            };
            assert(len == self.level_len(l as int) && next == self.level_len(l + 1));
            if len < 1 {
                return false;
            }
            assert(len * g <= usize::MAX * usize::MAX) by (nonlinear_arith)
                requires
                    len <= usize::MAX,
                    g <= usize::MAX,
            ;
            assert((len - 1) * g <= len * g) by (nonlinear_arith)
                requires
                    len >= 1,
                    g >= 1,
            ;
            assert(usize::MAX * usize::MAX < u128::MAX) by (nonlinear_arith)
                requires
                    usize::MAX <= u64::MAX,
            ;
            let lo: u128 = (len - 1) * g;
            let hi: u128 = len * g;
            if !(lo < next && next <= hi) {
                return false;
            }
            l = l + 1;
        }
        true
    }

    /// Whether every node, every leaf and the bounding box are well formed.
    #[verifier::spinoff_prover]
    fn items_ok(&self) -> (r: bool)
        ensures
            r == self.items_wf(),
    {
        let depth = self.node_levels.len();
        let mut l: usize = 0;
        while l < depth
            invariant
                depth == self.depth_spec(),
                l <= depth,
                forall|k: int, i: int|
                    0 <= k < l && 0 <= i < self.level_len(k) ==> S::node_wf(#[trigger] self.node_at(k, i)),
            decreases depth - l,
        {
            let level = &self.node_levels[l];
            let mut i: usize = 0;
            while i < level.len()
                invariant
                    l < depth == self.depth_spec(),
                    level == self.node_levels@[l as int],
                    i <= level@.len(),
                    forall|k: int, j: int|
                        0 <= k < l && 0 <= j < self.level_len(k) ==> S::node_wf(#[trigger] self.node_at(k, j)),
                    forall|j: int| 0 <= j < i ==> S::node_wf(#[trigger] self.node_at(l as int, j)),
                decreases level@.len() - i,
            {
                if !S::node_wf_exec(&level[i]) {
                    assert(self.node_at(l as int, i as int) == level@[i as int]);
                    return false;
                }
                i = i + 1;
            }
            l = l + 1;
        }
        let mut j: usize = 0;
        while j < self.leaves.len()
            invariant
                depth == self.depth_spec(),
                forall|k: int, i: int|
                    0 <= k < depth && 0 <= i < self.level_len(k) ==> S::node_wf(#[trigger] self.node_at(k, i)),
                j <= self.leaves@.len(),
                forall|k: int| 0 <= k < j ==> S::leaf_wf(#[trigger] self.leaves@[k]),
            decreases self.leaves@.len() - j,
        {
            if !S::leaf_wf_exec(&self.leaves[j]) {
                return false;
            }
            j = j + 1;
        }
        S::node_wf_exec(&self.bbox)
    }
}

/// Packed R-Tree
pub struct RTree<S: Spec> {
    /// node_size = 1 << node_size_order
    pub node_size_order: u64,
    pub leaves: Vec<S::Leaf>,
    pub nodes: Vec<S::Node>,
    /// Copies of the sub-slices of `self.nodes` per level, root level first
    pub node_levels: Vec<Vec<S::Node>>,
    /// Bounding box of all leaves
    pub bbox: S::Node,
}

impl<S: Spec> RTree<S> {
    /// Number of intermediate node levels.
    pub open spec fn depth_spec(&self) -> int {
        self.node_levels@.len() as int
    }

    /// Number of children of a node: `2^node_size_order`.
    pub open spec fn group(&self) -> int {
        pow2(self.node_size_order as nat) as int
    }

    /// Number of items at level `l`; the leaves are the level `depth`.
    pub open spec fn level_len(&self, l: int) -> int {
        if l < self.depth_spec() {
            self.node_levels@[l]@.len() as int
        } else {
            self.leaves@.len() as int
        }
    }

    /// Number of leaves below one node of level `l` (one for a leaf).
    pub open spec fn span(&self, l: int) -> int
        decreases self.depth_spec() - l,
    {
        if l >= self.depth_spec() {
            1
        } else {
            self.group() * self.span(l + 1)
        }
    }

    /// Index at level `l` of the node above the leaf `j`.
    pub open spec fn ancestor(&self, j: int, l: int) -> int {
        j / self.span(l)
    }

    /// Node `i` of level `l`.
    pub open spec fn node_at(&self, l: int, i: int) -> S::Node {
        self.node_levels@[l]@[i]
    }

    /// The levels form a packed tree: the root level holds at most one group, and the
    /// node `i` of a level has as children the items `[i*group, (i+1)*group)` of the
    /// next level, at least one and within bounds.
    pub open spec fn shape_wf(&self) -> bool {
        &&& self.node_size_order < usize::BITS
        &&& self.level_len(0) <= self.group()
        &&& forall|l: int|
            0 <= l < self.depth_spec() ==> {
                &&& #[trigger] self.level_len(l) >= 1
                &&& (self.level_len(l) - 1) * self.group() < self.level_len(l + 1)
                &&& self.level_len(l + 1) <= self.level_len(l) * self.group()
            }
    }

    /// Every node covers its children.
    pub open spec fn bbox_wf(&self) -> bool {
        &&& forall|l: int, i: int|
            0 <= l < self.depth_spec() - 1 && 0 <= i < self.level_len(l + 1) ==> S::node_covers_node(
                #[trigger] self.node_at(l, i / self.group()),
                self.node_at(l + 1, i),
            )
        &&& forall|i: int|
            0 <= i < self.leaves@.len() && self.depth_spec() > 0 ==> S::node_covers_leaf(
                self.node_at(self.depth_spec() - 1, i / self.group()),
                #[trigger] self.leaves@[i],
            )
    }

    /// Every node, every leaf and the bounding box are well formed.
    pub open spec fn items_wf(&self) -> bool {
        &&& forall|l: int, i: int|
            0 <= l < self.depth_spec() && 0 <= i < self.level_len(l) ==> S::node_wf(
                #[trigger] self.node_at(l, i),
            )
        &&& forall|j: int| 0 <= j < self.leaves@.len() ==> S::leaf_wf(#[trigger] self.leaves@[j])
        &&& S::node_wf(self.bbox)
    }

    /// The bounding box covers the root level (or every leaf of a tree without levels).
    pub open spec fn root_wf(&self) -> bool {
        &&& self.depth_spec() > 0 ==> forall|i: int|
            0 <= i < self.level_len(0) ==> S::node_covers_node(self.bbox, #[trigger] self.node_at(0, i))
        &&& self.depth_spec() == 0 ==> forall|j: int|
            0 <= j < self.leaves@.len() ==> S::node_covers_leaf(self.bbox, #[trigger] self.leaves@[j])
    }

    /// A well-formed R-Tree: packed shape, well-formed items, and each bounding box covers
    /// what lies below it.
    pub open spec fn wf(&self) -> bool {
        &&& self.shape_wf()
        &&& self.items_wf()
        &&& self.bbox_wf()
        &&& self.root_wf()
    }

    /// Number of intermediate node level (without leaves)
    pub fn depth(&self) -> (r: usize)
        ensures
            r == self.depth_spec(),
    {
        self.node_levels.len()
    }

    /// Nodes of the root level, returns [None] if there are less leaves than `node_size`)
    pub fn root_nodes(&self) -> (r: Option<&[S::Node]>)
        ensures
            r is None <==> self.depth_spec() == 0,
            r matches Some(s) ==> s@ == self.node_levels@[0]@,
    {
        if self.node_levels.len() > 0 {
            Some(self.node_levels[0].as_slice())
        } else {
            None
        }
    }
}

pub proof fn lemma_group_pos<S: Spec>(t: &RTree<S>)
    ensures
        t.group() >= 1,
{
    lemma_pow2_pos(t.node_size_order as nat);
}

pub proof fn lemma_pow2_pos(k: nat)
    ensures
        pow2(k) >= 1,
    decreases k,
{
    if k > 0 {
        lemma_pow2_pos((k - 1) as nat);
    }
}

pub proof fn lemma_span_pos<S: Spec>(t: &RTree<S>, l: int)
    ensures
        t.span(l) >= 1,
    decreases t.depth_spec() - l,
{
    lemma_group_pos(t);
    if l < t.depth_spec() {
        lemma_span_pos(t, l + 1);
        assert(t.group() * t.span(l + 1) >= 1) by (nonlinear_arith)
            requires
                t.group() >= 1,
                t.span(l + 1) >= 1,
        ;
    }
}

/// Every level covers all leaves: `len(l) * span(l) >= #leaves`.
pub proof fn lemma_level_covers_leaves<S: Spec>(t: &RTree<S>, l: int)
    requires
        t.shape_wf(),
        0 <= l <= t.depth_spec(),
    ensures
        t.level_len(l) * t.span(l) >= t.leaves@.len(),
    decreases t.depth_spec() - l,
{
    if l < t.depth_spec() {
        lemma_level_covers_leaves(t, l + 1);
        lemma_span_pos(t, l + 1);
        let a = t.level_len(l);
        let g = t.group();
        let s = t.span(l + 1);
        let b = t.level_len(l + 1);
        assert(a * (g * s) >= b * s) by (nonlinear_arith)
            requires
                b <= a * g,
                s >= 1,
        ;
    }
}

/// The last node of every level starts before the end of the leaves.
pub proof fn lemma_last_node_starts_in_leaves<S: Spec>(t: &RTree<S>, l: int)
    requires
        t.shape_wf(),
        0 <= l <= t.depth_spec(),
        t.level_len(l) >= 1,
    ensures
        (t.level_len(l) - 1) * t.span(l) < t.leaves@.len(),
    decreases t.depth_spec() - l,
{
    if l < t.depth_spec() {
        lemma_last_node_starts_in_leaves(t, l + 1);
        lemma_span_pos(t, l + 1);
        let a = t.level_len(l);
        let g = t.group();
        let s = t.span(l + 1);
        let b = t.level_len(l + 1);
        assert((a - 1) * (g * s) <= (b - 1) * s) by (nonlinear_arith)
            requires
                (a - 1) * g < b,
                s >= 1,
                a >= 1,
        ;
    }
}

/// The ancestor at level `l` is the parent of the ancestor at level `l + 1`.
pub proof fn lemma_ancestor_parent<S: Spec>(t: &RTree<S>, j: int, l: int)
    requires
        0 <= j,
        0 <= l < t.depth_spec(),
    ensures
        t.ancestor(j, l) == t.ancestor(j, l + 1) / t.group(),
{
    lemma_span_pos(t, l + 1);
    lemma_group_pos(t);
    lemma_div_denominator(j, t.span(l + 1), t.group());
    assert(t.span(l + 1) * t.group() == t.group() * t.span(l + 1)) by (nonlinear_arith);
}

/// In a well-formed tree, the node above a leaf at any level covers it, and so does the
/// bounding box of the tree.
pub proof fn lemma_ancestor_covers<S: Spec>(t: &RTree<S>, j: int, l: int)
    requires
        t.wf(),
        0 <= j < t.leaves@.len(),
        0 <= l <= t.depth_spec(),
    ensures
        l < t.depth_spec() ==> S::node_covers_leaf(t.node_at(l, t.ancestor(j, l)), t.leaves@[j]),
        l == 0 ==> S::node_covers_leaf(t.bbox, t.leaves@[j]),
    decreases t.depth_spec() - l,
{
    let d = t.depth_spec();
    lemma_group_pos(t);
    if l < d {
        if l == d - 1 {
            assert(t.span(l) == t.group() * t.span(l + 1));
            assert(t.span(l + 1) == 1);
            assert(t.group() * 1 == t.group());
            assert(S::node_covers_leaf(
                t.node_at(d - 1, j / t.group()),
                t.leaves@[j],
            ));
        } else {
            lemma_ancestor_covers(t, j, l + 1);
            lemma_ancestor_parent(t, j, l);
            let c = t.ancestor(j, l + 1);
            lemma_span_pos(t, l + 1);
            lemma_level_covers_leaves(t, l + 1);
            vstd::arithmetic::div_mod::lemma_multiply_divide_lt(j, t.span(l + 1), t.level_len(l + 1));
            assert(t.span(l + 1) * t.level_len(l + 1) == t.level_len(l + 1) * t.span(l + 1)) by (
            nonlinear_arith);
            vstd::arithmetic::div_mod::lemma_div_pos_is_pos(j, t.span(l + 1));
            assert(S::node_covers_node(t.node_at(l, c / t.group()), t.node_at(l + 1, c)));
            S::lemma_covers_trans(t.node_at(l, c / t.group()), t.node_at(l + 1, c), t.leaves@[j]);
        }
    }
    if l == 0 {
        if d == 0 {
            assert(S::node_covers_leaf(t.bbox, t.leaves@[j]));
        } else {
            let c = t.ancestor(j, 0);
            lemma_span_pos(t, 0);
            lemma_level_covers_leaves(t, 0);
            vstd::arithmetic::div_mod::lemma_multiply_divide_lt(j, t.span(0), t.level_len(0));
            assert(t.span(0) * t.level_len(0) == t.level_len(0) * t.span(0)) by (nonlinear_arith);
            vstd::arithmetic::div_mod::lemma_div_pos_is_pos(j, t.span(0));
            assert(S::node_covers_node(t.bbox, t.node_at(0, c)));
            S::lemma_covers_trans(t.bbox, t.node_at(0, c), t.leaves@[j]);
        }
    }
}

/// `j / d == q` exactly when `q*d <= j < (q+1)*d`.
pub proof fn lemma_div_is(j: int, d: int, q: int)
    requires
        d >= 1,
        q * d <= j < (q + 1) * d,
    ensures
        j / d == q,
{
    assert((q + 1) * d == q * d + d) by (nonlinear_arith);
    lemma_fundamental_div_mod_converse(j, d, q, j - q * d);
}

} // verus!
