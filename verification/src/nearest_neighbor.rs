//! Best-first nearest neighbor search through a packed R-Tree.
use vstd::prelude::*;
use crate::irange::{Scalar, lemma_shl_one_usize};
use crate::rtree::{
    RTree, Spec, lemma_ancestor_parent, lemma_div_is, lemma_group_pos, lemma_level_covers_leaves,
    lemma_span_pos,
};
use vstd::arithmetic::div_mod::lemma_multiply_divide_lt;

verus! {

pub enum Status<K> {
    Keep(K),
    Ignore,
}

/// The node and leaf visitors of a nearest neighbor search.
pub trait NeighborVisitor<S: Spec, K: Scalar> {
    /// Status that the visitor gives to a node: its key is a lower bound of the keys of
    /// the leaves below.
    spec fn node_status(&self, node: S::Node) -> Status<K>;

    /// Status that the visitor gives to a leaf.
    spec fn leaf_status(&self, leaf: S::Leaf) -> Status<K>;

    /// The visitor's own ranges are well formed.
    spec fn visitor_wf(&self) -> bool;

    fn visit_node(&self, node: &S::Node) -> (r: Status<K>)
        requires
            self.visitor_wf(),
            S::node_wf(*node),
        ensures
            r == self.node_status(*node),
    ;

    fn visit_leaf(&self, leaf: &S::Leaf) -> (r: Status<K>)
        requires
            self.visitor_wf(),
            S::leaf_wf(*leaf),
        ensures
            r == self.leaf_status(*leaf),
    ;
}

/// The key of a kept status.
pub open spec fn kept_key<K: Scalar>(s: Status<K>) -> int {
    match s {
        Status::Keep(k) => k.val(),
        Status::Ignore => 0,
    }
}

/// Every node above a kept leaf is kept with a key no larger than the leaf's key.
pub open spec fn admissible<S: Spec, K: Scalar, V: NeighborVisitor<S, K>>(
    t: RTree<S>,
    v: V,
) -> bool {
    forall|j: int, l: int|
        0 <= j < t.leaves@.len() && 0 <= l < t.depth_spec() && #[trigger] v.leaf_status(
            t.leaves@[j],
        ) is Keep ==> {
            let ns = #[trigger] v.node_status(t.node_at(l, t.ancestor(j, l)));
            &&& ns is Keep
            &&& kept_key(ns) <= kept_key(v.leaf_status(t.leaves@[j]))
        }
}

/// The leaf `j` is kept by the visitor.
pub open spec fn leaf_kept<S: Spec, K: Scalar, V: NeighborVisitor<S, K>>(
    t: RTree<S>,
    v: V,
    j: int,
) -> bool {
    0 <= j < t.leaves@.len() && v.leaf_status(t.leaves@[j]) is Keep
}

/// The leaf `j` is kept with the smallest key of all kept leaves.
pub open spec fn is_nearest<S: Spec, K: Scalar, V: NeighborVisitor<S, K>>(
    t: RTree<S>,
    v: V,
    j: int,
) -> bool {
    &&& leaf_kept(t, v, j)
    &&& forall|i: int|
        #[trigger] leaf_kept(t, v, i) ==> kept_key(v.leaf_status(t.leaves@[j])) <= kept_key(
            v.leaf_status(t.leaves@[i]),
        )
}

struct Item<K> {
    level: usize,
    idx: usize,
    min_key: K,
}

impl<K: Scalar> Item<K> {
    /// First minimise the key, then maximise the level
    fn ord_key(&self) -> (r: (K, usize))
        ensures
            r.0.val() == K::max_val() - self.min_key.val(),
            r.1 == self.level,
    {
        proof {
            K::lemma_bounds(self.min_key);
        }
        (K::max_value().minus(self.min_key), self.level)
    }
}

/// Weight of a pending item of level `l`: more than all its children together.
spec fn item_weight<S: Spec>(t: RTree<S>, l: int) -> int
    decreases t.depth_spec() - l,
{
    if l >= t.depth_spec() {
        1
    } else {
        (t.group() + 1) * item_weight(t, l + 1)
    }
}

spec fn heap_weight<S: Spec, K>(t: RTree<S>, s: Seq<Item<K>>) -> int
    decreases s.len(),
{
    if s.len() == 0 {
        0
    } else {
        heap_weight(t, s.drop_last()) + item_weight(t, s.last().level as int)
    }
}

proof fn lemma_item_weight_pos<S: Spec>(t: RTree<S>, l: int)
    ensures
        item_weight(t, l) >= 1,
    decreases t.depth_spec() - l,
{
    if l < t.depth_spec() {
        lemma_item_weight_pos(t, l + 1);
        lemma_group_pos(&t);
        assert((t.group() + 1) * item_weight(t, l + 1) >= 1) by (nonlinear_arith)
            requires
                t.group() >= 1,
                item_weight(t, l + 1) >= 1,
        ;
    }
}

proof fn lemma_heap_weight_nonneg<S: Spec, K>(t: RTree<S>, s: Seq<Item<K>>)
    ensures
        heap_weight(t, s) >= 0,
    decreases s.len(),
{
    if s.len() > 0 {
        lemma_heap_weight_nonneg(t, s.drop_last());
        lemma_item_weight_pos(t, s.last().level as int);
    }
}

proof fn lemma_heap_weight_remove<S: Spec, K>(t: RTree<S>, s: Seq<Item<K>>, i: int)
    requires
        0 <= i < s.len(),
    ensures
        heap_weight(t, s.remove(i)) == heap_weight(t, s) - item_weight(t, s[i].level as int),
    decreases s.len(),
{
    if i == s.len() - 1 {
        assert(s.remove(i) =~= s.drop_last());
    } else {
        lemma_heap_weight_remove(t, s.drop_last(), i);
        assert(s.remove(i).drop_last() =~= s.drop_last().remove(i));
        assert(s.remove(i).last() == s.last());
    }
}

/// Status of the item `idx` of level `level` (the leaves are the level `depth`).
spec fn status_at<S: Spec, K: Scalar, V: NeighborVisitor<S, K>>(
    t: RTree<S>,
    v: V,
    level: int,
    idx: int,
) -> Status<K> {
    if level < t.depth_spec() {
        v.node_status(t.node_at(level, idx))
    } else {
        v.leaf_status(t.leaves@[idx])
    }
}

/// The item was produced by visiting its node or leaf.
#[verifier::opaque]
spec fn item_ok<S: Spec, K: Scalar, V: NeighborVisitor<S, K>>(
    t: RTree<S>,
    v: V,
    h: Item<K>,
) -> bool {
    &&& h.level <= t.depth_spec()
    &&& h.idx < t.level_len(h.level as int)
    &&& status_at(t, v, h.level as int, h.idx as int) == Status::Keep(h.min_key)
}

/// Some item of the heap lies above the leaf `j` (or is the leaf itself).
spec fn heap_covers<S: Spec, K>(t: RTree<S>, heap: Seq<Item<K>>, j: int) -> bool {
    exists|i: int|
        0 <= i < heap.len() && #[trigger] heap[i].idx == t.ancestor(j, heap[i].level as int)
}

/// Generic nearest neighbor search through a [RTree]
#[verifier::rlimit(60)]
pub fn nearest_neighbor<'s, S: Spec, K: Scalar, V: NeighborVisitor<S, K>>(
    rtree: &'s RTree<S>,
    visitor: &V,
) -> (r: Option<&'s S::Leaf>)
    requires
        rtree.shape_wf(),
        rtree.items_wf(),
        visitor.visitor_wf(),
    ensures
        admissible(*rtree, *visitor) ==> (r is None <==> forall|j: int|
            !#[trigger] leaf_kept(*rtree, *visitor, j)),
        admissible(*rtree, *visitor) ==> (r matches Some(leaf) ==> exists|j: int|
            is_nearest(*rtree, *visitor, j) && *leaf == #[trigger] rtree.leaves@[j]),
{
    let mut heap: Vec<Item<K>> = Vec::new();
    let ghost t = *rtree;
    let ghost v = *visitor;
    proof {
        lemma_shl_one_usize(rtree.node_size_order as usize);
        lemma_group_pos(rtree);
    }
    let group_size: usize = 1usize << (rtree.node_size_order as usize);
    match rtree.root_nodes() {
        Some(nodes) => {
            visit_nodes(rtree, &mut heap, visitor, nodes, 0, 0);
        },
        None => {
            visit_leaves(rtree, &mut heap, visitor, 0);
        },
    }
    proof {
        assert forall|j: int| admissible(t, v) && #[trigger] leaf_kept(t, v, j) implies heap_covers(t, heap@, j) by {
            lemma_ancestor_in_level(t, j, 0);
            if t.depth_spec() == 0 {
                assert(t.span(0) == 1);
                assert(j / 1 == j);
            }
            assert(status_at(t, v, 0, t.ancestor(j, 0)) is Keep);
        }
    }
    loop
        invariant
            rtree.shape_wf(),
            rtree.items_wf(),
            visitor.visitor_wf(),
            t == *rtree,
            v == *visitor,
            forall|i: int| 0 <= i < heap@.len() ==> item_ok(t, v, #[trigger] heap@[i]),
            forall|j: int| admissible(t, v) && #[trigger] leaf_kept(t, v, j) ==> heap_covers(t, heap@, j),
        decreases heap_weight(t, heap@),
    {
        if heap.len() == 0 {
            proof {
                assert forall|j: int| admissible(t, v) implies !#[trigger] leaf_kept(t, v, j) by {
                    if leaf_kept(t, v, j) {
                        assert(heap_covers(t, heap@, j));
                    }
                }
            }
            return None;
        }
        let best = pop_best(&mut heap);
        let ghost h0 = heap@;
        let item = heap.remove(best);
        proof {
            lemma_heap_weight_remove(t, h0, best as int);
            lemma_heap_weight_nonneg(t, heap@);
        }
        // Check if the item is a node or a leaf
        if item.level < rtree.node_levels.len() {
            proof {
                reveal(item_ok);
                lemma_child_group(t, item.level as int, item.idx as int);
                crate::irange::lemma_pow2_is_std(rtree.node_size_order as nat);
                if item.level + 1 < t.depth_spec() {
                    assert(t.level_len(item.level + 1) == rtree.node_levels@[item.level + 1].len());
                } else {
                    assert(t.level_len(item.level + 1) == rtree.leaves.len());
                }
                vstd::bits::lemma_usize_shl_is_mul(item.idx, rtree.node_size_order as usize);
            }
            let next_start = item.idx << (rtree.node_size_order as usize);
            let ghost h1 = heap@;
            if item.level + 1 < rtree.node_levels.len() {
                let next_level = rtree.node_levels[item.level + 1].as_slice();
                visit_nodes(rtree, &mut heap, visitor, next_level, item.level + 1, next_start);
            } else {
                visit_leaves(rtree, &mut heap, visitor, next_start);
            }
            proof {
                let l = item.level as int;
                lemma_heap_weight_append_level(t, h1, heap@, l + 1);
                lemma_item_weight_pos(t, l + 1);
                let m = heap@.len() - h1.len();
                assert(m * item_weight(t, l + 1) <= t.group() * item_weight(t, l + 1)) by (
                nonlinear_arith)
                    requires
                        m <= t.group(),
                        item_weight(t, l + 1) >= 1,
                ;
                assert(item_weight(t, l) == (t.group() + 1) * item_weight(t, l + 1));
                assert((t.group() + 1) * item_weight(t, l + 1) == t.group() * item_weight(t, l + 1)
                    + item_weight(t, l + 1)) by (nonlinear_arith);
                lemma_heap_weight_nonneg(t, heap@);
                if admissible(t, v) {
                    lemma_expand_covers(t, v, h0, best as int, h1, heap@, next_start as int);
                }
                assert forall|i: int| 0 <= i < heap@.len() implies item_ok(t, v, #[trigger] heap@[i]) by {}
            }
        } else {
            proof {
                reveal(item_ok);
                assert(item_ok(t, v, h0[best as int]));
                if admissible(t, v) {
                    lemma_pop_leaf(t, v, h0, best as int);
                }
            }
            return Some(&rtree.leaves[item.idx]);
        }
    }
}

/// After expanding the popped node, every kept leaf is still below some item.
proof fn lemma_expand_covers<S: Spec, K: Scalar, V: NeighborVisitor<S, K>>(
    t: RTree<S>,
    v: V,
    h0: Seq<Item<K>>,
    best: int,
    h1: Seq<Item<K>>,
    h2: Seq<Item<K>>,
    next_start: int,
)
    requires
        t.shape_wf(),
        admissible(t, v),
        0 <= best < h0.len(),
        h1 == h0.remove(best),
        h0[best].level < t.depth_spec(),
        next_start == h0[best].idx * t.group(),
        forall|j: int| #[trigger] leaf_kept(t, v, j) ==> heap_covers(t, h0, j),
        h2.len() >= h1.len(),
        h2.subrange(0, h1.len() as int) == h1,
        forall|i: int| h1.len() <= i < h2.len() ==> (#[trigger] h2[i]).level == h0[best].level + 1,
        h0[best].level + 1 < t.depth_spec() ==> forall|c: int|
            next_start <= c < next_start + t.group() && c < t.level_len(h0[best].level + 1)
                && #[trigger] v.node_status(t.node_at(h0[best].level + 1, c)) is Keep ==> exists|i: int|
                h1.len() <= i < h2.len() && #[trigger] h2[i].idx == c,
        h0[best].level + 1 == t.depth_spec() ==> forall|c: int|
            next_start <= c < next_start + t.group() && c < t.leaves@.len()
                && #[trigger] v.leaf_status(t.leaves@[c]) is Keep ==> exists|i: int|
                h1.len() <= i < h2.len() && #[trigger] h2[i].idx == c,
    ensures
        forall|j: int| #[trigger] leaf_kept(t, v, j) ==> heap_covers(t, h2, j),
{
    assert forall|j: int| #[trigger] leaf_kept(t, v, j) implies heap_covers(t, h2, j) by {
        lemma_expand_covers_one(t, v, h0, best, h1, h2, next_start, j);
    }
}

#[verifier::spinoff_prover]
proof fn lemma_expand_covers_one<S: Spec, K: Scalar, V: NeighborVisitor<S, K>>(
    t: RTree<S>,
    v: V,
    h0: Seq<Item<K>>,
    best: int,
    h1: Seq<Item<K>>,
    h2: Seq<Item<K>>,
    next_start: int,
    j: int,
)
    requires
        t.shape_wf(),
        admissible(t, v),
        0 <= best < h0.len(),
        h1 == h0.remove(best),
        h0[best].level < t.depth_spec(),
        next_start == h0[best].idx * t.group(),
        forall|j: int| #[trigger] leaf_kept(t, v, j) ==> heap_covers(t, h0, j),
        h2.len() >= h1.len(),
        h2.subrange(0, h1.len() as int) == h1,
        forall|i: int| h1.len() <= i < h2.len() ==> (#[trigger] h2[i]).level == h0[best].level + 1,
        h0[best].level + 1 < t.depth_spec() ==> forall|c: int|
            next_start <= c < next_start + t.group() && c < t.level_len(h0[best].level + 1)
                && #[trigger] v.node_status(t.node_at(h0[best].level + 1, c)) is Keep ==> exists|i: int|
                h1.len() <= i < h2.len() && #[trigger] h2[i].idx == c,
        h0[best].level + 1 == t.depth_spec() ==> forall|c: int|
            next_start <= c < next_start + t.group() && c < t.leaves@.len()
                && #[trigger] v.leaf_status(t.leaves@[c]) is Keep ==> exists|i: int|
                h1.len() <= i < h2.len() && #[trigger] h2[i].idx == c,
        leaf_kept(t, v, j),
    ensures
        heap_covers(t, h2, j),
{
    let l = h0[best].level as int;
    {
        assert(heap_covers(t, h0, j));
        let i = choose|i: int|
            0 <= i < h0.len() && #[trigger] h0[i].idx == t.ancestor(j, h0[i].level as int);
        if i == best {
            let c = t.ancestor(j, l + 1);
            lemma_ancestor_parent(&t, j, l);
            lemma_ancestor_in_level(t, j, l + 1);
            lemma_group_pos(&t);
            vstd::arithmetic::div_mod::lemma_fundamental_div_mod(c, t.group());
            vstd::arithmetic::div_mod::lemma_mod_pos_bound(c, t.group());
            assert(t.group() * h0[best].idx == h0[best].idx * t.group()) by (nonlinear_arith);
            assert(next_start <= c < next_start + t.group());
            if l + 1 < t.depth_spec() {
                assert(v.node_status(t.node_at(l + 1, t.ancestor(j, l + 1))) is Keep);
            } else {
                assert(t.span(l + 1) == 1);
                assert(c == j);
            }
            let k = choose|k: int| h1.len() <= k < h2.len() && #[trigger] h2[k].idx == c;
            assert(h2[k].level == l + 1);
            assert(h2[k].idx == t.ancestor(j, h2[k].level as int));
        } else {
            let i2 = if i < best { i } else { i - 1 };
            assert(h1[i2] == h0[i]);
            assert(h2.subrange(0, h1.len() as int)[i2] == h1[i2]);
            assert(h2[i2] == h0[i]);
        }
    }
}

/// The popped leaf has the smallest key of all kept leaves.
proof fn lemma_pop_leaf<S: Spec, K: Scalar, V: NeighborVisitor<S, K>>(
    t: RTree<S>,
    v: V,
    h0: Seq<Item<K>>,
    best: int,
)
    requires
        t.shape_wf(),
        admissible(t, v),
        0 <= best < h0.len(),
        h0[best].level >= t.depth_spec(),
        forall|i: int| 0 <= i < h0.len() ==> item_ok(t, v, #[trigger] h0[i]),
        forall|i: int|
            0 <= i < h0.len() ==> h0[best].min_key.val() <= #[trigger] h0[i].min_key.val(),
        forall|j: int| #[trigger] leaf_kept(t, v, j) ==> heap_covers(t, h0, j),
    ensures
        is_nearest(t, v, h0[best].idx as int),
        h0[best].idx < t.leaves@.len(),
{
    reveal(item_ok);
    let item = h0[best];
    assert(item_ok(t, v, h0[best]));
    assert(item.level == t.depth_spec());
    assert forall|i: int| #[trigger] leaf_kept(t, v, i) implies kept_key(
        v.leaf_status(t.leaves@[item.idx as int]),
    ) <= kept_key(v.leaf_status(t.leaves@[i])) by {
        assert(heap_covers(t, h0, i));
        let k = choose|k: int|
            0 <= k < h0.len() && #[trigger] h0[k].idx == t.ancestor(i, h0[k].level as int);
        assert(item_ok(t, v, h0[k]));
        lemma_cover_key(t, v, h0[k], i);
    }
}

/// An item above a kept leaf has a key no larger than the leaf's key.
proof fn lemma_cover_key<S: Spec, K: Scalar, V: NeighborVisitor<S, K>>(
    t: RTree<S>,
    v: V,
    h: Item<K>,
    i: int,
)
    requires
        admissible(t, v),
        item_ok(t, v, h),
        leaf_kept(t, v, i),
        h.idx == t.ancestor(i, h.level as int),
    ensures
        h.min_key.val() <= kept_key(v.leaf_status(t.leaves@[i])),
{
    reveal(item_ok);
    if h.level < t.depth_spec() {
        assert(v.node_status(t.node_at(h.level as int, t.ancestor(i, h.level as int))) is Keep);
    } else {
        assert(t.span(h.level as int) == 1);
        assert(i / 1 == i);
    }
}

/// The children of a node lie within the next level.
proof fn lemma_child_group<S: Spec>(t: RTree<S>, l: int, i: int)
    requires
        t.shape_wf(),
        0 <= l < t.depth_spec(),
        0 <= i < t.level_len(l),
    ensures
        i * t.group() < t.level_len(l + 1),
        t.node_size_order < usize::BITS,
{
    lemma_group_pos(&t);
    assert(t.level_len(l) >= 1);
    assert(i * t.group() <= (t.level_len(l) - 1) * t.group()) by (nonlinear_arith)
        requires
            i <= t.level_len(l) - 1,
            t.group() >= 1,
    ;
}

proof fn lemma_heap_weight_append_level<S: Spec, K>(
    t: RTree<S>,
    a: Seq<Item<K>>,
    b: Seq<Item<K>>,
    l: int,
)
    requires
        b.len() >= a.len(),
        b.subrange(0, a.len() as int) == a,
        forall|i: int| a.len() <= i < b.len() ==> (#[trigger] b[i]).level == l,
    ensures
        heap_weight(t, b) == heap_weight(t, a) + (b.len() - a.len()) * item_weight(t, l),
    decreases b.len(),
{
    if b.len() > a.len() {
        let b2 = b.drop_last();
        assert(b2.subrange(0, a.len() as int) =~= b.subrange(0, a.len() as int));
        lemma_heap_weight_append_level(t, a, b2, l);
        assert((b.len() - a.len()) * item_weight(t, l) == (b2.len() - a.len()) * item_weight(t, l)
            + item_weight(t, l)) by (nonlinear_arith)
            requires
                b.len() == b2.len() + 1,
        ;
    } else {
        assert(b =~= a);
    }
}

/// Index of the item to pop: the smallest key, and among those the deepest level.
fn pop_best<K: Scalar>(heap: &mut Vec<Item<K>>) -> (r: usize)
    requires
        old(heap).len() > 0,
    ensures
        final(heap)@ == old(heap)@,
        r < old(heap).len(),
        forall|i: int|
            0 <= i < old(heap)@.len() ==> old(heap)@[r as int].min_key.val()
                <= #[trigger] old(heap)@[i].min_key.val(),
{
    let mut best: usize = 0;
    let mut i: usize = 1;
    while i < heap.len()
        invariant
            heap@ == old(heap)@,
            best < i <= heap@.len(),
            forall|j: int|
                0 <= j < i ==> heap@[best as int].min_key.val() <= #[trigger] heap@[j].min_key.val(),
        decreases heap@.len() - i,
    {
        let kb = heap[best].ord_key();
        let ki = heap[i].ord_key();
        if kb.0.is_lt(ki.0) || (!ki.0.is_lt(kb.0) && kb.1 < ki.1) {
            best = i;
        }
        i = i + 1;
    }
    best
}

/// The ancestor of a leaf at any level lies within that level.
proof fn lemma_ancestor_in_level<S: Spec>(t: RTree<S>, j: int, l: int)
    requires
        t.shape_wf(),
        0 <= j < t.leaves@.len(),
        0 <= l <= t.depth_spec(),
    ensures
        0 <= t.ancestor(j, l) < t.level_len(l),
{
    lemma_level_covers_leaves(&t, l);
    lemma_span_pos(&t, l);
    lemma_multiply_divide_lt(j, t.span(l), t.level_len(l));
    assert(t.span(l) * t.level_len(l) == t.level_len(l) * t.span(l)) by (nonlinear_arith);
    vstd::arithmetic::div_mod::lemma_div_pos_is_pos(j, t.span(l));
}

fn visit_nodes<'s, S: Spec, K: Scalar, V: NeighborVisitor<S, K>>(
    rtree: &'s RTree<S>,
    heap: &mut Vec<Item<K>>,
    visitor: &V,
    level_nodes: &[S::Node],
    level: usize,
    start_idx: usize,
)
    requires
        rtree.shape_wf(),
        rtree.items_wf(),
        visitor.visitor_wf(),
        level < rtree.depth_spec(),
        level_nodes@ == rtree.node_levels@[level as int]@,
        forall|i: int| 0 <= i < old(heap)@.len() ==> item_ok(*rtree, *visitor, #[trigger] old(heap)@[i]),
    ensures
        forall|i: int| 0 <= i < final(heap)@.len() ==> item_ok(*rtree, *visitor, #[trigger] final(heap)@[i]),
        final(heap)@.len() >= old(heap)@.len(),
        final(heap)@.subrange(0, old(heap)@.len() as int) == old(heap)@,
        final(heap)@.len() - old(heap)@.len() <= rtree.group(),
        forall|i: int| old(heap)@.len() <= i < final(heap)@.len() ==> (#[trigger] final(heap)@[i]).level == level,
        forall|c: int|
            start_idx <= c < start_idx + rtree.group() && c < level_nodes@.len() && #[trigger] visitor.node_status(
                rtree.node_at(level as int, c),
            ) is Keep ==> exists|i: int|
                old(heap)@.len() <= i < final(heap)@.len() && #[trigger] final(heap)@[i].idx == c,
{
    proof {
        lemma_shl_one_usize(rtree.node_size_order as usize);
    }
    let group_size: usize = 1usize << (rtree.node_size_order as usize);
    let ghost h0 = heap@;
    let len = level_nodes.len();
    let end = if start_idx > len || len - start_idx < group_size {
        len
    } else {
        start_idx + group_size
    };
    let mut idx = start_idx;
    while idx < end
        invariant
            rtree.items_wf(),
            visitor.visitor_wf(),
            level < rtree.depth_spec(),
            level_nodes@ == rtree.node_levels@[level as int]@,
            group_size == rtree.group(),
            end <= len == level_nodes@.len(),
            end <= start_idx + group_size,
            start_idx <= idx,
            idx <= end || idx == start_idx,
            heap@.len() >= h0.len(),
            heap@.subrange(0, h0.len() as int) == h0,
            heap@.len() - h0.len() <= idx - start_idx,
            forall|i: int| 0 <= i < heap@.len() ==> item_ok(*rtree, *visitor, #[trigger] heap@[i]),
            forall|i: int| h0.len() <= i < heap@.len() ==> (#[trigger] heap@[i]).level == level,
            forall|c: int|
                start_idx <= c < idx && #[trigger] visitor.node_status(rtree.node_at(level as int, c))
                    is Keep ==> exists|i: int| h0.len() <= i < heap@.len() && #[trigger] heap@[i].idx == c,
        decreases end - idx,
    {
        let ghost hb = heap@;
        proof {
            assert(level_nodes@[idx as int] == rtree.node_at(level as int, idx as int));
        }
        match visitor.visit_node(&level_nodes[idx]) {
            Status::Keep(min_key) => {
                heap.push(Item { level, idx, min_key });
                proof {
                    reveal(item_ok);
                    assert(item_ok(*rtree, *visitor, heap@[hb.len() as int]));
                    assert forall|i: int| 0 <= i < heap@.len() implies item_ok(
                        *rtree,
                        *visitor,
                        #[trigger] heap@[i],
                    ) by {
                        if i < hb.len() {
                            assert(heap@[i] == hb[i]);
                        }
                    }
                    assert(heap@[hb.len() as int].idx == idx);
                    assert(heap@.subrange(0, h0.len() as int) =~= hb.subrange(0, h0.len() as int));
                    assert forall|c: int|
                        start_idx <= c < idx + 1 && #[trigger] visitor.node_status(
                            rtree.node_at(level as int, c),
                        ) is Keep implies exists|i: int|
                        h0.len() <= i < heap@.len() && #[trigger] heap@[i].idx == c by {
                        if c < idx {
                            let i = choose|i: int| h0.len() <= i < hb.len() && #[trigger] hb[i].idx == c;
                            assert(heap@[i] == hb[i]);
                        } else {
                            assert(heap@[hb.len() as int].idx == c);
                        }
                    }
                }
            },
            Status::Ignore => {},
        }
        idx = idx + 1;
    }
}

fn visit_leaves<'s, S: Spec, K: Scalar, V: NeighborVisitor<S, K>>(
    rtree: &'s RTree<S>,
    heap: &mut Vec<Item<K>>,
    visitor: &V,
    start_idx: usize,
)
    requires
        rtree.shape_wf(),
        rtree.items_wf(),
        visitor.visitor_wf(),
        forall|i: int| 0 <= i < old(heap)@.len() ==> item_ok(*rtree, *visitor, #[trigger] old(heap)@[i]),
    ensures
        forall|i: int| 0 <= i < final(heap)@.len() ==> item_ok(*rtree, *visitor, #[trigger] final(heap)@[i]),
        final(heap)@.len() >= old(heap)@.len(),
        final(heap)@.subrange(0, old(heap)@.len() as int) == old(heap)@,
        final(heap)@.len() - old(heap)@.len() <= rtree.group(),
        forall|i: int| old(heap)@.len() <= i < final(heap)@.len() ==> (#[trigger] final(heap)@[i]).level == rtree.depth_spec(),
        forall|c: int|
            start_idx <= c < start_idx + rtree.group() && c < rtree.leaves@.len() && #[trigger] visitor.leaf_status(
                rtree.leaves@[c],
            ) is Keep ==> exists|i: int|
                old(heap)@.len() <= i < final(heap)@.len() && #[trigger] final(heap)@[i].idx == c,
{
    let level = rtree.node_levels.len();
    proof {
        lemma_shl_one_usize(rtree.node_size_order as usize);
    }
    let group_size: usize = 1usize << (rtree.node_size_order as usize);
    let ghost h0 = heap@;
    let len = rtree.leaves.len();
    let end = if start_idx > len || len - start_idx < group_size {
        len
    } else {
        start_idx + group_size
    };
    let mut idx = start_idx;
    while idx < end
        invariant
            rtree.items_wf(),
            visitor.visitor_wf(),
            level == rtree.depth_spec(),
            group_size == rtree.group(),
            end <= len == rtree.leaves@.len(),
            end <= start_idx + group_size,
            start_idx <= idx,
            idx <= end || idx == start_idx,
            heap@.len() >= h0.len(),
            heap@.subrange(0, h0.len() as int) == h0,
            heap@.len() - h0.len() <= idx - start_idx,
            forall|i: int| 0 <= i < heap@.len() ==> item_ok(*rtree, *visitor, #[trigger] heap@[i]),
            forall|i: int| h0.len() <= i < heap@.len() ==> (#[trigger] heap@[i]).level == level,
            forall|c: int|
                start_idx <= c < idx && #[trigger] visitor.leaf_status(rtree.leaves@[c]) is Keep
                    ==> exists|i: int| h0.len() <= i < heap@.len() && #[trigger] heap@[i].idx == c,
        decreases end - idx,
    {
        let ghost hb = heap@;
        match visitor.visit_leaf(&rtree.leaves[idx]) {
            Status::Keep(min_key) => {
                heap.push(Item { level, idx, min_key });
                proof {
                    reveal(item_ok);
                    assert(item_ok(*rtree, *visitor, heap@[hb.len() as int]));
                    assert forall|i: int| 0 <= i < heap@.len() implies item_ok(
                        *rtree,
                        *visitor,
                        #[trigger] heap@[i],
                    ) by {
                        if i < hb.len() {
                            assert(heap@[i] == hb[i]);
                        }
                    }
                    assert(heap@[hb.len() as int].idx == idx);
                    assert(heap@.subrange(0, h0.len() as int) =~= hb.subrange(0, h0.len() as int));
                    assert forall|c: int|
                        start_idx <= c < idx + 1 && #[trigger] visitor.leaf_status(rtree.leaves@[c])
                            is Keep implies exists|i: int|
                        h0.len() <= i < heap@.len() && #[trigger] heap@[i].idx == c by {
                        if c < idx {
                            let i = choose|i: int| h0.len() <= i < hb.len() && #[trigger] hb[i].idx == c;
                            assert(heap@[i] == hb[i]);
                        } else {
                            assert(heap@[hb.len() as int].idx == c);
                        }
                    }
                }
            },
            Status::Ignore => {},
        }
        idx = idx + 1;
    }
}

} // verus!
