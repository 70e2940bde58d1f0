//! Intermediate nodes of a packed R-Tree, computed from its sorted leaves.
use vstd::prelude::*;
use crate::index::hilbert_spec::HilbertSpec;
use crate::index::scout::{div_ceil, lemma_div_ceil_bounds};
use crate::irange::{lemma_shl_one_usize, pow2};
use crate::rtree::{RTree, Spec};
use vstd::slice::slice_subrange;

verus! {

/// The items `[i*g, (i+1)*g)` of a level, cut at its end.
pub open spec fn chunk<A>(items: Seq<A>, g: int, i: int) -> Seq<A> {
    items.subrange(i * g, if (i + 1) * g < items.len() { (i + 1) * g } else { items.len() as int })
}

/// The level above `items`: the bounding box of each group of `g` items.
pub open spec fn group_level<S: HilbertSpec>(items: Seq<S::Node>, g: int) -> Seq<S::Node> {
    Seq::new(div_ceil(items.len() as int, g) as nat, |i: int| S::fold_rects(chunk(items, g, i)))
}

/// Levels above `items`, from the lowest up, until one holds at most `g` nodes.
pub open spec fn levels_up<S: HilbertSpec>(items: Seq<S::Node>, g: int) -> Seq<Seq<S::Node>>
    decreases items.len(),
{
    if g < 2 || items.len() <= g {
        Seq::empty()
    } else {
        proof {
            lemma_div_ceil_bounds(items.len() as int, g);
        }
        seq![group_level::<S>(items, g)] + levels_up::<S>(group_level::<S>(items, g), g)
    }
}

/// The rectangles of leaves.
pub open spec fn leaf_rects<S: HilbertSpec>(leaves: Seq<S::Leaf>) -> Seq<S::Node> {
    leaves.map_values(|l: S::Leaf| S::leaf_rect(l))
}

/// The nodes of the levels, lowest level first.
pub open spec fn flatten_levels<A>(levels: Seq<Seq<A>>) -> Seq<A>
    decreases levels.len(),
{
    if levels.len() == 0 {
        Seq::empty()
    } else {
        flatten_levels(levels.drop_last()) + levels.last()
    }
}


proof fn lemma_chunk_count(n: int, g: int, k: int)
    requires
        g >= 1,
        n >= 1,
        k >= 1,
        (k - 1) * g < n <= k * g,
    ensures
        k == div_ceil(n, g),
{
    let q = (n - 1) / g;
    let r = (n - 1) % g;
    vstd::arithmetic::div_mod::lemma_fundamental_div_mod(n - 1, g);
    assert(q == k - 1) by (nonlinear_arith)
        requires
            n - 1 == q * g + r,
            0 <= r < g,
            (k - 1) * g < n <= k * g,
            g >= 1,
    ;
}

proof fn lemma_div_ceil_ge(n: int, g: int)
    requires
        g >= 1,
        n >= 1,
    ensures
        (div_ceil(n, g) - 1) * g < n <= div_ceil(n, g) * g,
        div_ceil(n, g) >= 1,
{
    let q = (n - 1) / g;
    let r = (n - 1) % g;
    vstd::arithmetic::div_mod::lemma_fundamental_div_mod(n - 1, g);
    assert((div_ceil(n, g) - 1) * g < n <= div_ceil(n, g) * g) by (nonlinear_arith)
        requires
            n - 1 == q * g + r,
            0 <= r < g,
            div_ceil(n, g) == q + 1,
    ;
    assert(q >= 0) by (nonlinear_arith)
        requires
            n - 1 == q * g + r,
            0 <= r < g,
            n >= 1,
            g >= 1,
    ;
}

/// The bounding box of each group of `g` leaves, in order; also appended to `out`.
fn group_leaves<S: HilbertSpec>(leaves: &[S::Leaf], g: usize, out: &mut Vec<S::Node>) -> (level: Vec<S::Node>)
    requires
        g >= 2,
        leaves@.len() > 0,
    ensures
        level@ == group_level::<S>(leaf_rects::<S>(leaves@), g as int),
        final(out)@ == old(out)@ + level@,
{
    let ghost rects = leaf_rects::<S>(leaves@);
    let ghost target = group_level::<S>(rects, g as int);
    let ghost out0 = out@;
    let len = leaves.len();
    let mut level: Vec<S::Node> = Vec::new();
    let mut start: usize = 0;
    let ghost mut k: int = 0;
    while start < len
        invariant
            g >= 2,
            len == leaves@.len(),
            len == rects.len(),
            rects == leaf_rects::<S>(leaves@),
            target == group_level::<S>(rects, g as int),
            0 <= k,
            start <= len,
            start < len ==> start == k * g,
            start == len ==> len <= k * g,
            k > 0 ==> (k - 1) * g < len,
            level@ == target.take(k),
            k <= target.len(),
            out@ == out0 + level@,
        decreases len - start,
    {
        proof {
            assert(k * g < len);
            lemma_div_ceil_ge(len as int, g as int);
            assert(k < div_ceil(len as int, g as int)) by (nonlinear_arith)
                requires
                    k * g < len,
                    g >= 1,
                    (div_ceil(len as int, g as int) - 1) * g < len <= div_ceil(len as int, g as int) * g,
            ;
        }
        let end = if len - start > g { start + g } else { len };
        let chunk_leaves = slice_subrange(leaves, start, end);
        let bbox = S::bbox_of_leaves(chunk_leaves);
        proof {
            assert((k + 1) * g == k * g + g) by (nonlinear_arith);
            assert(chunk_leaves@.map_values(|l: S::Leaf| S::leaf_rect(l)) =~= chunk(rects, g as int, k));
            assert(target[k] == S::fold_rects(chunk(rects, g as int, k)));
        }
        level.push(bbox);
        out.push(bbox);
        proof {
            assert(level@ =~= target.take(k + 1));
            k = k + 1;
        }
        start = end;
        proof {
            assert((k - 1) * g + g == k * g) by (nonlinear_arith);
        }
    }
    proof {
        assert(k >= 1) by {
            if k == 0 {
                assert(start == 0);
            }
        }
        lemma_chunk_count(len as int, g as int, k);
        assert(level@ =~= target);
    }
    level
}

/// The bounding box of each group of `g` nodes, in order; also appended to `out`.
fn group_nodes<S: HilbertSpec>(leaves: &[S::Node], g: usize, out: &mut Vec<S::Node>) -> (level: Vec<S::Node>)
    requires
        g >= 2,
        leaves@.len() > 0,
    ensures
        level@ == group_level::<S>(leaves@, g as int),
        final(out)@ == old(out)@ + level@,
{
    let ghost rects = leaves@;
    let ghost target = group_level::<S>(rects, g as int);
    let ghost out0 = out@;
    let len = leaves.len();
    let mut level: Vec<S::Node> = Vec::new();
    let mut start: usize = 0;
    let ghost mut k: int = 0;
    while start < len
        invariant
            g >= 2,
            len == leaves@.len(),
            len == rects.len(),
            rects == leaves@,
            target == group_level::<S>(rects, g as int),
            0 <= k,
            start <= len,
            start < len ==> start == k * g,
            start == len ==> len <= k * g,
            k > 0 ==> (k - 1) * g < len,
            level@ == target.take(k),
            k <= target.len(),
            out@ == out0 + level@,
        decreases len - start,
    {
        proof {
            assert(k * g < len);
            lemma_div_ceil_ge(len as int, g as int);
            assert(k < div_ceil(len as int, g as int)) by (nonlinear_arith)
                requires
                    k * g < len,
                    g >= 1,
                    (div_ceil(len as int, g as int) - 1) * g < len <= div_ceil(len as int, g as int) * g,
            ;
        }
        let end = if len - start > g { start + g } else { len };
        let chunk_leaves = slice_subrange(leaves, start, end);
        let bbox = S::bbox_of_nodes(chunk_leaves);
        proof {
            assert((k + 1) * g == k * g + g) by (nonlinear_arith);
            assert(chunk_leaves@ =~= chunk(rects, g as int, k));
            assert(target[k] == S::fold_rects(chunk(rects, g as int, k)));
        }
        level.push(bbox);
        out.push(bbox);
        proof {
            assert(level@ =~= target.take(k + 1));
            k = k + 1;
        }
        start = end;
        proof {
            assert((k - 1) * g + g == k * g) by (nonlinear_arith);
        }
    }
    proof {
        assert(k >= 1) by {
            if k == 0 {
                assert(start == 0);
            }
        }
        lemma_chunk_count(len as int, g as int, k);
        assert(level@ =~= target);
    }
    level
}


/// The intermediate nodes over sorted leaves, lowest level first: the bounding boxes of
/// groups of `2^node_size_order` leaves, then of groups of those nodes, and so on up to
/// a level of at most one group.
pub fn build_intermediate_nodes_from_sorted_leaves<S: HilbertSpec>(node_size_order: u8, in_leaves: &[S::Leaf]) -> (out_nodes: Vec<S::Node>)
    requires
        1 <= node_size_order < usize::BITS,
    ensures
        out_nodes@ == flatten_levels(levels_up::<S>(leaf_rects::<S>(in_leaves@), pow2(node_size_order as nat) as int)),
{
    proof {
        lemma_shl_one_usize(node_size_order as usize);
        lemma_pow2_ge2(node_size_order as nat);
    }
    let node_size: usize = 1usize << (node_size_order as usize);
    let ghost g = node_size as int;
    let ghost rects = leaf_rects::<S>(in_leaves@);
    let mut out: Vec<S::Node> = Vec::new();
    if in_leaves.len() > node_size {
        let mut prev = group_leaves::<S>(in_leaves, node_size, &mut out);
        let ghost mut done: Seq<Seq<S::Node>> = seq![prev@];
        proof {
            lemma_div_ceil_bounds(rects.len() as int, g);
            assert(levels_up::<S>(rects, g) == seq![prev@] + levels_up::<S>(prev@, g));
            assert(flatten_levels(done) =~= flatten_levels(done.drop_last()) + prev@);
            assert(done.drop_last() =~= Seq::<Seq<S::Node>>::empty());
        }
        while prev.len() > node_size
            invariant
                g == node_size,
                g >= 2,
                prev@.len() > 0,
                levels_up::<S>(rects, g) == done + levels_up::<S>(prev@, g),
                out@ == flatten_levels(done),
            decreases prev@.len(),
        {
            proof {
                lemma_div_ceil_bounds(prev@.len() as int, g);
            }
            let ghost p = prev@;
            let next = group_nodes::<S>(prev.as_slice(), node_size, &mut out);
            proof {
                assert(levels_up::<S>(p, g) == seq![next@] + levels_up::<S>(next@, g));
                assert(done + levels_up::<S>(p, g) =~= done.push(next@) + levels_up::<S>(next@, g));
                assert(done.push(next@).drop_last() =~= done);
                done = done.push(next@);
            }
            prev = next;
        }
        proof {
            assert(levels_up::<S>(prev@, g) =~= Seq::<Seq<S::Node>>::empty());
            assert(done + levels_up::<S>(prev@, g) =~= done);
        }
    } else {
        proof {
            assert(levels_up::<S>(rects, g) =~= Seq::<Seq<S::Node>>::empty());
            assert(out@ =~= flatten_levels(Seq::<Seq<S::Node>>::empty()));
        }
    }
    out
}

pub proof fn lemma_pow2_ge2(k: nat)
    requires
        k >= 1,
    ensures
        pow2(k) >= 2,
    decreases k,
{
    reveal_with_fuel(pow2, 2);
    if k > 1 {
        lemma_pow2_ge2((k - 1) as nat);
    }
}


/// Items below the level `j` of `levels_up(items, g)`: `items` for the lowest level.
pub open spec fn below_up<S: HilbertSpec>(items: Seq<S::Node>, g: int, j: int) -> Seq<S::Node> {
    if j == 0 {
        items
    } else {
        levels_up::<S>(items, g)[j - 1]
    }
}

/// Each level groups the level below it, which has more than `g` items.
proof fn lemma_levels_up_at<S: HilbertSpec>(items: Seq<S::Node>, g: int, j: int)
    requires
        g >= 2,
        0 <= j < levels_up::<S>(items, g).len(),
    ensures
        below_up::<S>(items, g, j).len() > g,
        levels_up::<S>(items, g)[j] == group_level::<S>(below_up::<S>(items, g, j), g),
    decreases j,
{
    lemma_div_ceil_bounds(items.len() as int, g);
    let first = group_level::<S>(items, g);
    let u = levels_up::<S>(items, g);
    assert(u == seq![first] + levels_up::<S>(first, g));
    if j > 0 {
        lemma_levels_up_at::<S>(first, g, j - 1);
        assert(u[j] == levels_up::<S>(first, g)[j - 1]);
        if j > 1 {
            assert(u[j - 1] == levels_up::<S>(first, g)[j - 2]);
        }
        assert(below_up::<S>(items, g, j) == below_up::<S>(first, g, j - 1));
    }
}

/// The group above the item `i` of a level holds it.
proof fn lemma_group_covers<S: HilbertSpec>(items: Seq<S::Node>, g: int, i: int)
    requires
        g >= 2,
        0 <= i < items.len(),
    ensures
        i / g < group_level::<S>(items, g).len(),
        S::node_covers_node(group_level::<S>(items, g)[i / g], items[i]),
{
    let q = i / g;
    vstd::arithmetic::div_mod::lemma_fundamental_div_mod(i, g);
    lemma_div_ceil_ge(items.len() as int, g);
    let n = items.len() as int;
    assert(q * g <= i < q * g + g);
    assert(q < div_ceil(n, g)) by (nonlinear_arith)
        requires
            q * g <= i,
            i < n,
            g >= 1,
            (div_ceil(n, g) - 1) * g < n <= div_ceil(n, g) * g,
    ;
    assert((q + 1) * g == q * g + g) by (nonlinear_arith);
    let c = chunk(items, g, q);
    assert(c.len() > 0);
    S::lemma_fold_covers(c);
    assert(c[i - q * g] == items[i]);
}

/// A tree whose levels are the intermediate nodes built over its leaves, root level
/// first, has every node holding its children and every leaf.
pub proof fn law_built_nodes_cover<S: HilbertSpec>(t: RTree<S>)
    requires
        1 <= t.node_size_order < usize::BITS,
        t.node_levels@.len() == levels_up::<S>(leaf_rects::<S>(t.leaves@), t.group()).len(),
        forall|l: int|
            0 <= l < t.node_levels@.len() ==> (#[trigger] t.node_levels@[l])@ == levels_up::<S>(
                leaf_rects::<S>(t.leaves@),
                t.group(),
            )[t.node_levels@.len() - 1 - l],
    ensures
        t.bbox_wf(),
{
    let g = t.group();
    lemma_pow2_ge2(t.node_size_order as nat);
    let rects = leaf_rects::<S>(t.leaves@);
    let u = levels_up::<S>(rects, g);
    let d = t.depth_spec();
    assert forall|l: int, i: int|
        0 <= l < d - 1 && 0 <= i < t.level_len(l + 1) implies S::node_covers_node(
            #[trigger] t.node_at(l, i / g),
            t.node_at(l + 1, i),
        ) by {
        let j = d - 2 - l;
        lemma_levels_up_at::<S>(rects, g, j + 1);
        assert(t.node_levels@[l]@ == u[j + 1]);
        assert(t.node_levels@[l + 1]@ == u[j]);
        assert(below_up::<S>(rects, g, j + 1) == u[j]);
        lemma_group_covers::<S>(u[j], g, i);
    }
    assert forall|i: int|
        0 <= i < t.leaves@.len() && d > 0 implies S::node_covers_leaf(
            t.node_at(d - 1, i / g),
            #[trigger] t.leaves@[i],
        ) by {
        lemma_levels_up_at::<S>(rects, g, 0);
        assert(t.node_levels@[d - 1]@ == u[0]);
        lemma_group_covers::<S>(rects, g, i);
        assert(rects[i] == S::leaf_rect(t.leaves@[i]));
        S::lemma_covers_leaf_rect(t.node_at(d - 1, i / g), t.leaves@[i]);
    }
}

} // verus!
