//! Ordering leaves along a Hilbert curve over their bounding box.
use vstd::prelude::*;
use crate::flat::{Addr, MemNode, MemReadLeaf, MemWriteLeaf, RegLeaf, RegNode, Time};
use crate::irange::{IRange, floor_log2};
use crate::memory::{MemReadSpec, MemWriteSpec};
use crate::register::RegSpec;
use crate::rtree::Spec;

verus! {

/// Index along the Hilbert curve of the point `(x, y)` of two 64-bit coordinates.
pub uninterp spec fn hilbert_index_u64(x: u64, y: u64, order: u8) -> u128;

/// Index along the Hilbert curve of the point `(x, y)` of two 8-bit coordinates.
pub uninterp spec fn hilbert_index_u8(x: u8, y: u8, order: u8) -> u16;

/// `fast_hilbert::xy2h` on 64-bit coordinates: its result is named, as a function of the
/// coordinates and the order alone.
#[verifier::external_body]
fn xy2h_u64(x: u64, y: u64, order: u8) -> (r: u128)
    ensures
        r == hilbert_index_u64(x, y, order),
{
    fast_hilbert::xy2h(x, y, order)
}

/// `fast_hilbert::xy2h` on 8-bit coordinates: its result is named, as a function of the
/// coordinates and the order alone.
#[verifier::external_body]
fn xy2h_u8(x: u8, y: u8, order: u8) -> (r: u16)
    ensures
        r == hilbert_index_u8(x, y, order),
{
    fast_hilbert::xy2h(x, y, order)
}

/// Bits needed for the offsets of a range `[lo, hi]`.
pub open spec fn span_bits_of(lo: int, hi: int) -> int {
    if hi == lo {
        1
    } else {
        floor_log2((hi - lo) as nat) + 1int
    }
}

/// A coordinate spread over 64 bits: the offset of `v` from `lo`, shifted so that the
/// range `[lo, hi]` fills the top bits.
pub open spec fn spread_u64(v: u64, lo: u64, hi: u64) -> u64 {
    ((v - lo) as u64) << ((64 - span_bits_of(lo as int, hi as int)) as u64)
}

/// A time coordinate spread over the 32 bits of a time, then moved to the top of 64 bits.
pub open spec fn spread_time(v: Time, lo: Time, hi: Time) -> u64 {
    ((((v - lo) as u32) << ((32 - span_bits_of(lo as int, hi as int)) as u32)) as u64) << 32u64
}

/// Middle of `[a, b]`, rounded down.
pub open spec fn mid_u64(a: u64, b: u64) -> u64 {
    (a + (b - a) / 2) as u64
}

pub open spec fn mid_u32(a: u32, b: u32) -> u32 {
    (a + (b - a) / 2) as u32
}

/// Hilbert coordinates of a memory rectangle in a bounding box: its middle address and
/// middle time, spread over the box.
pub open spec fn mem_coordinates(node: MemNode, bbox: MemNode) -> (u64, u64) {
    (
        spread_u64(mid_u64(node.addr_min, node.addr_max), bbox.addr_min, bbox.addr_max),
        spread_time(mid_u32(node.time_min, node.time_max), bbox.time_min, bbox.time_max),
    )
}

/// Hilbert coordinates of a register leaf in a bounding box: its value and middle time.
pub open spec fn reg_coordinates(leaf: RegLeaf, bbox: RegNode) -> (u64, u64) {
    (
        spread_u64(leaf.value, bbox.value_min, bbox.value_max),
        spread_time(mid_u32(leaf.time_min, leaf.time_max), bbox.time_min, bbox.time_max),
    )
}

/// Partition of a point: the Hilbert index of the top 4 bits of its coordinates.
pub open spec fn partition_of(c: (u64, u64)) -> u8 {
    hilbert_index_u8((c.0 >> 60u64) as u8, (c.1 >> 60u64) as u8, 4) as u8
}

fn midpoint_u64(a: u64, b: u64) -> (r: u64)
    requires
        a <= b,
    ensures
        r == mid_u64(a, b),
{
    a + (b - a) / 2
}

fn midpoint_u32(a: u32, b: u32) -> (r: u32)
    requires
        a <= b,
    ensures
        r == mid_u32(a, b),
{
    a + (b - a) / 2
}

fn spread_addr_exec(v: u64, lo: u64, hi: u64) -> (r: u64)
    requires
        lo <= v <= hi,
    ensures
        r == spread_u64(v, lo, hi),
{
    let bits = IRange::new(lo, hi).span_bits();
    (v - lo) << (64 - bits)
}

fn spread_time_exec(v: Time, lo: Time, hi: Time) -> (r: u64)
    requires
        lo <= v <= hi,
    ensures
        r == spread_time(v, lo, hi),
{
    let bits = IRange::new(lo, hi).span_bits();
    let t = (v - lo) << (32 - bits);
    (t as u64) << 32
}

fn mem_hilbert_coordinates(node: &MemNode, bbox: &MemNode) -> (r: (u64, u64))
    requires
        node.wf(),
        bbox.wf(),
        bbox.covers(*node),
    ensures
        r == mem_coordinates(*node, *bbox),
{
    let addr = midpoint_u64(node.addr_min, node.addr_max);
    let time = midpoint_u32(node.time_min, node.time_max);
    (spread_addr_exec(addr, bbox.addr_min, bbox.addr_max), spread_time_exec(time, bbox.time_min, bbox.time_max))
}

fn reg_hilbert_coordinates(leaf: &RegLeaf, bbox: &RegNode) -> (r: (u64, u64))
    requires
        leaf.wf(),
        bbox.wf(),
        bbox.covers(leaf.node_spec()),
    ensures
        r == reg_coordinates(*leaf, *bbox),
{
    let time = midpoint_u32(leaf.time_min, leaf.time_max);
    (spread_addr_exec(leaf.value, bbox.value_min, bbox.value_max), spread_time_exec(time, bbox.time_min, bbox.time_max))
}

fn partition_key(c: (u64, u64)) -> (r: u8)
    ensures
        r == partition_of(c),
{
    // keep high 4-bits
    let x = (c.0 >> 60u64) as u8;
    let y = (c.1 >> 60u64) as u8;
    xy2h_u8(x, y, 4) as u8
}

/// Bounding boxes and Hilbert keys of the leaves of an R-Tree.
pub trait HilbertSpec: Spec + Sized {
    /// The rectangle of a leaf.
    spec fn leaf_rect(leaf: Self::Leaf) -> Self::Node;

    /// The smallest rectangle holding every rectangle of a nonempty sequence, built from
    /// the first one on.
    spec fn fold_rects(s: Seq<Self::Node>) -> Self::Node;

    /// Hilbert coordinates of a leaf in a bounding box.
    spec fn coordinates(leaf: Self::Leaf, bbox: Self::Node) -> (u64, u64);

    /// Time range of a leaf.
    spec fn leaf_times(leaf: Self::Leaf) -> IRange<Time>;

    /// A node holds a leaf when it holds the leaf's rectangle.
    proof fn lemma_covers_leaf_rect(n: Self::Node, leaf: Self::Leaf)
        ensures
            Self::node_covers_leaf(n, leaf) <==> Self::node_covers_node(n, Self::leaf_rect(leaf)),
    ;

    /// The bounding box computed for rectangles holds every one of them.
    proof fn lemma_fold_covers(s: Seq<Self::Node>)
        requires
            s.len() > 0,
        ensures
            forall|i: int| 0 <= i < s.len() ==> Self::node_covers_node(Self::fold_rects(s), #[trigger] s[i]),
    ;

    fn bbox_of_leaves(leaves: &[Self::Leaf]) -> (r: Self::Node)
        requires
            leaves@.len() > 0,
        ensures
            r == Self::fold_rects(leaves@.map_values(|l: Self::Leaf| Self::leaf_rect(l))),
    ;

    fn bbox_of_nodes(nodes: &[Self::Node]) -> (r: Self::Node)
        requires
            nodes@.len() > 0,
        ensures
            r == Self::fold_rects(nodes@),
    ;

    fn hilbert_key(leaf: &Self::Leaf, bbox: &Self::Node) -> (r: u128)
        requires
            Self::leaf_wf(*leaf),
            Self::node_wf(*bbox),
            Self::node_covers_leaf(*bbox, *leaf),
        ensures
            r == hilbert_index_u64(Self::coordinates(*leaf, *bbox).0, Self::coordinates(*leaf, *bbox).1, 64),
    ;

    fn hilbert_partition_key(leaf: &Self::Leaf, bbox: &Self::Node) -> (r: u8)
        requires
            Self::leaf_wf(*leaf),
            Self::node_wf(*bbox),
            Self::node_covers_leaf(*bbox, *leaf),
        ensures
            r == partition_of(Self::coordinates(*leaf, *bbox)),
    ;

    fn leaf_time_range(leaf: &Self::Leaf) -> (r: IRange<Time>)
        requires
            Self::leaf_wf(*leaf),
        ensures
            r == Self::leaf_times(*leaf),
    ;
}

/// The smallest memory rectangle holding every rectangle of a nonempty sequence.
pub open spec fn fold_mem(s: Seq<MemNode>) -> MemNode
    decreases s.len(),
{
    if s.len() <= 1 {
        s[0]
    } else {
        fold_mem(s.drop_last()).union_bbox(s.last())
    }
}

/// The smallest register rectangle holding every rectangle of a nonempty sequence.
pub open spec fn fold_reg(s: Seq<RegNode>) -> RegNode
    decreases s.len(),
{
    if s.len() <= 1 {
        s[0]
    } else {
        fold_reg(s.drop_last()).union_bbox(s.last())
    }
}

/// The bounding box of memory rectangles holds every one of them.
pub proof fn law_fold_mem_covers(s: Seq<MemNode>)
    requires
        s.len() > 0,
    ensures
        forall|i: int| 0 <= i < s.len() ==> fold_mem(s).covers(#[trigger] s[i]),
    decreases s.len(),
{
    if s.len() > 1 {
        let d = s.drop_last();
        law_fold_mem_covers(d);
        assert forall|i: int| 0 <= i < s.len() implies fold_mem(s).covers(#[trigger] s[i]) by {
            if i < s.len() - 1 {
                assert(s[i] == d[i]);
            }
        }
    }
}

/// The bounding box of register rectangles holds every one of them.
pub proof fn law_fold_reg_covers(s: Seq<RegNode>)
    requires
        s.len() > 0,
    ensures
        forall|i: int| 0 <= i < s.len() ==> fold_reg(s).covers(#[trigger] s[i]),
    decreases s.len(),
{
    if s.len() > 1 {
        let d = s.drop_last();
        law_fold_reg_covers(d);
        assert forall|i: int| 0 <= i < s.len() implies fold_reg(s).covers(#[trigger] s[i]) by {
            if i < s.len() - 1 {
                assert(s[i] == d[i]);
            }
        }
    }
}

impl HilbertSpec for MemWriteSpec {
    open spec fn leaf_rect(leaf: MemWriteLeaf) -> MemNode {
        leaf.node
    }

    open spec fn fold_rects(s: Seq<MemNode>) -> MemNode {
        fold_mem(s)
    }

    open spec fn coordinates(leaf: MemWriteLeaf, bbox: MemNode) -> (u64, u64) {
        mem_coordinates(leaf.node, bbox)
    }

    open spec fn leaf_times(leaf: MemWriteLeaf) -> IRange<Time> {
        leaf.node.time_range_spec()
    }

    proof fn lemma_fold_covers(s: Seq<MemNode>) {
        law_fold_mem_covers(s);
    }

    proof fn lemma_covers_leaf_rect(n: MemNode, leaf: MemWriteLeaf) {
    }

    fn bbox_of_leaves(leaves: &[MemWriteLeaf]) -> (r: MemNode) {
        let ghost rects = leaves@.map_values(|l: MemWriteLeaf| Self::leaf_rect(l));
        let mut bbox = leaves[0].node;
        let mut i: usize = 1;
        while i < leaves.len()
            invariant
                1 <= i <= leaves@.len(),
                rects == leaves@.map_values(|l: MemWriteLeaf| Self::leaf_rect(l)),
                bbox == Self::fold_rects(rects.take(i as int)),
            decreases leaves@.len() - i,
        {
            bbox.extends_to_contain(&leaves[i].node);
            proof {
                assert(rects.take(i + 1).drop_last() =~= rects.take(i as int));
            }
            i = i + 1;
        }
        proof {
            assert(rects.take(i as int) =~= rects);
        }
        bbox
    }

    fn bbox_of_nodes(nodes: &[MemNode]) -> (r: MemNode) {
        let mut bbox = nodes[0];
        let mut i: usize = 1;
        while i < nodes.len()
            invariant
                1 <= i <= nodes@.len(),
                bbox == Self::fold_rects(nodes@.take(i as int)),
            decreases nodes@.len() - i,
        {
            bbox.extends_to_contain(&nodes[i]);
            proof {
                assert(nodes@.take(i + 1).drop_last() =~= nodes@.take(i as int));
            }
            i = i + 1;
        }
        proof {
            assert(nodes@.take(i as int) =~= nodes@);
        }
        bbox
    }

    fn hilbert_key(leaf: &MemWriteLeaf, bbox: &MemNode) -> (r: u128) {
        let c = mem_hilbert_coordinates(&leaf.node, bbox);
        xy2h_u64(c.0, c.1, 64)
    }

    fn hilbert_partition_key(leaf: &MemWriteLeaf, bbox: &MemNode) -> (r: u8) {
        partition_key(mem_hilbert_coordinates(&leaf.node, bbox))
    }

    fn leaf_time_range(leaf: &MemWriteLeaf) -> (r: IRange<Time>) {
        leaf.time_range()
    }
}

impl HilbertSpec for MemReadSpec {
    open spec fn leaf_rect(leaf: MemReadLeaf) -> MemNode {
        leaf.node_spec()
    }

    open spec fn fold_rects(s: Seq<MemNode>) -> MemNode {
        fold_mem(s)
    }

    open spec fn coordinates(leaf: MemReadLeaf, bbox: MemNode) -> (u64, u64) {
        mem_coordinates(leaf.node_spec(), bbox)
    }

    open spec fn leaf_times(leaf: MemReadLeaf) -> IRange<Time> {
        IRange { min: leaf.time, max: leaf.time }
    }

    proof fn lemma_fold_covers(s: Seq<MemNode>) {
        law_fold_mem_covers(s);
    }

    proof fn lemma_covers_leaf_rect(n: MemNode, leaf: MemReadLeaf) {
    }

    fn bbox_of_leaves(leaves: &[MemReadLeaf]) -> (r: MemNode) {
        let ghost rects = leaves@.map_values(|l: MemReadLeaf| Self::leaf_rect(l));
        let mut bbox = leaves[0].node();
        let mut i: usize = 1;
        while i < leaves.len()
            invariant
                1 <= i <= leaves@.len(),
                rects == leaves@.map_values(|l: MemReadLeaf| Self::leaf_rect(l)),
                bbox == Self::fold_rects(rects.take(i as int)),
            decreases leaves@.len() - i,
        {
            bbox.extends_to_contain(&leaves[i].node());
            proof {
                assert(rects.take(i + 1).drop_last() =~= rects.take(i as int));
            }
            i = i + 1;
        }
        proof {
            assert(rects.take(i as int) =~= rects);
        }
        bbox
    }

    fn bbox_of_nodes(nodes: &[MemNode]) -> (r: MemNode) {
        MemWriteSpec::bbox_of_nodes(nodes)
    }

    fn hilbert_key(leaf: &MemReadLeaf, bbox: &MemNode) -> (r: u128) {
        let c = mem_hilbert_coordinates(&leaf.node(), bbox);
        xy2h_u64(c.0, c.1, 64)
    }

    fn hilbert_partition_key(leaf: &MemReadLeaf, bbox: &MemNode) -> (r: u8) {
        partition_key(mem_hilbert_coordinates(&leaf.node(), bbox))
    }

    fn leaf_time_range(leaf: &MemReadLeaf) -> (r: IRange<Time>) {
        IRange::one(leaf.time)
    }
}

impl HilbertSpec for RegSpec {
    open spec fn leaf_rect(leaf: RegLeaf) -> RegNode {
        leaf.node_spec()
    }

    open spec fn fold_rects(s: Seq<RegNode>) -> RegNode {
        fold_reg(s)
    }

    open spec fn coordinates(leaf: RegLeaf, bbox: RegNode) -> (u64, u64) {
        reg_coordinates(leaf, bbox)
    }

    open spec fn leaf_times(leaf: RegLeaf) -> IRange<Time> {
        IRange { min: leaf.time_min, max: leaf.time_max }
    }

    proof fn lemma_fold_covers(s: Seq<RegNode>) {
        law_fold_reg_covers(s);
    }

    proof fn lemma_covers_leaf_rect(n: RegNode, leaf: RegLeaf) {
    }

    fn bbox_of_leaves(leaves: &[RegLeaf]) -> (r: RegNode) {
        let ghost rects = leaves@.map_values(|l: RegLeaf| Self::leaf_rect(l));
        let mut bbox = leaves[0].node();
        let mut i: usize = 1;
        while i < leaves.len()
            invariant
                1 <= i <= leaves@.len(),
                rects == leaves@.map_values(|l: RegLeaf| Self::leaf_rect(l)),
                bbox == Self::fold_rects(rects.take(i as int)),
            decreases leaves@.len() - i,
        {
            let leaf = leaves[i];
            bbox.value_min = if leaf.value < bbox.value_min { leaf.value } else { bbox.value_min };
            bbox.value_max = if bbox.value_max < leaf.value { leaf.value } else { bbox.value_max };
            bbox.time_min = if leaf.time_min < bbox.time_min { leaf.time_min } else { bbox.time_min };
            bbox.time_max = if bbox.time_max < leaf.time_max { leaf.time_max } else { bbox.time_max };
            proof {
                assert(rects.take(i + 1).drop_last() =~= rects.take(i as int));
            }
            i = i + 1;
        }
        proof {
            assert(rects.take(i as int) =~= rects);
        }
        bbox
    }

    fn bbox_of_nodes(nodes: &[RegNode]) -> (r: RegNode) {
        let mut bbox = nodes[0];
        let mut i: usize = 1;
        while i < nodes.len()
            invariant
                1 <= i <= nodes@.len(),
                bbox == Self::fold_rects(nodes@.take(i as int)),
            decreases nodes@.len() - i,
        {
            let n = nodes[i];
            bbox.value_min = if n.value_min < bbox.value_min { n.value_min } else { bbox.value_min };
            bbox.value_max = if bbox.value_max < n.value_max { n.value_max } else { bbox.value_max };
            bbox.time_min = if n.time_min < bbox.time_min { n.time_min } else { bbox.time_min };
            bbox.time_max = if bbox.time_max < n.time_max { n.time_max } else { bbox.time_max };
            proof {
                assert(nodes@.take(i + 1).drop_last() =~= nodes@.take(i as int));
            }
            i = i + 1;
        }
        proof {
            assert(nodes@.take(i as int) =~= nodes@);
        }
        bbox
    }

    fn hilbert_key(leaf: &RegLeaf, bbox: &RegNode) -> (r: u128) {
        let c = reg_hilbert_coordinates(leaf, bbox);
        xy2h_u64(c.0, c.1, 64)
    }

    fn hilbert_partition_key(leaf: &RegLeaf, bbox: &RegNode) -> (r: u8) {
        partition_key(reg_hilbert_coordinates(leaf, bbox))
    }

    fn leaf_time_range(leaf: &RegLeaf) -> (r: IRange<Time>) {
        leaf.time_range()
    }
}

} // verus!
