//! Memory R-Trees: rectangles over (address, time).
use vstd::prelude::*;
use crate::db::Db;
use crate::flat::{Addr, MemNode, MemReadLeaf, MemWriteLeaf, Time};
use crate::irange::{IRange, Scalar};
use crate::matcher::DimMatcher;
use crate::nearest_neighbor::{NeighborVisitor, Status, admissible, is_nearest, kept_key, leaf_kept, nearest_neighbor};
use crate::query::QueryIter;
use crate::register::time_distance;
use crate::rtree::{RTree, Spec, lemma_ancestor_covers};

verus! {

impl MemNode {
    /// Both dimensions are well-formed ranges.
    pub open spec fn wf(self) -> bool {
        self.addr_min <= self.addr_max && self.time_min <= self.time_max
    }

    /// The rectangle holds the point `(addr, time)`.
    pub open spec fn holds(self, addr: int, time: int) -> bool {
        self.addr_min <= addr <= self.addr_max && self.time_min <= time <= self.time_max
    }

    /// `self` contains every point of `other`.
    pub open spec fn covers(self, other: MemNode) -> bool {
        self.addr_min <= other.addr_min && other.addr_max <= self.addr_max && self.time_min
            <= other.time_min && other.time_max <= self.time_max
    }

    /// Smallest rectangle containing both rectangles.
    pub open spec fn union_bbox(self, other: MemNode) -> MemNode {
        MemNode {
            addr_min: if other.addr_min < self.addr_min {
                other.addr_min
            } else {
                self.addr_min
            },
            addr_max: if self.addr_max < other.addr_max {
                other.addr_max
            } else {
                self.addr_max
            },
            time_min: if other.time_min < self.time_min {
                other.time_min
            } else {
                self.time_min
            },
            time_max: if self.time_max < other.time_max {
                other.time_max
            } else {
                self.time_max
            },
        }
    }

    /// The two rectangles share no point (on well-formed rectangles).
    pub open spec fn disjoint_from(self, other: MemNode) -> bool {
        self.addr_range().disjoint_from(other.addr_range()) || self.time_range().disjoint_from(
            other.time_range(),
        )
    }

    pub open spec fn addr_range_spec(&self) -> IRange<Addr> {
        IRange { min: self.addr_min, max: self.addr_max }
    }

    pub open spec fn time_range_spec(&self) -> IRange<Time> {
        IRange { min: self.time_min, max: self.time_max }
    }

    #[inline]
    pub fn extends_to_contain(&mut self, other: &Self)
        ensures
            *final(self) == old(self).union_bbox(*other),
    {
        self.addr_min = if other.addr_min < self.addr_min {
            other.addr_min
        } else {
            self.addr_min
        };
        self.addr_max = if self.addr_max < other.addr_max {
            other.addr_max
        } else {
            self.addr_max
        };
        self.time_min = if other.time_min < self.time_min {
            other.time_min
        } else {
            self.time_min
        };
        self.time_max = if self.time_max < other.time_max {
            other.time_max
        } else {
            self.time_max
        };
    }

    #[inline]
    pub fn is_disjoint(&self, other: &Self) -> (r: bool)
        requires
            self.wf(),
            other.wf(),
        ensures
            r == self.disjoint_from(*other),
    {
        let addr = self.addr_range().is_disjoint(&other.addr_range());
        let time = self.time_range().is_disjoint(&other.time_range());
        addr || time
    }

    #[inline]
    #[verifier::when_used_as_spec(addr_range_spec)]
    pub fn addr_range(&self) -> (r: IRange<Addr>)
        ensures
            r == self.addr_range_spec(),
    {
        IRange { min: self.addr_min, max: self.addr_max }
    }

    #[inline]
    #[verifier::when_used_as_spec(time_range_spec)]
    pub fn time_range(&self) -> (r: IRange<Time>)
        ensures
            r == self.time_range_spec(),
    {
        IRange { min: self.time_min, max: self.time_max }
    }

    /// Pieces of `self` left uncovered by `other`: the whole of `self` when they are
    /// disjoint; otherwise up to four rectangles, the address slices below and above
    /// `other` over all of `self`'s time range, then, within `other`'s addresses, the
    /// time slices before and after `other`.
    pub open spec fn fragments_spec(self, other: MemNode) -> Seq<MemNode> {
        if self.disjoint_from(other) {
            seq![self]
        } else {
            let floor_addr = if other.addr_min < self.addr_min {
                self.addr_min
            } else {
                other.addr_min
            };
            let ceil_addr = if other.addr_max < self.addr_max {
                other.addr_max
            } else {
                self.addr_max
            };
            let below = if other.addr_min > self.addr_min {
                seq![
                    MemNode {
                        addr_min: self.addr_min,
                        time_min: self.time_min,
                        addr_max: (other.addr_min - 1) as u64,
                        time_max: self.time_max,
                    },
                ]
            } else {
                Seq::empty()
            };
            let above = if other.addr_max < self.addr_max {
                seq![
                    MemNode {
                        addr_min: (other.addr_max + 1) as u64,
                        time_min: self.time_min,
                        addr_max: self.addr_max,
                        time_max: self.time_max,
                    },
                ]
            } else {
                Seq::empty()
            };
            let before = if other.time_min > self.time_min {
                seq![
                    MemNode {
                        addr_min: floor_addr,
                        time_min: self.time_min,
                        addr_max: ceil_addr,
                        time_max: (other.time_min - 1) as u32,
                    },
                ]
            } else {
                Seq::empty()
            };
            let after = if other.time_max < self.time_max {
                seq![
                    MemNode {
                        addr_min: floor_addr,
                        time_min: (other.time_max + 1) as u32,
                        addr_max: ceil_addr,
                        time_max: self.time_max,
                    },
                ]
            } else {
                Seq::empty()
            };
            below + above + before + after
        }
    }

    /// Fragment one rectangle by another
    ///
    /// Based on the pseudo-code of the NIR-Tree paper : https://dl.acm.org/doi/10.1145/3468791.3468818
    pub fn fragment_by(&self, other: &Self, fragments: &mut Vec<MemNode>)
        requires
            self.wf(),
            other.wf(),
        ensures
            final(fragments)@ == old(fragments)@ + self.fragments_spec(*other),
    {
        if self.is_disjoint(other) {
            fragments.push(*self);
            return ;
        }
        let ghost start = fragments@;
        // Address
        let self_floor = self.addr_min;
        let other_floor = other.addr_min;
        let floor_addr = if other_floor < self_floor {
            self_floor
        } else {
            other_floor
        };
        if other_floor > self_floor {
            fragments.push(
                MemNode {
                    addr_min: self_floor,
                    time_min: self.time_min,
                    addr_max: other_floor - 1,
                    time_max: self.time_max,
                },
            );
        }
        let self_ceil = self.addr_max;
        let other_ceil = other.addr_max;
        let ceil_addr = if other_ceil < self_ceil {
            other_ceil
        } else {
            self_ceil
        };
        if other_ceil < self_ceil {
            fragments.push(
                MemNode {
                    addr_min: other_ceil + 1,
                    time_min: self.time_min,
                    addr_max: self_ceil,
                    time_max: self.time_max,
                },
            );
        }
        // Time
        let self_floor = self.time_min;
        let other_floor = other.time_min;
        if other_floor > self_floor {
            fragments.push(
                MemNode {
                    addr_min: floor_addr,
                    time_min: self_floor,
                    addr_max: ceil_addr,
                    time_max: other_floor - 1,
                },
            );
        }
        let self_ceil = self.time_max;
        let other_ceil = other.time_max;
        if other_ceil < self_ceil {
            fragments.push(
                MemNode {
                    addr_min: floor_addr,
                    time_min: other_ceil + 1,
                    addr_max: ceil_addr,
                    time_max: self_ceil,
                },
            );
        }
        proof {
            assert(fragments@ =~= start + self.fragments_spec(*other));
        }
    }
}

impl MemWriteLeaf {
    pub open spec fn wf(self) -> bool {
        self.node.wf()
    }

    #[inline]
    pub fn is_disjoint(&self, other: &Self) -> (r: bool)
        requires
            self.wf(),
            other.wf(),
        ensures
            r == self.node.disjoint_from(other.node),
    {
        self.node.is_disjoint(&other.node)
    }

    #[inline]
    pub fn addr_range(&self) -> (r: IRange<Addr>)
        ensures
            r == self.node.addr_range_spec(),
    {
        self.node.addr_range()
    }

    #[inline]
    pub fn time_range(&self) -> (r: IRange<Time>)
        ensures
            r == self.node.time_range_spec(),
    {
        self.node.time_range()
    }
}

impl MemReadLeaf {
    pub open spec fn wf(self) -> bool {
        self.addr_min <= self.addr_max
    }

    /// The rectangle of a read: its address range at its single time.
    pub open spec fn node_spec(&self) -> MemNode {
        MemNode {
            addr_min: self.addr_min,
            addr_max: self.addr_max,
            time_min: self.time,
            time_max: self.time,
        }
    }

    #[inline]
    #[verifier::when_used_as_spec(node_spec)]
    pub fn node(&self) -> (r: MemNode)
        ensures
            r == self.node_spec(),
    {
        MemNode {
            addr_min: self.addr_min,
            addr_max: self.addr_max,
            time_min: self.time,
            time_max: self.time,
        }
    }

    /// Disjoint as written: the address ranges are disjoint and the times differ.
    #[inline]
    pub fn is_disjoint(&self, other: &Self) -> (r: bool)
        requires
            self.wf(),
            other.wf(),
        ensures
            r == (self.node_spec().addr_range_spec().disjoint_from(
                other.node_spec().addr_range_spec(),
            ) && self.time != other.time),
    {
        self.addr_range().is_disjoint(&other.addr_range()) && self.time != other.time
    }

    #[inline]
    pub fn addr_range(&self) -> (r: IRange<Addr>)
        requires
            self.wf(),
        ensures
            r == self.node_spec().addr_range_spec(),
    {
        IRange::new(self.addr_min, self.addr_max)
    }
}

#[derive(Clone, Copy)]
pub struct MemWriteSpec;

pub type MemWriteQuery<'rtree, Q> = QueryIter<'rtree, MemWriteSpec, Q>;

pub type MemWriteRTree = RTree<MemWriteSpec>;

impl Spec for MemWriteSpec {
    type Node = MemNode;

    type Leaf = MemWriteLeaf;

    open spec fn node_covers_node(outer: MemNode, inner: MemNode) -> bool {
        outer.covers(inner)
    }

    open spec fn node_covers_leaf(outer: MemNode, leaf: MemWriteLeaf) -> bool {
        outer.covers(leaf.node)
    }

    open spec fn node_wf(node: MemNode) -> bool {
        node.wf()
    }

    open spec fn leaf_wf(leaf: MemWriteLeaf) -> bool {
        leaf.wf()
    }

    fn node_wf_exec(node: &MemNode) -> (r: bool) {
        node.addr_min <= node.addr_max && node.time_min <= node.time_max
    }

    fn leaf_wf_exec(leaf: &MemWriteLeaf) -> (r: bool) {
        leaf.node.addr_min <= leaf.node.addr_max && leaf.node.time_min <= leaf.node.time_max
    }

    fn node_covers_node_exec(outer: &MemNode, inner: &MemNode) -> (r: bool) {
        outer.addr_min <= inner.addr_min && inner.addr_max <= outer.addr_max && outer.time_min <= inner.time_min
            && inner.time_max <= outer.time_max
    }

    fn node_covers_leaf_exec(outer: &MemNode, leaf: &MemWriteLeaf) -> (r: bool) {
        outer.addr_min <= leaf.node.addr_min && leaf.node.addr_max <= outer.addr_max && outer.time_min
            <= leaf.node.time_min && leaf.node.time_max <= outer.time_max
    }

    proof fn lemma_covers_trans(a: MemNode, b: MemNode, leaf: MemWriteLeaf) {
    }
}

#[derive(Clone, Copy)]
pub struct MemReadSpec;

pub type MemReadQuery<'rtree, Q> = QueryIter<'rtree, MemReadSpec, Q>;

pub type MemReadRTree = RTree<MemReadSpec>;

impl Spec for MemReadSpec {
    type Node = MemNode;

    type Leaf = MemReadLeaf;

    open spec fn node_covers_node(outer: MemNode, inner: MemNode) -> bool {
        outer.covers(inner)
    }

    open spec fn node_covers_leaf(outer: MemNode, leaf: MemReadLeaf) -> bool {
        outer.covers(leaf.node_spec())
    }

    open spec fn node_wf(node: MemNode) -> bool {
        node.wf()
    }

    open spec fn leaf_wf(leaf: MemReadLeaf) -> bool {
        leaf.wf()
    }

    fn node_wf_exec(node: &MemNode) -> (r: bool) {
        node.addr_min <= node.addr_max && node.time_min <= node.time_max
    }

    fn leaf_wf_exec(leaf: &MemReadLeaf) -> (r: bool) {
        leaf.addr_min <= leaf.addr_max
    }

    fn node_covers_node_exec(outer: &MemNode, inner: &MemNode) -> (r: bool) {
        outer.addr_min <= inner.addr_min && inner.addr_max <= outer.addr_max && outer.time_min <= inner.time_min
            && inner.time_max <= outer.time_max
    }

    fn node_covers_leaf_exec(outer: &MemNode, leaf: &MemReadLeaf) -> (r: bool) {
        let n = leaf.node();
        outer.addr_min <= n.addr_min && n.addr_max <= outer.addr_max && outer.time_min <= n.time_min
            && n.time_max <= outer.time_max
    }

    proof fn lemma_covers_trans(a: MemNode, b: MemNode, leaf: MemReadLeaf) {
    }
}

/// Some address of the range is accepted by the matcher.
pub open spec fn range_matched<M: DimMatcher<u64>>(m: M, r: IRange<Addr>) -> bool {
    exists|v: int| #[trigger] r.has(v) && m.matches(v)
}

/// Status of a memory node in a search for the access closest in time to `target_time`.
pub open spec fn mem_node_status<M: DimMatcher<u64>>(
    time_range: IRange<Time>,
    addr_matcher: M,
    target_time: Time,
    node: MemNode,
) -> Status<Time> {
    if time_range.disjoint_from(node.time_range_spec()) {
        Status::Ignore
    } else if !range_matched(addr_matcher, node.addr_range_spec()) {
        Status::Ignore
    } else {
        Status::Keep(node.time_range_spec().distance_to(target_time as int) as u32)
    }
}

/// Status of a leaf happening at `time` over the addresses `addr`.
pub open spec fn mem_leaf_status<M: DimMatcher<u64>>(
    time_range: IRange<Time>,
    addr_matcher: M,
    target_time: Time,
    time: Time,
    addr: IRange<Addr>,
) -> Status<Time> {
    if !time_range.has(time as int) {
        Status::Ignore
    } else if !range_matched(addr_matcher, addr) {
        Status::Ignore
    } else {
        Status::Keep(time_distance(time as int, target_time as int) as u32)
    }
}

fn mem_node_visitor<M: DimMatcher<u64>>(
    time_range: IRange<u32>,
    addr_matcher: &M,
    target_time: u32,
    node: &MemNode,
) -> (r: Status<Time>)
    requires
        time_range.wf(),
        addr_matcher.matcher_wf(),
        node.wf(),
    ensures
        r == mem_node_status(time_range, *addr_matcher, target_time, *node),
{
    proof {
        crate::irange::law_disjoint_iff_no_common_value(time_range, node.time_range_spec());
    }
    if !time_range.match_range(node.time_range()) {
        return Status::Ignore;
    }
    if !addr_matcher.match_range(node.addr_range()) {
        return Status::Ignore;
    }
    let dist = node.time_range().min_distance(target_time);
    Status::Keep(dist)
}

fn mem_read_leaf_visitor<M: DimMatcher<u64>>(
    time_range: IRange<u32>,
    addr_matcher: &M,
    target_time: u32,
    leaf: &MemReadLeaf,
) -> (r: Status<Time>)
    requires
        time_range.wf(),
        addr_matcher.matcher_wf(),
        leaf.wf(),
    ensures
        r == mem_leaf_status(
            time_range,
            *addr_matcher,
            target_time,
            leaf.time,
            leaf.node_spec().addr_range_spec(),
        ),
{
    if !time_range.match_scalar(leaf.time) {
        return Status::Ignore;
    }
    if !addr_matcher.match_range(leaf.addr_range()) {
        return Status::Ignore;
    }
    let dist = if leaf.time < target_time {
        target_time - leaf.time
    } else {
        leaf.time - target_time
    };
    Status::Keep(dist)
}

fn mem_write_leaf_visitor<M: DimMatcher<u64>>(
    time_range: IRange<u32>,
    addr_matcher: &M,
    target_time: u32,
    leaf: &MemWriteLeaf,
) -> (r: Status<Time>)
    requires
        time_range.wf(),
        addr_matcher.matcher_wf(),
        leaf.wf(),
    ensures
        r == mem_leaf_status(
            time_range,
            *addr_matcher,
            target_time,
            leaf.node.time_min,
            leaf.node.addr_range_spec(),
        ),
{
    if !time_range.match_scalar(leaf.node.time_min) {
        return Status::Ignore;
    }
    if !addr_matcher.match_range(leaf.addr_range()) {
        return Status::Ignore;
    }
    let dist = if leaf.node.time_min < target_time {
        target_time - leaf.node.time_min
    } else {
        leaf.node.time_min - target_time
    };
    Status::Keep(dist)
}

/// Visitor of a search for the memory read closest in time.
struct MemReadVisitor<M> {
    time_range: IRange<Time>,
    addr_matcher: M,
    target_time: Time,
}

impl<M: DimMatcher<u64>> NeighborVisitor<MemReadSpec, u32> for MemReadVisitor<M> {
    closed spec fn node_status(&self, node: MemNode) -> Status<u32> {
        mem_node_status(self.time_range, self.addr_matcher, self.target_time, node)
    }

    closed spec fn leaf_status(&self, leaf: MemReadLeaf) -> Status<u32> {
        mem_leaf_status(
            self.time_range,
            self.addr_matcher,
            self.target_time,
            leaf.time,
            leaf.node_spec().addr_range_spec(),
        )
    }

    closed spec fn visitor_wf(&self) -> bool {
        self.time_range.wf() && self.addr_matcher.matcher_wf()
    }

    fn visit_node(&self, node: &MemNode) -> (r: Status<u32>) {
        mem_node_visitor(self.time_range, &self.addr_matcher, self.target_time, node)
    }

    fn visit_leaf(&self, leaf: &MemReadLeaf) -> (r: Status<u32>) {
        mem_read_leaf_visitor(self.time_range, &self.addr_matcher, self.target_time, leaf)
    }
}

/// Visitor of a search for the memory write closest in time.
struct MemWriteVisitor<M> {
    time_range: IRange<Time>,
    addr_matcher: M,
    target_time: Time,
}

impl<M: DimMatcher<u64>> NeighborVisitor<MemWriteSpec, u32> for MemWriteVisitor<M> {
    closed spec fn node_status(&self, node: MemNode) -> Status<u32> {
        mem_node_status(self.time_range, self.addr_matcher, self.target_time, node)
    }

    closed spec fn leaf_status(&self, leaf: MemWriteLeaf) -> Status<u32> {
        mem_leaf_status(
            self.time_range,
            self.addr_matcher,
            self.target_time,
            leaf.node.time_min,
            leaf.node.addr_range_spec(),
        )
    }

    closed spec fn visitor_wf(&self) -> bool {
        self.time_range.wf() && self.addr_matcher.matcher_wf()
    }

    fn visit_node(&self, node: &MemNode) -> (r: Status<u32>) {
        mem_node_visitor(self.time_range, &self.addr_matcher, self.target_time, node)
    }

    fn visit_leaf(&self, leaf: &MemWriteLeaf) -> (r: Status<u32>) {
        mem_write_leaf_visitor(self.time_range, &self.addr_matcher, self.target_time, leaf)
    }
}

/// A node covering an access keeps it wherever the access is kept, with a smaller key.
proof fn lemma_mem_status_cover<M: DimMatcher<u64>>(
    time_range: IRange<Time>,
    m: M,
    target: Time,
    node: MemNode,
    time: Time,
    addr: IRange<Addr>,
)
    requires
        time_range.wf(),
        node.time_min <= time <= node.time_max,
        node.addr_min <= addr.min.val(),
        addr.max.val() <= node.addr_max,
        mem_leaf_status(time_range, m, target, time, addr) is Keep,
    ensures
        mem_node_status(time_range, m, target, node) is Keep,
        kept_key(mem_node_status(time_range, m, target, node)) <= kept_key(
            mem_leaf_status(time_range, m, target, time, addr),
        ),
{
    let v = choose|v: int| #[trigger] addr.has(v) && m.matches(v);
    assert(node.addr_range_spec().has(v));
}

/// The access `j` of a read tree happens before `time` at an address the matcher accepts.
pub open spec fn read_matches<M: DimMatcher<u64>>(t: MemReadRTree, j: int, m: M) -> bool {
    0 <= j < t.leaves@.len() && range_matched(m, t.leaves@[j].node_spec().addr_range_spec())
}

/// The write `j` of a write tree is at an address the matcher accepts.
pub open spec fn write_addr_matches<M: DimMatcher<u64>>(t: MemWriteRTree, j: int, m: M) -> bool {
    0 <= j < t.leaves@.len() && range_matched(m, t.leaves@[j].node.addr_range_spec())
}

/// Time of an access of a read tree.
pub open spec fn read_time(t: MemReadRTree, j: int) -> int {
    t.leaves@[j].time as int
}

/// Start time of a write of a write tree.
pub open spec fn write_time(t: MemWriteRTree, j: int) -> int {
    t.leaves@[j].node.time_min as int
}

proof fn lemma_read_visitor_admissible<M: DimMatcher<u64>>(t: MemReadRTree, v: MemReadVisitor<M>)
    requires
        t.wf(),
        v.visitor_wf(),
    ensures
        admissible(t, v),
{
    assert forall|j: int, l: int|
        0 <= j < t.leaves@.len() && 0 <= l < t.depth_spec() && #[trigger] v.leaf_status(
            t.leaves@[j],
        ) is Keep implies {
        let ns = #[trigger] v.node_status(t.node_at(l, t.ancestor(j, l)));
        &&& ns is Keep
        &&& kept_key(ns) <= kept_key(v.leaf_status(t.leaves@[j]))
    } by {
        lemma_ancestor_covers(&t, j, l);
        lemma_mem_status_cover(
            v.time_range,
            v.addr_matcher,
            v.target_time,
            t.node_at(l, t.ancestor(j, l)),
            t.leaves@[j].time,
            t.leaves@[j].node_spec().addr_range_spec(),
        );
    }
}

impl RTree<MemReadSpec> {
    /// Search over the accesses starting within `time_range` at a matched address, for the
    /// one closest to `time`.
    fn nearest_read_time<M: DimMatcher<u64>>(
        &self,
        time: Time,
        time_range: IRange<Time>,
        addr_matcher: M,
    ) -> (r: Option<Time>)
        requires
            self.shape_wf(),
            self.items_wf(),
            time_range.wf(),
            addr_matcher.matcher_wf(),
        ensures
            self.wf() ==> (r is None <==> forall|j: int|
                #[trigger] read_matches(*self, j, addr_matcher) ==> !time_range.has(read_time(*self, j))),
            self.wf() ==> (r matches Some(tm) ==> time_range.has(tm as int) && exists|j: int|
                #[trigger] read_matches(*self, j, addr_matcher) && read_time(*self, j) == tm && forall|i: int|
                    #[trigger] read_matches(*self, i, addr_matcher) && time_range.has(read_time(*self, i))
                        ==> time_distance(tm as int, time as int) <= time_distance(
                        read_time(*self, i),
                        time as int,
                    )),
    {
        let visitor = MemReadVisitor { time_range, addr_matcher, target_time: time };
        let r = nearest_neighbor(self, &visitor);
        proof {
            if self.wf() {
                lemma_read_visitor_admissible(*self, visitor);
            }
        }
        match r {
            Some(leaf) => {
                proof {
                    if self.wf() {
                        let j = choose|j: int|
                            is_nearest(*self, visitor, j) && *leaf == #[trigger] self.leaves@[j];
                        assert(read_matches(*self, j, addr_matcher));
                        assert forall|i: int| #[trigger]
                            read_matches(*self, i, addr_matcher) && time_range.has(read_time(*self, i)) implies time_distance(
                            leaf.time as int,
                            time as int,
                        ) <= time_distance(read_time(*self, i), time as int) by {
                            assert(leaf_kept(*self, visitor, i));
                        }
                    }
                }
                Some(leaf.time)
            },
            None => {
                proof {
                    if self.wf() {
                        assert forall|j: int| #[trigger]
                            read_matches(*self, j, addr_matcher) implies !time_range.has(read_time(*self, j)) by {
                            if time_range.has(read_time(*self, j)) {
                                assert(leaf_kept(*self, visitor, j));
                            }
                        }
                    }
                }
                None
            },
        }
    }

    pub fn prev_leaf_where_addr_match<M: DimMatcher<u64>>(&self, time: Time, addr_matcher: M) -> (r:
        Option<Time>)
        requires
            self.shape_wf(),
            self.items_wf(),
            addr_matcher.matcher_wf(),
        ensures
            self.wf() ==> (r is None <==> forall|j: int|
                #[trigger] read_matches(*self, j, addr_matcher) ==> read_time(*self, j) >= time),
            self.wf() ==> (r matches Some(tm) ==> tm < time && exists|j: int|
                #[trigger] read_matches(*self, j, addr_matcher) && read_time(*self, j) == tm && forall|i: int|
                    #[trigger] read_matches(*self, i, addr_matcher) && read_time(*self, i) < time
                        ==> read_time(*self, i) <= tm),
    {
        let prev = match time.checked_sub(1) {
            Some(p) => p,
            None => {
                return None;
            },
        };
        let time_range = IRange::new(0, prev);
        let r = self.nearest_read_time(time, time_range, addr_matcher);
        proof {
            if self.wf() {
                if let Some(tm) = r {
                    let j = choose|j: int|
                        #[trigger] read_matches(*self, j, addr_matcher) && read_time(*self, j) == tm && forall|i: int|
                            #[trigger] read_matches(*self, i, addr_matcher) && time_range.has(read_time(*self, i))
                                ==> time_distance(tm as int, time as int) <= time_distance(
                                read_time(*self, i),
                                time as int,
                            );
                    assert(read_matches(*self, j, addr_matcher));
                }
            }
        }
        r
    }

    pub fn next_leaf_where_addr_match<M: DimMatcher<u64>>(&self, time: Time, addr_matcher: M) -> (r:
        Option<Time>)
        requires
            self.shape_wf(),
            self.items_wf(),
            addr_matcher.matcher_wf(),
        ensures
            self.wf() ==> (r is None <==> forall|j: int|
                #[trigger] read_matches(*self, j, addr_matcher) ==> read_time(*self, j) <= time),
            self.wf() ==> (r matches Some(tm) ==> tm > time && exists|j: int|
                #[trigger] read_matches(*self, j, addr_matcher) && read_time(*self, j) == tm && forall|i: int|
                    #[trigger] read_matches(*self, i, addr_matcher) && read_time(*self, i) > time
                        ==> tm <= read_time(*self, i)),
    {
        let next = match time.checked_add(1) {
            Some(n) => n,
            None => {
                return None;
            },
        };
        let time_range = IRange::new(next, Time::MAX);
        let r = self.nearest_read_time(time, time_range, addr_matcher);
        proof {
            if self.wf() {
                if let Some(tm) = r {
                    let j = choose|j: int|
                        #[trigger] read_matches(*self, j, addr_matcher) && read_time(*self, j) == tm && forall|i: int|
                            #[trigger] read_matches(*self, i, addr_matcher) && time_range.has(read_time(*self, i))
                                ==> time_distance(tm as int, time as int) <= time_distance(
                                read_time(*self, i),
                                time as int,
                            );
                    assert(read_matches(*self, j, addr_matcher));
                }
            }
        }
        r
    }
}

proof fn lemma_write_visitor_admissible<M: DimMatcher<u64>>(t: MemWriteRTree, v: MemWriteVisitor<M>)
    requires
        t.wf(),
        v.visitor_wf(),
    ensures
        admissible(t, v),
{
    assert forall|j: int, l: int|
        0 <= j < t.leaves@.len() && 0 <= l < t.depth_spec() && #[trigger] v.leaf_status(
            t.leaves@[j],
        ) is Keep implies {
        let ns = #[trigger] v.node_status(t.node_at(l, t.ancestor(j, l)));
        &&& ns is Keep
        &&& kept_key(ns) <= kept_key(v.leaf_status(t.leaves@[j]))
    } by {
        lemma_ancestor_covers(&t, j, l);
        lemma_mem_status_cover(
            v.time_range,
            v.addr_matcher,
            v.target_time,
            t.node_at(l, t.ancestor(j, l)),
            t.leaves@[j].node.time_min,
            t.leaves@[j].node.addr_range_spec(),
        );
    }
}

impl RTree<MemWriteSpec> {
    /// Search over the accesses starting within `time_range` at a matched address, for the
    /// one closest to `time`.
    fn nearest_write_time<M: DimMatcher<u64>>(
        &self,
        time: Time,
        time_range: IRange<Time>,
        addr_matcher: M,
    ) -> (r: Option<Time>)
        requires
            self.shape_wf(),
            self.items_wf(),
            time_range.wf(),
            addr_matcher.matcher_wf(),
        ensures
            self.wf() ==> (r is None <==> forall|j: int|
                #[trigger] write_addr_matches(*self, j, addr_matcher) ==> !time_range.has(write_time(*self, j))),
            self.wf() ==> (r matches Some(tm) ==> time_range.has(tm as int) && exists|j: int|
                #[trigger] write_addr_matches(*self, j, addr_matcher) && write_time(*self, j) == tm && forall|i: int|
                    #[trigger] write_addr_matches(*self, i, addr_matcher) && time_range.has(write_time(*self, i))
                        ==> time_distance(tm as int, time as int) <= time_distance(
                        write_time(*self, i),
                        time as int,
                    )),
    {
        let visitor = MemWriteVisitor { time_range, addr_matcher, target_time: time };
        let r = nearest_neighbor(self, &visitor);
        proof {
            if self.wf() {
                lemma_write_visitor_admissible(*self, visitor);
            }
        }
        match r {
            Some(leaf) => {
                proof {
                    if self.wf() {
                        let j = choose|j: int|
                            is_nearest(*self, visitor, j) && *leaf == #[trigger] self.leaves@[j];
                        assert(write_addr_matches(*self, j, addr_matcher));
                        assert forall|i: int| #[trigger]
                            write_addr_matches(*self, i, addr_matcher) && time_range.has(write_time(*self, i)) implies time_distance(
                            leaf.node.time_min as int,
                            time as int,
                        ) <= time_distance(write_time(*self, i), time as int) by {
                            assert(leaf_kept(*self, visitor, i));
                        }
                    }
                }
                Some(leaf.node.time_min)
            },
            None => {
                proof {
                    if self.wf() {
                        assert forall|j: int| #[trigger]
                            write_addr_matches(*self, j, addr_matcher) implies !time_range.has(write_time(*self, j)) by {
                            if time_range.has(write_time(*self, j)) {
                                assert(leaf_kept(*self, visitor, j));
                            }
                        }
                    }
                }
                None
            },
        }
    }

    pub fn prev_leaf_where_addr_match<M: DimMatcher<u64>>(&self, time: Time, addr_matcher: M) -> (r:
        Option<Time>)
        requires
            self.shape_wf(),
            self.items_wf(),
            addr_matcher.matcher_wf(),
        ensures
            self.wf() ==> (r is None <==> forall|j: int|
                #[trigger] write_addr_matches(*self, j, addr_matcher) ==> write_time(*self, j) >= time),
            self.wf() ==> (r matches Some(tm) ==> tm < time && exists|j: int|
                #[trigger] write_addr_matches(*self, j, addr_matcher) && write_time(*self, j) == tm && forall|i: int|
                    #[trigger] write_addr_matches(*self, i, addr_matcher) && write_time(*self, i) < time
                        ==> write_time(*self, i) <= tm),
    {
        let prev = match time.checked_sub(1) {
            Some(p) => p,
            None => {
                return None;
            },
        };
        let time_range = IRange::new(0, prev);
        let r = self.nearest_write_time(time, time_range, addr_matcher);
        proof {
            if self.wf() {
                if let Some(tm) = r {
                    let j = choose|j: int|
                        #[trigger] write_addr_matches(*self, j, addr_matcher) && write_time(*self, j) == tm && forall|i: int|
                            #[trigger] write_addr_matches(*self, i, addr_matcher) && time_range.has(write_time(*self, i))
                                ==> time_distance(tm as int, time as int) <= time_distance(
                                write_time(*self, i),
                                time as int,
                            );
                    assert(write_addr_matches(*self, j, addr_matcher));
                }
            }
        }
        r
    }

    pub fn next_leaf_where_addr_match<M: DimMatcher<u64>>(&self, time: Time, addr_matcher: M) -> (r:
        Option<Time>)
        requires
            self.shape_wf(),
            self.items_wf(),
            addr_matcher.matcher_wf(),
        ensures
            self.wf() ==> (r is None <==> forall|j: int|
                #[trigger] write_addr_matches(*self, j, addr_matcher) ==> write_time(*self, j) <= time),
            self.wf() ==> (r matches Some(tm) ==> tm > time && exists|j: int|
                #[trigger] write_addr_matches(*self, j, addr_matcher) && write_time(*self, j) == tm && forall|i: int|
                    #[trigger] write_addr_matches(*self, i, addr_matcher) && write_time(*self, i) > time
                        ==> tm <= write_time(*self, i)),
    {
        let next = match time.checked_add(1) {
            Some(n) => n,
            None => {
                return None;
            },
        };
        let time_range = IRange::new(next, Time::MAX);
        let r = self.nearest_write_time(time, time_range, addr_matcher);
        proof {
            if self.wf() {
                if let Some(tm) = r {
                    let j = choose|j: int|
                        #[trigger] write_addr_matches(*self, j, addr_matcher) && write_time(*self, j) == tm && forall|i: int|
                            #[trigger] write_addr_matches(*self, i, addr_matcher) && time_range.has(write_time(*self, i))
                                ==> time_distance(tm as int, time as int) <= time_distance(
                                write_time(*self, i),
                                time as int,
                            );
                    assert(write_addr_matches(*self, j, addr_matcher));
                }
            }
        }
        r
    }
}

impl Db<'_> {
    #[verifier::rlimit(60)]
    pub fn prev_mem_write<M: DimMatcher<Addr> + Copy>(&self, time: Time, addr_matcher: M) -> (r: Option<Time>)
        requires
            self.trees_ok(),
            addr_matcher.matcher_wf(),
        ensures
            self.trees_wf() ==> (r is None <==> forall|z: int, j: int|
                0 <= z < self.write_zones@.len() && #[trigger] write_addr_matches(self.write_zones@[z], j, addr_matcher)
                    ==> write_time(self.write_zones@[z], j) >= time),
            self.trees_wf() ==> (r matches Some(tm) ==> tm < time && exists|z: int, j: int|
                0 <= z < self.write_zones@.len() && #[trigger] write_addr_matches(self.write_zones@[z], j, addr_matcher)
                    && write_time(self.write_zones@[z], j) == tm && forall|y: int, i: int|
                    0 <= y < self.write_zones@.len() && #[trigger] write_addr_matches(self.write_zones@[y], i, addr_matcher)
                        && write_time(self.write_zones@[y], i) < time ==> write_time(self.write_zones@[y], i) <= tm),
    {
        let mut best: Option<Time> = None;
        let mut z: usize = 0;
        while z < self.write_zones.len()
            invariant
                self.trees_ok(),
                addr_matcher.matcher_wf(),
                z <= self.write_zones@.len(),
                self.trees_wf() ==> (best is None <==> forall|y: int, j: int|
                    0 <= y < z && #[trigger] write_addr_matches(self.write_zones@[y], j, addr_matcher) ==> write_time(
                        self.write_zones@[y],
                        j,
                    ) >= time),
                self.trees_wf() ==> (best matches Some(tm) ==> tm < time && exists|y: int, j: int|
                    0 <= y < z && #[trigger] write_addr_matches(self.write_zones@[y], j, addr_matcher) && write_time(
                        self.write_zones@[y],
                        j,
                    ) == tm && forall|x: int, i: int|
                        0 <= x < z && #[trigger] write_addr_matches(self.write_zones@[x], i, addr_matcher) && write_time(
                            self.write_zones@[x],
                            i,
                        ) < time ==> write_time(self.write_zones@[x], i) <= tm),
            decreases self.write_zones@.len() - z,
        {
            let rtree = &self.write_zones[z];
            proof {
                assert(self.write_zones@[z as int].shape_wf() && self.write_zones@[z as int].items_wf());
                assert(rtree.bbox.wf());
            }
            let ghost best0 = best;
            if addr_matcher.match_range(rtree.bbox.addr_range()) {
                if let Some(t) = rtree.prev_leaf_where_addr_match(time, addr_matcher) {
                    best = match best {
                        Some(b) => if t > b { Some(t) } else { Some(b) },
                        None => Some(t),
                    };
                }
            } else {
                proof {
                    if self.trees_wf() {
                        assert(self.write_zones@[z as int].wf());
                        assert forall|j: int| !#[trigger] write_addr_matches(self.write_zones@[z as int], j, addr_matcher) by {
                            if write_addr_matches(self.write_zones@[z as int], j, addr_matcher) {
                                lemma_ancestor_covers(&self.write_zones@[z as int], j, 0);
                                let v = choose|v: int| #[trigger] self.write_zones@[z as int].leaves@[j].node.addr_range_spec().has(v) && addr_matcher.matches(v);
                                assert(rtree.bbox.addr_range_spec().has(v));
                            }
                        }
                    }
                }
            }
            proof {
                if self.trees_wf() {
                    assert(self.write_zones@[z as int].wf());
                    let zt = self.write_zones@[z as int];
                    assert forall|y: int, j: int|
                        0 <= y < z + 1 && #[trigger] write_addr_matches(self.write_zones@[y], j, addr_matcher) && best is None implies write_time(
                        self.write_zones@[y],
                        j,
                    ) >= time by {
                        if y < z {
                            assert(best0 is None);
                        }
                    }
                    if let Some(tm) = best {
                        if best0 is Some && best == best0 {
                            let (y0, j0) = choose|y: int, j: int|
                                0 <= y < z && #[trigger] write_addr_matches(self.write_zones@[y], j, addr_matcher) && write_time(
                                    self.write_zones@[y],
                                    j,
                                ) == tm && forall|x: int, i: int|
                                    0 <= x < z && #[trigger] write_addr_matches(self.write_zones@[x], i, addr_matcher) && write_time(
                                        self.write_zones@[x],
                                        i,
                                    ) < time ==> write_time(self.write_zones@[x], i) <= tm;
                            assert(write_addr_matches(self.write_zones@[y0], j0, addr_matcher));
                        } else {
                            assert(write_addr_matches(zt, choose|j: int| #[trigger] write_addr_matches(zt, j, addr_matcher) && write_time(zt, j) == tm && forall|i: int| #[trigger] write_addr_matches(zt, i, addr_matcher) && write_time(zt, i) < time ==> write_time(zt, i) <= tm, addr_matcher));
                        }
                    }
                }
            }
            z = z + 1;
        }
        best
    }

    #[verifier::rlimit(100)]
    #[verifier::spinoff_prover]
    pub fn next_mem_write<M: DimMatcher<Addr> + Copy>(&self, time: Time, addr_matcher: M) -> (r: Option<Time>)
        requires
            self.trees_ok(),
            addr_matcher.matcher_wf(),
        ensures
            self.trees_wf() ==> (r is None <==> forall|z: int, j: int|
                0 <= z < self.write_zones@.len() && #[trigger] write_addr_matches(self.write_zones@[z], j, addr_matcher)
                    ==> write_time(self.write_zones@[z], j) <= time),
            self.trees_wf() ==> (r matches Some(tm) ==> tm > time && exists|z: int, j: int|
                0 <= z < self.write_zones@.len() && #[trigger] write_addr_matches(self.write_zones@[z], j, addr_matcher)
                    && write_time(self.write_zones@[z], j) == tm && forall|y: int, i: int|
                    0 <= y < self.write_zones@.len() && #[trigger] write_addr_matches(self.write_zones@[y], i, addr_matcher)
                        && write_time(self.write_zones@[y], i) > time ==> tm <= write_time(self.write_zones@[y], i)),
    {
        let mut best: Option<Time> = None;
        let mut z: usize = 0;
        while z < self.write_zones.len()
            invariant
                self.trees_ok(),
                addr_matcher.matcher_wf(),
                z <= self.write_zones@.len(),
                self.trees_wf() ==> (best is None <==> forall|y: int, j: int|
                    0 <= y < z && #[trigger] write_addr_matches(self.write_zones@[y], j, addr_matcher) ==> write_time(
                        self.write_zones@[y],
                        j,
                    ) <= time),
                self.trees_wf() ==> (best matches Some(tm) ==> tm > time && exists|y: int, j: int|
                    0 <= y < z && #[trigger] write_addr_matches(self.write_zones@[y], j, addr_matcher) && write_time(
                        self.write_zones@[y],
                        j,
                    ) == tm && forall|x: int, i: int|
                        0 <= x < z && #[trigger] write_addr_matches(self.write_zones@[x], i, addr_matcher) && write_time(
                            self.write_zones@[x],
                            i,
                        ) > time ==> tm <= write_time(self.write_zones@[x], i)),
            decreases self.write_zones@.len() - z,
        {
            let rtree = &self.write_zones[z];
            proof {
                assert(self.write_zones@[z as int].shape_wf() && self.write_zones@[z as int].items_wf());
                assert(rtree.bbox.wf());
            }
            let ghost best0 = best;
            if addr_matcher.match_range(rtree.bbox.addr_range()) {
                if let Some(t) = rtree.next_leaf_where_addr_match(time, addr_matcher) {
                    best = match best {
                        Some(b) => if t < b { Some(t) } else { Some(b) },
                        None => Some(t),
                    };
                }
            } else {
                proof {
                    if self.trees_wf() {
                        assert(self.write_zones@[z as int].wf());
                        assert forall|j: int| !#[trigger] write_addr_matches(self.write_zones@[z as int], j, addr_matcher) by {
                            if write_addr_matches(self.write_zones@[z as int], j, addr_matcher) {
                                lemma_ancestor_covers(&self.write_zones@[z as int], j, 0);
                                let v = choose|v: int| #[trigger] self.write_zones@[z as int].leaves@[j].node.addr_range_spec().has(v) && addr_matcher.matches(v);
                                assert(rtree.bbox.addr_range_spec().has(v));
                            }
                        }
                    }
                }
            }
            proof {
                if self.trees_wf() {
                    assert(self.write_zones@[z as int].wf());
                    let zt = self.write_zones@[z as int];
                    assert forall|y: int, j: int|
                        0 <= y < z + 1 && #[trigger] write_addr_matches(self.write_zones@[y], j, addr_matcher) && best is None implies write_time(
                        self.write_zones@[y],
                        j,
                    ) <= time by {
                        if y < z {
                            assert(best0 is None);
                        }
                    }
                    if let Some(tm) = best {
                        if best0 is Some && best == best0 {
                            let (y0, j0) = choose|y: int, j: int|
                                0 <= y < z && #[trigger] write_addr_matches(self.write_zones@[y], j, addr_matcher) && write_time(
                                    self.write_zones@[y],
                                    j,
                                ) == tm && forall|x: int, i: int|
                                    0 <= x < z && #[trigger] write_addr_matches(self.write_zones@[x], i, addr_matcher) && write_time(
                                        self.write_zones@[x],
                                        i,
                                    ) > time ==> tm <= write_time(self.write_zones@[x], i);
                            assert(write_addr_matches(self.write_zones@[y0], j0, addr_matcher));
                        } else {
                            assert(write_addr_matches(zt, choose|j: int| #[trigger] write_addr_matches(zt, j, addr_matcher) && write_time(zt, j) == tm && forall|i: int| #[trigger] write_addr_matches(zt, i, addr_matcher) && write_time(zt, i) > time ==> tm <= write_time(zt, i), addr_matcher));
                        }
                    }
                }
            }
            z = z + 1;
        }
        best
    }

    #[verifier::rlimit(60)]
    pub fn prev_mem_read<M: DimMatcher<Addr> + Copy>(&self, time: Time, addr_matcher: M) -> (r: Option<Time>)
        requires
            self.trees_ok(),
            addr_matcher.matcher_wf(),
        ensures
            self.trees_wf() ==> (r is None <==> forall|z: int, j: int|
                0 <= z < self.read_zones@.len() && #[trigger] read_matches(self.read_zones@[z], j, addr_matcher)
                    ==> read_time(self.read_zones@[z], j) >= time),
            self.trees_wf() ==> (r matches Some(tm) ==> tm < time && exists|z: int, j: int|
                0 <= z < self.read_zones@.len() && #[trigger] read_matches(self.read_zones@[z], j, addr_matcher)
                    && read_time(self.read_zones@[z], j) == tm && forall|y: int, i: int|
                    0 <= y < self.read_zones@.len() && #[trigger] read_matches(self.read_zones@[y], i, addr_matcher)
                        && read_time(self.read_zones@[y], i) < time ==> read_time(self.read_zones@[y], i) <= tm),
    {
        let mut best: Option<Time> = None;
        let mut z: usize = 0;
        while z < self.read_zones.len()
            invariant
                self.trees_ok(),
                addr_matcher.matcher_wf(),
                z <= self.read_zones@.len(),
                self.trees_wf() ==> (best is None <==> forall|y: int, j: int|
                    0 <= y < z && #[trigger] read_matches(self.read_zones@[y], j, addr_matcher) ==> read_time(
                        self.read_zones@[y],
                        j,
                    ) >= time),
                self.trees_wf() ==> (best matches Some(tm) ==> tm < time && exists|y: int, j: int|
                    0 <= y < z && #[trigger] read_matches(self.read_zones@[y], j, addr_matcher) && read_time(
                        self.read_zones@[y],
                        j,
                    ) == tm && forall|x: int, i: int|
                        0 <= x < z && #[trigger] read_matches(self.read_zones@[x], i, addr_matcher) && read_time(
                            self.read_zones@[x],
                            i,
                        ) < time ==> read_time(self.read_zones@[x], i) <= tm),
            decreases self.read_zones@.len() - z,
        {
            let rtree = &self.read_zones[z];
            proof {
                assert(self.read_zones@[z as int].shape_wf() && self.read_zones@[z as int].items_wf());
                assert(rtree.bbox.wf());
            }
            let ghost best0 = best;
            if addr_matcher.match_range(rtree.bbox.addr_range()) {
                if let Some(t) = rtree.prev_leaf_where_addr_match(time, addr_matcher) {
                    best = match best {
                        Some(b) => if t > b { Some(t) } else { Some(b) },
                        None => Some(t),
                    };
                }
            } else {
                proof {
                    if self.trees_wf() {
                        assert(self.read_zones@[z as int].wf());
                        assert forall|j: int| !#[trigger] read_matches(self.read_zones@[z as int], j, addr_matcher) by {
                            if read_matches(self.read_zones@[z as int], j, addr_matcher) {
                                lemma_ancestor_covers(&self.read_zones@[z as int], j, 0);
                                let v = choose|v: int| #[trigger] self.read_zones@[z as int].leaves@[j].node_spec().addr_range_spec().has(v) && addr_matcher.matches(v);
                                assert(rtree.bbox.addr_range_spec().has(v));
                            }
                        }
                    }
                }
            }
            proof {
                if self.trees_wf() {
                    assert(self.read_zones@[z as int].wf());
                    let zt = self.read_zones@[z as int];
                    assert forall|y: int, j: int|
                        0 <= y < z + 1 && #[trigger] read_matches(self.read_zones@[y], j, addr_matcher) && best is None implies read_time(
                        self.read_zones@[y],
                        j,
                    ) >= time by {
                        if y < z {
                            assert(best0 is None);
                        }
                    }
                    if let Some(tm) = best {
                        if best0 is Some && best == best0 {
                            let (y0, j0) = choose|y: int, j: int|
                                0 <= y < z && #[trigger] read_matches(self.read_zones@[y], j, addr_matcher) && read_time(
                                    self.read_zones@[y],
                                    j,
                                ) == tm && forall|x: int, i: int|
                                    0 <= x < z && #[trigger] read_matches(self.read_zones@[x], i, addr_matcher) && read_time(
                                        self.read_zones@[x],
                                        i,
                                    ) < time ==> read_time(self.read_zones@[x], i) <= tm;
                            assert(read_matches(self.read_zones@[y0], j0, addr_matcher));
                        } else {
                            assert(read_matches(zt, choose|j: int| #[trigger] read_matches(zt, j, addr_matcher) && read_time(zt, j) == tm && forall|i: int| #[trigger] read_matches(zt, i, addr_matcher) && read_time(zt, i) < time ==> read_time(zt, i) <= tm, addr_matcher));
                        }
                    }
                }
            }
            z = z + 1;
        }
        best
    }

    #[verifier::rlimit(60)]
    pub fn next_mem_read<M: DimMatcher<Addr> + Copy>(&self, time: Time, addr_matcher: M) -> (r: Option<Time>)
        requires
            self.trees_ok(),
            addr_matcher.matcher_wf(),
        ensures
            self.trees_wf() ==> (r is None <==> forall|z: int, j: int|
                0 <= z < self.read_zones@.len() && #[trigger] read_matches(self.read_zones@[z], j, addr_matcher)
                    ==> read_time(self.read_zones@[z], j) <= time),
            self.trees_wf() ==> (r matches Some(tm) ==> tm > time && exists|z: int, j: int|
                0 <= z < self.read_zones@.len() && #[trigger] read_matches(self.read_zones@[z], j, addr_matcher)
                    && read_time(self.read_zones@[z], j) == tm && forall|y: int, i: int|
                    0 <= y < self.read_zones@.len() && #[trigger] read_matches(self.read_zones@[y], i, addr_matcher)
                        && read_time(self.read_zones@[y], i) > time ==> tm <= read_time(self.read_zones@[y], i)),
    {
        let mut best: Option<Time> = None;
        let mut z: usize = 0;
        while z < self.read_zones.len()
            invariant
                self.trees_ok(),
                addr_matcher.matcher_wf(),
                z <= self.read_zones@.len(),
                self.trees_wf() ==> (best is None <==> forall|y: int, j: int|
                    0 <= y < z && #[trigger] read_matches(self.read_zones@[y], j, addr_matcher) ==> read_time(
                        self.read_zones@[y],
                        j,
                    ) <= time),
                self.trees_wf() ==> (best matches Some(tm) ==> tm > time && exists|y: int, j: int|
                    0 <= y < z && #[trigger] read_matches(self.read_zones@[y], j, addr_matcher) && read_time(
                        self.read_zones@[y],
                        j,
                    ) == tm && forall|x: int, i: int|
                        0 <= x < z && #[trigger] read_matches(self.read_zones@[x], i, addr_matcher) && read_time(
                            self.read_zones@[x],
                            i,
                        ) > time ==> tm <= read_time(self.read_zones@[x], i)),
            decreases self.read_zones@.len() - z,
        {
            let rtree = &self.read_zones[z];
            proof {
                assert(self.read_zones@[z as int].shape_wf() && self.read_zones@[z as int].items_wf());
                assert(rtree.bbox.wf());
            }
            let ghost best0 = best;
            if addr_matcher.match_range(rtree.bbox.addr_range()) {
                if let Some(t) = rtree.next_leaf_where_addr_match(time, addr_matcher) {
                    best = match best {
                        Some(b) => if t < b { Some(t) } else { Some(b) },
                        None => Some(t),
                    };
                }
            } else {
                proof {
                    if self.trees_wf() {
                        assert(self.read_zones@[z as int].wf());
                        assert forall|j: int| !#[trigger] read_matches(self.read_zones@[z as int], j, addr_matcher) by {
                            if read_matches(self.read_zones@[z as int], j, addr_matcher) {
                                lemma_ancestor_covers(&self.read_zones@[z as int], j, 0);
                                let v = choose|v: int| #[trigger] self.read_zones@[z as int].leaves@[j].node_spec().addr_range_spec().has(v) && addr_matcher.matches(v);
                                assert(rtree.bbox.addr_range_spec().has(v));
                            }
                        }
                    }
                }
            }
            proof {
                if self.trees_wf() {
                    assert(self.read_zones@[z as int].wf());
                    let zt = self.read_zones@[z as int];
                    assert forall|y: int, j: int|
                        0 <= y < z + 1 && #[trigger] read_matches(self.read_zones@[y], j, addr_matcher) && best is None implies read_time(
                        self.read_zones@[y],
                        j,
                    ) <= time by {
                        if y < z {
                            assert(best0 is None);
                        }
                    }
                    if let Some(tm) = best {
                        if best0 is Some && best == best0 {
                            let (y0, j0) = choose|y: int, j: int|
                                0 <= y < z && #[trigger] read_matches(self.read_zones@[y], j, addr_matcher) && read_time(
                                    self.read_zones@[y],
                                    j,
                                ) == tm && forall|x: int, i: int|
                                    0 <= x < z && #[trigger] read_matches(self.read_zones@[x], i, addr_matcher) && read_time(
                                        self.read_zones@[x],
                                        i,
                                    ) > time ==> tm <= read_time(self.read_zones@[x], i);
                            assert(read_matches(self.read_zones@[y0], j0, addr_matcher));
                        } else {
                            assert(read_matches(zt, choose|j: int| #[trigger] read_matches(zt, j, addr_matcher) && read_time(zt, j) == tm && forall|i: int| #[trigger] read_matches(zt, i, addr_matcher) && read_time(zt, i) > time ==> tm <= read_time(zt, i), addr_matcher));
                        }
                    }
                }
            }
            z = z + 1;
        }
        best
    }
}

/// Fragmenting `a` by `b` yields well-formed rectangles inside `a` and outside `b`,
/// pairwise disjoint, that together hold every point of `a` outside `b`.
pub proof fn law_fragments_partition_difference(a: MemNode, b: MemNode)
    requires
        a.wf(),
        b.wf(),
    ensures
        forall|i: int|
            0 <= i < a.fragments_spec(b).len() ==> {
                let f = #[trigger] a.fragments_spec(b)[i];
                &&& f.wf()
                &&& a.covers(f)
                &&& f.disjoint_from(b) || a.disjoint_from(b)
            },
        forall|i: int, j: int|
            0 <= i < j < a.fragments_spec(b).len() ==> #[trigger] a.fragments_spec(b)[i].disjoint_from(
                #[trigger] a.fragments_spec(b)[j],
            ),
        forall|addr: int, time: int|
            a.holds(addr, time) && !b.holds(addr, time) ==> exists|i: int|
                0 <= i < a.fragments_spec(b).len() && #[trigger] a.fragments_spec(b)[i].holds(
                    addr,
                    time,
                ),
        forall|addr: int, time: int, i: int|
            0 <= i < a.fragments_spec(b).len() && #[trigger] a.fragments_spec(b)[i].holds(
                addr,
                time,
            ) ==> a.holds(addr, time) && !b.holds(addr, time),
        a.disjoint_from(b) ==> a.fragments_spec(b) == seq![a],
{
    let fs = a.fragments_spec(b);
    assert forall|addr: int, time: int|
        a.holds(addr, time) && !b.holds(addr, time) implies exists|i: int|
            0 <= i < fs.len() && #[trigger] fs[i].holds(addr, time) by {
        if a.disjoint_from(b) {
            assert(fs[0].holds(addr, time));
        } else {
            let nb: int = if b.addr_min > a.addr_min { 1 } else { 0 };
            let na: int = if b.addr_max < a.addr_max { 1 } else { 0 };
            let nt: int = if b.time_min > a.time_min { 1 } else { 0 };
            if b.addr_min > a.addr_min && addr < b.addr_min {
                assert(fs[0].holds(addr, time));
            } else if b.addr_max < a.addr_max && addr > b.addr_max {
                assert(fs[nb].holds(addr, time));
            } else if b.time_min > a.time_min && time < b.time_min {
                assert(fs[nb + na].holds(addr, time));
            } else {
                assert(fs[nb + na + nt].holds(addr, time));
            }
        }
    }
}

} // verus!
