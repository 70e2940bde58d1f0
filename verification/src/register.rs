//! Register R-Trees: rectangles over (value, time).
use vstd::prelude::*;
use crate::flat::{RegLeaf, RegNode, Time};
use crate::irange::{IRange, Scalar};
use crate::matcher::DimMatcher;
use crate::nearest_neighbor::{NeighborVisitor, Status, admissible, is_nearest, kept_key, leaf_kept, nearest_neighbor};
use crate::query::{Query, QueryIter};
use crate::rtree::{RTree, Spec, lemma_ancestor_covers};
use crate::db::Db;
use crate::index::pass::{
    lemma_tree_has_every_write, lemma_tree_holds_every_written_time, lemma_tree_holds_only_written_times,
    lemma_tree_starts_at_writes, held_with, holds_time, register_leaves, starts_a_leaf, times_sorted, value_at as pass_value_at,
};

verus! {

impl RegNode {
    pub open spec fn wf(self) -> bool {
        self.value_min <= self.value_max && self.time_min <= self.time_max
    }

    /// `self` contains every point of `other`.
    pub open spec fn covers(self, other: RegNode) -> bool {
        self.value_min <= other.value_min && other.value_max <= self.value_max && self.time_min
            <= other.time_min && other.time_max <= self.time_max
    }

    /// Smallest rectangle containing both rectangles.
    pub open spec fn union_bbox(self, other: RegNode) -> RegNode {
        RegNode {
            value_min: if other.value_min < self.value_min {
                other.value_min
            } else {
                self.value_min
            },
            value_max: if self.value_max < other.value_max {
                other.value_max
            } else {
                self.value_max
            },
            time_min: if other.time_min < self.time_min {
                other.time_min
            } else {
                self.time_min
            },
            time_max: if self.time_max < other.time_max {
                other.time_max
            } else {
                self.time_max
            },
        }
    }

    pub open spec fn value_range_spec(&self) -> IRange<u64> {
        IRange { min: self.value_min, max: self.value_max }
    }

    pub open spec fn time_range_spec(&self) -> IRange<Time> {
        IRange { min: self.time_min, max: self.time_max }
    }

    /// The two rectangles share no point (on well-formed rectangles).
    pub open spec fn disjoint_from(self, other: RegNode) -> bool {
        self.value_range_spec().disjoint_from(other.value_range_spec())
            || self.time_range_spec().disjoint_from(other.time_range_spec())
    }

    #[inline]
    pub fn extends_to_contain(&mut self, other: &Self)
        ensures
            *final(self) == old(self).union_bbox(*other),
    {
        self.value_min = if other.value_min < self.value_min {
            other.value_min
        } else {
            self.value_min
        };
        self.value_max = if self.value_max < other.value_max {
            other.value_max
        } else {
            self.value_max
        };
        self.time_min = if other.time_min < self.time_min {
            other.time_min
        } else {
            self.time_min
        };
        self.time_max = if self.time_max < other.time_max {
            other.time_max
        } else {
            self.time_max
        };
    }

    #[inline]
    pub fn is_disjoint(&self, other: &Self) -> (r: bool)
        requires
            self.wf(),
            other.wf(),
        ensures
            r == self.disjoint_from(*other),
    {
        let addr = self.value_range().is_disjoint(&other.value_range());
        let time = self.time_range().is_disjoint(&other.time_range());
        addr || time
    }

    #[inline]
    #[verifier::when_used_as_spec(value_range_spec)]
    pub fn value_range(&self) -> (r: IRange<u64>)
        ensures
            r == self.value_range_spec(),
    {
        IRange { min: self.value_min, max: self.value_max }
    }

    #[inline]
    #[verifier::when_used_as_spec(time_range_spec)]
    pub fn time_range(&self) -> (r: IRange<Time>)
        ensures
            r == self.time_range_spec(),
    {
        IRange { min: self.time_min, max: self.time_max }
    }
}

impl RegLeaf {
    pub open spec fn wf(self) -> bool {
        self.time_min <= self.time_max
    }

    /// The rectangle of a leaf: its single value over its time range.
    pub open spec fn node_spec(self) -> RegNode {
        RegNode {
            value_min: self.value,
            value_max: self.value,
            time_min: self.time_min,
            time_max: self.time_max,
        }
    }

    #[inline]
    #[verifier::when_used_as_spec(node_spec)]
    pub fn node(self) -> (r: RegNode)
        ensures
            r == self.node_spec(),
    {
        RegNode {
            value_min: self.value,
            value_max: self.value,
            time_min: self.time_min,
            time_max: self.time_max,
        }
    }

    #[inline]
    pub fn is_disjoint(&self, other: &Self) -> (r: bool)
        requires
            self.wf(),
            other.wf(),
        ensures
            r == self.node_spec().disjoint_from(other.node_spec()),
    {
        self.node().is_disjoint(&other.node())
    }

    #[inline]
    pub fn time_range(&self) -> (r: IRange<Time>)
        requires
            self.wf(),
        ensures
            r == self.node_spec().time_range_spec(),
    {
        IRange::new(self.time_min, self.time_max)
    }
}

#[derive(Clone, Copy)]
pub struct RegSpec;

impl Spec for RegSpec {
    type Node = RegNode;

    type Leaf = RegLeaf;

    open spec fn node_covers_node(outer: RegNode, inner: RegNode) -> bool {
        outer.covers(inner)
    }

    open spec fn node_covers_leaf(outer: RegNode, leaf: RegLeaf) -> bool {
        outer.covers(leaf.node_spec())
    }

    open spec fn node_wf(node: RegNode) -> bool {
        node.wf()
    }

    open spec fn leaf_wf(leaf: RegLeaf) -> bool {
        leaf.wf()
    }

    fn node_wf_exec(node: &RegNode) -> (r: bool) {
        node.value_min <= node.value_max && node.time_min <= node.time_max
    }

    fn leaf_wf_exec(leaf: &RegLeaf) -> (r: bool) {
        leaf.time_min <= leaf.time_max
    }

    fn node_covers_node_exec(outer: &RegNode, inner: &RegNode) -> (r: bool) {
        outer.value_min <= inner.value_min && inner.value_max <= outer.value_max && outer.time_min
            <= inner.time_min && inner.time_max <= outer.time_max
    }

    fn node_covers_leaf_exec(outer: &RegNode, leaf: &RegLeaf) -> (r: bool) {
        let n = leaf.node();
        outer.value_min <= n.value_min && n.value_max <= outer.value_max && outer.time_min <= n.time_min
            && n.time_max <= outer.time_max
    }

    proof fn lemma_covers_trans(a: RegNode, b: RegNode, leaf: RegLeaf) {
    }
}

pub type RegRTree = RTree<RegSpec>;

pub type RegQuery<'rtree, Q> = QueryIter<'rtree, RegSpec, Q>;

/// Query for the leaf whose time range holds a given time.
#[derive(Clone, Copy)]
struct RegValueAt {
    time: Time,
}

impl Query<RegSpec> for RegValueAt {
    closed spec fn accepts_node(&self, node: RegNode) -> bool {
        node.time_range_spec().has(self.time as int)
    }

    closed spec fn accepts_leaf(&self, leaf: RegLeaf) -> bool {
        leaf.node_spec().time_range_spec().has(self.time as int)
    }

    closed spec fn query_wf(&self) -> bool {
        true
    }

    fn filter_node(&mut self, node: &RegNode) -> (r: bool) {
        node.time_range().contains(self.time)
    }

    fn filter_leaf(&mut self, leaf: &RegLeaf) -> (r: bool) {
        leaf.time_range().contains(self.time)
    }
}

/// The leaf `j` holds the time `time` in its time range.
pub open spec fn leaf_holds_time(t: RegRTree, j: int, time: int) -> bool {
    0 <= j < t.leaves@.len() && t.leaves@[j].time_min <= time <= t.leaves@[j].time_max
}

/// The leaf `j` starts within `range` and its value is accepted by the matcher.
pub open spec fn leaf_matches<M: DimMatcher<u64>>(
    t: RegRTree,
    j: int,
    range: IRange<Time>,
    m: M,
) -> bool {
    0 <= j < t.leaves@.len() && range.has(t.leaves@[j].time_min as int) && m.matches(
        t.leaves@[j].value as int,
    )
}

/// Distance between two times.
pub open spec fn time_distance(a: int, b: int) -> int {
    if a < b {
        b - a
    } else {
        a - b
    }
}

/// Visitor of a search for the register write closest in time.
struct RegTimeVisitor<M> {
    time_range: IRange<Time>,
    value_matcher: M,
    target_time: Time,
}

impl<M: DimMatcher<u64>> NeighborVisitor<RegSpec, u32> for RegTimeVisitor<M> {
    closed spec fn node_status(&self, node: RegNode) -> Status<u32> {
        if self.time_range.disjoint_from(node.time_range_spec()) {
            Status::Ignore
        } else if !(exists|v: int|
            #[trigger] node.value_range_spec().has(v) && self.value_matcher.matches(v)) {
            Status::Ignore
        } else {
            Status::Keep(node.time_range_spec().distance_to(self.target_time as int) as u32)
        }
    }

    closed spec fn leaf_status(&self, leaf: RegLeaf) -> Status<u32> {
        if !self.time_range.has(leaf.time_min as int) {
            Status::Ignore
        } else if !self.value_matcher.matches(leaf.value as int) {
            Status::Ignore
        } else {
            Status::Keep(time_distance(leaf.time_min as int, self.target_time as int) as u32)
        }
    }

    closed spec fn visitor_wf(&self) -> bool {
        self.time_range.wf() && self.value_matcher.matcher_wf()
    }

    fn visit_node(&self, node: &RegNode) -> (r: Status<u32>) {
        if self.time_range.is_disjoint(&node.time_range()) {
            return Status::Ignore;
        }
        if !self.value_matcher.match_range(node.value_range()) {
            return Status::Ignore;
        }
        let dist = node.time_range().min_distance(self.target_time);
        Status::Keep(dist)
    }

    fn visit_leaf(&self, leaf: &RegLeaf) -> (r: Status<u32>) {
        if !self.time_range.contains(leaf.time_min) {
            return Status::Ignore;
        }
        if !self.value_matcher.match_scalar(leaf.value) {
            return Status::Ignore;
        }
        let dist = if leaf.time_min < self.target_time {
            self.target_time - leaf.time_min
        } else {
            leaf.time_min - self.target_time
        };
        Status::Keep(dist)
    }
}

/// In a well-formed tree, the time visitor keeps every node above a kept leaf, with a
/// smaller distance.
proof fn lemma_time_visitor_admissible<M: DimMatcher<u64>>(t: RegRTree, v: RegTimeVisitor<M>)
    requires
        t.wf(),
        v.visitor_wf(),
    ensures
        admissible(t, v),
{
    assert forall|j: int, l: int|
        0 <= j < t.leaves@.len() && 0 <= l < t.depth_spec() && #[trigger] v.leaf_status(
            t.leaves@[j],
        ) is Keep implies {
        let ns = #[trigger] v.node_status(t.node_at(l, t.ancestor(j, l)));
        &&& ns is Keep
        &&& kept_key(ns) <= kept_key(v.leaf_status(t.leaves@[j]))
    } by {
        lemma_ancestor_covers(&t, j, l);
        let n = t.node_at(l, t.ancestor(j, l));
        let leaf = t.leaves@[j];
        assert(n.value_range_spec().has(leaf.value as int) && v.value_matcher.matches(
            leaf.value as int,
        ));
    }
}

/// In a well-formed tree, a leaf is kept by the time visitor exactly when it matches.
proof fn lemma_time_visitor_kept<M: DimMatcher<u64>>(t: RegRTree, v: RegTimeVisitor<M>, j: int)
    ensures
        leaf_kept(t, v, j) <==> leaf_matches(t, j, v.time_range, v.value_matcher),
        leaf_kept(t, v, j) ==> kept_key(v.leaf_status(t.leaves@[j])) == time_distance(
            t.leaves@[j].time_min as int,
            v.target_time as int,
        ),
{
}

impl RTree<RegSpec> {
    pub fn leaf_at(&self, time: Time) -> (r: Option<&RegLeaf>)
        requires
            self.shape_wf(),
            self.items_wf(),
        ensures
            self.wf() ==> (r is None <==> forall|j: int| !#[trigger] leaf_holds_time(
                *self,
                j,
                time as int,
            )),
            self.wf() ==> (r matches Some(leaf) ==> exists|j: int|
                #[trigger] leaf_holds_time(*self, j, time as int) && *leaf == self.leaves@[j]
                    && forall|i: int| 0 <= i < j ==> !#[trigger] leaf_holds_time(*self, i, time as int)),
            r matches Some(leaf) ==> exists|j: int| #[trigger] leaf_holds_time(*self, j, time as int) && *leaf == self.leaves@[j],
    {
        let ghost query = RegValueAt { time };
        let mut q = self.query(RegValueAt { time });
        let ghost q0 = q;
        let r = q.next();
        proof {
            assert(q0.tree() == *self);
            assert(q0.query_spec() == query);
            if let Some(leaf) = r {
                let j = q.cursor() - 1;
                assert(self.query_hit(query, j));
                assert(leaf_holds_time(*self, j, time as int));
            }
            if self.wf() {
                assert forall|j: int| #[trigger]
                    leaf_holds_time(*self, j, time as int) <==> self.query_hit(
                        RegValueAt { time },
                        j,
                    ) by {
                    if leaf_holds_time(*self, j, time as int) {
                        assert forall|l: int| 0 <= l < self.depth_spec() implies #[trigger] (RegValueAt {
                            time,
                        }).accepts_node(self.node_at(l, self.ancestor(j, l))) by {
                            lemma_ancestor_covers(self, j, l);
                        }
                    }
                }
                assert(q0.tree() == *self);
                assert(q0.query_spec() == query);
                match r {
                    Some(leaf) => {
                        let j = q.cursor() - 1;
                        assert(self.query_hit(query, j));
                        assert(leaf_holds_time(*self, j, time as int));
                        assert forall|i: int| 0 <= i < j implies !#[trigger] leaf_holds_time(
                            *self,
                            i,
                            time as int,
                        ) by {
                            assert(!self.query_hit(query, i));
                        }
                    },
                    None => {
                        assert forall|j: int| !#[trigger] leaf_holds_time(*self, j, time as int) by {
                            if 0 <= j < self.leaves@.len() {
                                assert(!self.query_hit(query, j));
                            }
                        }
                    },
                }
            }
        }
        r
    }

    /// Registre value at a given time, returns [None] before the first write
    pub fn value_at(&self, time: Time) -> (r: Option<u64>)
        requires
            self.shape_wf(),
            self.items_wf(),
        ensures
            self.wf() ==> (r is None <==> forall|j: int| !#[trigger] leaf_holds_time(
                *self,
                j,
                time as int,
            )),
            self.wf() ==> (r matches Some(value) ==> exists|j: int|
                #[trigger] leaf_holds_time(*self, j, time as int) && value == self.leaves@[j].value
                    && forall|i: int| 0 <= i < j ==> !#[trigger] leaf_holds_time(*self, i, time as int)),
            r matches Some(value) ==> exists|j: int| #[trigger] leaf_holds_time(*self, j, time as int) && value == self.leaves@[j].value,
    {
        match self.leaf_at(time) {
            Some(leaf) => Some(leaf.value),
            None => None,
        }
    }
}

/// Time of the write closest to `target_time` among the leaves starting within `time_range`
/// whose value the matcher accepts.
fn register_nearest_neighbor_over_time<M: DimMatcher<u64>>(
    rtree: &RegRTree,
    target_time: Time,
    time_range: IRange<Time>,
    value_matcher: M,
) -> (r: Option<Time>)
    requires
        rtree.shape_wf(),
        rtree.items_wf(),
        time_range.wf(),
        value_matcher.matcher_wf(),
    ensures
        rtree.wf() ==> (r is None <==> forall|j: int|
            !#[trigger] leaf_matches(*rtree, j, time_range, value_matcher)),
        rtree.wf() ==> (r matches Some(tm) ==> exists|j: int|
            #[trigger] leaf_matches(*rtree, j, time_range, value_matcher)
                && rtree.leaves@[j].time_min == tm && forall|i: int|
                #[trigger] leaf_matches(*rtree, i, time_range, value_matcher) ==> time_distance(
                    tm as int,
                    target_time as int,
                ) <= time_distance(rtree.leaves@[i].time_min as int, target_time as int)),
{
    let visitor = RegTimeVisitor { time_range, value_matcher, target_time };
    let r = nearest_neighbor(rtree, &visitor);
    proof {
        if rtree.wf() {
            lemma_time_visitor_admissible(*rtree, visitor);
        }
        assert forall|j: int| #[trigger] leaf_kept(*rtree, visitor, j) <==> leaf_matches(
            *rtree,
            j,
            time_range,
            value_matcher,
        ) by {
            lemma_time_visitor_kept(*rtree, visitor, j);
        }
    }
    match r {
        Some(leaf) => {
            proof {
                if rtree.wf() {
                let j = choose|j: int|
                    is_nearest(*rtree, visitor, j) && *leaf == #[trigger] rtree.leaves@[j];
                lemma_time_visitor_kept(*rtree, visitor, j);
                assert forall|i: int| #[trigger]
                    leaf_matches(*rtree, i, time_range, value_matcher) implies time_distance(
                    leaf.time_min as int,
                    target_time as int,
                ) <= time_distance(rtree.leaves@[i].time_min as int, target_time as int) by {
                    lemma_time_visitor_kept(*rtree, visitor, i);
                    assert(leaf_kept(*rtree, visitor, i));
                }
                assert(leaf_matches(*rtree, j, time_range, value_matcher));
                assert(!forall|j: int| !#[trigger] leaf_matches(*rtree, j, time_range, value_matcher));
                }
            }
            Some(leaf.time_min)
        },
        None => {
            proof {
                if rtree.wf() {
                    assert forall|j: int| !#[trigger] leaf_matches(*rtree, j, time_range, value_matcher) by {
                        lemma_time_visitor_kept(*rtree, visitor, j);
                    }
                }
            }
            None
        },
    }
}

/// The leaf `j` is a write of a value accepted by the matcher.
pub open spec fn write_matches<M: DimMatcher<u64>>(t: RegRTree, j: int, m: M) -> bool {
    0 <= j < t.leaves@.len() && m.matches(t.leaves@[j].value as int)
}

impl RTree<RegSpec> {
    /// Previous write where the register value match
    pub fn prev_time_with<M: DimMatcher<u64>>(&self, time: Time, value_matcher: M) -> (r: Option<
        Time,
    >)
        requires
            self.shape_wf(),
            self.items_wf(),
            value_matcher.matcher_wf(),
        ensures
            self.wf() ==> (r is None <==> forall|j: int|
                #[trigger] write_matches(*self, j, value_matcher) ==> self.leaves@[j].time_min
                    >= time),
            self.wf() ==> (r matches Some(tm) ==> tm < time && exists|j: int|
                #[trigger] write_matches(*self, j, value_matcher) && self.leaves@[j].time_min == tm
                    && forall|i: int|
                    #[trigger] write_matches(*self, i, value_matcher) && self.leaves@[i].time_min
                        < time ==> self.leaves@[i].time_min <= tm),
    {
        let prev = match time.checked_sub(1) {
            Some(p) => p,
            None => {
                return None;
            },
        };
        let time_range = IRange::new(0, prev);
        let r = register_nearest_neighbor_over_time(self, time, time_range, value_matcher);
        proof {
            if self.wf() {
                match r {
                    None => {
                        assert forall|j: int| #[trigger]
                            write_matches(*self, j, value_matcher) implies self.leaves@[j].time_min
                            >= time by {
                            if self.leaves@[j].time_min < time {
                                assert(leaf_matches(*self, j, time_range, value_matcher));
                            }
                        }
                    },
                    Some(tm) => {
                        let j = choose|j: int|
                            #[trigger] leaf_matches(*self, j, time_range, value_matcher)
                                && self.leaves@[j].time_min == tm && forall|i: int|
                                #[trigger] leaf_matches(*self, i, time_range, value_matcher)
                                    ==> time_distance(tm as int, time as int) <= time_distance(
                                    self.leaves@[i].time_min as int,
                                    time as int,
                                );
                        assert(write_matches(*self, j, value_matcher));
                        assert forall|i: int| #[trigger]
                            write_matches(*self, i, value_matcher) && self.leaves@[i].time_min
                                < time implies self.leaves@[i].time_min <= tm by {
                            assert(leaf_matches(*self, i, time_range, value_matcher));
                        }
                    },
                }
            }
        }
        r
    }

    /// Next write where the register value match
    pub fn next_time_with<M: DimMatcher<u64>>(&self, time: Time, value_matcher: M) -> (r: Option<
        Time,
    >)
        requires
            self.shape_wf(),
            self.items_wf(),
            value_matcher.matcher_wf(),
        ensures
            self.wf() ==> (r is None <==> forall|j: int|
                #[trigger] write_matches(*self, j, value_matcher) ==> self.leaves@[j].time_min
                    <= time),
            self.wf() ==> (r matches Some(tm) ==> tm > time && exists|j: int|
                #[trigger] write_matches(*self, j, value_matcher) && self.leaves@[j].time_min == tm
                    && forall|i: int|
                    #[trigger] write_matches(*self, i, value_matcher) && self.leaves@[i].time_min
                        > time ==> tm <= self.leaves@[i].time_min),
    {
        let next = match time.checked_add(1) {
            Some(n) => n,
            None => {
                return None;
            },
        };
        let time_range = IRange::new(next, Time::MAX);
        let r = register_nearest_neighbor_over_time(self, time, time_range, value_matcher);
        proof {
            if self.wf() {
                match r {
                    None => {
                        assert forall|j: int| #[trigger]
                            write_matches(*self, j, value_matcher) implies self.leaves@[j].time_min
                            <= time by {
                            if self.leaves@[j].time_min > time {
                                assert(leaf_matches(*self, j, time_range, value_matcher));
                            }
                        }
                    },
                    Some(tm) => {
                        let j = choose|j: int|
                            #[trigger] leaf_matches(*self, j, time_range, value_matcher)
                                && self.leaves@[j].time_min == tm && forall|i: int|
                                #[trigger] leaf_matches(*self, i, time_range, value_matcher)
                                    ==> time_distance(tm as int, time as int) <= time_distance(
                                    self.leaves@[i].time_min as int,
                                    time as int,
                                );
                        assert(write_matches(*self, j, value_matcher));
                        assert forall|i: int| #[trigger]
                            write_matches(*self, i, value_matcher) && self.leaves@[i].time_min
                                > time implies tm <= self.leaves@[i].time_min by {
                            assert(leaf_matches(*self, i, time_range, value_matcher));
                        }
                    },
                }
            }
        }
        r
    }

    /// First write where the register value match
    pub fn first_time_with<M: DimMatcher<u64>>(&self, value_matcher: M) -> (r: Option<Time>)
        requires
            self.shape_wf(),
            self.items_wf(),
            value_matcher.matcher_wf(),
        ensures
            self.wf() ==> (r is None <==> forall|j: int|
                !#[trigger] write_matches(*self, j, value_matcher)),
            self.wf() ==> (r matches Some(tm) ==> exists|j: int|
                #[trigger] write_matches(*self, j, value_matcher) && self.leaves@[j].time_min == tm
                    && forall|i: int|
                    #[trigger] write_matches(*self, i, value_matcher) ==> tm
                        <= self.leaves@[i].time_min),
    {
        let time_range = self.bbox.time_range();
        let r = register_nearest_neighbor_over_time(self, time_range.min, time_range, value_matcher);
        proof {
            if self.wf() {
                assert forall|j: int| #[trigger] write_matches(*self, j, value_matcher) implies leaf_matches(
                    *self,
                    j,
                    time_range,
                    value_matcher,
                ) by {
                    lemma_ancestor_covers(self, j, 0);
                }
                match r {
                    None => {},
                    Some(tm) => {
                        let j = choose|j: int|
                            #[trigger] leaf_matches(*self, j, time_range, value_matcher)
                                && self.leaves@[j].time_min == tm && forall|i: int|
                                #[trigger] leaf_matches(*self, i, time_range, value_matcher)
                                    ==> time_distance(tm as int, time_range.min as int) <= time_distance(
                                    self.leaves@[i].time_min as int,
                                    time_range.min as int,
                                );
                        assert(write_matches(*self, j, value_matcher));
                        assert forall|i: int| #[trigger]
                            write_matches(*self, i, value_matcher) implies tm <= self.leaves@[i].time_min by {
                            assert(leaf_matches(*self, i, time_range, value_matcher));
                        }
                    },
                }
            }
        }
        r
    }

    /// Last write where the register value match
    pub fn last_time_with<M: DimMatcher<u64>>(&self, value_matcher: M) -> (r: Option<Time>)
        requires
            self.shape_wf(),
            self.items_wf(),
            value_matcher.matcher_wf(),
        ensures
            self.wf() ==> (r is None <==> forall|j: int|
                !#[trigger] write_matches(*self, j, value_matcher)),
            self.wf() ==> (r matches Some(tm) ==> exists|j: int|
                #[trigger] write_matches(*self, j, value_matcher) && self.leaves@[j].time_min == tm
                    && forall|i: int|
                    #[trigger] write_matches(*self, i, value_matcher) ==> self.leaves@[i].time_min
                        <= tm),
    {
        let time_range = self.bbox.time_range();
        let r = register_nearest_neighbor_over_time(self, time_range.max, time_range, value_matcher);
        proof {
            if self.wf() {
                assert forall|j: int| #[trigger] write_matches(*self, j, value_matcher) implies leaf_matches(
                    *self,
                    j,
                    time_range,
                    value_matcher,
                ) by {
                    lemma_ancestor_covers(self, j, 0);
                }
                match r {
                    None => {},
                    Some(tm) => {
                        let j = choose|j: int|
                            #[trigger] leaf_matches(*self, j, time_range, value_matcher)
                                && self.leaves@[j].time_min == tm && forall|i: int|
                                #[trigger] leaf_matches(*self, i, time_range, value_matcher)
                                    ==> time_distance(tm as int, time_range.max as int) <= time_distance(
                                    self.leaves@[i].time_min as int,
                                    time_range.max as int,
                                );
                        assert(write_matches(*self, j, value_matcher));
                        assert forall|i: int| #[trigger]
                            write_matches(*self, i, value_matcher) implies self.leaves@[i].time_min <= tm by {
                            assert(leaf_matches(*self, i, time_range, value_matcher));
                        }
                    },
                }
            }
        }
        r
    }
}


impl<'s> Db<'s> {
    /// Register tree of the register called `name`.
    pub fn register_rtree_by_name(&self, name: &str) -> (r: Option<&RegRTree>)
        ensures
            r is Some <==> exists|i: int|
                0 <= i < self.metadata.register_names@.len() && i < self.registers@.len()
                    && (#[trigger] self.metadata.register_names@[i])@ == name@ && forall|k: int|
                    0 <= k < i ==> self.metadata.register_names@[k]@ != name@,
            r matches Some(t) ==> exists|i: int|
                0 <= i < self.registers@.len() && *t == self.registers@[i]
                    && (#[trigger] self.metadata.register_names@[i])@ == name@ && forall|k: int|
                    0 <= k < i ==> self.metadata.register_names@[k]@ != name@,
    {
        match self.register_index_by_name(name) {
            Some(idx) => self.register_rtree_by_index(idx),
            None => None,
        }
    }

    /// Index of the first register called `name`.
    pub fn register_index_by_name(&self, name: &str) -> (r: Option<usize>)
        ensures
            r is None ==> forall|k: int|
                0 <= k < self.metadata.register_names@.len()
                    ==> (#[trigger] self.metadata.register_names@[k])@ != name@,
            r matches Some(i) ==> i < self.metadata.register_names@.len()
                && self.metadata.register_names@[i as int]@ == name@ && forall|k: int|
                0 <= k < i ==> (#[trigger] self.metadata.register_names@[k])@ != name@,
    {
        let wanted = name.to_owned();
        let names = &self.metadata.register_names;
        let mut i: usize = 0;
        while i < names.len()
            invariant
                i <= names@.len(),
                names@ == self.metadata.register_names@,
                wanted@ == name@,
                forall|k: int| 0 <= k < i ==> (#[trigger] names@[k])@ != name@,
            decreases names@.len() - i,
        {
            if names[i] == wanted {
                return Some(i);
            }
            i = i + 1;
        }
        None
    }

    /// Register tree at index `idx`, if there is one.
    pub fn register_rtree_by_index(&self, idx: usize) -> (r: Option<&RegRTree>)
        ensures
            r is Some <==> idx < self.registers@.len(),
            r matches Some(t) ==> *t == self.registers@[idx as int],
    {
        if idx < self.registers.len() {
            Some(&self.registers[idx])
        } else {
            None
        }
    }
}

/// Law: a register tree whose leaves are, in any order, those that successive writes to the
/// register leave when the trace ends at `end` (see `register_leaves`) answers the writes.
/// Every time from the first write to `end`, and no other, is held by a leaf, with the
/// value of the last write at or before it (`held_with`), so `value_at` gives that value
/// there and nothing elsewhere; and the leaves start exactly at the times written, each with the
/// value of the last write at its time, so the `*_time_with` queries answer with the times
/// written whose last value at that time matches (every time written starts a leaf:
/// `starts_a_leaf`).
#[verifier::spinoff_prover]
#[verifier::rlimit(100)]
pub proof fn law_register_tree_answers_its_writes(t: RegRTree, writes: Seq<(Time, u64)>, end: Time)
    requires
        writes.len() > 0,
        times_sorted(writes),
        writes.last().0 <= end,
        forall|x: RegLeaf| t.leaves@.contains(x) <==> #[trigger] register_leaves(writes, end).contains(x),
    ensures
        forall|j: int, time: int|
            #[trigger] leaf_holds_time(t, j, time) ==> writes[0].0 <= time <= end && t.leaves@[j].value == pass_value_at(
                writes,
                time,
            ),
        forall|time: int| writes[0].0 <= time <= end ==> #[trigger] held_with(t.leaves@, time, pass_value_at(writes, time)),
        forall|j: int|
            0 <= j < t.leaves@.len() ==> exists|i: int|
                0 <= i < writes.len() && writes[i].0 == (#[trigger] t.leaves@[j]).time_min && t.leaves@[j].value
                    == pass_value_at(writes, writes[i].0 as int),
        forall|i: int| 0 <= i < writes.len() ==> #[trigger] starts_a_leaf(t.leaves@, writes[i].0 as int),
{
    lemma_tree_holds_only_written_times(t.leaves@, writes, end);
    assert forall|j: int, time: int| #[trigger] leaf_holds_time(t, j, time) implies writes[0].0 <= time <= end
        && t.leaves@[j].value == pass_value_at(writes, time) by {
        assert(holds_time(t.leaves@, j, time));
    }
    lemma_tree_holds_every_written_time(t.leaves@, writes, end);
    lemma_tree_starts_at_writes(t.leaves@, writes, end);
    lemma_tree_has_every_write(t.leaves@, writes, end);
}

} // verus!
