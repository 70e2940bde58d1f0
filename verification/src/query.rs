//! Lazy traversal of a packed R-Tree, filtered by a query.
use vstd::prelude::*;
use crate::irange::lemma_shl_one_usize;
use crate::rtree::{
    RTree, Spec, lemma_ancestor_parent, lemma_div_is, lemma_group_pos, lemma_last_node_starts_in_leaves,
    lemma_level_covers_leaves, lemma_span_pos,
};

verus! {

pub trait Query<S: Spec>: Sized {
    /// The query wants to visit the node.
    spec fn accepts_node(&self, node: S::Node) -> bool;

    /// The query matches the leaf.
    spec fn accepts_leaf(&self, leaf: S::Leaf) -> bool;

    /// The query's own ranges are well formed.
    spec fn query_wf(&self) -> bool;

    /// Return true if this node is worth visiting
    fn filter_node(&mut self, node: &S::Node) -> (r: bool)
        requires
            old(self).query_wf(),
            S::node_wf(*node),
        ensures
            r == old(self).accepts_node(*node),
            *final(self) == *old(self),
    ;

    /// Return true if this leaf match the query
    fn filter_leaf(&mut self, leaf: &S::Leaf) -> (r: bool)
        requires
            old(self).query_wf(),
            S::leaf_wf(*leaf),
        ensures
            r == old(self).accepts_leaf(*leaf),
            *final(self) == *old(self),
    ;
}

pub open spec fn min_int(a: int, b: int) -> int {
    if a < b {
        a
    } else {
        b
    }
}

impl<S: Spec> RTree<S> {
    /// Every node above the leaf `j` is accepted by the query.
    pub open spec fn reachable<Q: Query<S>>(&self, q: Q, j: int) -> bool {
        forall|l: int|
            0 <= l < self.depth_spec() ==> #[trigger] q.accepts_node(
                self.node_at(l, self.ancestor(j, l)),
            )
    }

    /// The leaf `j` is reported by a query: it is reachable and accepted.
    pub open spec fn query_hit<Q: Query<S>>(&self, q: Q, j: int) -> bool {
        0 <= j < self.leaves@.len() && self.reachable(q, j) && q.accepts_leaf(self.leaves@[j])
    }

    /// The leaves reported by a query from the leaf `from` on, in order.
    pub open spec fn hits_from<Q: Query<S>>(&self, q: Q, from: int) -> Seq<S::Leaf>
        decreases self.leaves@.len() - from,
    {
        if from < 0 || from >= self.leaves@.len() {
            Seq::empty()
        } else if self.query_hit(q, from) {
            seq![self.leaves@[from]] + self.hits_from(q, from + 1)
        } else {
            self.hits_from(q, from + 1)
        }
    }

    /// Skipping leaves that are not hits leaves the hits unchanged.
    proof fn lemma_hits_skip<Q: Query<S>>(&self, q: Q, a: int, b: int)
        requires
            0 <= a <= b <= self.leaves@.len(),
            forall|j: int| a <= j < b ==> !#[trigger] self.query_hit(q, j),
        ensures
            self.hits_from(q, a) == self.hits_from(q, b),
        decreases b - a,
    {
        if a < b {
            assert(!self.query_hit(q, a));
            self.lemma_hits_skip(q, a + 1, b);
        }
    }

    /// Law: successive calls of `QueryIter::next` walk the hits in order. Where a call
    /// moves the cursor from `c0` to `c1` and returns `r` (as its contract says), the hits
    /// from `c0` on are `r` followed by the hits from `c1` on, and none when `r` is `None`:
    /// the calls, until the first `None`, return each hit once, in order.
    pub proof fn law_next_walks_the_hits<Q: Query<S>>(&self, q: Q, c0: int, c1: int, r: Option<S::Leaf>)
        requires
            0 <= c0 <= c1 <= self.leaves@.len(),
            r is None ==> c1 == self.leaves@.len() && forall|j: int| c0 <= j < c1 ==> !#[trigger] self.query_hit(q, j),
            r matches Some(leaf) ==> {
                &&& c0 <= c1 - 1
                &&& self.query_hit(q, c1 - 1)
                &&& leaf == self.leaves@[c1 - 1]
                &&& forall|i: int| c0 <= i < c1 - 1 ==> !#[trigger] self.query_hit(q, i)
            },
        ensures
            self.hits_from(q, c0) == match r {
                None => Seq::<S::Leaf>::empty(),
                Some(leaf) => seq![leaf] + self.hits_from(q, c1),
            },
    {
        match r {
            None => {
                self.lemma_hits_skip(q, c0, c1);
            },
            Some(leaf) => {
                self.lemma_hits_skip(q, c0, c1 - 1);
            },
        }
    }

    /// Query using the specified strategy
    pub fn query<'rtree, Q: Query<S>>(&'rtree self, query: Q) -> (r: QueryIter<'rtree, S, Q>)
        requires
            self.shape_wf(),
            self.items_wf(),
            query.query_wf(),
        ensures
            r.inv(),
            r.tree() == *self,
            r.query_spec() == query,
            r.cursor() == 0,
    {
        QueryIter::new(self, query)
    }
}

proof fn lemma_weight_pos<S: Spec>(t: RTree<S>, l: int)
    ensures
        weight(t, l) >= 1,
    decreases t.depth_spec() - l,
{
    if l < t.depth_spec() {
        lemma_weight_pos(t, l + 1);
        lemma_group_pos(&t);
        assert((t.group() + 2) * weight(t, l + 1) >= 1) by (nonlinear_arith)
            requires
                t.group() >= 1,
                weight(t, l + 1) >= 1,
        ;
    }
}

proof fn lemma_potential_push<S: Spec>(t: RTree<S>, s: Seq<(usize, usize)>, x: (usize, usize))
    ensures
        stack_potential(t, s.push(x)) == stack_potential(t, s) + (x.1 - x.0)
            * weight(t, s.len() as int) + 1,
{
    assert(s.push(x).drop_last() =~= s);
}

proof fn lemma_potential_update_last<S: Spec>(t: RTree<S>, s: Seq<(usize, usize)>, x: (usize, usize))
    requires
        s.len() > 0,
    ensures
        stack_potential(t, s.update(s.len() - 1, x)) == stack_potential(t, s.drop_last())
            + (x.1 - x.0) * weight(t, s.len() - 1) + 1,
{
    assert(s.update(s.len() - 1, x).drop_last() =~= s.drop_last());
}

/// Weight of a pending item of level `l`: more than all it may expand into.
pub open spec fn weight<S: Spec>(t: RTree<S>, l: int) -> int
    decreases t.depth_spec() - l,
{
    if l >= t.depth_spec() {
        1
    } else {
        (t.group() + 2) * weight(t, l + 1)
    }
}

/// Sum of the weights of the pending items of a stack of level groups.
pub open spec fn stack_potential<S: Spec>(t: RTree<S>, s: Seq<(usize, usize)>) -> int
    decreases s.len(),
{
    if s.len() == 0 {
        0
    } else {
        stack_potential(t, s.drop_last()) + (s.last().1 - s.last().0) * weight(t, s.len() - 1) + 1
    }
}

proof fn lemma_stack_potential_nonneg<S: Spec>(t: RTree<S>, s: Seq<(usize, usize)>)
    requires
        forall|i: int| 0 <= i < s.len() ==> #[trigger] s[i].0 <= s[i].1,
    ensures
        stack_potential(t, s) >= 0,
    decreases s.len(),
{
    if s.len() > 0 {
        lemma_stack_potential_nonneg(t, s.drop_last());
        lemma_weight_pos(t, s.len() - 1);
        assert(s.last().0 <= s.last().1);
        assert((s.last().1 - s.last().0) * weight(t, s.len() - 1) >= 0) by (nonlinear_arith)
            requires
                s.last().1 - s.last().0 >= 0,
                weight(t, s.len() - 1) >= 1,
        ;
    }
}

/// A lazy traversal using a specific strategy
pub struct QueryIter<'rtree, S: Spec, Q> {
    rtree: &'rtree RTree<S>,
    query: Q,
    /// Per open level, the next node to visit and the end of the level's group.
    level_iters: Vec<(usize, usize)>,
    /// Next leaf to visit and end of the group of leaves.
    leaf_iter: Option<(usize, usize)>,
}

impl<'rtree, S: Spec, Q: Query<S>> QueryIter<'rtree, S, Q> {
    pub closed spec fn tree(&self) -> RTree<S> {
        *self.rtree
    }

    pub closed spec fn query_spec(&self) -> Q {
        self.query
    }

    spec fn nxt(&self, i: int) -> int {
        self.level_iters@[i].0 as int
    }

    spec fn end(&self, i: int) -> int {
        self.level_iters@[i].1 as int
    }

    /// The level `i` has an open node, whose children are being visited.
    spec fn is_open(&self, i: int) -> bool {
        i + 1 < self.level_iters@.len() || (i + 1 == self.level_iters@.len()
            && self.leaf_iter is Some)
    }

    /// Index of the first leaf not yet visited.
    #[verifier::opaque]
    pub closed spec fn cursor(&self) -> int {
        let k = self.level_iters@.len() as int;
        match self.leaf_iter {
            Some((n, _)) => n as int,
            None => if k == 0 {
                self.rtree.leaves@.len() as int
            } else {
                min_int(self.nxt(k - 1) * self.rtree.span(k - 1), self.rtree.leaves@.len() as int)
            },
        }
    }

    /// Constraints on the entry of level `i` of the stack.
    spec fn entry_ok(&self, i: int) -> bool {
        let t = *self.rtree;
        let g = t.group();
        &&& self.nxt(i) <= self.end(i) <= t.level_len(i)
        &&& (i == 0 ==> self.end(i) == t.level_len(0))
        &&& (i > 0 ==> self.end(i) == min_int(self.nxt(i - 1) * g, t.level_len(i)) && (self.nxt(
            i - 1,
        ) - 1) * g <= self.nxt(i))
        &&& (self.is_open(i) ==> {
            &&& self.nxt(i) >= 1
            &&& (i > 0 ==> (self.nxt(i - 1) - 1) * g < self.nxt(i))
            &&& self.query.accepts_node(t.node_at(i, self.nxt(i) - 1))
        })
    }

    spec fn leaf_ok(&self) -> bool {
        let t = *self.rtree;
        let k = self.level_iters@.len() as int;
        let g = t.group();
        match self.leaf_iter {
            Some((n, e)) => {
                &&& n <= e
                &&& (k == 0 ==> e == t.leaves@.len())
                &&& (k > 0 ==> e == min_int(self.nxt(k - 1) * g, t.leaves@.len() as int) && (
                self.nxt(k - 1) - 1) * g <= n)
            },
            None => true,
        }
    }

    #[verifier::opaque]
    pub closed spec fn inv(&self) -> bool {
        let t = *self.rtree;
        let k = self.level_iters@.len() as int;
        &&& t.shape_wf()
        &&& t.items_wf()
        &&& self.query.query_wf()
        &&& k <= t.depth_spec()
        &&& (self.leaf_iter is Some ==> k == t.depth_spec())
        &&& forall|i: int| 0 <= i < k ==> #[trigger] self.entry_ok(i)
        &&& self.leaf_ok()
    }

    #[verifier::opaque]
    spec fn potential(&self) -> int {
        stack_potential(*self.rtree, self.level_iters@) + match self.leaf_iter {
            Some((n, e)) => e - n + 1,
            None => 0,
        }
    }





    /// The nodes above the leaf being visited are the open nodes of the levels.
    proof fn lemma_leaf_path(&self, n: int, l: int)
        requires
            self.inv(),
            self.leaf_iter matches Some((cur, e)) && cur == n && n < e,
            0 <= l < self.rtree.depth_spec(),
        ensures
            self.rtree.ancestor(n, l) == self.nxt(l) - 1,
        decreases self.rtree.depth_spec() - l,
    {
        reveal(QueryIter::inv);
        reveal(QueryIter::cursor);
        reveal(QueryIter::potential);
        let t = self.rtree;
        let d = t.depth_spec();
        let g = t.group();
        lemma_group_pos(t);
        assert(self.is_open(l));
        assert(self.entry_ok(l));
        if l == d - 1 {
            assert(t.span(l) == g * t.span(l + 1));
            assert(t.span(l) == g);
            let p = self.nxt(l) - 1;
            assert((p + 1) * g == self.nxt(l) * g);
            lemma_div_is(n, g, p);
        } else {
            self.lemma_leaf_path(n, l + 1);
            lemma_ancestor_parent(t, n, l);
            let c = self.nxt(l + 1) - 1;
            assert(self.is_open(l + 1));
            assert(self.entry_ok(l + 1));
            assert(self.nxt(l + 1) <= self.end(l + 1));
            assert((self.nxt(l) - 1 + 1) * g == self.nxt(l) * g);
            lemma_div_is(c, g, self.nxt(l) - 1);
        }
    }

    /// A rejected node hides every leaf below it.
    proof fn lemma_skip(&self, l: int, m: int, j: int)
        requires
            0 <= l < self.rtree.depth_spec(),
            !self.query.accepts_node(self.rtree.node_at(l, m)),
            0 <= m,
            m * self.rtree.span(l) <= j < (m + 1) * self.rtree.span(l),
        ensures
            !self.rtree.reachable(self.query, j),
    {
        reveal(QueryIter::inv);
        reveal(QueryIter::cursor);
        reveal(QueryIter::potential);
        lemma_span_pos(self.rtree, l);
        lemma_div_is(j, self.rtree.span(l), m);
        assert(self.rtree.ancestor(j, l) == m);
        assert(!self.query.accepts_node(self.rtree.node_at(l, self.rtree.ancestor(j, l))));
    }


    /// The fields other than the traversal state agree.
    spec fn same_base(&self, other: &Self) -> bool {
        self.rtree == other.rtree && self.query == other.query
    }

    /// Visiting the current leaf: it is reachable, and the cursor moves past it.
    proof fn lemma_step_leaf(s0: &Self, s1: &Self, n: usize, e: usize)
        requires
            s0.inv(),
            s1.same_base(s0),
            s0.leaf_iter == Some((n, e)),
            n < e,
            s1.level_iters@ == s0.level_iters@,
            s1.leaf_iter == Some(((n + 1) as usize, e)),
        ensures
            s1.inv(),
            s1.cursor() == s0.cursor() + 1,
            s0.cursor() == n,
            s1.potential() < s0.potential(),
            s0.rtree.reachable(s0.query, n as int),
            n < s0.rtree.leaves@.len(),
    {
        reveal(QueryIter::inv);
        reveal(QueryIter::cursor);
        reveal(QueryIter::potential);
        let t = s0.rtree;
        let k = s0.level_iters@.len() as int;
        assert forall|i: int| 0 <= i < k implies #[trigger] s1.entry_ok(i) by {
            assert(s0.entry_ok(i));
            assert(s1.is_open(i) == s0.is_open(i));
        }
        assert forall|l: int| 0 <= l < t.depth_spec() implies #[trigger] s0.query.accepts_node(
            t.node_at(l, t.ancestor(n as int, l)),
        ) by {
            s0.lemma_leaf_path(n as int, l);
            assert(s0.is_open(l));
            assert(s0.entry_ok(l));
        }
        lemma_group_pos(t);
        if k > 0 {
            assert(e <= s0.nxt(k - 1) * t.group() || e <= t.leaves@.len());
        }
    }

    /// Closing an exhausted group of leaves keeps the cursor.
    proof fn lemma_step_leaf_end(s0: &Self, s1: &Self, n: usize, e: usize)
        requires
            s0.inv(),
            s1.same_base(s0),
            s0.leaf_iter == Some((n, e)),
            n >= e,
            s1.level_iters@ == s0.level_iters@,
            s1.leaf_iter is None,
        ensures
            s1.inv(),
            s1.cursor() == s0.cursor(),
            s1.potential() < s0.potential(),
    {
        reveal(QueryIter::inv);
        reveal(QueryIter::cursor);
        reveal(QueryIter::potential);
        let t = s0.rtree;
        let k = s0.level_iters@.len() as int;
        assert forall|i: int| 0 <= i < k implies #[trigger] s1.entry_ok(i) by {
            assert(s0.entry_ok(i));
            assert(s1.is_open(i) ==> s0.is_open(i));
        }
        if k > 0 {
            assert(t.span(k - 1) == t.group() * t.span(k));
            assert(t.span(k) == 1);
        }
    }

    /// The state `s1` advances the top level of `s0` past the node `n`.
    spec fn advanced_top(s0: &Self, s1: &Self, n: usize, e: usize) -> bool {
        &&& s0.inv()
        &&& s1.same_base(s0)
        &&& s0.leaf_iter is None
        &&& s0.level_iters@.len() > 0
        &&& s0.level_iters@.last() == (n, e)
        &&& n < e
        &&& s1.level_iters@ == s0.level_iters@.update(
            s0.level_iters@.len() - 1,
            ((n + 1) as usize, e),
        )
    }

    /// Skipping a rejected node keeps the invariant.
    proof fn lemma_skip_inv(s0: &Self, s1: &Self, n: usize, e: usize)
        requires
            Self::advanced_top(s0, s1, n, e),
            s1.leaf_iter is None,
        ensures
            s1.inv(),
    {
        reveal(QueryIter::inv);
        reveal(QueryIter::cursor);
        reveal(QueryIter::potential);
        let k = s0.level_iters@.len() as int;
        assert forall|i: int| 0 <= i < k implies #[trigger] s1.entry_ok(i) by {
            assert(s0.entry_ok(i));
            if i < k - 1 {
                assert(s1.is_open(i) == s0.is_open(i));
                assert(s1.nxt(i) == s0.nxt(i));
                assert(s1.end(i) == s0.end(i));
            } else {
                assert(!s1.is_open(i));
            }
            if i > 0 {
                assert(s1.nxt(i - 1) == s0.nxt(i - 1));
            }
        }
    }

    /// Skipping a rejected node passes over leaves that are no hits.
    proof fn lemma_skip_cursor(s0: &Self, s1: &Self, n: usize, e: usize)
        requires
            Self::advanced_top(s0, s1, n, e),
            s1.leaf_iter is None,
            !s0.query.accepts_node(s0.rtree.node_at(s0.level_iters@.len() - 1, n as int)),
        ensures
            s0.cursor() <= s1.cursor(),
            forall|j: int|
                s0.cursor() <= j < s1.cursor() ==> !#[trigger] s0.rtree.query_hit(s0.query, j),
    {
        reveal(QueryIter::inv);
        reveal(QueryIter::cursor);
        reveal(QueryIter::potential);
        let t = s0.rtree;
        let k = s0.level_iters@.len() as int;
        let l = k - 1;
        assert(s1.nxt(l) == n + 1);
        lemma_span_pos(t, l);
        assert(n * t.span(l) + t.span(l) == (n + 1) * t.span(l)) by (nonlinear_arith);
        assert forall|j: int| s0.cursor() <= j < s1.cursor() implies !#[trigger] t.query_hit(
            s0.query,
            j,
        ) by {
            s0.lemma_skip(l, n as int, j);
        }
    }

    /// Advancing the top level lowers the potential by the weight of its level.
    proof fn lemma_advance_potential(s0: &Self, s1: &Self, n: usize, e: usize)
        requires
            Self::advanced_top(s0, s1, n, e),
        ensures
            stack_potential(*s1.rtree, s1.level_iters@) == stack_potential(
                *s0.rtree,
                s0.level_iters@,
            ) - weight(*s0.rtree, s0.level_iters@.len() - 1),
    {
        reveal(QueryIter::inv);
        reveal(QueryIter::cursor);
        reveal(QueryIter::potential);
        let t = *s0.rtree;
        let st = s0.level_iters@;
        let k = st.len() as int;
        lemma_potential_update_last(t, st, ((n + 1) as usize, e));
        lemma_potential_update_last(t, st, (n, e));
        assert(st.update(k - 1, (n, e)) =~= st);
        let w = weight(t, k - 1);
        assert((e - n) * w == (e - (n + 1)) * w + w) by (nonlinear_arith);
    }

    /// The cursor never passes the end of the leaves.
    proof fn lemma_cursor_bound(&self)
        requires
            self.inv(),
        ensures
            0 <= self.cursor() <= self.rtree.leaves@.len(),
    {
        reveal(QueryIter::inv);
        reveal(QueryIter::cursor);
        reveal(QueryIter::potential);
        let k = self.level_iters@.len() as int;
        if k > 0 {
            assert(self.entry_ok(k - 1));
            lemma_span_pos(self.rtree, k - 1);
        }
    }

    /// Opening an accepted node of a level above another level.
    proof fn lemma_step_push(
        s0: &Self,
        sm: &Self,
        s1: &Self,
        n: usize,
        e: usize,
        start: usize,
        end: usize,
    )
        requires
            Self::advanced_top(s0, sm, n, e),
            s0.inv(),
            s1.same_base(s0),
            s0.leaf_iter is None,
            s1.leaf_iter is None,
            s0.level_iters@.len() > 0,
            s0.level_iters@.len() < s0.rtree.depth_spec(),
            s0.level_iters@.last() == (n, e),
            n < e,
            s0.query.accepts_node(s0.rtree.node_at(s0.level_iters@.len() - 1, n as int)),
            start == n * s0.rtree.group(),
            end == min_int(start + s0.rtree.group(), s0.rtree.level_len(
                s0.level_iters@.len() as int,
            )),
            s1.level_iters@ == sm.level_iters@.push((start, end)),
        ensures
            s1.inv(),
            s1.cursor() == s0.cursor(),
            s1.potential() < s0.potential(),
    {
        reveal(QueryIter::inv);
        reveal(QueryIter::cursor);
        reveal(QueryIter::potential);
        let t = *s0.rtree;
        let g = t.group();
        let st = s0.level_iters@;
        let k = st.len() as int;
        let mid = st.update(k - 1, ((n + 1) as usize, e));
        lemma_group_pos(&t);
        assert(s0.entry_ok(k - 1));
        lemma_last_node_starts_in_leaves(&t, k - 1);
        assert((t.level_len(k - 1) - 1) * g < t.level_len(k));
        assert(n * g <= (t.level_len(k - 1) - 1) * g) by (nonlinear_arith)
            requires
                n <= t.level_len(k - 1) - 1,
                g >= 1,
        ;
        assert((n + 1) * g == n * g + g) by (nonlinear_arith);
        assert forall|i: int| 0 <= i < k + 1 implies #[trigger] s1.entry_ok(i) by {
            if i < k - 1 {
                assert(s0.entry_ok(i));
                assert(s1.is_open(i) == s0.is_open(i));
                assert(s1.nxt(i) == s0.nxt(i));
                assert(s1.end(i) == s0.end(i));
                if i > 0 {
                    assert(s1.nxt(i - 1) == s0.nxt(i - 1));
                }
            } else if i == k - 1 {
                assert(s0.entry_ok(i));
                assert(s1.is_open(i));
                assert(s1.nxt(i) == n + 1);
                if i > 0 {
                    assert(s1.nxt(i - 1) == s0.nxt(i - 1));
                }
            } else {
                assert(s1.nxt(i) == start);
                assert(s1.end(i) == end);
                assert(s1.nxt(i - 1) == n + 1);
                assert(!s1.is_open(i));
            }
        }
        // cursor
        assert(t.span(k - 1) == g * t.span(k));
        assert(n * (g * t.span(k)) == (n * g) * t.span(k)) by (nonlinear_arith);
        assert(s1.nxt(k) == start);
        // potential
        Self::lemma_advance_potential(s0, sm, n, e);
        lemma_potential_push(t, mid, (start, end));
        lemma_weight_pos(t, k);
        assert(weight(t, k - 1) == (g + 2) * weight(t, k));
        assert((end - start) * weight(t, k) <= g * weight(t, k)) by (nonlinear_arith)
            requires
                end - start <= g,
                weight(t, k) >= 1,
        ;
        assert((g + 2) * weight(t, k) == g * weight(t, k) + 2 * weight(t, k)) by (nonlinear_arith);
    }

    /// Opening an accepted node of the last level: its group of leaves.
    #[verifier::spinoff_prover]
    #[verifier::rlimit(40)]
    proof fn lemma_step_leaves(
        s0: &Self,
        sm: &Self,
        s1: &Self,
        n: usize,
        e: usize,
        start: usize,
        end: usize,
    )
        requires
            Self::advanced_top(s0, sm, n, e),
            s0.inv(),
            s1.same_base(s0),
            s0.leaf_iter is None,
            s0.level_iters@.len() > 0,
            s0.level_iters@.len() == s0.rtree.depth_spec(),
            s0.level_iters@.last() == (n, e),
            n < e,
            s0.query.accepts_node(s0.rtree.node_at(s0.level_iters@.len() - 1, n as int)),
            start == n * s0.rtree.group(),
            end == min_int(start + s0.rtree.group(), s0.rtree.leaves@.len() as int),
            s1.level_iters@ == s0.level_iters@.update(
                s0.level_iters@.len() - 1,
                ((n + 1) as usize, e),
            ),
            s1.leaf_iter == Some((start, end)),
        ensures
            s1.inv(),
            s1.cursor() == s0.cursor(),
            s1.potential() < s0.potential(),
    {
        reveal(QueryIter::inv);
        reveal(QueryIter::cursor);
        reveal(QueryIter::potential);
        let t = *s0.rtree;
        let g = t.group();
        let st = s0.level_iters@;
        let k = st.len() as int;
        lemma_group_pos(&t);
        assert(s0.entry_ok(k - 1));
        lemma_last_node_starts_in_leaves(&t, k - 1);
        assert(t.span(k - 1) == g * t.span(k));
        assert(t.span(k) == 1);
        assert(n * g <= (t.level_len(k - 1) - 1) * g) by (nonlinear_arith)
            requires
                n <= t.level_len(k - 1) - 1,
                g >= 1,
        ;
        assert((n + 1) * g == n * g + g) by (nonlinear_arith);
        assert forall|i: int| 0 <= i < k implies #[trigger] s1.entry_ok(i) by {
            assert(s0.entry_ok(i));
            if i < k - 1 {
                assert(s1.is_open(i) == s0.is_open(i));
                assert(s1.nxt(i) == s0.nxt(i));
                assert(s1.end(i) == s0.end(i));
            } else {
                assert(s1.is_open(i));
                assert(s1.nxt(i) == n + 1);
            }
            if i > 0 {
                assert(s1.nxt(i - 1) == s0.nxt(i - 1));
            }
        }
        assert(s1.nxt(k - 1) == n + 1);
        assert(t.span(k) == 1);
        assert(t.span(k - 1) == g * t.span(k));
        assert(g * t.span(k) == g) by (nonlinear_arith)
            requires
                t.span(k) == 1,
        ;
        assert((t.level_len(k - 1) - 1) * t.span(k - 1) < t.leaves@.len());
        assert(s0.cursor() == min_int(n * t.span(k - 1), t.leaves@.len() as int));
        assert(s0.cursor() == n * g);
        Self::lemma_advance_potential(s0, sm, n, e);
        assert(s1.level_iters@ == sm.level_iters@);
        assert(weight(t, k - 1) == (g + 2) * weight(t, k));
        assert(weight(t, k) == 1);
    }

    /// Closing an exhausted level keeps the invariant.
    #[verifier::spinoff_prover]
    #[verifier::rlimit(40)]
    proof fn lemma_pop_inv(s0: &Self, s1: &Self, n: usize, e: usize)
        requires
            s0.inv(),
            s1.same_base(s0),
            s0.leaf_iter is None,
            s1.leaf_iter is None,
            s0.level_iters@.len() > 0,
            s0.level_iters@.last() == (n, e),
            n >= e,
            s1.level_iters@ == s0.level_iters@.drop_last(),
        ensures
            s1.inv(),
            stack_potential(*s1.rtree, s1.level_iters@) < stack_potential(
                *s0.rtree,
                s0.level_iters@,
            ),
    {
        reveal(QueryIter::inv);
        let k = s0.level_iters@.len() as int;
        assert(s0.entry_ok(k - 1));
        let st = s0.level_iters@;
        assert(st.last().1 - st.last().0 == 0);
        assert(stack_potential(*s0.rtree, st) == stack_potential(*s0.rtree, st.drop_last()) + (
        st.last().1 - st.last().0) * weight(*s0.rtree, st.len() - 1) + 1);
        assert(0 * weight(*s0.rtree, st.len() - 1) == 0);
        assert forall|i: int| 0 <= i < k - 1 implies #[trigger] s1.entry_ok(i) by {
            assert(s0.entry_ok(i));
            assert(s1.nxt(i) == s0.nxt(i));
            assert(s1.end(i) == s0.end(i));
            assert(s1.is_open(i) ==> s0.is_open(i));
            if i > 0 {
                assert(s1.nxt(i - 1) == s0.nxt(i - 1));
            }
        }
    }

    /// Closing an exhausted level keeps the cursor.
    #[verifier::rlimit(40)]
    #[verifier::spinoff_prover]
    proof fn lemma_pop_cursor(s0: &Self, s1: &Self, n: usize, e: usize)
        requires
            s0.inv(),
            s1.same_base(s0),
            s0.leaf_iter is None,
            s1.leaf_iter is None,
            s0.level_iters@.len() > 0,
            s0.level_iters@.last() == (n, e),
            n >= e,
            s1.level_iters@ == s0.level_iters@.drop_last(),
        ensures
            s1.cursor() == s0.cursor(),
    {
        reveal(QueryIter::inv);
        reveal(QueryIter::cursor);
        let t = *s0.rtree;
        let g = t.group();
        let k = s0.level_iters@.len() as int;
        lemma_group_pos(&t);
        assert(s0.entry_ok(k - 1));
        lemma_level_covers_leaves(&t, k - 1);
        lemma_span_pos(&t, k - 1);
        if k > 1 {
            let p = s0.nxt(k - 2);
            assert(s1.nxt(k - 2) == p);
            assert(t.span(k - 2) == g * t.span(k - 1));
            assert(p * (g * t.span(k - 1)) == (p * g) * t.span(k - 1)) by (nonlinear_arith);
            if p * g > t.level_len(k - 1) {
                assert(p * g * t.span(k - 1) >= t.level_len(k - 1) * t.span(k - 1)) by (
                nonlinear_arith)
                    requires
                        p * g > t.level_len(k - 1),
                        t.span(k - 1) >= 1,
                ;
            }
        }
    }

    /// At the end of the traversal the cursor is past all leaves.
    proof fn lemma_cursor_end(&self)
        requires
            self.inv(),
            self.leaf_iter is None,
            self.level_iters@.len() == 0,
        ensures
            self.cursor() == self.rtree.leaves@.len(),
    {
        reveal(QueryIter::cursor);
    }

    /// The potential stays non-negative.
    proof fn lemma_potential_nonneg(&self)
        requires
            self.inv(),
        ensures
            self.potential() >= 0,
    {
        reveal(QueryIter::inv);
        reveal(QueryIter::potential);
        let st = self.level_iters@;
        assert forall|i: int| 0 <= i < st.len() implies #[trigger] st[i].0 <= st[i].1 by {
            assert(self.entry_ok(i));
        }
        lemma_stack_potential_nonneg(*self.rtree, st);
    }

    /// Bounds on the group of children of the node at the top of the stack.
    proof fn lemma_child_start(s0: &Self, n: usize, e: usize)
        requires
            s0.inv(),
            s0.leaf_iter is None,
            s0.level_iters@.len() > 0,
            s0.level_iters@.last() == (n, e),
        ensures
            s0.level_iters@.len() <= s0.rtree.depth_spec(),
            s0.rtree.node_size_order < usize::BITS,
            n < e ==> {
                &&& n < s0.rtree.node_levels@[s0.level_iters@.len() - 1]@.len()
                &&& n * s0.rtree.group() < s0.rtree.level_len(s0.level_iters@.len() as int)
                &&& s0.level_iters@.len() < s0.rtree.depth_spec() ==> s0.rtree.level_len(
                    s0.level_iters@.len() as int,
                ) == s0.rtree.node_levels@[s0.level_iters@.len() as int]@.len()
                &&& s0.level_iters@.len() == s0.rtree.depth_spec() ==> s0.rtree.level_len(
                    s0.level_iters@.len() as int,
                ) == s0.rtree.leaves@.len()
            },
    {
        reveal(QueryIter::inv);
        let t = *s0.rtree;
        let k = s0.level_iters@.len() as int;
        assert(s0.entry_ok(k - 1));
        lemma_group_pos(&t);
        if n < e {
            assert(t.level_len(k - 1) >= 1);
            assert((t.level_len(k - 1) - 1) * t.group() < t.level_len(k));
            assert(n * t.group() <= (t.level_len(k - 1) - 1) * t.group()) by (nonlinear_arith)
                requires
                    n <= t.level_len(k - 1) - 1,
                    t.group() >= 1,
            ;
        }
    }

    /// Next leaf matching the query
    #[verifier::rlimit(60)]
    pub fn next(&mut self) -> (r: Option<&'rtree S::Leaf>)
        requires
            old(self).inv(),
        ensures
            final(self).inv(),
            final(self).tree() == old(self).tree(),
            final(self).query_spec() == old(self).query_spec(),
            old(self).cursor() <= final(self).cursor() <= old(self).tree().leaves@.len(),
            r is None ==> final(self).cursor() == old(self).tree().leaves@.len() && forall|j: int|
                old(self).cursor() <= j < final(self).cursor() ==> !#[trigger] old(
                    self,
                ).tree().query_hit(old(self).query_spec(), j),
            r matches Some(leaf) ==> {
                let j = final(self).cursor() - 1;
                &&& old(self).cursor() <= j
                &&& old(self).tree().query_hit(old(self).query_spec(), j)
                &&& *leaf == old(self).tree().leaves@[j]
                &&& forall|i: int|
                    old(self).cursor() <= i < j ==> !#[trigger] old(self).tree().query_hit(
                        old(self).query_spec(),
                        i,
                    )
            },
    {
        let ghost c0 = old(self).cursor();
        let ghost t = *old(self).rtree;
        let ghost q = old(self).query;
        let ghost len = t.leaves@.len() as int;
        let ghost r0 = old(self).rtree;
        proof {
            old(self).lemma_cursor_bound();
        }
        loop
            invariant
                self.inv(),
                self.rtree == r0,
                *self.rtree == t,
                self.query == q,
                self.tree() == old(self).tree(),
                self.query_spec() == old(self).query_spec(),
                c0 == old(self).cursor(),
                len == old(self).tree().leaves@.len(),
                t == old(self).tree(),
                q == old(self).query_spec(),
                c0 <= self.cursor() <= len,
                forall|j: int| c0 <= j < self.cursor() ==> !#[trigger] t.query_hit(q, j),
            decreases self.potential(),
        {
            let rtree = self.rtree;
            let ghost s0 = *self;
            proof {
                self.lemma_potential_nonneg();
            }
            if let Some((n, e)) = self.leaf_iter {
                if n < e {
                    self.leaf_iter = Some((n + 1, e));
                    proof {
                        Self::lemma_step_leaf(&s0, self, n, e);
                        self.lemma_cursor_bound();
                    }
                    let leaf = &rtree.leaves[n];
                    proof {
                        reveal(QueryIter::inv);
                        assert(S::leaf_wf(t.leaves@[n as int]));
                    }
                    if self.query.filter_leaf(leaf) {
                        return Some(leaf);
                    }
                    proof {
                        Self::lemma_step_leaf(&s0, self, n, e);
                        self.lemma_potential_nonneg();
                    }
                    continue ;
                } else {
                    self.leaf_iter = None;
                    proof {
                        Self::lemma_step_leaf_end(&s0, self, n, e);
                        self.lemma_cursor_bound();
                        self.lemma_potential_nonneg();
                    }
                    continue ;
                }
            }
            let k = self.level_iters.len();
            if k == 0 {
                proof {
                    self.lemma_cursor_end();
                }
                return None;
            }
            let (n, e) = self.level_iters[k - 1];
            proof {
                Self::lemma_child_start(&s0, n, e);
            }
            if n < e {
                self.level_iters.set(k - 1, (n + 1, e));
                let ghost sm = *self;
                proof {
                    Self::lemma_advance_potential(&s0, self, n, e);
                }
                let node = &rtree.node_levels[k - 1][n];
                proof {
                    reveal(QueryIter::inv);
                    assert(S::node_wf(t.node_at((k - 1) as int, n as int)));
                }
                if !self.query.filter_node(node) {
                    proof {
                        Self::lemma_skip_inv(&s0, self, n, e);
                        Self::lemma_skip_cursor(&s0, self, n, e);
                        self.lemma_cursor_bound();
                        reveal(QueryIter::potential);
                        self.lemma_potential_nonneg();
                        lemma_weight_pos(t, (k - 1) as int);
                    }
                    continue ;
                }
                proof {
                    lemma_shl_one_usize(rtree.node_size_order as usize);
                }
                let g: usize = 1usize << (rtree.node_size_order as usize);
                proof {
                    assert(g == t.group());
                    if k < rtree.node_levels.len() {
                        assert(rtree.node_levels@[k as int]@.len() == rtree.node_levels@[k as int].len());
                    } else {
                        assert(rtree.leaves@.len() == rtree.leaves.len());
                    }
                }
                let start = n * g;
                if k < rtree.node_levels.len() {
                    let level_len = rtree.node_levels[k].len();
                    let end = if level_len - start < g {
                        level_len
                    } else {
                        start + g
                    };
                    self.level_iters.push((start, end));
                    proof {
                        Self::lemma_step_push(&s0, &sm, self, n, e, start, end);
                        self.lemma_cursor_bound();
                        self.lemma_potential_nonneg();
                    }
                } else {
                    let leaves_len = rtree.leaves.len();
                    let end = if leaves_len - start < g {
                        leaves_len
                    } else {
                        start + g
                    };
                    self.leaf_iter = Some((start, end));
                    proof {
                        Self::lemma_step_leaves(&s0, &sm, self, n, e, start, end);
                        self.lemma_cursor_bound();
                        self.lemma_potential_nonneg();
                    }
                }
            } else {
                self.level_iters.pop();
                proof {
                    Self::lemma_pop_inv(&s0, self, n, e);
                    Self::lemma_pop_cursor(&s0, self, n, e);
                    reveal(QueryIter::potential);
                    self.lemma_cursor_bound();
                    self.lemma_potential_nonneg();
                }
            }
        }
    }

    /// Build a new query
    fn new(rtree: &'rtree RTree<S>, query: Q) -> (r: Self)
        requires
            rtree.shape_wf(),
            rtree.items_wf(),
            query.query_wf(),
        ensures
            r.inv(),
            r.tree() == *rtree,
            r.query_spec() == query,
            r.cursor() == 0,
    {
        let mut level_iters: Vec<(usize, usize)> = Vec::new();
        let mut leaf_iter = None;
        match rtree.root_nodes() {
            Some(roots) => {
                level_iters.push((0, roots.len()));
            },
            None => {
                leaf_iter = Some((0, rtree.leaves.len()));
            },
        }
        let r = Self { level_iters, leaf_iter, query, rtree };
        proof {
            reveal(QueryIter::inv);
            reveal(QueryIter::cursor);
            lemma_span_pos(rtree, 0);
            assert(r.level_iters@.len() > 0 ==> r.nxt(0) == 0);
        }
        r
    }
}

} // verus!
