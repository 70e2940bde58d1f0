//! First pass: zones of memory, sizes of the trees and their levels.
use vstd::prelude::*;
use crate::flat::{Addr, Level, MemNode, RegNode};
use crate::irange::{IRange, lemma_shl_one_usize, pow2};
use crate::rtree::{RTree, Spec};
use crate::index::disjoint::NoData;
use crate::index::pass::Event;
use crate::index::image::levels_fit;

verus! {

/// What the first pass learns of one R-Tree.
#[derive(Clone, Debug, Default)]
pub struct RTreeScout<Node> {
    pub bbox: Node,
    pub leaf_count: usize,
    pub node_count: usize,
    pub levels: Vec<Level>,
}


/// What the first pass learns of the trace.
pub struct ScoutPass {
    /// Register names, by register index
    pub reg_name_mapping: Vec<String>,
    pub data_section_required_bytes: usize,
    pub metadata_json: String,
    pub write_zones: Vec<RTreeScout<MemNode>>,
    pub read_zones: Vec<RTreeScout<MemNode>>,
    pub registers: Vec<RTreeScout<RegNode>>,
}

/// One gigabyte.
pub const GB: u64 = 1073741824u64;

/// Minimal address padding between zones
pub const ZONE_MIN_PADDING: u64 = 137438953472u64;

/// Number of nodes grouping `n` items by `g`: `n / g` rounded up.
pub open spec fn div_ceil(n: int, g: int) -> int {
    (n - 1) / g + 1
}

pub proof fn lemma_div_ceil_bounds(n: int, g: int)
    requires
        n > g >= 2,
    ensures
        1 <= div_ceil(n, g) < n,
        (div_ceil(n, g) - 1) * g < n <= div_ceil(n, g) * g,
{
    let q = (n - 1) / g;
    let r = (n - 1) % g;
    assert(n - 1 == q * g + r && 0 <= r < g) by {
        vstd::arithmetic::div_mod::lemma_fundamental_div_mod(n - 1, g);
    }
    assert(q >= 1) by (nonlinear_arith)
        requires
            n - 1 == q * g + r,
            0 <= r < g,
            n > g,
    ;
    assert(q + 1 < n) by (nonlinear_arith)
        requires
            n - 1 == q * g + r,
            0 <= r < g,
            g >= 2,
            q >= 1,
    ;
    assert(q * g < n <= (q + 1) * g) by (nonlinear_arith)
        requires
            n - 1 == q * g + r,
            0 <= r < g,
    ;
}

/// Levels of a tree over `n` items grouped by `g`, from the level just above the items
/// up, numbered from `offset` on.
#[verifier::opaque]
pub open spec fn levels_above(offset: int, n: int, g: int) -> Seq<Level>
    decreases n,
{
    if g < 2 || n <= g {
        Seq::empty()
    } else {
        proof {
            lemma_div_ceil_bounds(n, g);
        }
        seq![Level { offset: offset as u64, size: div_ceil(n, g) as u64 }] + levels_above(
            offset + div_ceil(n, g),
            div_ceil(n, g),
            g,
        )
    }
}

/// One level of `levels_above`.
pub proof fn lemma_levels_above_unfold(offset: int, n: int, g: int)
    ensures
        levels_above(offset, n, g) == if g < 2 || n <= g {
            Seq::<Level>::empty()
        } else {
            seq![Level { offset: offset as u64, size: div_ceil(n, g) as u64 }] + levels_above(
                offset + div_ceil(n, g),
                div_ceil(n, g),
                g,
            )
        },
{
    reveal(levels_above);
}

/// Number of nodes of those levels.
pub open spec fn nodes_above(n: int, g: int) -> int
    decreases n,
{
    if g < 2 || n <= g {
        0
    } else {
        proof {
            lemma_div_ceil_bounds(n, g);
        }
        div_ceil(n, g) + nodes_above(div_ceil(n, g), g)
    }
}

/// The levels reversed: root level first.
pub open spec fn scout_levels(n: int, g: int) -> Seq<Level> {
    levels_above(0, n, g).reverse()
}

impl<Node> RTreeScout<Node> {
    /// Count the nodes of the tree over `leaf_count` leaves, and describe its levels,
    /// root level first, each with its place among the nodes.
    pub fn compute_node_count_and_levels(&mut self, node_size_order: u8)
        requires
            1 <= node_size_order < usize::BITS,
            old(self).node_count + nodes_above(
                old(self).leaf_count as int,
                pow2(node_size_order as nat) as int,
            ) <= usize::MAX,
        ensures
            final(self).bbox == old(self).bbox,
            final(self).leaf_count == old(self).leaf_count,
            final(self).node_count == old(self).node_count + nodes_above(
                old(self).leaf_count as int,
                pow2(node_size_order as nat) as int,
            ),
            final(self).levels@ == (old(self).levels@ + levels_above(
                old(self).node_count as int,
                old(self).leaf_count as int,
                pow2(node_size_order as nat) as int,
            )).reverse(),
    {
        proof {
            lemma_shl_one_usize(node_size_order as usize);
            lemma_pow2_two(node_size_order as nat);
        }
        let group_size: usize = 1usize << (node_size_order as usize);
        let ghost g = group_size as int;
        let ghost n0 = old(self).node_count as int;
        let ghost l0 = old(self).levels@;
        let ghost all = levels_above(n0, old(self).leaf_count as int, g);
        let ghost total = nodes_above(old(self).leaf_count as int, g);
        let mut prev_level_count = self.leaf_count;
        while prev_level_count > group_size
            invariant
                g == group_size,
                g >= 2,
                n0 + total <= usize::MAX,
                self.node_count + nodes_above(prev_level_count as int, g) == n0 + total,
                self.levels@ + levels_above(self.node_count as int, prev_level_count as int, g)
                    == l0 + all,
                self.bbox == old(self).bbox,
                self.leaf_count == old(self).leaf_count,
            decreases prev_level_count,
        {
            proof {
                lemma_div_ceil_bounds(prev_level_count as int, g);
                lemma_nodes_above_nonneg(div_ceil(prev_level_count as int, g), g);
            }
            let level_count = (prev_level_count - 1) / group_size + 1;
            let ghost before = self.levels@;
            let ghost nc = self.node_count as int;
            self.levels.push(Level { offset: self.node_count as u64, size: level_count as u64 });
            self.node_count = self.node_count + level_count;
            proof {
                let l = Level { offset: nc as u64, size: level_count as u64 };
                lemma_levels_above_unfold(nc, prev_level_count as int, g);
                lemma_levels_above_unfold(self.node_count as int, level_count as int, g);
                assert(levels_above(nc, prev_level_count as int, g) == seq![l] + levels_above(
                    nc + level_count,
                    level_count as int,
                    g,
                ));
                assert(self.levels@ + levels_above(self.node_count as int, level_count as int, g)
                    =~= before + levels_above(nc, prev_level_count as int, g));
            }
            prev_level_count = level_count;
        }
        proof {
            lemma_levels_above_unfold(self.node_count as int, prev_level_count as int, g);
            assert(self.levels@ =~= l0 + all);
        }
        self.levels = reversed(&self.levels);
    }
}

/// The levels in reverse order.
fn reversed(v: &Vec<Level>) -> (r: Vec<Level>)
    ensures
        r@ == v@.reverse(),
{
    let mut r: Vec<Level> = Vec::new();
    let mut i: usize = v.len();
    while i > 0
        invariant
            i <= v@.len(),
            r@ =~= v@.subrange(i as int, v@.len() as int).reverse(),
        decreases i,
    {
        i = i - 1;
        r.push(v[i]);
        proof {
            assert(v@.subrange(i as int, v@.len() as int).reverse() =~= v@.subrange(
                i + 1,
                v@.len() as int,
            ).reverse().push(v@[i as int]));
        }
    }
    proof {
        assert(v@.subrange(0, v@.len() as int) =~= v@);
    }
    r
}

proof fn lemma_pow2_two(k: nat)
    requires
        k >= 1,
    ensures
        pow2(k) >= 2,
    decreases k,
{
    reveal_with_fuel(pow2, 2);
    if k > 1 {
        lemma_pow2_two((k - 1) as nat);
    }
}

proof fn lemma_nodes_above_nonneg(n: int, g: int)
    ensures
        nodes_above(n, g) >= 0,
    decreases n,
{
    if g >= 2 && n > g {
        lemma_div_ceil_bounds(n, g);
        lemma_nodes_above_nonneg(div_ceil(n, g), g);
    }
}



impl RTreeScout<MemNode> {
    /// Address range of the zone widened by `pad` on both sides, within the address space.
    pub open spec fn padded_by(&self, pad: u64) -> IRange<Addr> {
        IRange { min: self.bbox.addr_min.saturating_sub(pad), max: self.bbox.addr_max.saturating_add(pad) }
    }

    pub fn padded_addr_range(&self) -> (r: IRange<Addr>)
        ensures
            r == self.padded_by(ZONE_MIN_PADDING),
    {
        IRange {
            min: self.bbox.addr_min.saturating_sub(ZONE_MIN_PADDING),
            max: self.bbox.addr_max.saturating_add(ZONE_MIN_PADDING),
        }
    }

    pub fn half_padded_addr_range(&self) -> (r: IRange<Addr>)
        ensures
            r == self.padded_by(ZONE_MIN_PADDING / 2),
    {
        IRange {
            min: self.bbox.addr_min.saturating_sub(ZONE_MIN_PADDING / 2),
            max: self.bbox.addr_max.saturating_add(ZONE_MIN_PADDING / 2),
        }
    }
}

/// Every zone has a well-formed bounding box.
pub open spec fn zones_wf(zones: Seq<RTreeScout<MemNode>>) -> bool {
    forall|i: int| 0 <= i < zones.len() ==> (#[trigger] zones[i]).bbox.wf()
}

/// Zones lie more than the padding apart: their half-padded ranges are disjoint.
pub open spec fn zones_separated(zones: Seq<RTreeScout<MemNode>>) -> bool {
    forall|i: int, j: int|
        0 <= i < j < zones.len() ==> (#[trigger] zones[i]).padded_by(ZONE_MIN_PADDING / 2).disjoint_from(
            (#[trigger] zones[j]).padded_by(ZONE_MIN_PADDING / 2),
        )
}

/// Some zone's bounding box contains the rectangle.
pub open spec fn zones_cover(zones: Seq<RTreeScout<MemNode>>, node: MemNode) -> bool {
    exists|k: int| 0 <= k < zones.len() && (#[trigger] zones[k]).bbox.covers(node)
}

/// Number of leaves of the zones.
pub open spec fn leaf_total(zones: Seq<RTreeScout<MemNode>>) -> int
    decreases zones.len(),
{
    if zones.len() == 0 {
        0
    } else {
        leaf_total(zones.drop_last()) + zones.last().leaf_count
    }
}

proof fn lemma_leaf_total_update(zones: Seq<RTreeScout<MemNode>>, i: int, z: RTreeScout<MemNode>)
    requires
        0 <= i < zones.len(),
    ensures
        leaf_total(zones.update(i, z)) == leaf_total(zones) - zones[i].leaf_count + z.leaf_count,
    decreases zones.len(),
{
    if i < zones.len() - 1 {
        lemma_leaf_total_update(zones.drop_last(), i, z);
        assert(zones.update(i, z).drop_last() =~= zones.drop_last().update(i, z));
    } else {
        assert(zones.update(i, z).drop_last() =~= zones.drop_last());
    }
}

proof fn lemma_leaf_total_nonneg(zones: Seq<RTreeScout<MemNode>>)
    ensures
        leaf_total(zones) >= 0,
        forall|i: int| 0 <= i < zones.len() ==> #[trigger] zones[i].leaf_count <= leaf_total(zones),
    decreases zones.len(),
{
    if zones.len() > 0 {
        lemma_leaf_total_nonneg(zones.drop_last());
        assert forall|i: int| 0 <= i < zones.len() implies #[trigger] zones[i].leaf_count <= leaf_total(zones) by {
            if i < zones.len() - 1 {
                assert(zones[i] == zones.drop_last()[i]);
            }
        }
    }
}

/// Extending a zone with a rectangle that meets its padded range, and no other zone's,
/// keeps it apart from the other zones.
proof fn lemma_extend_keeps_apart(a: RTreeScout<MemNode>, b: RTreeScout<MemNode>, node: MemNode, a2: RTreeScout<MemNode>)
    requires
        a.bbox.wf(),
        b.bbox.wf(),
        node.wf(),
        a2.bbox == a.bbox.union_bbox(node),
        a.padded_by(ZONE_MIN_PADDING / 2).disjoint_from(b.padded_by(ZONE_MIN_PADDING / 2)),
        !a.padded_by(ZONE_MIN_PADDING).disjoint_from(node.addr_range_spec()),
        b.padded_by(ZONE_MIN_PADDING).disjoint_from(node.addr_range_spec()),
    ensures
        a2.padded_by(ZONE_MIN_PADDING / 2).disjoint_from(b.padded_by(ZONE_MIN_PADDING / 2)),
{
}

/// A new zone around a rectangle that meets no zone's padded range is apart from them.
proof fn lemma_new_zone_apart(b: RTreeScout<MemNode>, a: RTreeScout<MemNode>)
    requires
        b.bbox.wf(),
        a.bbox.wf(),
        b.padded_by(ZONE_MIN_PADDING).disjoint_from(a.bbox.addr_range_spec()),
    ensures
        b.padded_by(ZONE_MIN_PADDING / 2).disjoint_from(a.padded_by(ZONE_MIN_PADDING / 2)),
{
}


/// The zones `i < j` are too close: their half-padded ranges meet.
pub open spec fn zones_conflict(zones: Seq<RTreeScout<MemNode>>, i: int, j: int) -> bool {
    0 <= i < j < zones.len() && !zones[i].padded_by(ZONE_MIN_PADDING / 2).disjoint_from(
        zones[j].padded_by(ZONE_MIN_PADDING / 2),
    )
}

/// First pair of zones in conflict, by the first index then the second.
fn find_conflict(zones: &Vec<RTreeScout<MemNode>>) -> (r: Option<(usize, usize)>)
    requires
        zones_wf(zones@),
    ensures
        r is None <==> zones_separated(zones@),
        r matches Some((i, j)) ==> zones_conflict(zones@, i as int, j as int) && forall|a: int, b: int|
            #[trigger] zones_conflict(zones@, a, b) ==> i < a || (i == a && j <= b),
{
    let mut i: usize = 0;
    while i < zones.len()
        invariant
            i <= zones@.len(),
            zones_wf(zones@),
            forall|a: int, b: int| 0 <= a < i ==> !#[trigger] zones_conflict(zones@, a, b),
        decreases zones@.len() - i,
    {
        let a_range = zones[i].half_padded_addr_range();
        assert(zones@[i as int].bbox.wf());
        let mut j: usize = i + 1;
        while j < zones.len()
            invariant
                i < zones@.len(),
                i + 1 <= j <= zones@.len(),
                zones_wf(zones@),
                a_range.wf(),
                a_range == zones@[i as int].padded_by(ZONE_MIN_PADDING / 2),
                forall|a: int, b: int| 0 <= a < i ==> !#[trigger] zones_conflict(zones@, a, b),
                forall|b: int| b < j ==> !#[trigger] zones_conflict(zones@, i as int, b),
            decreases zones@.len() - j,
        {
            let b_range = zones[j].half_padded_addr_range();
            assert(zones@[j as int].bbox.wf());
            if !a_range.is_disjoint(&b_range) {
                return Some((i, j));
            }
            j = j + 1;
        }
        i = i + 1;
    }
    proof {
        assert forall|a: int, b: int| 0 <= a < b < zones@.len() implies (#[trigger] zones@[a]).padded_by(
            ZONE_MIN_PADDING / 2,
        ).disjoint_from((#[trigger] zones@[b]).padded_by(ZONE_MIN_PADDING / 2)) by {
            assert(!zones_conflict(zones@, a, b));
        }
    }
    None
}

/// Merge the zone `j` into the zone `i`: the last zone takes the place of `j`.
fn merge_zones(zones: &mut Vec<RTreeScout<MemNode>>, i: usize, j: usize)
    requires
        i < j < old(zones)@.len(),
        zones_wf(old(zones)@),
        leaf_total(old(zones)@) <= usize::MAX,
    ensures
        zones_wf(final(zones)@),
        final(zones)@.len() == old(zones)@.len() - 1,
        leaf_total(final(zones)@) == leaf_total(old(zones)@),
        forall|n: MemNode| #[trigger] zones_cover(old(zones)@, n) ==> zones_cover(final(zones)@, n),
        levels_fit(old(zones)@) ==> levels_fit(final(zones)@),
{
    let ghost z0 = zones@;
    proof {
        lemma_leaf_total_nonneg(z0);
        lemma_leaf_total_update(z0, j as int, z0.last());
        lemma_leaf_total_update(z0.update(j as int, z0.last()), i as int, z0[i as int]);
    }
    let b = zones.swap_remove(j);
    let ghost z1 = zones@;
    proof {
        assert(z0.update(j as int, z0.last()) =~= z1.push(z0.last()));
        assert(z1.push(z0.last()).drop_last() =~= z1);
        assert(leaf_total(z1) == leaf_total(z0) - b.leaf_count);
        lemma_leaf_total_nonneg(z1);
        lemma_leaf_total_update(z1, i as int, z1[i as int]);
    }
    zones[i].bbox.extends_to_contain(&b.bbox);
    zones[i].leaf_count = zones[i].leaf_count + b.leaf_count;
    proof {
        let z2 = zones@;
        assert(z2 =~= z1.update(i as int, z2[i as int]));
        lemma_leaf_total_update(z1, i as int, z2[i as int]);
        assert forall|n: MemNode| #[trigger] zones_cover(z0, n) implies zones_cover(z2, n) by {
            let k = choose|k: int| 0 <= k < z0.len() && (#[trigger] z0[k]).bbox.covers(n);
            if k == j {
                assert(z2[i as int].bbox.covers(n));
            } else if k == i {
                assert(z2[i as int].bbox.covers(n));
            } else if k == z0.len() - 1 {
                assert(z2[j as int].bbox.covers(n));
            } else {
                assert(z2[k].bbox.covers(n));
            }
        }
        assert forall|k: int| 0 <= k < z2.len() implies (#[trigger] z2[k]).bbox.wf() by {
            if k == j {
                assert(z2[k] == z0.last());
            } else if k != i {
                assert(z2[k] == z0[k]);
            }
        }
        if levels_fit(z0) {
            assert forall|k: int, l: int| 0 <= k < z2.len() && 0 <= l < z2[k].levels@.len() implies
                (#[trigger] z2[k].levels@[l]).offset <= z2[k].node_count && z2[k].levels@[l].size
                    <= z2[k].node_count - z2[k].levels@[l].offset by {
                let src = if k == j { z0.len() - 1 } else { k };
                assert(z2[k].levels == z0[src].levels && z2[k].node_count == z0[src].node_count);
                assert(z0[src].levels@[l] == z2[k].levels@[l]);
            }
        }
    }
}


/// The zone's padded range meets the rectangle's addresses.
pub open spec fn zone_near(zone: RTreeScout<MemNode>, node: MemNode) -> bool {
    !zone.padded_by(ZONE_MIN_PADDING).disjoint_from(node.addr_range_spec())
}

/// Add a rectangle to the zone whose padded range it meets, or to a new zone: where it
/// meets several, the zones that come too close are merged.
pub fn insert_node_into_zones(zones: &mut Vec<RTreeScout<MemNode>>, node: MemNode)
    requires
        node.wf(),
        zones_wf(old(zones)@),
        leaf_total(old(zones)@) + 1 <= usize::MAX,
    ensures
        zones_wf(final(zones)@),
        leaf_total(final(zones)@) == leaf_total(old(zones)@) + 1,
        zones_cover(final(zones)@, node),
        forall|n: MemNode| #[trigger] zones_cover(old(zones)@, n) ==> zones_cover(final(zones)@, n),
        zones_separated(old(zones)@) ==> zones_separated(final(zones)@),
        levels_fit(old(zones)@) ==> levels_fit(final(zones)@),
        (forall|i: int| 0 <= i < old(zones)@.len() ==> !zone_near(#[trigger] old(zones)@[i], node))
            ==> {
            &&& final(zones)@.len() == old(zones)@.len() + 1
            &&& final(zones)@.drop_last() == old(zones)@
            &&& final(zones)@.last().bbox == node
            &&& final(zones)@.last().leaf_count == 1
            &&& final(zones)@.last().node_count == 0
            &&& final(zones)@.last().levels@ == Seq::<Level>::empty()
        },
        forall|i: int|
            0 <= i < old(zones)@.len() && zone_near(#[trigger] old(zones)@[i], node) && (forall|k: int|
                0 <= k < old(zones)@.len() && k != i ==> !zone_near(old(zones)@[k], node)) ==> {
                &&& final(zones)@.len() == old(zones)@.len()
                &&& final(zones)@[i].bbox == old(zones)@[i].bbox.union_bbox(node)
                &&& final(zones)@[i].leaf_count == old(zones)@[i].leaf_count + 1
                &&& final(zones)@[i].node_count == old(zones)@[i].node_count
                &&& final(zones)@[i].levels == old(zones)@[i].levels
                &&& forall|k: int| 0 <= k < old(zones)@.len() && k != i ==> final(zones)@[k] == old(zones)@[k]
            },
{
    let ghost z0 = zones@;
    let mut was_inserted = false;
    let mut conflict_found = false;
    let ghost mut at: int = -1;
    let mut i: usize = 0;
    while i < zones.len()
        invariant_except_break
            forall|k: int| 0 <= k < i && k != at ==> !zone_near(z0[k], node),
            !conflict_found,
        invariant
            z0 == old(zones)@,
            node.wf(),
            zones_wf(z0),
            leaf_total(z0) + 1 <= usize::MAX,
            i <= zones@.len(),
            zones@.len() == z0.len(),
            was_inserted <==> 0 <= at,
            at < i,
            was_inserted ==> {
                &&& zone_near(z0[at], node)
                &&& zones@[at].bbox == z0[at].bbox.union_bbox(node)
                &&& zones@[at].leaf_count == z0[at].leaf_count + 1
                &&& zones@[at].node_count == z0[at].node_count
                &&& zones@[at].levels == z0[at].levels
                &&& zones@ == z0.update(at, zones@[at])
            },
            !was_inserted ==> zones@ == z0,
        ensures
            conflict_found ==> was_inserted && i < z0.len() && at < i && zone_near(z0[i as int], node),
            !conflict_found ==> forall|k: int| 0 <= k < z0.len() && k != at ==> !zone_near(z0[k], node),
            z0 == old(zones)@,
            node.wf(),
            zones_wf(z0),
            leaf_total(z0) + 1 <= usize::MAX,
            zones@.len() == z0.len(),
            was_inserted <==> 0 <= at,
            was_inserted ==> {
                &&& zone_near(z0[at], node)
                &&& zones@[at].bbox == z0[at].bbox.union_bbox(node)
                &&& zones@[at].leaf_count == z0[at].leaf_count + 1
                &&& zones@[at].node_count == z0[at].node_count
                &&& zones@[at].levels == z0[at].levels
                &&& zones@ == z0.update(at, zones@[at])
            },
            !was_inserted ==> zones@ == z0,
        decreases zones@.len() - i,
    {
        let padded = zones[i].padded_addr_range();
        proof {
            assert(zones@[i as int] == z0[i as int]);
            assert(z0[i as int].bbox.wf());
        }
        if !padded.is_disjoint(&node.addr_range()) {
            if was_inserted {
                conflict_found = true;
                break;
            }
            proof {
                lemma_leaf_total_nonneg(z0);
            }
            zones[i].bbox.extends_to_contain(&node);
            zones[i].leaf_count = zones[i].leaf_count + 1;
            was_inserted = true;
            proof {
                at = i as int;
                assert(zones@ =~= z0.update(at, zones@[at]));
            }
        }
        i = i + 1;
    }
    let ghost z1 = zones@;
    proof {
        if was_inserted {
            lemma_leaf_total_update(z0, at, z1[at]);
            assert(z1[at].bbox.covers(node));
            assert(zones_cover(z1, node));
            assert forall|n: MemNode| #[trigger] zones_cover(z0, n) implies zones_cover(z1, n) by {
                let k = choose|k: int| 0 <= k < z0.len() && (#[trigger] z0[k]).bbox.covers(n);
                assert(z1[k].bbox.covers(n));
            }
            assert forall|k: int| 0 <= k < z1.len() implies (#[trigger] z1[k]).bbox.wf() by {
                if k != at {
                    assert(z1[k] == z0[k]);
                }
            }
            if !conflict_found && zones_separated(z0) {
                assert forall|a: int, b: int|
                    0 <= a < b < z1.len() implies (#[trigger] z1[a]).padded_by(ZONE_MIN_PADDING / 2).disjoint_from(
                        (#[trigger] z1[b]).padded_by(ZONE_MIN_PADDING / 2),
                    ) by {
                    if a == at {
                        lemma_extend_keeps_apart(z0[a], z0[b], node, z1[a]);
                    } else if b == at {
                        lemma_extend_keeps_apart(z0[b], z0[a], node, z1[b]);
                    } else {
                        assert(z1[a] == z0[a] && z1[b] == z0[b]);
                    }
                }
            }
        }
    }
    proof {
        if levels_fit(z0) {
            assert forall|k: int, l: int| 0 <= k < z1.len() && 0 <= l < z1[k].levels@.len() implies
                (#[trigger] z1[k].levels@[l]).offset <= z1[k].node_count && z1[k].levels@[l].size
                    <= z1[k].node_count - z1[k].levels@[l].offset by {
                if !(was_inserted && k == at) {
                    assert(z1[k] == z0[k]);
                }
                assert(z0[k].levels@[l] == z1[k].levels@[l]);
            }
        }
    }
    if conflict_found {
        loop
            invariant
                levels_fit(z0) ==> levels_fit(zones@),
                zones_wf(zones@),
                leaf_total(zones@) == leaf_total(z0) + 1,
                leaf_total(zones@) <= usize::MAX,
                zones_cover(zones@, node),
                forall|n: MemNode| #[trigger] zones_cover(z0, n) ==> zones_cover(zones@, n),
            ensures
                levels_fit(z0) ==> levels_fit(zones@),
                zones_wf(zones@),
                leaf_total(zones@) == leaf_total(z0) + 1,
                zones_cover(zones@, node),
                forall|n: MemNode| #[trigger] zones_cover(z0, n) ==> zones_cover(zones@, n),
                zones_separated(zones@),
            decreases zones@.len(),
        {
            match find_conflict(zones) {
                Some((a, b)) => {
                    merge_zones(zones, a, b);
                },
                None => {
                    break;
                },
            }
        }
    }
    if !was_inserted {
        let ghost z = zones@;
        zones.push(RTreeScout { bbox: node, leaf_count: 1, node_count: 0, levels: Vec::new() });
        proof {
            let last = zones@.last();
            assert(zones@.drop_last() =~= z);
            assert(zones_cover(zones@, node)) by {
                assert(zones@[zones@.len() - 1].bbox.covers(node));
            }
            assert forall|n: MemNode| #[trigger] zones_cover(z0, n) implies zones_cover(zones@, n) by {
                let k = choose|k: int| 0 <= k < z0.len() && (#[trigger] z0[k]).bbox.covers(n);
                assert(zones@[k] == z0[k]);
            }
            assert forall|k: int| 0 <= k < zones@.len() implies (#[trigger] zones@[k]).bbox.wf() by {
                if k < z.len() {
                    assert(zones@[k] == z[k]);
                }
            }
            if levels_fit(z0) {
                assert forall|k: int, l: int| 0 <= k < zones@.len() && 0 <= l < zones@[k].levels@.len() implies
                    (#[trigger] zones@[k].levels@[l]).offset <= zones@[k].node_count && zones@[k].levels@[l].size
                        <= zones@[k].node_count - zones@[k].levels@[l].offset by {
                    assert(k < z.len());
                    assert(zones@[k] == z[k]);
                    assert(z[k].levels@[l] == zones@[k].levels@[l]);
                }
            }
            if zones_separated(z0) {
                assert forall|a: int, b: int|
                    0 <= a < b < zones@.len() implies (#[trigger] zones@[a]).padded_by(ZONE_MIN_PADDING / 2).disjoint_from(
                        (#[trigger] zones@[b]).padded_by(ZONE_MIN_PADDING / 2),
                    ) by {
                    if b == z.len() {
                        assert(!zone_near(z0[a], node));
                        lemma_new_zone_apart(z0[a], last);
                    } else {
                        assert(zones@[a] == z0[a] && zones@[b] == z0[b]);
                    }
                }
            }
        }
    }
}


/// The first pass could not count the trace: a counter would overflow, or an event
/// holds a reversed range.
#[derive(Debug, Clone, Copy, PartialEq, Eq)]
pub enum ScoutError {
    Overflow,
    Malformed,
}

/// Sum of the leaf counts, if it fits.
fn leaf_total_exec(zones: &Vec<RTreeScout<MemNode>>) -> (r: Option<usize>)
    ensures
        r matches Some(t) ==> t == leaf_total(zones@),
        r is None ==> leaf_total(zones@) > usize::MAX,
{
    let mut total: usize = 0;
    let mut i: usize = 0;
    while i < zones.len()
        invariant
            i <= zones@.len(),
            total == leaf_total(zones@.take(i as int)),
        decreases zones@.len() - i,
    {
        proof {
            assert(zones@.take(i + 1).drop_last() =~= zones@.take(i as int));
        }
        match total.checked_add(zones[i].leaf_count) {
            Some(t) => {
                total = t;
            },
            None => {
                proof {
                    lemma_leaf_total_prefix(zones@, i + 1);
                }
                return None;
            },
        }
        i = i + 1;
    }
    proof {
        assert(zones@.take(i as int) =~= zones@);
    }
    Some(total)
}

proof fn lemma_leaf_total_prefix(zones: Seq<RTreeScout<MemNode>>, i: int)
    requires
        0 <= i <= zones.len(),
    ensures
        leaf_total(zones.take(i)) <= leaf_total(zones),
    decreases zones.len(),
{
    if i == zones.len() {
        assert(zones.take(i) =~= zones);
    } else {
        lemma_leaf_total_prefix(zones.drop_last(), i);
        assert(zones.take(i) =~= zones.drop_last().take(i));
        lemma_leaf_total_nonneg(zones);
    }
}

/// The register leaves' bounding boxes are well formed.
pub open spec fn registers_wf(regs: Seq<RTreeScout<RegNode>>) -> bool {
    forall|i: int| 0 <= i < regs.len() ==> (#[trigger] regs[i]).leaf_count > 0 ==> regs[i].bbox.wf()
}

/// The event is counted: a memory leaf must be well formed and its zones hold fewer than
/// the most leaves; a register leaf must be well formed, its index below the last, and
/// its register hold fewer than the most leaves.
pub open spec fn consume_ok(s: ScoutPass, event: Event<NoData>) -> bool {
    match event {
        Event::MemoryWrite(leaf) => leaf.node.wf() && leaf_total(s.write_zones@) < usize::MAX,
        Event::MemoryRead(leaf) => leaf.addr_min <= leaf.addr_max && leaf_total(s.read_zones@) < usize::MAX,
        Event::Register { idx, leaf } => {
            &&& leaf.time_min <= leaf.time_max
            &&& idx < usize::MAX
            &&& !(idx < s.registers@.len() && s.registers@[idx as int].leaf_count == usize::MAX)
        },
        Event::AslrSlide(_) => true,
    }
}

/// Why an event is not counted.
pub open spec fn consume_error(s: ScoutPass, event: Event<NoData>) -> ScoutError {
    match event {
        Event::MemoryWrite(leaf) => if !leaf.node.wf() { ScoutError::Malformed } else { ScoutError::Overflow },
        Event::MemoryRead(leaf) => if !(leaf.addr_min <= leaf.addr_max) { ScoutError::Malformed } else { ScoutError::Overflow },
        Event::Register { idx, leaf } => if !(leaf.time_min <= leaf.time_max) || idx == usize::MAX {
            ScoutError::Malformed
        } else {
            ScoutError::Overflow
        },
        Event::AslrSlide(_) => ScoutError::Overflow,
    }
}

/// What counting one event does to the first pass and the slide, and when it fails.
pub open spec fn scout_consumed(
    o: ScoutPass,
    slide0: Option<Addr>,
    event: Event<NoData>,
    n: ScoutPass,
    slide1: Option<Addr>,
    r: Result<(), ScoutError>,
) -> bool {
    &&& n.inv()
    &&& n.reg_name_mapping == o.reg_name_mapping
    &&& n.data_section_required_bytes == o.data_section_required_bytes
    &&& r is Ok ==> match event {
        Event::MemoryWrite(leaf) => {
            &&& zones_cover(n.write_zones@, leaf.node)
            &&& leaf_total(n.write_zones@) == leaf_total(o.write_zones@) + 1
            &&& n.read_zones == o.read_zones
        },
        Event::MemoryRead(leaf) => {
            &&& zones_cover(n.read_zones@, leaf.node_spec())
            &&& leaf_total(n.read_zones@) == leaf_total(o.read_zones@) + 1
            &&& n.write_zones == o.write_zones
        },
        Event::Register { idx, leaf } => {
            &&& idx < n.registers@.len()
            &&& n.registers@[idx as int].leaf_count == (if idx < o.registers@.len() {
                o.registers@[idx as int].leaf_count as int
            } else {
                0
            }) + 1
            &&& n.registers@[idx as int].bbox.covers(leaf.node_spec())
        },
        Event::AslrSlide(slide) => slide1 == Some(slide),
    }
    &&& r is Err ==> {
        &&& n.write_zones == o.write_zones
        &&& n.read_zones == o.read_zones
        &&& n.registers@ == o.registers@
    }
    &&& !(event is AslrSlide) ==> slide1 == slide0
    &&& r is Ok <==> consume_ok(o, event)
    &&& r matches Err(e) ==> e == consume_error(o, event)
    &&& r is Ok ==> match event {
        Event::MemoryWrite(_) => n.registers == o.registers,
        Event::MemoryRead(_) => n.registers == o.registers,
        Event::Register { idx, leaf } => {
            &&& n.write_zones == o.write_zones
            &&& n.read_zones == o.read_zones
            &&& n.registers@.len() == if idx < o.registers@.len() {
                o.registers@.len() as int
            } else {
                idx + 1
            }
            &&& forall|k: int|
                0 <= k < o.registers@.len() && k != idx ==> #[trigger] n.registers@[k]
                    == o.registers@[k]
            &&& forall|k: int|
                o.registers@.len() <= k < n.registers@.len() && k != idx
                    ==> (#[trigger] n.registers@[k]).leaf_count == 0
        },
        Event::AslrSlide(_) => n == o,
    }
}

impl ScoutPass {
    pub open spec fn inv(&self) -> bool {
        &&& zones_wf(self.write_zones@)
        &&& zones_wf(self.read_zones@)
        &&& zones_separated(self.write_zones@)
        &&& zones_separated(self.read_zones@)
        &&& registers_wf(self.registers@)
        &&& levels_fit(self.write_zones@)
        &&& levels_fit(self.read_zones@)
        &&& levels_fit(self.registers@)
    }

    pub fn new() -> (r: Self)
        ensures
            r.inv(),
            r.reg_name_mapping@.len() == 0,
            r.data_section_required_bytes == 0,
            r.metadata_json@.len() == 0,
            r.write_zones@.len() == 0,
            r.read_zones@.len() == 0,
            r.registers@.len() == 0,
    {
        ScoutPass {
            reg_name_mapping: Vec::new(),
            data_section_required_bytes: 0,
            metadata_json: String::new(),
            write_zones: Vec::new(),
            read_zones: Vec::new(),
            registers: Vec::new(),
        }
    }

    /// Index of a register: the one it was given, or the next one.
    pub fn reg_index(&mut self, name: &str) -> (r: usize)
        ensures
            final(self).data_section_required_bytes == old(self).data_section_required_bytes,
            final(self).write_zones == old(self).write_zones,
            final(self).read_zones == old(self).read_zones,
            final(self).registers == old(self).registers,
            r < final(self).reg_name_mapping@.len(),
            final(self).reg_name_mapping@[r as int]@ == name@,
            forall|k: int| 0 <= k < r ==> (#[trigger] final(self).reg_name_mapping@[k])@ != name@,
            r < old(self).reg_name_mapping@.len() ==> final(self).reg_name_mapping@ == old(self).reg_name_mapping@,
            r == old(self).reg_name_mapping@.len() ==> final(self).reg_name_mapping@.drop_last() == old(self).reg_name_mapping@,
    {
        let wanted = name.to_owned();
        let mut i: usize = 0;
        while i < self.reg_name_mapping.len()
            invariant
                i <= self.reg_name_mapping@.len(),
                wanted@ == name@,
                *self == *old(self),
                forall|k: int| 0 <= k < i ==> (#[trigger] self.reg_name_mapping@[k])@ != name@,
            decreases self.reg_name_mapping@.len() - i,
        {
            if self.reg_name_mapping[i] == wanted {
                return i;
            }
            i = i + 1;
        }
        self.reg_name_mapping.push(wanted);
        proof {
            assert(self.reg_name_mapping@.drop_last() =~= old(self).reg_name_mapping@);
        }
        i
    }

    /// Count the bytes that a write stores in the data section: those of more than 8 bytes.
    pub fn map_data(&mut self, len: usize) -> (r: Result<(), ScoutError>)
        ensures
            r is Ok <==> (len <= 8 || old(self).data_section_required_bytes + len <= usize::MAX),
            r is Ok ==> final(self).data_section_required_bytes == if len > 8 {
                old(self).data_section_required_bytes + len
            } else {
                old(self).data_section_required_bytes as int
            },
            r is Err ==> r == Err::<(), ScoutError>(ScoutError::Overflow),
            final(self).write_zones == old(self).write_zones,
            final(self).read_zones == old(self).read_zones,
            final(self).registers == old(self).registers,
            final(self).reg_name_mapping == old(self).reg_name_mapping,
    {
        if len > 8 {
            match self.data_section_required_bytes.checked_add(len) {
                Some(t) => {
                    self.data_section_required_bytes = t;
                },
                None => {
                    return Err(ScoutError::Overflow);
                },
            }
        }
        Ok(())
    }

    /// Count one normalized event: a memory leaf joins its zone, a register leaf widens
    /// the register's bounding box, a slide is recorded.
    pub fn consume(&mut self, event: &Event<NoData>, alsr_slide: &mut Option<Addr>) -> (r: Result<(), ScoutError>)
        requires
            old(self).inv(),
        ensures
            scout_consumed(*old(self), *old(alsr_slide), *event, *final(self), *final(alsr_slide), r),
    {
        match event {
            Event::MemoryWrite(leaf) => {
                let node = leaf.node;
                if !(node.addr_min <= node.addr_max && node.time_min <= node.time_max) {
                    return Err(ScoutError::Malformed);
                }
                match leaf_total_exec(&self.write_zones) {
                    Some(t) => {
                        if t == usize::MAX {
                            return Err(ScoutError::Overflow);
                        }
                    },
                    None => {
                        return Err(ScoutError::Overflow);
                    },
                }
                insert_node_into_zones(&mut self.write_zones, node);
            },
            Event::MemoryRead(leaf) => {
                let node = leaf.node();
                if !(node.addr_min <= node.addr_max) {
                    return Err(ScoutError::Malformed);
                }
                match leaf_total_exec(&self.read_zones) {
                    Some(t) => {
                        if t == usize::MAX {
                            return Err(ScoutError::Overflow);
                        }
                    },
                    None => {
                        return Err(ScoutError::Overflow);
                    },
                }
                insert_node_into_zones(&mut self.read_zones, node);
            },
            Event::Register { idx, leaf } => {
                let idx = *idx;
                if !(leaf.time_min <= leaf.time_max) || idx == usize::MAX {
                    return Err(ScoutError::Malformed);
                }
                let ghost regs0 = self.registers@;
                while self.registers.len() < idx + 1
                    invariant
                        idx < usize::MAX,
                        regs0 == old(self).registers@,
                        regs0.len() <= self.registers@.len() <= if regs0.len() < idx + 1 { idx + 1 } else { regs0.len() as int },
                        forall|k: int| 0 <= k < regs0.len() ==> #[trigger] self.registers@[k] == regs0[k],
                        forall|k: int| regs0.len() <= k < self.registers@.len() ==> (#[trigger] self.registers@[k]).leaf_count == 0
                            && self.registers@[k].levels@.len() == 0,
                        self.write_zones == old(self).write_zones,
                        self.read_zones == old(self).read_zones,
                        self.reg_name_mapping == old(self).reg_name_mapping,
                        self.data_section_required_bytes == old(self).data_section_required_bytes,
                    decreases idx + 1 - self.registers@.len(),
                {
                    self.registers.push(
                        RTreeScout {
                            bbox: RegNode { value_min: 0, value_max: 0, time_min: 0, time_max: 0 },
                            leaf_count: 0,
                            node_count: 0,
                            levels: Vec::new(),
                        },
                    );
                }
                let count = self.registers[idx].leaf_count;
                if count == usize::MAX {
                    proof {
                        assert(idx < regs0.len());
                        assert(self.registers@ =~= regs0);
                    }
                    return Err(ScoutError::Overflow);
                }
                if count == 0 {
                    self.registers[idx].bbox = leaf.node();
                } else {
                    self.registers[idx].bbox.extends_to_contain(&leaf.node());
                }
                self.registers[idx].leaf_count = count + 1;
                proof {
                    assert forall|i: int| 0 <= i < self.registers@.len() implies (#[trigger] self.registers@[i]).leaf_count > 0
                        ==> self.registers@[i].bbox.wf() by {
                        if i != idx && i < regs0.len() {
                            assert(self.registers@[i] == old(self).registers@[i]);
                        }
                    }
                    assert forall|k: int, l: int| 0 <= k < self.registers@.len() && 0 <= l < self.registers@[k].levels@.len()
                        implies (#[trigger] self.registers@[k].levels@[l]).offset <= self.registers@[k].node_count
                        && self.registers@[k].levels@[l].size <= self.registers@[k].node_count - self.registers@[k].levels@[l].offset by {
                        assert(k < regs0.len());
                        assert(self.registers@[k].levels == regs0[k].levels && self.registers@[k].node_count == regs0[k].node_count);
                        assert(regs0[k].levels@[l] == self.registers@[k].levels@[l]);
                    }
                }
            },
            Event::AslrSlide(slide) => {
                *alsr_slide = Some(*slide);
            },
        }
        Ok(())
    }

    /// Once every event is counted: the node count and levels of every tree.
    pub fn compute_node_counts(&mut self, node_size_order: u8)
        requires
            1 <= node_size_order < usize::BITS,
            forall|i: int| 0 <= i < old(self).write_zones@.len() ==> (#[trigger] old(self).write_zones@[i]).node_count + nodes_above(
                old(self).write_zones@[i].leaf_count as int,
                pow2(node_size_order as nat) as int,
            ) <= usize::MAX,
            forall|i: int| 0 <= i < old(self).read_zones@.len() ==> (#[trigger] old(self).read_zones@[i]).node_count + nodes_above(
                old(self).read_zones@[i].leaf_count as int,
                pow2(node_size_order as nat) as int,
            ) <= usize::MAX,
            forall|i: int| 0 <= i < old(self).registers@.len() ==> (#[trigger] old(self).registers@[i]).node_count + nodes_above(
                old(self).registers@[i].leaf_count as int,
                pow2(node_size_order as nat) as int,
            ) <= usize::MAX,
        ensures
            final(self).write_zones@.len() == old(self).write_zones@.len(),
            final(self).read_zones@.len() == old(self).read_zones@.len(),
            final(self).registers@.len() == old(self).registers@.len(),
            final(self).reg_name_mapping == old(self).reg_name_mapping,
            final(self).data_section_required_bytes == old(self).data_section_required_bytes,
            final(self).metadata_json == old(self).metadata_json,
            forall|i: int| 0 <= i < old(self).write_zones@.len() ==> counted(
                #[trigger] old(self).write_zones@[i],
                final(self).write_zones@[i],
                pow2(node_size_order as nat) as int,
            ),
            forall|i: int| 0 <= i < old(self).read_zones@.len() ==> counted(
                #[trigger] old(self).read_zones@[i],
                final(self).read_zones@[i],
                pow2(node_size_order as nat) as int,
            ),
            forall|i: int| 0 <= i < old(self).registers@.len() ==> counted(
                #[trigger] old(self).registers@[i],
                final(self).registers@[i],
                pow2(node_size_order as nat) as int,
            ),
    {
        let ghost g = pow2(node_size_order as nat) as int;
        count_trees(&mut self.write_zones, node_size_order);
        count_trees(&mut self.read_zones, node_size_order);
        count_trees(&mut self.registers, node_size_order);
    }
}

/// `new` is `old` with its node count and levels computed for groups of `g`.
pub open spec fn counted<N>(before: RTreeScout<N>, after: RTreeScout<N>, g: int) -> bool {
    &&& after.bbox == before.bbox
    &&& after.leaf_count == before.leaf_count
    &&& after.node_count == before.node_count + nodes_above(before.leaf_count as int, g)
    &&& after.levels@ == (before.levels@ + levels_above(before.node_count as int, before.leaf_count as int, g)).reverse()
}

/// The levels above `n` items, their nodes placed from `offset` on, lie among the
/// `nodes_above(n, g)` nodes that follow `offset`.
pub proof fn lemma_levels_above_within(offset: int, n: int, g: int)
    requires
        0 <= offset,
        0 <= n,
        offset + nodes_above(n, g) <= u64::MAX,
    ensures
        nodes_above(n, g) >= 0,
        forall|l: int|
            0 <= l < levels_above(offset, n, g).len() ==> {
                &&& offset <= (#[trigger] levels_above(offset, n, g)[l]).offset
                &&& levels_above(offset, n, g)[l].offset + levels_above(offset, n, g)[l].size <= offset + nodes_above(n, g)
            },
    decreases n,
{
    lemma_levels_above_unfold(offset, n, g);
    if !(g < 2 || n <= g) {
        lemma_div_ceil_bounds(n, g);
        let d = div_ceil(n, g);
        assert(nodes_above(n, g) == d + nodes_above(d, g));
        lemma_levels_above_within(offset + d, d, g);
        let rest = levels_above(offset + d, d, g);
        let all = levels_above(offset, n, g);
        lemma_levels_above_unfold(offset, n, g);
        assert(all == seq![Level { offset: offset as u64, size: d as u64 }] + rest);
        assert(all[0].offset == offset && all[0].size == d);
        assert forall|l: int| 0 <= l < all.len() implies {
            &&& offset <= (#[trigger] all[l]).offset
            &&& all[l].offset + all[l].size <= offset + nodes_above(n, g)
        } by {
            if l > 0 {
                assert(all[l] == rest[l - 1]);
            }
        }
    }
}

/// Counting keeps the levels of every tree among its nodes.
pub proof fn lemma_counted_levels_fit<N>(before: Seq<RTreeScout<N>>, after: Seq<RTreeScout<N>>, g: int)
    requires
        levels_fit(before),
        before.len() == after.len(),
        forall|i: int| 0 <= i < before.len() ==> counted(#[trigger] before[i], after[i], g),
    ensures
        levels_fit(after),
{
    assert forall|i: int, l: int| 0 <= i < after.len() && 0 <= l < after[i].levels@.len() implies
        (#[trigger] after[i].levels@[l]).offset <= after[i].node_count && after[i].levels@[l].size
            <= after[i].node_count - after[i].levels@[l].offset by {
        let b = before[i];
        let a = after[i];
        assert(counted(b, a, g));
        let old_levels = b.levels@;
        let added = levels_above(b.node_count as int, b.leaf_count as int, g);
        let all = old_levels + added;
        lemma_levels_above_within(b.node_count as int, b.leaf_count as int, g);
        assert(a.levels@ == all.reverse());
        let m = all.len() - 1 - l;
        assert(a.levels@[l] == all[m]);
        if m < old_levels.len() {
            assert(all[m] == old_levels[m]);
            assert(b.levels@[m] == old_levels[m]);
        } else {
            assert(all[m] == added[m - old_levels.len()]);
        }
    }
}

/// Node counts and levels of every tree of a list.
fn count_trees<N>(trees: &mut Vec<RTreeScout<N>>, node_size_order: u8)
    requires
        1 <= node_size_order < usize::BITS,
        forall|i: int| 0 <= i < old(trees)@.len() ==> (#[trigger] old(trees)@[i]).node_count + nodes_above(
            old(trees)@[i].leaf_count as int,
            pow2(node_size_order as nat) as int,
        ) <= usize::MAX,
    ensures
        final(trees)@.len() == old(trees)@.len(),
        forall|i: int| 0 <= i < old(trees)@.len() ==> counted(
            #[trigger] old(trees)@[i],
            final(trees)@[i],
            pow2(node_size_order as nat) as int,
        ),
{
    let mut i: usize = 0;
    while i < trees.len()
        invariant
            1 <= node_size_order < usize::BITS,
            trees@.len() == old(trees)@.len(),
            forall|k: int| i <= k < trees@.len() ==> #[trigger] trees@[k] == old(trees)@[k],
            forall|k: int| 0 <= k < i ==> counted(#[trigger] old(trees)@[k], trees@[k], pow2(node_size_order as nat) as int),
            forall|k: int| 0 <= k < old(trees)@.len() ==> (#[trigger] old(trees)@[k]).node_count + nodes_above(
                old(trees)@[k].leaf_count as int,
                pow2(node_size_order as nat) as int,
            ) <= usize::MAX,
        decreases trees@.len() - i,
    {
        let ghost before = trees@;
        assert(trees@[i as int] == old(trees)@[i as int]);
        trees[i].compute_node_count_and_levels(node_size_order);
        proof {
            assert forall|k: int| i + 1 <= k < trees@.len() implies #[trigger] trees@[k] == old(trees)@[k] by {
                assert(trees@[k] == before[k]);
            }
            assert forall|k: int| 0 <= k < i + 1 implies counted(#[trigger] old(trees)@[k], trees@[k], pow2(node_size_order as nat) as int) by {
                if k < i {
                    assert(trees@[k] == before[k]);
                }
            }
        }
        i = i + 1;
    }
}

/// The nodes above `n` items grouped by `g` are at most twice as many.
pub proof fn lemma_nodes_above_bound(n: int, g: int)
    requires
        n >= 0,
        g >= 2,
    ensures
        0 <= nodes_above(n, g) <= 2 * n,
    decreases n,
{
    if n > g {
        lemma_div_ceil_bounds(n, g);
        let d = div_ceil(n, g);
        lemma_nodes_above_bound(d, g);
        assert(2 * (d - 1) <= (d - 1) * g) by (nonlinear_arith)
            requires
                d >= 1,
                g >= 2,
        ;
    }
}

/// Items below the level `k` of `levels_above(_, n, g)`: the `n` items for the first level.
pub open spec fn below(levels: Seq<Level>, n: int, k: int) -> int {
    if k == 0 {
        n
    } else {
        levels[k - 1].size as int
    }
}

/// Each level above `n` items groups the level below it, which has more than `g` items,
/// and the last level has at most `g` nodes.
/// The level `k` above `n` items groups the level below it, which has more than `g` items.
proof fn lemma_levels_above_at(offset: int, n: int, g: int, k: int)
    requires
        g >= 2,
        0 <= n <= u64::MAX,
        0 <= k < levels_above(offset, n, g).len(),
    ensures
        below(levels_above(offset, n, g), n, k) > g,
        levels_above(offset, n, g)[k].size == div_ceil(below(levels_above(offset, n, g), n, k), g),
    decreases k,
{
    lemma_levels_above_unfold(offset, n, g);
    lemma_div_ceil_bounds(n, g);
    let c = div_ceil(n, g);
    let rest = levels_above(offset + c, c, g);
    let levels = levels_above(offset, n, g);
    if k > 0 {
        lemma_levels_above_at(offset + c, c, g, k - 1);
        assert(levels[k] == rest[k - 1]);
        if k > 1 {
            assert(levels[k - 1] == rest[k - 2]);
        }
        assert(below(levels, n, k) == below(rest, c, k - 1));
    }
}

/// The levels above `n` items end with a level of at most `g` nodes, and there are none
/// when `n <= g`.
proof fn lemma_levels_above_top(offset: int, n: int, g: int)
    requires
        g >= 2,
        0 <= n <= u64::MAX,
    ensures
        levels_above(offset, n, g).len() == 0 <==> n <= g,
        levels_above(offset, n, g).len() > 0 ==> levels_above(offset, n, g).last().size <= g,
    decreases n,
{
    lemma_levels_above_unfold(offset, n, g);
    if n > g {
        lemma_div_ceil_bounds(n, g);
        let c = div_ceil(n, g);
        lemma_levels_above_top(offset + c, c, g);
        lemma_levels_above_unfold(offset + c, c, g);
        let rest = levels_above(offset + c, c, g);
        let levels = levels_above(offset, n, g);
        if rest.len() > 0 {
            assert(levels.last() == rest.last());
        }
    }
}

/// A tree whose levels have the sizes that the first pass computes for its leaves has a
/// packed shape of the least depth: it has no level when its leaves fit in one node, and
/// otherwise its root level has at least two nodes.
pub proof fn law_scout_levels_shape<S: Spec>(t: RTree<S>)
    requires
        1 <= t.node_size_order < usize::BITS,
        t.leaves@.len() <= u64::MAX,
        t.node_levels@.len() == scout_levels(t.leaves@.len() as int, t.group()).len(),
        forall|l: int|
            0 <= l < t.node_levels@.len() ==> (#[trigger] t.node_levels@[l])@.len() == scout_levels(
                t.leaves@.len() as int,
                t.group(),
            )[l].size,
    ensures
        t.shape_wf(),
        t.depth_spec() == 0 <==> t.leaves@.len() <= t.group(),
        t.depth_spec() > 0 ==> t.level_len(0) >= 2,
{
    let g = t.group();
    let n = t.leaves@.len() as int;
    lemma_pow2_two(t.node_size_order as nat);
    lemma_levels_above_top(0, n, g);
    let up = levels_above(0, n, g);
    let d = up.len() as int;
    assert(t.depth_spec() == d);
    assert forall|l: int| 0 <= l <= d implies #[trigger] t.level_len(l) == below(up, n, d - l) by {
        if l < d {
            assert(t.node_levels@[l]@.len() == scout_levels(n, g)[l].size);
            assert(scout_levels(n, g)[l] == up[d - 1 - l]);
        }
    }
    assert(t.level_len(0) <= g) by {
        if d > 0 {
            assert(up.last() == up[d - 1]);
        }
    }
    assert forall|l: int| 0 <= l < t.depth_spec() implies {
        &&& #[trigger] t.level_len(l) >= 1
        &&& (t.level_len(l) - 1) * t.group() < t.level_len(l + 1)
        &&& t.level_len(l + 1) <= t.level_len(l) * t.group()
    } by {
        let k = d - 1 - l;
        assert(t.level_len(l) == below(up, n, d - l));
        assert(t.level_len(l + 1) == below(up, n, d - l - 1));
        lemma_levels_above_at(0, n, g, k);
        assert(below(up, n, k + 1) == up[k].size);
        lemma_div_ceil_bounds(below(up, n, k), g);
    }
    if d > 0 {
        lemma_levels_above_at(0, n, g, d - 1);
        lemma_div_ceil_bounds(below(up, n, d - 1), g);
        assert(t.level_len(0) == up[d - 1].size);
        let x = below(up, n, d - 1);
        let c = div_ceil(x, g);
        assert(c >= 2) by (nonlinear_arith)
            requires
                x > g,
                x <= c * g,
                g >= 2,
        ;
    }
}

} // verus!
