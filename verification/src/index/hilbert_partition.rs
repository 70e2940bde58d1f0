//! Second pass: how many leaves fall in each Hilbert partition of each tree.
use vstd::prelude::*;
use crate::flat::{MemNode, MemWriteLeaf, RegNode, Time};
use crate::index::disjoint::NoData;
use crate::index::hilbert_spec::{HilbertSpec, partition_of};
use crate::index::pass::Event;
use crate::index::scout::{RTreeScout, ScoutPass};
use crate::irange::IRange;
use crate::memory::{MemReadSpec, MemWriteSpec};
use crate::register::RegSpec;
use crate::rtree::Spec;

verus! {

pub const BITS_PER_DIM: usize = 4;

/// Number of partitions of a tree: one per cell of a 16 x 16 grid.
pub const PARTITIONS: usize = 256;

/// Leaves of one partition: their number and the times they span.
#[derive(Debug, Clone, Copy)]
pub struct Partition {
    pub leaf_count: usize,
    pub time_range: IRange<Time>,
}

impl Partition {
    /// An empty partition, with an empty time range.
    pub open spec fn empty() -> Self {
        Partition { leaf_count: 0, time_range: IRange { min: u32::MAX, max: 0 } }
    }
}

impl Default for Partition {
    fn default() -> (r: Self)
        ensures
            r == Partition::empty(),
    {
        Self { leaf_count: 0, time_range: IRange { min: Time::MAX, max: Time::MIN } }
    }
}

/// The partitions of one tree.
pub struct RTreePartitions<S: Spec> {
    pub partitions: Vec<Partition>,
    pub bbox: S::Node,
}

/// The partition after one more leaf with the time range `t`.
pub open spec fn partition_with(p: Partition, t: IRange<Time>) -> Partition {
    Partition {
        leaf_count: (p.leaf_count + 1) as usize,
        time_range: IRange {
            min: if t.min < p.time_range.min { t.min } else { p.time_range.min },
            max: if p.time_range.max < t.max { t.max } else { p.time_range.max },
        },
    }
}

impl<S: HilbertSpec> RTreePartitions<S> {
    /// Empty partitions over the bounding box `bbox`.
    pub fn new(bbox: S::Node) -> (r: Self)
        ensures
            r.bbox == bbox,
            r.partitions@ == Seq::new(PARTITIONS as nat, |_i: int| Partition::empty()),
    {
        let mut partitions: Vec<Partition> = Vec::new();
        let mut i: usize = 0;
        while i < PARTITIONS
            invariant
                i <= PARTITIONS,
                partitions@ =~= Seq::new(i as nat, |_i: int| Partition::empty()),
            decreases PARTITIONS - i,
        {
            partitions.push(Partition::default());
            i = i + 1;
        }
        Self { bbox, partitions }
    }

    /// Count a leaf in its partition and widen the partition's time range to its times.
    pub fn push_leaf(&mut self, leaf: S::Leaf)
        requires
            old(self).partitions@.len() == PARTITIONS,
            S::leaf_wf(leaf),
            S::node_wf(old(self).bbox),
            S::node_covers_leaf(old(self).bbox, leaf),
            old(self).partitions@[partition_of(S::coordinates(leaf, old(self).bbox)) as int].leaf_count < usize::MAX,
        ensures
            final(self).bbox == old(self).bbox,
            ({
                let key = partition_of(S::coordinates(leaf, old(self).bbox)) as int;
                final(self).partitions@ == old(self).partitions@.update(
                    key,
                    partition_with(old(self).partitions@[key], S::leaf_times(leaf)),
                )
            }),
    {
        let key = S::hilbert_partition_key(&leaf, &self.bbox) as usize;
        let time_range = S::leaf_time_range(&leaf);
        let p = self.partitions[key];
        let updated = Partition {
            leaf_count: p.leaf_count + 1,
            time_range: IRange {
                min: if time_range.min < p.time_range.min { time_range.min } else { p.time_range.min },
                max: if p.time_range.max < time_range.max { time_range.max } else { p.time_range.max },
            },
        };
        self.partitions.set(key, updated);
    }
}

/// The first zone whose addresses meet `addr_range`.
pub fn find_zone_containing_addr_range(zones: &[RTreeScout<MemNode>], addr_range: IRange<u64>) -> (r: usize)
    requires
        addr_range.wf(),
        forall|i: int| 0 <= i < zones@.len() ==> (#[trigger] zones@[i]).bbox.wf(),
        exists|i: int| 0 <= i < zones@.len() && !(#[trigger] zones@[i]).bbox.addr_range_spec().disjoint_from(addr_range),
    ensures
        r < zones@.len(),
        !zones@[r as int].bbox.addr_range_spec().disjoint_from(addr_range),
        forall|i: int| 0 <= i < r ==> (#[trigger] zones@[i]).bbox.addr_range_spec().disjoint_from(addr_range),
{
    let mut i: usize = 0;
    while i < zones.len()
        invariant
            i <= zones@.len(),
            addr_range.wf(),
            forall|k: int| 0 <= k < zones@.len() ==> (#[trigger] zones@[k]).bbox.wf(),
            exists|k: int| 0 <= k < zones@.len() && !(#[trigger] zones@[k]).bbox.addr_range_spec().disjoint_from(addr_range),
            forall|k: int| 0 <= k < i ==> (#[trigger] zones@[k]).bbox.addr_range_spec().disjoint_from(addr_range),
        decreases zones@.len() - i,
    {
        let zone_range = zones[i].bbox.addr_range();
        proof {
            assert(zones@[i as int].bbox.wf());
        }
        if !zone_range.is_disjoint(&addr_range) {
            return i;
        }
        i = i + 1;
    }
    i
}

/// The partitions of every tree.
pub struct HilbertPartitionPass {
    pub write_zones: Vec<RTreePartitions<MemWriteSpec>>,
    pub read_zones: Vec<RTreePartitions<MemReadSpec>>,
    pub registers: Vec<RTreePartitions<RegSpec>>,
}


/// A leaf could not be placed in a partition: no zone holds it, a count would overflow,
/// or the leaf lies outside its tree's bounding box.
#[derive(Debug, Clone, Copy, PartialEq, Eq)]
pub enum PartitionError {
    NoZone,
    Overflow,
    Malformed,
}

pub(crate) fn mem_covers(outer: &MemNode, inner: &MemNode) -> (r: bool)
    ensures
        r == outer.covers(*inner),
{
    outer.addr_min <= inner.addr_min && inner.addr_max <= outer.addr_max && outer.time_min <= inner.time_min
        && inner.time_max <= outer.time_max
}

pub(crate) fn reg_covers(outer: &RegNode, inner: &RegNode) -> (r: bool)
    ensures
        r == outer.covers(*inner),
{
    outer.value_min <= inner.value_min && inner.value_max <= outer.value_max && outer.time_min <= inner.time_min
        && inner.time_max <= outer.time_max
}

fn partitions_of<N: Copy>(zones: &Vec<RTreeScout<N>>) -> (r: Vec<N>)
    ensures
        r@.len() == zones@.len(),
        forall|i: int| 0 <= i < zones@.len() ==> #[trigger] r@[i] == zones@[i].bbox,
{
    let mut r: Vec<N> = Vec::new();
    let mut i: usize = 0;
    while i < zones.len()
        invariant
            i <= zones@.len(),
            r@.len() == i,
            forall|k: int| 0 <= k < i ==> #[trigger] r@[k] == zones@[k].bbox,
        decreases zones@.len() - i,
    {
        r.push(zones[i].bbox);
        i = i + 1;
    }
    r
}

/// `after` is `before` with `leaf` counted in its partition of the tree `idx`.
pub open spec fn counted_in<S: HilbertSpec>(before: Seq<RTreePartitions<S>>, after: Seq<RTreePartitions<S>>, idx: int, leaf: S::Leaf) -> bool {
    let t = before[idx];
    let key = partition_of(S::coordinates(leaf, t.bbox)) as int;
    &&& 0 <= idx < before.len()
    &&& after.len() == before.len()
    &&& after[idx].bbox == t.bbox
    &&& after[idx].partitions@ == t.partitions@.update(key, partition_with(t.partitions@[key], S::leaf_times(leaf)))
    &&& forall|i: int| 0 <= i < before.len() && i != idx ==> #[trigger] after[i] == before[i]
}

/// Push a leaf in the partitions of the tree `idx`, checking what its requirements need.
fn push_checked<S: HilbertSpec>(trees: &mut Vec<RTreePartitions<S>>, idx: usize, leaf: S::Leaf, fits: bool) -> (r: Result<(), PartitionError>)
    requires
        fits ==> idx < old(trees)@.len() && S::leaf_wf(leaf) && S::node_wf(old(trees)@[idx as int].bbox)
            && S::node_covers_leaf(old(trees)@[idx as int].bbox, leaf),
        forall|i: int| 0 <= i < old(trees)@.len() ==> (#[trigger] old(trees)@[i]).partitions@.len() == PARTITIONS,
    ensures
        forall|i: int| 0 <= i < final(trees)@.len() ==> (#[trigger] final(trees)@[i]).partitions@.len() == PARTITIONS,
        final(trees)@.len() == old(trees)@.len(),
        r is Ok ==> fits,
        r is Ok ==> counted_in::<S>(old(trees)@, final(trees)@, idx as int, leaf),
        !fits ==> r == Err::<(), PartitionError>(PartitionError::Malformed),
        r is Err ==> r == Err::<(), PartitionError>(PartitionError::Malformed) || r == Err::<(), PartitionError>(
            PartitionError::Overflow,
        ),
        r == Err::<(), PartitionError>(PartitionError::Overflow) <==> fits
            && old(trees)@[idx as int].partitions@[partition_of(S::coordinates(leaf, old(trees)@[idx as int].bbox)) as int].leaf_count
            == usize::MAX,
        r is Ok ==> ({
            let t = old(trees)@[idx as int];
            let key = partition_of(S::coordinates(leaf, t.bbox)) as int;
            &&& final(trees)@[idx as int].bbox == t.bbox
            &&& final(trees)@[idx as int].partitions@ == t.partitions@.update(key, partition_with(t.partitions@[key], S::leaf_times(leaf)))
            &&& forall|i: int| 0 <= i < old(trees)@.len() && i != idx ==> final(trees)@[i] == old(trees)@[i]
        }),
        r is Err ==> final(trees)@ == old(trees)@,
{
    if !fits {
        return Err(PartitionError::Malformed);
    }
    let key = S::hilbert_partition_key(&leaf, &trees[idx].bbox) as usize;
    assert(trees@[idx as int].partitions@.len() == PARTITIONS);
    if trees[idx].partitions[key].leaf_count == usize::MAX {
        return Err(PartitionError::Overflow);
    }
    let ghost before = trees@;
    trees[idx].push_leaf(leaf);
    proof {
        assert forall|i: int| 0 <= i < trees@.len() implies (#[trigger] trees@[i]).partitions@.len() == PARTITIONS by {
            if i != idx {
                assert(trees@[i] == before[i]);
            }
        }
    }
    Ok(())
}

/// What counting one event does to the partition counts, and when it fails.
pub open spec fn partition_consumed(
    o: HilbertPartitionPass,
    event: Event<NoData>,
    scout: ScoutPass,
    n: HilbertPartitionPass,
    r: Result<(), PartitionError>,
) -> bool {
    &&& n.inv()
    &&& n.write_zones@.len() == o.write_zones@.len()
    &&& n.read_zones@.len() == o.read_zones@.len()
    &&& n.registers@.len() == o.registers@.len()
    &&& r is Err ==> n.write_zones@ == o.write_zones@ && n.read_zones@
        == o.read_zones@ && n.registers@ == o.registers@
    &&& match event {
        Event::MemoryWrite(l) => {
            let w = MemWriteLeaf { node: l.node, packed_data: 0 };
            &&& r == Err::<(), PartitionError>(PartitionError::NoZone) <==> l.node.wf() && forall|j: int|
                0 <= j < scout.write_zones@.len() ==> (#[trigger] scout.write_zones@[j]).bbox.addr_range_spec().disjoint_from(
                    l.node.addr_range_spec(),
                )
            &&& r is Ok ==> n.read_zones@ == o.read_zones@
                && n.registers@ == o.registers@
                && exists|i: int| first_zone_meeting(scout.write_zones@, l.node.addr_range_spec(), i)
                    && counted_in::<MemWriteSpec>(o.write_zones@, n.write_zones@, i, w)
        },
        Event::MemoryRead(l) => {
            &&& r == Err::<(), PartitionError>(PartitionError::NoZone) <==> l.wf() && forall|j: int|
                0 <= j < scout.read_zones@.len() ==> (#[trigger] scout.read_zones@[j]).bbox.addr_range_spec().disjoint_from(
                    l.node_spec().addr_range_spec(),
                )
            &&& r is Ok ==> n.write_zones@ == o.write_zones@
                && n.registers@ == o.registers@
                && exists|i: int| first_zone_meeting(scout.read_zones@, l.node_spec().addr_range_spec(), i)
                    && counted_in::<MemReadSpec>(o.read_zones@, n.read_zones@, i, l)
        },
        Event::Register { idx, leaf } => {
            r is Ok ==> n.write_zones@ == o.write_zones@
                && n.read_zones@ == o.read_zones@
                && counted_in::<RegSpec>(o.registers@, n.registers@, idx as int, leaf)
        },
        Event::AslrSlide(_) => r is Ok && n.write_zones@ == o.write_zones@
            && n.read_zones@ == o.read_zones@ && n.registers@ == o.registers@
    }
}

/// Every partition empty.
pub open spec fn empty_partitions() -> Seq<Partition> {
    Seq::new(PARTITIONS as nat, |_i: int| Partition::empty())
}

impl HilbertPartitionPass {
    pub open spec fn inv(&self) -> bool {
        &&& forall|i: int| 0 <= i < self.write_zones@.len() ==> (#[trigger] self.write_zones@[i]).partitions@.len() == PARTITIONS
        &&& forall|i: int| 0 <= i < self.read_zones@.len() ==> (#[trigger] self.read_zones@[i]).partitions@.len() == PARTITIONS
        &&& forall|i: int| 0 <= i < self.registers@.len() ==> (#[trigger] self.registers@[i]).partitions@.len() == PARTITIONS
    }

    /// Empty partitions for every tree that the first pass found.
    pub fn new(scout: &ScoutPass) -> (r: Self)
        ensures
            r.inv(),
            r.write_zones@.len() == scout.write_zones@.len(),
            r.read_zones@.len() == scout.read_zones@.len(),
            r.registers@.len() == scout.registers@.len(),
            forall|i: int| 0 <= i < r.write_zones@.len() ==> (#[trigger] r.write_zones@[i]).bbox == scout.write_zones@[i].bbox,
            forall|i: int| 0 <= i < r.write_zones@.len() ==> (#[trigger] r.write_zones@[i]).partitions@ == empty_partitions(),
            forall|i: int| 0 <= i < r.read_zones@.len() ==> (#[trigger] r.read_zones@[i]).bbox == scout.read_zones@[i].bbox,
            forall|i: int| 0 <= i < r.read_zones@.len() ==> (#[trigger] r.read_zones@[i]).partitions@ == empty_partitions(),
            forall|i: int| 0 <= i < r.registers@.len() ==> (#[trigger] r.registers@[i]).bbox == scout.registers@[i].bbox,
            forall|i: int| 0 <= i < r.registers@.len() ==> (#[trigger] r.registers@[i]).partitions@ == empty_partitions(),
    {
        let wb = partitions_of(&scout.write_zones);
        let rb = partitions_of(&scout.read_zones);
        let gb = partitions_of(&scout.registers);
        let mut write_zones: Vec<RTreePartitions<MemWriteSpec>> = Vec::new();
        let mut i: usize = 0;
        while i < wb.len()
            invariant
                i <= wb@.len(),
                write_zones@.len() == i,
                forall|k: int| 0 <= k < i ==> (#[trigger] write_zones@[k]).partitions@.len() == PARTITIONS && write_zones@[k].bbox == wb@[k],
                forall|k: int| 0 <= k < i ==> (#[trigger] write_zones@[k]).partitions@ == empty_partitions(),
            decreases wb@.len() - i,
        {
            write_zones.push(RTreePartitions::new(wb[i]));
            i = i + 1;
        }
        let mut read_zones: Vec<RTreePartitions<MemReadSpec>> = Vec::new();
        let mut i: usize = 0;
        while i < rb.len()
            invariant
                i <= rb@.len(),
                read_zones@.len() == i,
                forall|k: int| 0 <= k < i ==> (#[trigger] read_zones@[k]).partitions@.len() == PARTITIONS && read_zones@[k].bbox == rb@[k],
                forall|k: int| 0 <= k < i ==> (#[trigger] read_zones@[k]).partitions@ == empty_partitions(),
            decreases rb@.len() - i,
        {
            read_zones.push(RTreePartitions::new(rb[i]));
            i = i + 1;
        }
        let mut registers: Vec<RTreePartitions<RegSpec>> = Vec::new();
        let mut i: usize = 0;
        while i < gb.len()
            invariant
                i <= gb@.len(),
                registers@.len() == i,
                forall|k: int| 0 <= k < i ==> (#[trigger] registers@[k]).partitions@.len() == PARTITIONS && registers@[k].bbox == gb@[k],
                forall|k: int| 0 <= k < i ==> (#[trigger] registers@[k]).partitions@ == empty_partitions(),
            decreases gb@.len() - i,
        {
            registers.push(RTreePartitions::new(gb[i]));
            i = i + 1;
        }
        HilbertPartitionPass { write_zones, read_zones, registers }
    }

    /// Count one normalized event in the partition of its tree: a memory leaf goes to the
    /// first zone that its addresses meet.
    pub fn consume(&mut self, event: &Event<NoData>, scout: &ScoutPass) -> (r: Result<(), PartitionError>)
        requires
            old(self).inv(),
            scout.inv(),
        ensures
            partition_consumed(*old(self), *event, *scout, *final(self), r),
    {
        match event {
            Event::MemoryWrite(leaf) => {
                let node = leaf.node;
                if !(node.addr_min <= node.addr_max && node.time_min <= node.time_max) {
                    return Err(PartitionError::Malformed);
                }
                let idx = match find_zone_index(&scout.write_zones, node.addr_range()) {
                    Some(i) => i,
                    None => {
                        return Err(PartitionError::NoZone);
                    },
                };
                // the data of a leaf does not matter in this pass
                let w = MemWriteLeaf { node, packed_data: 0 };
                let fits = idx < self.write_zones.len() && mem_covers(&self.write_zones[idx].bbox, &node)
                    && self.write_zones[idx].bbox.addr_min <= self.write_zones[idx].bbox.addr_max
                    && self.write_zones[idx].bbox.time_min <= self.write_zones[idx].bbox.time_max;
                let r = push_checked(&mut self.write_zones, idx, w, fits);
                proof {
                    if r is Ok {
                        assert(first_zone_meeting(scout.write_zones@, node.addr_range_spec(), idx as int));
                    }
                }
                r
            },
            Event::MemoryRead(leaf) => {
                let node = leaf.node();
                if !(node.addr_min <= node.addr_max) {
                    return Err(PartitionError::Malformed);
                }
                let idx = match find_zone_index(&scout.read_zones, node.addr_range()) {
                    Some(i) => i,
                    None => {
                        return Err(PartitionError::NoZone);
                    },
                };
                let fits = idx < self.read_zones.len() && mem_covers(&self.read_zones[idx].bbox, &node)
                    && self.read_zones[idx].bbox.addr_min <= self.read_zones[idx].bbox.addr_max
                    && self.read_zones[idx].bbox.time_min <= self.read_zones[idx].bbox.time_max;
                let r = push_checked(&mut self.read_zones, idx, *leaf, fits);
                proof {
                    if r is Ok {
                        assert(first_zone_meeting(scout.read_zones@, node.addr_range_spec(), idx as int));
                    }
                }
                r
            },
            Event::Register { idx, leaf } => {
                let idx = *idx;
                let fits = idx < self.registers.len() && leaf.time_min <= leaf.time_max && reg_covers(
                    &self.registers[idx].bbox,
                    &leaf.node(),
                ) && self.registers[idx].bbox.value_min <= self.registers[idx].bbox.value_max
                    && self.registers[idx].bbox.time_min <= self.registers[idx].bbox.time_max;
                push_checked(&mut self.registers, idx, *leaf, fits)
            },
            Event::AslrSlide(_) => Ok(()),
        }
    }
}

/// `i` is the first zone whose addresses meet `range`.
pub open spec fn first_zone_meeting(zones: Seq<RTreeScout<MemNode>>, range: IRange<u64>, i: int) -> bool {
    &&& 0 <= i < zones.len()
    &&& !zones[i].bbox.addr_range_spec().disjoint_from(range)
    &&& forall|j: int| 0 <= j < i ==> (#[trigger] zones[j]).bbox.addr_range_spec().disjoint_from(range)
}

/// The first zone whose addresses meet `addr_range`, if any.
pub fn find_zone_index(zones: &Vec<RTreeScout<MemNode>>, addr_range: IRange<u64>) -> (r: Option<usize>)
    requires
        addr_range.wf(),
        forall|i: int| 0 <= i < zones@.len() ==> (#[trigger] zones@[i]).bbox.wf(),
    ensures
        r is None <==> forall|i: int| 0 <= i < zones@.len() ==> (#[trigger] zones@[i]).bbox.addr_range_spec().disjoint_from(addr_range),
        r matches Some(k) ==> k < zones@.len() && !zones@[k as int].bbox.addr_range_spec().disjoint_from(addr_range)
            && forall|i: int| 0 <= i < k ==> (#[trigger] zones@[i]).bbox.addr_range_spec().disjoint_from(addr_range),
{
    let mut i: usize = 0;
    while i < zones.len()
        invariant
            i <= zones@.len(),
            addr_range.wf(),
            forall|k: int| 0 <= k < zones@.len() ==> (#[trigger] zones@[k]).bbox.wf(),
            forall|k: int| 0 <= k < i ==> (#[trigger] zones@[k]).bbox.addr_range_spec().disjoint_from(addr_range),
        decreases zones@.len() - i,
    {
        let zone_range = zones[i].bbox.addr_range();
        proof {
            assert(zones@[i as int].bbox.wf());
        }
        if !zone_range.is_disjoint(&addr_range) {
            return Some(i);
        }
        i = i + 1;
    }
    None
}

} // verus!
