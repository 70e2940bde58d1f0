//! The database: loading from bytes, multi-zone queries and memory fetches.
use vstd::prelude::*;
use crate::flat::{
    Addr, Header, Level, MemNode, MemReadLeaf, MemWriteLeaf, RTreeHeader, RTreeList, RegLeaf, RegNode,
    Section, Time, Zerocopyable,
};
use crate::{DB_MAGIC, DB_VERSION};
use crate::irange::IRange;
use crate::memory::{MemReadSpec, MemWriteSpec, write_addr_matches, write_time};
use crate::query::{Query, QueryIter, min_int};
use crate::register::RegSpec;
use crate::rtree::{RTree, Spec};
use vstd::bytes::{spec_u64_to_le_bytes, u64_to_le_bytes};
use vstd::slice::{slice_subrange, slice_to_vec};

verus! {

/// Indexed database of an execution trace
pub struct Db<'s> {
    pub write_zones: Vec<RTree<MemWriteSpec>>,
    pub read_zones: Vec<RTree<MemReadSpec>>,
    pub registers: Vec<RTree<RegSpec>>,
    pub metadata: Metadata,
    pub raw_data: &'s [u8],
}

#[derive(Debug, Default, Clone)]
pub struct Metadata {
    pub alsr_slide: Option<Addr>,
    pub register_names: Vec<String>,
}

#[derive(Debug, PartialEq, Eq, Structural)]
pub enum LoadError {
    InvalidMagic,
    InvalidVersion { got: u64, expected: u64 },
    Corrupted,
}

impl<'s> Db<'s> {
    /// Every zone and register tree has a packed shape and well-formed items.
    pub open spec fn trees_ok(&self) -> bool {
        &&& forall|z: int|
            0 <= z < self.write_zones@.len() ==> (#[trigger] self.write_zones@[z]).shape_wf()
                && self.write_zones@[z].items_wf()
        &&& forall|z: int|
            0 <= z < self.read_zones@.len() ==> (#[trigger] self.read_zones@[z]).shape_wf()
                && self.read_zones@[z].items_wf()
        &&& forall|z: int|
            0 <= z < self.registers@.len() ==> (#[trigger] self.registers@[z]).shape_wf()
                && self.registers@[z].items_wf()
    }

    /// Whether every zone and register tree is well formed (see `trees_wf`): a database
    /// loaded from bytes is checked with it before queries.
    pub fn trees_checked(&self) -> (r: bool)
        ensures
            r == self.trees_wf(),
            r ==> self.trees_ok(),
    {
        let mut z: usize = 0;
        while z < self.write_zones.len()
            invariant
                z <= self.write_zones@.len(),
                forall|k: int| 0 <= k < z ==> (#[trigger] self.write_zones@[k]).wf(),
            decreases self.write_zones@.len() - z,
        {
            if !self.write_zones[z].wf_checked() {
                return false;
            }
            z = z + 1;
        }
        let mut z: usize = 0;
        while z < self.read_zones.len()
            invariant
                z <= self.read_zones@.len(),
                forall|k: int| 0 <= k < z ==> (#[trigger] self.read_zones@[k]).wf(),
            decreases self.read_zones@.len() - z,
        {
            if !self.read_zones[z].wf_checked() {
                return false;
            }
            z = z + 1;
        }
        let mut z: usize = 0;
        while z < self.registers.len()
            invariant
                z <= self.registers@.len(),
                forall|k: int| 0 <= k < z ==> (#[trigger] self.registers@[k]).wf(),
            decreases self.registers@.len() - z,
        {
            if !self.registers[z].wf_checked() {
                return false;
            }
            z = z + 1;
        }
        assert(forall|k: int| 0 <= k < self.write_zones@.len() ==> (#[trigger] self.write_zones@[k]).wf());
        true
    }

    /// Every tree is well formed, bounding boxes included.
    pub open spec fn trees_wf(&self) -> bool {
        &&& forall|z: int|
            0 <= z < self.write_zones@.len() ==> (#[trigger] self.write_zones@[z]).wf()
        &&& forall|z: int| 0 <= z < self.read_zones@.len() ==> (#[trigger] self.read_zones@[z]).wf()
        &&& forall|z: int| 0 <= z < self.registers@.len() ==> (#[trigger] self.registers@[z]).wf()
    }
}


/// The bytes a memory write leaf stores: inlined little-endian in `packed_data` for
/// at most 8 bytes, else at offset `packed_data` of the data section.
pub open spec fn leaf_bytes(leaf: MemWriteLeaf, raw_data: Seq<u8>) -> Seq<u8> {
    let len = leaf.node.addr_max - leaf.node.addr_min + 1;
    if len <= 8 {
        spec_u64_to_le_bytes(leaf.packed_data).take(len)
    } else {
        raw_data.subrange(leaf.packed_data as int, leaf.packed_data + len)
    }
}

impl<'s> Db<'s> {
    /// The leaf is well formed and its bytes lie inside the data section.
    pub open spec fn leaf_data_ok(&self, leaf: MemWriteLeaf) -> bool {
        &&& leaf.node.wf()
        &&& leaf.node.addr_max <= usize::MAX
        &&& leaf.node.addr_max - leaf.node.addr_min + 1 <= usize::MAX
        &&& (leaf.node.addr_max - leaf.node.addr_min + 1 > 8 ==> leaf.packed_data + (
        leaf.node.addr_max - leaf.node.addr_min + 1) <= self.raw_data@.len())
    }

    /// Every write leaf of every zone has its bytes.
    pub open spec fn write_data_ok(&self) -> bool {
        forall|z: int, j: int|
            0 <= z < self.write_zones@.len() && 0 <= j < self.write_zones@[z].leaves@.len()
                ==> self.leaf_data_ok(#[trigger] self.write_zones@[z].leaves@[j])
    }

    /// Traversal of every write zone with a query, the last zone first.
    pub fn mem_write_query<Q: Query<MemWriteSpec> + Copy>(&self, query: Q) -> (r: MultiQueryIter<'_, MemWriteSpec, Q>)
        requires
            self.trees_ok(),
            query.query_wf(),
        ensures
            r.inv(),
            r.trees() == accepted_trees(query, self.write_zones@),
            r.zones_spec().len() == r.trees().len(),
            forall|z: int|
                0 <= z < r.zones_spec().len() ==> (#[trigger] r.zones_spec()[z]).cursor() == 0
                    && r.zones_spec()[z].query_spec() == query && r.zones_spec()[z].tree()
                    == r.trees()[z],
    {
        MultiQueryIter::new(query, self.write_zones.as_slice())
    }

    /// Traversal of every read zone with a query, the last zone first.
    pub fn mem_read_query<Q: Query<MemReadSpec> + Copy>(&self, query: Q) -> (r: MultiQueryIter<'_, MemReadSpec, Q>)
        requires
            self.trees_ok(),
            query.query_wf(),
        ensures
            r.inv(),
            r.trees() == accepted_trees(query, self.read_zones@),
            r.zones_spec().len() == r.trees().len(),
            forall|z: int|
                0 <= z < r.zones_spec().len() ==> (#[trigger] r.zones_spec()[z]).cursor() == 0
                    && r.zones_spec()[z].query_spec() == query && r.zones_spec()[z].tree()
                    == r.trees()[z],
    {
        MultiQueryIter::new(query, self.read_zones.as_slice())
    }

    /// Write leaves intersecting a rectangle.
    pub fn mem_write_intersects(&self, node: MemNode) -> (r: MultiQueryIter<'_, MemWriteSpec, MemIntersects>)
        requires
            self.trees_ok(),
            node.wf(),
        ensures
            r.inv(),
            r.trees() == accepted_trees(MemIntersects::of(node), self.write_zones@),
            r.zones_spec().len() == r.trees().len(),
            forall|z: int|
                0 <= z < r.zones_spec().len() ==> (#[trigger] r.zones_spec()[z]).cursor() == 0
                    && r.zones_spec()[z].query_spec() == MemIntersects::of(node)
                    && r.zones_spec()[z].tree() == r.trees()[z],
    {
        self.mem_write_query(MemIntersects::new(node))
    }

    /// Read leaves intersecting a rectangle.
    pub fn mem_read_intersects(&self, node: MemNode) -> (r: MultiQueryIter<'_, MemReadSpec, MemIntersects>)
        requires
            self.trees_ok(),
            node.wf(),
        ensures
            r.inv(),
            r.trees() == accepted_trees(MemIntersects::of(node), self.read_zones@),
            r.zones_spec().len() == r.trees().len(),
            forall|z: int|
                0 <= z < r.zones_spec().len() ==> (#[trigger] r.zones_spec()[z]).cursor() == 0
                    && r.zones_spec()[z].query_spec() == MemIntersects::of(node)
                    && r.zones_spec()[z].tree() == r.trees()[z],
    {
        self.mem_read_query(MemIntersects::new(node))
    }


    /// A reported leaf has its bytes and meets the rectangle.
    proof fn lemma_hit_leaf(&self, rect: MemNode, z: int, j: int)
        requires
            self.write_data_ok(),
            self.write_hit(rect, z, j),
        ensures
            self.leaf_data_ok(self.write_hit_leaf(rect, (z, j))),
            !rect.disjoint_from(self.write_hit_leaf(rect, (z, j)).node),
    {
        let q = MemIntersects::of(rect);
        let acc = accepted_trees(q, self.write_zones@);
        assert(acc.contains(acc[z]));
        self.write_zones@.lemma_filter_contains_rev(accepts_bbox(q), acc[z]);
        let zz = choose|zz: int| 0 <= zz < self.write_zones@.len() && self.write_zones@[zz] == acc[z];
        assert(self.leaf_data_ok(self.write_zones@[zz].leaves@[j]));
        MemIntersects::lemma_of_rect(rect);
    }

    /// Fetch the bytes of an address range at a given time: the leaves intersecting the
    /// range at that time are copied in the order of the traversals. The valid time range
    /// begins at the latest start of the leaves copied and ends at the earliest end; where
    /// some byte has no value, it also ends before the next write to the range.
    pub fn fetch_at<BA: ByteArray<BS>, BS: ByteStorage>(&self, addr_range: IRange<Addr>, time: Time) -> (r: Fetch<Time, BA>)
        requires
            self.trees_ok(),
            self.write_data_ok(),
            addr_range.wf(),
            addr_range.count() <= usize::MAX,
            addr_range.max <= usize::MAX,
            BA::new_ok(addr_range.count() as usize),
        ensures
            exists|order: Seq<(int, int)>|
                #![trigger self.write_hit_order(fetch_rect(addr_range, time), order)]
                {
                    let rect = fetch_rect(addr_range, time);
                    let st = fetch_fold::<BS>(
                        rect,
                        addr_range.count() as nat,
                        order.map_values(|p: (int, int)| self.write_hit_leaf(rect, p)),
                        self.raw_data@,
                    );
                    &&& self.write_hit_order(rect, order)
                    &&& r.array.items() == st.0
                    &&& r.is_complete == (st.3 == addr_range.count())
                    &&& r.valid_time_range.min == st.1
                    &&& r.is_complete ==> r.valid_time_range.max == st.2
                    &&& !r.is_complete ==> time <= r.valid_time_range.max <= st.2
                    &&& !r.is_complete && self.trees_wf() ==> (r.valid_time_range.max == st.2 || exists|z: int, j: int|
                        0 <= z < self.write_zones@.len() && #[trigger] write_addr_matches(self.write_zones@[z], j, addr_range)
                            && write_time(self.write_zones@[z], j) == r.valid_time_range.max + 1)
                },
            !r.is_complete && self.trees_wf() ==> forall|z: int, j: int|
                0 <= z < self.write_zones@.len() && #[trigger] write_addr_matches(self.write_zones@[z], j, addr_range)
                    && write_time(self.write_zones@[z], j) > time ==> r.valid_time_range.max < write_time(self.write_zones@[z], j),
    {
        let total = addr_range.span_usize();
        let rect = MemNode {
            addr_min: addr_range.min,
            addr_max: addr_range.max,
            time_min: time,
            time_max: time,
        };
        let mut array = BA::new(total);
        let mut time_start: Time = 0;
        let mut time_end: Time = Time::MAX;
        let mut filled: u128 = 0;
        let mut iter = self.mem_write_intersects(rect);
        let ghost q = MemIntersects::of(rect);
        let ghost acc = accepted_trees(q, self.write_zones@);
        let ghost mut order: Seq<(int, int)> = Seq::empty();
        proof {
            MemIntersects::lemma_of_rect(rect);
            assert forall|y: int, i: int|
                #[trigger] iter.pending(y, i) <==> self.write_hit(rect, y, i) by {
                if 0 <= y < iter.zones_spec().len() {
                    assert(iter.zones_spec()[y].cursor() == 0);
                }
            }
        }
        loop
            invariant
                rect == fetch_rect(addr_range, time),
                rect.wf(),
                total == addr_range.count(),
                self.write_data_ok(),
                q == MemIntersects::of(rect),
                acc == accepted_trees(q, self.write_zones@),
                iter.inv(),
                iter.zones_spec().len() <= acc.len(),
                forall|y: int|
                    0 <= y < iter.zones_spec().len() ==> (#[trigger] iter.zones_spec()[y]).tree()
                        == acc[y] && iter.zones_spec()[y].query_spec() == q,
                forall|y: int, i: int|
                    #[trigger] iter.pending(y, i) <==> self.write_hit(rect, y, i) && (order.len()
                        == 0 || visited_before(order.last(), (y, i))),
                forall|k: int|
                    0 <= k < order.len() ==> self.write_hit(rect, #[trigger] order[k].0, order[k].1),
                forall|k1: int, k2: int|
                    0 <= k1 < k2 < order.len() ==> visited_before(
                        #[trigger] order[k1],
                        #[trigger] order[k2],
                    ),
                forall|y: int, i: int|
                    #[trigger] self.write_hit(rect, y, i) ==> iter.pending(y, i) || order.contains(
                        (y, i),
                    ),
                ({
                    let st = fetch_fold::<BS>(
                        rect,
                        total as nat,
                        order.map_values(|p: (int, int)| self.write_hit_leaf(rect, p)),
                        self.raw_data@,
                    );
                    &&& array.items() == st.0
                    &&& array.items().len() == total
                    &&& time_start == st.1
                    &&& time_end == st.2
                    &&& filled == min_int(st.3, total + 1)
                    &&& st.1 <= time <= st.2
                    &&& 0 <= st.3
                }),
            ensures
                forall|y: int, i: int| #[trigger] self.write_hit(rect, y, i) ==> order.contains((y, i)),
                ({
                    let st = fetch_fold::<BS>(
                        rect,
                        total as nat,
                        order.map_values(|p: (int, int)| self.write_hit_leaf(rect, p)),
                        self.raw_data@,
                    );
                    &&& array.items() == st.0
                    &&& time_start == st.1
                    &&& time_end == st.2
                    &&& filled == min_int(st.3, total + 1)
                    &&& st.1 <= time <= st.2
                    &&& 0 <= st.3
                }),
                forall|k: int|
                    0 <= k < order.len() ==> self.write_hit(rect, #[trigger] order[k].0, order[k].1),
                forall|k1: int, k2: int|
                    0 <= k1 < k2 < order.len() ==> visited_before(
                        #[trigger] order[k1],
                        #[trigger] order[k2],
                    ),
            decreases iter.zones_spec().len(), iter.top_remaining(),
        {
            let ghost st0 = fetch_fold::<BS>(
                rect,
                total as nat,
                order.map_values(|p: (int, int)| self.write_hit_leaf(rect, p)),
                self.raw_data@,
            );
            let ghost it0 = iter;
            match iter.next() {
                None => {
                    proof {
                        assert forall|y: int, i: int| #[trigger] self.write_hit(rect, y, i) implies order.contains((y, i)) by {
                            assert(!iter.pending(y, i));
                        }
                    }
                    break;
                },
                Some(leaf) => {
                    let ghost (z, j) = choose|z: int, j: int|
                        {
                            &&& #[trigger] it0.pending(z, j)
                            &&& *leaf == it0.zones_spec()[z].tree().leaves@[j]
                            &&& forall|y: int, i: int| z < y ==> !#[trigger] it0.pending(y, i)
                            &&& forall|i: int| i < j ==> !#[trigger] it0.pending(z, i)
                            &&& forall|y: int, i: int|
                                #[trigger] iter.pending(y, i) <==> it0.pending(y, i) && (y != z
                                    || i > j)
                        };
                    proof {
                        self.lemma_hit_leaf(rect, z, j);
                        assert(*leaf == self.write_hit_leaf(rect, (z, j)));
                    }
                    let data = self.mem_leaf_data(leaf);
                    if time_start < leaf.node.time_min {
                        time_start = leaf.node.time_min;
                    }
                    if leaf.node.time_max < time_end {
                        time_end = leaf.node.time_max;
                    }
                    proof {
                        assert(!rect.disjoint_from(leaf.node));
                        assert(leaf.node.addr_min <= rect.addr_max);
                        assert(rect.addr_min <= leaf.node.addr_max);
                        assert(rect.addr_max - rect.addr_min + 1 == total);
                    }
                    let out_off: usize;
                    let node_off: usize;
                    if leaf.node.addr_min < rect.addr_min {
                        out_off = 0;
                        node_off = (rect.addr_min - leaf.node.addr_min) as usize;
                    } else {
                        let d = leaf.node.addr_min - rect.addr_min;
                        assert(d < total);
                        out_off = d as usize;
                        assert(out_off == d);
                        node_off = 0;
                    }
                    proof {
                        assert(out_off < total);
                        assert(node_off < data@.len());
                    }
                    let size = if total - out_off < data.len() - node_off {
                        total - out_off
                    } else {
                        data.len() - node_off
                    };
                    let ghost arr0 = array.items();
                    let mut idx: usize = 0;
                    while idx < size
                        invariant
                            idx <= size,
                            out_off + size <= total,
                            node_off + size <= data.len(),
                            data.len() == data@.len(),
                            array.items().len() == total,
                            forall|k: int|
                                0 <= k < total ==> #[trigger] array.items()[k] == if out_off <= k
                                    < out_off + idx {
                                    BS::spec_from_byte(data@[node_off + (k - out_off)])
                                } else {
                                    arr0[k]
                                },
                        decreases size - idx,
                    {
                        array.put(out_off + idx, BS::from_byte(data[node_off + idx]));
                        idx = idx + 1;
                    }
                    filled = if filled + (size as u128) < (total as u128) + 1 {
                        filled + (size as u128)
                    } else {
                        (total as u128) + 1
                    };
                    proof {
                        let order0 = order;
                        order = order.push((z, j));
                        let leaves = order.map_values(|p: (int, int)| self.write_hit_leaf(rect, p));
                        assert(leaves.drop_last() =~= order0.map_values(
                            |p: (int, int)| self.write_hit_leaf(rect, p),
                        ));
                        assert(leaves.last() == *leaf);
                        assert(copy_offsets(rect, *leaf) == (out_off as int, node_off as int));
                        assert(arr0 == st0.0);
                        assert(size == min_int(st0.0.len() - out_off, data@.len() - node_off));
                        assert(array.items() =~= fetch_step(st0, rect, *leaf, data@).0);
                        assert forall|k1: int, k2: int|
                            0 <= k1 < k2 < order.len() implies visited_before(
                                #[trigger] order[k1],
                                #[trigger] order[k2],
                            ) by {
                            if k2 == order.len() - 1 && k1 < order0.len() {
                                assert(it0.pending(z, j));
                            }
                        }
                        assert forall|y: int, i: int|
                            #[trigger] self.write_hit(rect, y, i) implies iter.pending(y, i)
                                || order.contains((y, i)) by {
                            if !iter.pending(y, i) && !order0.contains((y, i)) {
                                assert(it0.pending(y, i));
                                assert(y == z && i <= j);
                                if i < j {
                                    assert(!it0.pending(z, i));
                                }
                                assert(order[order.len() - 1] == (y, i));
                            } else if order0.contains((y, i)) {
                                let k = choose|k: int| 0 <= k < order0.len() && order0[k] == (y, i);
                                assert(order[k] == (y, i));
                            }
                        }
                        assert forall|y: int, i: int|
                            #[trigger] iter.pending(y, i) <==> self.write_hit(rect, y, i) && (
                            order.len() == 0 || visited_before(order.last(), (y, i))) by {
                            if it0.pending(y, i) && !(y != z || i > j) {
                            }
                            if self.write_hit(rect, y, i) && visited_before((z, j), (y, i)) {
                                if order0.len() > 0 {
                                    assert(visited_before(order0.last(), (z, j)));
                                }
                                assert(it0.pending(y, i));
                            }
                        }
                    }
                },
            }
        }
        proof {
            assert(self.write_hit_order(fetch_rect(addr_range, time), order));
        }
        let is_complete = filled == total as u128;
        let mut time_end = time_end;
        if !is_complete {
            match self.next_mem_write(time, addr_range) {
                Some(next) => {
                    if next > time && next - 1 < time_end {
                        time_end = next - 1;
                    }
                },
                None => {},
            }
        }
        let valid_time_range = IRange::new(time_start, time_end);
        Fetch { array, is_complete, valid_time_range }
    }

    /// Whether the leaf is well formed and its bytes lie inside the data section.
    pub fn leaf_data_in_bounds(&self, leaf: &MemWriteLeaf) -> (r: bool)
        ensures
            r == self.leaf_data_ok(*leaf),
    {
        let n = &leaf.node;
        if n.addr_min > n.addr_max || n.time_min > n.time_max {
            return false;
        }
        if n.addr_max as u128 > usize::MAX as u128 {
            return false;
        }
        let len: u128 = n.addr_max as u128 - n.addr_min as u128 + 1;
        if len > usize::MAX as u128 {
            return false;
        }
        len <= 8 || leaf.packed_data as u128 + len <= self.raw_data.len() as u128
    }

    /// Whether every write leaf of every zone has its bytes (see `write_data_ok`).
    pub fn write_data_in_bounds(&self) -> (r: bool)
        ensures
            r == self.write_data_ok(),
    {
        let mut z: usize = 0;
        while z < self.write_zones.len()
            invariant
                z <= self.write_zones@.len(),
                forall|y: int, j: int|
                    0 <= y < z && 0 <= j < self.write_zones@[y].leaves@.len()
                        ==> self.leaf_data_ok(#[trigger] self.write_zones@[y].leaves@[j]),
            decreases self.write_zones@.len() - z,
        {
            let zone = &self.write_zones[z];
            let mut j: usize = 0;
            while j < zone.leaves.len()
                invariant
                    z < self.write_zones@.len(),
                    zone == self.write_zones@[z as int],
                    j <= zone.leaves@.len(),
                    forall|y: int, k: int|
                        0 <= y < z && 0 <= k < self.write_zones@[y].leaves@.len()
                            ==> self.leaf_data_ok(#[trigger] self.write_zones@[y].leaves@[k]),
                    forall|k: int| 0 <= k < j ==> self.leaf_data_ok(#[trigger] zone.leaves@[k]),
                decreases zone.leaves@.len() - j,
            {
                if !self.leaf_data_in_bounds(&zone.leaves[j]) {
                    return false;
                }
                j = j + 1;
            }
            proof {
                assert forall|y: int, k: int|
                    0 <= y < z + 1 && 0 <= k < self.write_zones@[y].leaves@.len()
                        implies self.leaf_data_ok(#[trigger] self.write_zones@[y].leaves@[k]) by {
                    if y == z {
                        assert(self.write_zones@[y].leaves@[k] == zone.leaves@[k]);
                    }
                }
            }
            z = z + 1;
        }
        true
    }

    /// Bytes written by a memory write leaf.
    pub fn mem_leaf_data(&self, leaf: &MemWriteLeaf) -> (r: Vec<u8>)
        requires
            self.leaf_data_ok(*leaf),
        ensures
            r@ == leaf_bytes(*leaf, self.raw_data@),
            r@.len() == leaf.node.addr_max - leaf.node.addr_min + 1,
    {
        let len = leaf.addr_range().span_usize();
        if len <= 8 {
            let mut bytes = u64_to_le_bytes(leaf.packed_data);
            bytes.truncate(len);
            proof {
                assert(bytes@ =~= spec_u64_to_le_bytes(leaf.packed_data).take(len as int));
            }
            bytes
        } else {
            let raw_len = self.raw_data.len();
            let offset = leaf.packed_data as usize;
            let data = slice_subrange(self.raw_data, offset, offset + len);
            proof {
                assert(raw_len == self.raw_data@.len());
            }
            slice_to_vec(data)
        }
    }
}


/// Memory fetch result
pub struct Fetch<T, BA> {
    /// This time range span between the previous and the next memory update affecting the requested address range
    pub valid_time_range: IRange<T>,
    /// Loaded data
    pub array: BA,
    /// False if at least one address has no value
    pub is_complete: bool,
}

/// One byte of a fetch result: a plain byte, or a byte that may be unknown.
pub trait ByteStorage: Copy + Sized {
    /// The value stored for a known byte.
    spec fn spec_from_byte(v: u8) -> Self;

    /// The value stored where no byte is known.
    spec fn spec_empty() -> Self;

    fn from_byte(v: u8) -> (r: Self)
        ensures
            r == Self::spec_from_byte(v),
    ;

    fn empty() -> (r: Self)
        ensures
            r == Self::spec_empty(),
    ;
}

impl ByteStorage for u8 {
    open spec fn spec_from_byte(v: u8) -> u8 {
        v
    }

    open spec fn spec_empty() -> u8 {
        0
    }

    fn from_byte(v: u8) -> (r: u8) {
        v
    }

    fn empty() -> (r: u8) {
        0
    }
}

impl ByteStorage for Option<u8> {
    open spec fn spec_from_byte(v: u8) -> Option<u8> {
        Some(v)
    }

    open spec fn spec_empty() -> Option<u8> {
        None
    }

    fn from_byte(v: u8) -> (r: Option<u8>) {
        Some(v)
    }

    fn empty() -> (r: Option<u8>) {
        None
    }
}

/// A buffer of `ByteStorage` items that a fetch fills.
pub trait ByteArray<S: ByteStorage>: Sized {
    spec fn items(&self) -> Seq<S>;

    /// A buffer of `size` items can be made.
    spec fn new_ok(size: usize) -> bool;

    fn new(size: usize) -> (r: Self)
        requires
            Self::new_ok(size),
        ensures
            r.items() == Seq::new(size as nat, |_i: int| S::spec_empty()),
    ;

    fn put(&mut self, idx: usize, v: S)
        requires
            idx < old(self).items().len(),
        ensures
            final(self).items() == old(self).items().update(idx as int, v),
    ;
}

impl<S: ByteStorage> ByteArray<S> for Vec<S> {
    open spec fn items(&self) -> Seq<S> {
        self@
    }

    open spec fn new_ok(size: usize) -> bool {
        true
    }

    fn new(size: usize) -> (r: Self) {
        let mut v: Vec<S> = Vec::new();
        let e = S::empty();
        let mut i: usize = 0;
        while i < size
            invariant
                i <= size,
                e == S::spec_empty(),
                v@ =~= Seq::new(i as nat, |_i: int| S::spec_empty()),
            decreases size - i,
        {
            v.push(e);
            i = i + 1;
        }
        v
    }

    fn put(&mut self, idx: usize, v: S) {
        self.set(idx, v);
    }
}

impl<const LEN: usize, S: ByteStorage> ByteArray<S> for [S; LEN] {
    open spec fn items(&self) -> Seq<S> {
        self@
    }

    open spec fn new_ok(size: usize) -> bool {
        size == LEN
    }

    fn new(size: usize) -> (r: Self) {
        let r = [S::empty(); LEN];
        assert(r@ =~= Seq::new(size as nat, |_i: int| S::spec_empty()));
        r
    }

    fn put(&mut self, idx: usize, v: S) {
        self[idx] = v;
    }
}

pub open spec fn max_int(a: int, b: int) -> int {
    if a < b {
        b
    } else {
        a
    }
}

/// Where a leaf's bytes start being copied: in the output, and in the leaf's data.
pub open spec fn copy_offsets(rect: MemNode, leaf: MemWriteLeaf) -> (int, int) {
    if leaf.node.addr_min < rect.addr_min {
        (0, rect.addr_min - leaf.node.addr_min)
    } else {
        (leaf.node.addr_min - rect.addr_min, 0)
    }
}

/// Fetch state (bytes, start and end of the valid time range, bytes filled) after
/// copying the bytes `data` of one more leaf.
pub open spec fn fetch_step<BS: ByteStorage>(
    st: (Seq<BS>, int, int, int),
    rect: MemNode,
    leaf: MemWriteLeaf,
    data: Seq<u8>,
) -> (Seq<BS>, int, int, int) {
    let (out_off, node_off) = copy_offsets(rect, leaf);
    let size = min_int(st.0.len() - out_off, data.len() - node_off);
    (
        Seq::new(
            st.0.len(),
            |k: int|
                if out_off <= k < out_off + size {
                    BS::spec_from_byte(data[node_off + (k - out_off)])
                } else {
                    st.0[k]
                },
        ),
        max_int(st.1, leaf.node.time_min as int),
        min_int(st.2, leaf.node.time_max as int),
        st.3 + size,
    )
}

/// How many items of `s` hold a byte.
pub open spec fn known_count<BS: ByteStorage>(s: Seq<BS>) -> int
    decreases s.len(),
{
    if s.len() == 0 {
        0
    } else {
        known_count(s.drop_last()) + if s.last() == BS::spec_empty() {
            0int
        } else {
            1int
        }
    }
}

/// No two leaves share an address.
pub open spec fn leaves_apart(leaves: Seq<MemWriteLeaf>) -> bool {
    forall|i: int, j: int|
        0 <= i < j < leaves.len() ==> (#[trigger] leaves[i]).node.addr_max < (#[trigger] leaves[j]).node.addr_min
            || leaves[j].node.addr_max < leaves[i].node.addr_min
}

/// A known byte is never stored as the empty value.
pub open spec fn bytes_distinct_from_empty<BS: ByteStorage>() -> bool {
    forall|v: u8| #[trigger] BS::spec_from_byte(v) != BS::spec_empty()
}

proof fn lemma_known_count_window<BS: ByteStorage>(s1: Seq<BS>, s2: Seq<BS>, a: int, b: int)
    requires
        s1.len() == s2.len(),
        0 <= a <= b <= s1.len(),
        forall|k: int| 0 <= k < s1.len() && !(a <= k < b) ==> s2[k] == s1[k],
        forall|k: int| a <= k < b ==> s1[k] == BS::spec_empty() && s2[k] != BS::spec_empty(),
    ensures
        known_count(s2) == known_count(s1) + (b - a),
    decreases s1.len(),
{
    if a == b {
        assert(s1 =~= s2);
    } else if s1.len() > 0 {
        let n = s1.len() - 1;
        if a <= n && n < b {
            lemma_known_count_window(s1.drop_last(), s2.drop_last(), a, b - 1);
        } else {
            lemma_known_count_window(s1.drop_last(), s2.drop_last(), a, b);
        }
    }
}

proof fn lemma_known_count_full<BS: ByteStorage>(s: Seq<BS>)
    ensures
        known_count(s) <= s.len(),
        known_count(s) == s.len() <==> forall|k: int| 0 <= k < s.len() ==> s[k] != BS::spec_empty(),
    decreases s.len(),
{
    if s.len() > 0 {
        lemma_known_count_full(s.drop_last());
        if known_count(s) == s.len() {
            assert forall|k: int| 0 <= k < s.len() implies s[k] != BS::spec_empty() by {
                if k < s.len() - 1 {
                    assert(s.drop_last()[k] == s[k]);
                }
            }
        }
        if forall|k: int| 0 <= k < s.len() ==> s[k] != BS::spec_empty() {
            assert forall|k: int| 0 <= k < s.drop_last().len() implies s.drop_last()[k] != BS::spec_empty() by {
                assert(s.drop_last()[k] == s[k]);
            }
        }
    }
}

/// Where the leaves are apart and each meets the fetched addresses, an item holds a byte
/// exactly where some leaf covers its address, and the count of bytes filled is the
/// count of items that hold one.
proof fn lemma_fetch_fold_known<BS: ByteStorage>(rect: MemNode, total: nat, leaves: Seq<MemWriteLeaf>, raw: Seq<u8>)
    requires
        rect.addr_min <= rect.addr_max,
        total == rect.addr_max - rect.addr_min + 1,
        bytes_distinct_from_empty::<BS>(),
        leaves_apart(leaves),
        forall|j: int|
            0 <= j < leaves.len() ==> {
                &&& (#[trigger] leaves[j]).node.addr_min <= leaves[j].node.addr_max
                &&& leaves[j].node.addr_min <= rect.addr_max
                &&& rect.addr_min <= leaves[j].node.addr_max
                &&& leaf_bytes(leaves[j], raw).len() == leaves[j].node.addr_max - leaves[j].node.addr_min + 1
            },
    ensures
        fetch_fold::<BS>(rect, total, leaves, raw).0.len() == total,
        forall|k: int|
            0 <= k < total ==> ((#[trigger] fetch_fold::<BS>(rect, total, leaves, raw).0[k]) != BS::spec_empty()
                <==> exists|j: int|
                0 <= j < leaves.len() && (#[trigger] leaves[j]).node.addr_min <= rect.addr_min + k <= leaves[j].node.addr_max),
        fetch_fold::<BS>(rect, total, leaves, raw).3 == known_count(fetch_fold::<BS>(rect, total, leaves, raw).0),
    decreases leaves.len(),
{
    if leaves.len() == 0 {
        let s0 = fetch_fold::<BS>(rect, total, leaves, raw).0;
        assert(known_count(s0) == 0) by {
            lemma_known_count_window(s0, s0, 0, 0);
            lemma_known_zero(s0);
        }
    } else {
        let prev = leaves.drop_last();
        assert forall|i: int, j: int| 0 <= i < j < prev.len() implies (#[trigger] prev[i]).node.addr_max < (#[trigger] prev[j]).node.addr_min
            || prev[j].node.addr_max < prev[i].node.addr_min by {
            assert(prev[i] == leaves[i] && prev[j] == leaves[j]);
        }
        lemma_fetch_fold_known::<BS>(rect, total, prev, raw);
        let st0 = fetch_fold::<BS>(rect, total, prev, raw);
        let leaf = leaves.last();
        let data = leaf_bytes(leaf, raw);
        let st1 = fetch_fold::<BS>(rect, total, leaves, raw);
        let (o, n) = copy_offsets(rect, leaf);
        let size = min_int(st0.0.len() - o, data.len() - n);
        assert(leaves[leaves.len() - 1] == leaf);
        assert forall|k: int| o <= k < o + size implies st0.0[k] == BS::spec_empty() by {
            if exists|j: int| 0 <= j < prev.len() && (#[trigger] prev[j]).node.addr_min <= rect.addr_min + k <= prev[j].node.addr_max {
                let j = choose|j: int| 0 <= j < prev.len() && (#[trigger] prev[j]).node.addr_min <= rect.addr_min + k <= prev[j].node.addr_max;
                assert(prev[j] == leaves[j]);
                assert(leaves_apart(leaves));
                assert(leaves[j].node.addr_max < leaves[leaves.len() - 1].node.addr_min
                    || leaves[leaves.len() - 1].node.addr_max < leaves[j].node.addr_min);
                assert(false);
            }
        }
        assert forall|k: int| o <= k < o + size implies st1.0[k] != BS::spec_empty() by {
            assert(st1.0[k] == BS::spec_from_byte(data[n + (k - o)]));
        }
        lemma_known_count_window(st0.0, st1.0, o, o + size);
        assert forall|k: int|
            0 <= k < total implies ((#[trigger] st1.0[k]) != BS::spec_empty()
                <==> exists|j: int|
                0 <= j < leaves.len() && (#[trigger] leaves[j]).node.addr_min <= rect.addr_min + k <= leaves[j].node.addr_max) by {
            if o <= k < o + size {
                assert(leaves[leaves.len() - 1].node.addr_min <= rect.addr_min + k <= leaves[leaves.len() - 1].node.addr_max);
            } else {
                assert(st1.0[k] == st0.0[k]);
                if exists|j: int| 0 <= j < leaves.len() && (#[trigger] leaves[j]).node.addr_min <= rect.addr_min + k <= leaves[j].node.addr_max {
                    let j = choose|j: int| 0 <= j < leaves.len() && (#[trigger] leaves[j]).node.addr_min <= rect.addr_min + k <= leaves[j].node.addr_max;
                    if j < leaves.len() - 1 {
                        assert(prev[j] == leaves[j]);
                    }
                }
                if exists|j: int| 0 <= j < prev.len() && (#[trigger] prev[j]).node.addr_min <= rect.addr_min + k <= prev[j].node.addr_max {
                    let j = choose|j: int| 0 <= j < prev.len() && (#[trigger] prev[j]).node.addr_min <= rect.addr_min + k <= prev[j].node.addr_max;
                    assert(prev[j] == leaves[j]);
                }
            }
        }
    }
}

proof fn lemma_known_zero<BS: ByteStorage>(s: Seq<BS>)
    requires
        forall|k: int| 0 <= k < s.len() ==> s[k] == BS::spec_empty(),
    ensures
        known_count(s) == 0,
    decreases s.len(),
{
    if s.len() > 0 {
        assert forall|k: int| 0 <= k < s.drop_last().len() implies s.drop_last()[k] == BS::spec_empty() by {
            assert(s.drop_last()[k] == s[k]);
        }
        lemma_known_zero(s.drop_last());
    }
}

/// Fetch state after copying the leaves in order, from an empty buffer of `total` items.
pub open spec fn fetch_fold<BS: ByteStorage>(
    rect: MemNode,
    total: nat,
    leaves: Seq<MemWriteLeaf>,
    raw_data: Seq<u8>,
) -> (Seq<BS>, int, int, int)
    decreases leaves.len(),
{
    if leaves.len() == 0 {
        (Seq::new(total, |_k: int| BS::spec_empty()), 0, u32::MAX as int, 0)
    } else {
        fetch_step(
            fetch_fold(rect, total, leaves.drop_last(), raw_data),
            rect,
            leaves.last(),
            leaf_bytes(leaves.last(), raw_data),
        )
    }
}

impl<'s> Db<'s> {
    /// The leaves at the positions of `order`.
    pub open spec fn hit_leaves(&self, rect: MemNode, order: Seq<(int, int)>) -> Seq<MemWriteLeaf> {
        order.map_values(|p: (int, int)| self.write_hit_leaf(rect, p))
    }

    /// Law: where the leaves that a fetch copies share no address (as in a built index),
    /// the fetch is complete exactly when every item holds a byte, and an item holds one
    /// exactly where a copied leaf covers its address.
    pub proof fn law_fetch_complete_iff_every_byte_known<BS: ByteStorage>(&self, addr_range: IRange<Addr>, time: Time, order: Seq<(int, int)>)
        requires
            self.write_data_ok(),
            addr_range.wf(),
            self.write_hit_order(fetch_rect(addr_range, time), order),
            leaves_apart(self.hit_leaves(fetch_rect(addr_range, time), order)),
            bytes_distinct_from_empty::<BS>(),
        ensures
            ({
                let rect = fetch_rect(addr_range, time);
                let leaves = self.hit_leaves(rect, order);
                let st = fetch_fold::<BS>(rect, addr_range.count() as nat, leaves, self.raw_data@);
                &&& st.0.len() == addr_range.count()
                &&& (st.3 == addr_range.count() <==> forall|k: int| 0 <= k < st.0.len() ==> st.0[k] != BS::spec_empty())
                &&& forall|k: int|
                    0 <= k < st.0.len() ==> (st.0[k] != BS::spec_empty() <==> exists|j: int|
                        0 <= j < leaves.len() && (#[trigger] leaves[j]).node.addr_min <= addr_range.min + k <= leaves[j].node.addr_max)
            }),
    {
        let rect = fetch_rect(addr_range, time);
        let leaves = self.hit_leaves(rect, order);
        assert forall|j: int|
            0 <= j < leaves.len() implies {
                &&& (#[trigger] leaves[j]).node.addr_min <= leaves[j].node.addr_max
                &&& leaves[j].node.addr_min <= rect.addr_max
                &&& rect.addr_min <= leaves[j].node.addr_max
                &&& leaf_bytes(leaves[j], self.raw_data@).len() == leaves[j].node.addr_max - leaves[j].node.addr_min + 1
            } by {
            self.lemma_hit_leaf(rect, order[j].0, order[j].1);
            vstd::bytes::lemma_auto_spec_u64_to_from_le_bytes();
        }
        lemma_fetch_fold_known::<BS>(rect, addr_range.count() as nat, leaves, self.raw_data@);
        lemma_known_count_full(fetch_fold::<BS>(rect, addr_range.count() as nat, leaves, self.raw_data@).0);
    }
}

/// Order of the traversals: the last tree first, then the leaves in order.
pub open spec fn visited_before(a: (int, int), b: (int, int)) -> bool {
    a.0 > b.0 || (a.0 == b.0 && a.1 < b.1)
}

/// The rectangle of a fetch: an address range at one time.
pub open spec fn fetch_rect(addr_range: IRange<Addr>, time: Time) -> MemNode {
    MemNode { addr_min: addr_range.min, addr_max: addr_range.max, time_min: time, time_max: time }
}

impl<'s> Db<'s> {
    /// The leaf `j` of the `z`-th write zone whose bounding box meets `rect` is reported
    /// by a traversal for `rect`.
    pub open spec fn write_hit(&self, rect: MemNode, z: int, j: int) -> bool {
        let acc = accepted_trees(MemIntersects::of(rect), self.write_zones@);
        0 <= z < acc.len() && acc[z].query_hit(MemIntersects::of(rect), j)
    }

    /// The leaf at a position of the reporting order.
    pub open spec fn write_hit_leaf(&self, rect: MemNode, p: (int, int)) -> MemWriteLeaf {
        accepted_trees(MemIntersects::of(rect), self.write_zones@)[p.0].leaves@[p.1]
    }

    /// `order` lists every reported leaf once, in the order of the traversals.
    pub open spec fn write_hit_order(&self, rect: MemNode, order: Seq<(int, int)>) -> bool {
        &&& forall|k: int| 0 <= k < order.len() ==> self.write_hit(rect, #[trigger] order[k].0, order[k].1)
        &&& forall|k1: int, k2: int|
            0 <= k1 < k2 < order.len() ==> visited_before(#[trigger] order[k1], #[trigger] order[k2])
        &&& forall|z: int, j: int| #[trigger] self.write_hit(rect, z, j) ==> order.contains((z, j))
    }
}


/// Start of a section as a byte offset.
pub open spec fn sec_start(section: Section) -> int {
    section.start as usize as int
}

/// End of a section as a byte offset.
pub open spec fn sec_end(section: Section) -> int {
    section.end as usize as int
}

/// The section is a byte range of a file of `len` bytes.
pub open spec fn section_in(len: int, section: Section) -> bool {
    sec_start(section) <= sec_end(section) <= len
}

/// The section holds whole records and starts at a position aligned for them.
pub open spec fn section_records_ok<T: Zerocopyable>(section: Section) -> bool {
    &&& (sec_end(section) - sec_start(section)) % (T::size_spec() as int) == 0
    &&& sec_start(section) % (T::align_spec() as int) == 0
}

/// The records a section holds.
pub open spec fn section_items<T: Zerocopyable>(bytes: Seq<u8>, section: Section) -> Seq<T> {
    let size = T::size_spec() as int;
    Seq::new(
        ((sec_end(section) - sec_start(section)) / size) as nat,
        |i: int| T::decoding(bytes.subrange(sec_start(section) + i * size, sec_start(section) + (i + 1) * size)),
    )
}

/// The tree described by `header` lies inside the file: leaves, nodes and levels are
/// sections of whole aligned records, and every level is a range of the nodes.
pub open spec fn rtree_ok<S: Spec>(bytes: Seq<u8>, header: RTreeHeader) -> bool {
    &&& section_in(bytes.len() as int, header.leaves)
    &&& section_records_ok::<S::Leaf>(header.leaves)
    &&& section_in(bytes.len() as int, header.nodes)
    &&& section_records_ok::<S::Node>(header.nodes)
    &&& section_in(bytes.len() as int, header.levels)
    &&& section_records_ok::<Level>(header.levels)
    &&& forall|l: int|
        0 <= l < section_items::<Level>(bytes, header.levels).len() ==> {
            let level = #[trigger] section_items::<Level>(bytes, header.levels)[l];
            let n = section_items::<S::Node>(bytes, header.nodes).len();
            &&& level.offset <= n
            &&& level.size <= n - level.offset
        }
}

/// `t` is the tree that `header` and `bbox` describe.
pub open spec fn rtree_decoded<S: Spec>(t: RTree<S>, bytes: Seq<u8>, header: RTreeHeader, bbox: S::Node) -> bool {
    let nodes = section_items::<S::Node>(bytes, header.nodes);
    let levels = section_items::<Level>(bytes, header.levels);
    &&& t.node_size_order == header.node_size_order
    &&& t.leaves@ == section_items::<S::Leaf>(bytes, header.leaves)
    &&& t.nodes@ == nodes
    &&& t.node_levels@.len() == levels.len()
    &&& forall|l: int|
        0 <= l < levels.len() ==> (#[trigger] t.node_levels@[l])@ == nodes.subrange(
            levels[l].offset as int,
            levels[l].offset + levels[l].size,
        )
    &&& t.bbox == bbox
}

/// The list of trees lies inside the file.
pub open spec fn rtree_list_ok<S: Spec>(bytes: Seq<u8>, list: RTreeList) -> bool {
    let headers = section_items::<RTreeHeader>(bytes, list.headers);
    &&& section_records_ok::<RTreeHeader>(list.headers)
    &&& section_records_ok::<S::Node>(list.bboxes)
    &&& headers.len() == section_items::<S::Node>(bytes, list.bboxes).len()
    &&& forall|i: int| 0 <= i < headers.len() ==> rtree_ok::<S>(bytes, #[trigger] headers[i])
}

/// `v` holds the trees of the list, in order.
pub open spec fn rtree_list_decoded<S: Spec>(v: Seq<RTree<S>>, bytes: Seq<u8>, list: RTreeList) -> bool {
    let headers = section_items::<RTreeHeader>(bytes, list.headers);
    let bboxes = section_items::<S::Node>(bytes, list.bboxes);
    &&& v.len() == headers.len()
    &&& forall|i: int| 0 <= i < v.len() ==> rtree_decoded(#[trigger] v[i], bytes, headers[i], bboxes[i])
}

/// The header of a file of at least `Header` size.
pub open spec fn file_header(bytes: Seq<u8>) -> Header {
    Header::decoding(bytes.subrange(0, 144))
}

/// The file has a header with the right magic number and version.
pub open spec fn file_header_valid(bytes: Seq<u8>) -> bool {
    &&& bytes.len() >= 144
    &&& file_header(bytes).magic == DB_MAGIC
    &&& file_header(bytes).version == DB_VERSION
}

/// Where the header is valid, the sections it names directly lie inside the file.
pub open spec fn file_sections_in_bounds(bytes: Seq<u8>) -> bool {
    let h = file_header(bytes);
    let len = bytes.len() as int;
    file_header_valid(bytes) ==> {
        &&& section_in(len, h.data)
        &&& section_in(len, h.metadata)
        &&& section_in(len, h.write_zones.headers)
        &&& section_in(len, h.write_zones.bboxes)
        &&& section_in(len, h.read_zones.headers)
        &&& section_in(len, h.read_zones.bboxes)
        &&& section_in(len, h.registers.headers)
        &&& section_in(len, h.registers.bboxes)
    }
}

/// The error that checking the header of a file gives, if any.
pub open spec fn header_error(bytes: Seq<u8>) -> Option<LoadError> {
    if bytes.len() < 144 {
        Some(LoadError::Corrupted)
    } else if file_header(bytes).magic != DB_MAGIC {
        Some(LoadError::InvalidMagic)
    } else if file_header(bytes).version != DB_VERSION {
        Some(LoadError::InvalidVersion { got: file_header(bytes).version, expected: DB_VERSION })
    } else {
        None
    }
}

/// Decode the records of a section inside `data`.
fn cast_section<T: Zerocopyable>(data: &[u8], section: Section) -> (r: Result<Vec<T>, LoadError>)
    requires
        section_in(data@.len() as int, section),
    ensures
        r is Ok <==> section_records_ok::<T>(section),
        r matches Ok(v) ==> v@ == section_items::<T>(data@, section),
        r matches Err(e) ==> e == LoadError::Corrupted,
{
    let range = section.byte_range();
    let start = range.start;
    let end = range.end;
    let size = T::size();
    let align = T::align();
    if (end - start) % size != 0 || start % align != 0 {
        return Err(LoadError::Corrupted);
    }
    let count = (end - start) / size;
    let ghost items = section_items::<T>(data@, section);
    let mut out: Vec<T> = Vec::new();
    let mut i: usize = 0;
    let mut pos: usize = start;
    proof {
        let span: int = end - start;
        assert(count * size == span) by (nonlinear_arith)
            requires
                count == span / (size as int),
                span % (size as int) == 0,
                size > 0,
        ;
    }
    while i < count
        invariant
            size == T::size_spec(),
            size > 0,
            start == sec_start(section),
            end == sec_end(section),
            end <= data@.len(),
            count * size == end - start,
            count == items.len(),
            items == section_items::<T>(data@, section),
            i <= count,
            pos == start + i * size,
            out@ == items.take(i as int),
        decreases count - i,
    {
        proof {
            assert((i + 1) * size <= count * size) by (nonlinear_arith)
                requires
                    i < count,
                    size > 0,
            ;
            assert((i + 1) * size == i * size + size) by (nonlinear_arith);
        }
        let item = T::read_at(data, pos);
        out.push(item);
        proof {
            assert(out@ =~= items.take(i + 1));
        }
        pos = pos + size;
        i = i + 1;
    }
    proof {
        assert(out@ =~= items);
    }
    Ok(out)
}


/// Bytes of a section, or `None` where the range does not lie inside `data`.
fn section_get(data: &[u8], section: Section) -> (r: Option<&[u8]>)
    ensures
        r is Some <==> section_in(data@.len() as int, section),
        r matches Some(b) ==> b@ == data@.subrange(sec_start(section), sec_end(section)),
{
    let range = section.byte_range();
    if range.start <= range.end && range.end <= data.len() {
        Some(slice_subrange(data, range.start, range.end))
    } else {
        None
    }
}

/// The records of a section that lies inside the file, or `Corrupted`.
fn read_records<T: Zerocopyable>(storage: &[u8], section: Section) -> (r: Result<Vec<T>, LoadError>)
    ensures
        r is Ok <==> section_in(storage@.len() as int, section) && section_records_ok::<T>(section),
        r matches Ok(v) ==> v@ == section_items::<T>(storage@, section),
        r matches Err(e) ==> e == LoadError::Corrupted,
{
    match section_get(storage, section) {
        None => Err(LoadError::Corrupted),
        Some(_) => cast_section(storage, section),
    }
}

/// The level `k` of a tree is the range of the nodes that the `Level` record names.
pub open spec fn level_copied<S: Spec>(node_levels: Seq<Vec<S::Node>>, levels: Seq<Level>, nodes: Seq<S::Node>, k: int) -> bool {
    &&& levels[k].offset <= nodes.len()
    &&& levels[k].size <= nodes.len() - levels[k].offset
    &&& node_levels[k]@ == nodes.subrange(levels[k].offset as int, levels[k].offset + levels[k].size)
}

/// The first `l` levels are copied.
pub open spec fn levels_copied<S: Spec>(node_levels: Seq<Vec<S::Node>>, levels: Seq<Level>, nodes: Seq<S::Node>, l: int) -> bool {
    &&& node_levels.len() == l
    &&& forall|k: int| 0 <= k < l ==> #[trigger] level_copied::<S>(node_levels, levels, nodes, k)
}

/// Decode the trees of a list.
fn read_rtree_list<S: Spec>(storage: &[u8], list: &RTreeList) -> (r: Result<Vec<RTree<S>>, LoadError>)
    requires
        section_in(storage@.len() as int, list.headers),
        section_in(storage@.len() as int, list.bboxes),
    ensures
        r is Ok <==> rtree_list_ok::<S>(storage@, *list),
        r matches Ok(v) ==> rtree_list_decoded::<S>(v@, storage@, *list),
        r matches Err(e) ==> e == LoadError::Corrupted,
{
    let headers: Vec<RTreeHeader> = cast_section(storage, list.headers)?;
    let bboxes: Vec<S::Node> = cast_section(storage, list.bboxes)?;
    if headers.len() != bboxes.len() {
        return Err(LoadError::Corrupted);
    }
    let count = headers.len();
    let mut rtrees: Vec<RTree<S>> = Vec::new();
    let mut idx: usize = 0;
    while idx < count
        invariant
            count == headers@.len(),
            count == bboxes@.len(),
            headers@ == section_items::<RTreeHeader>(storage@, list.headers),
            bboxes@ == section_items::<S::Node>(storage@, list.bboxes),
            section_records_ok::<RTreeHeader>(list.headers),
            section_records_ok::<S::Node>(list.bboxes),
            idx <= count,
            rtrees@.len() == idx,
            forall|i: int| 0 <= i < idx ==> rtree_ok::<S>(storage@, #[trigger] headers@[i]),
            forall|i: int|
                0 <= i < idx ==> rtree_decoded(#[trigger] rtrees@[i], storage@, headers@[i], bboxes@[i]),
        decreases count - idx,
    {
        let header = headers[idx];
        let bbox = bboxes[idx];
        let leaves: Vec<S::Leaf> = read_records(storage, header.leaves)?;
        let nodes: Vec<S::Node> = read_records(storage, header.nodes)?;
        let levels: Vec<Level> = read_records(storage, header.levels)?;
        let mut node_levels: Vec<Vec<S::Node>> = Vec::new();
        let mut l: usize = 0;
        while l < levels.len()
            invariant
                l <= levels@.len(),
                node_levels@.len() == l,
                idx < count,
                count == headers@.len(),
                header == headers@[idx as int],
                headers@ == section_items::<RTreeHeader>(storage@, list.headers),
                section_in(storage@.len() as int, header.leaves),
                section_records_ok::<S::Leaf>(header.leaves),
                section_in(storage@.len() as int, header.nodes),
                section_records_ok::<S::Node>(header.nodes),
                section_in(storage@.len() as int, header.levels),
                section_records_ok::<Level>(header.levels),
                levels@ == section_items::<Level>(storage@, header.levels),
                nodes@ == section_items::<S::Node>(storage@, header.nodes),
                levels_copied::<S>(node_levels@, levels@, nodes@, l as int),
            decreases levels@.len() - l,
        {
            let level = levels[l];
            let count_nodes = nodes.len() as u64;
            if level.offset > count_nodes || level.size > count_nodes - level.offset {
                proof {
                    assert(section_items::<Level>(storage@, header.levels)[l as int] == level);
                    assert(!rtree_ok::<S>(storage@, headers@[idx as int]));
                    assert(!rtree_list_ok::<S>(storage@, *list));
                }
                return Err(LoadError::Corrupted);
            }
            let ghost before0 = node_levels@;
            let offset = level.offset as usize;
            let size = level.size as usize;
            let subset = slice_to_vec(slice_subrange(nodes.as_slice(), offset, offset + size));
            let ghost before = node_levels@;
            node_levels.push(subset);
            proof {
                assert(levels_copied::<S>(before0, levels@, nodes@, l as int));
                assert(level == levels@[l as int]);
                assert(levels@[l as int].offset <= nodes@.len());
                assert(subset@ == nodes@.subrange(levels@[l as int].offset as int, levels@[l as int].offset + levels@[l as int].size));
            }
            l = l + 1;
            proof {
                assert forall|k: int| 0 <= k < l implies level_copied::<S>(node_levels@, levels@, nodes@, k) by {
                    if k < l - 1 {
                        assert(node_levels@[k] == before[k]);
                        assert(level_copied::<S>(before, levels@, nodes@, k));
                    }
                }
            }
        }
        let ghost h = header;
        proof {
            assert(headers@[idx as int] == h);
        }
        rtrees.push(
            RTree { node_size_order: header.node_size_order, leaves, nodes, node_levels, bbox },
        );
        proof {
            assert forall|k: int|
                0 <= k < section_items::<Level>(storage@, h.levels).len() implies {
                    let level = #[trigger] section_items::<Level>(storage@, h.levels)[k];
                    let n = section_items::<S::Node>(storage@, h.nodes).len();
                    &&& level.offset <= n
                    &&& level.size <= n - level.offset
                } by {
                assert(levels@[k] == section_items::<Level>(storage@, h.levels)[k]);
                assert(level_copied::<S>(rtrees@[idx as int].node_levels@, levels@, nodes@, k));
            }
            assert(rtree_ok::<S>(storage@, h));
            let t = rtrees@[idx as int];
            assert forall|k: int| 0 <= k < levels@.len() implies (#[trigger] t.node_levels@[k])@ == nodes@.subrange(
                levels@[k].offset as int,
                levels@[k].offset + levels@[k].size,
            ) by {
                assert(level_copied::<S>(t.node_levels@, levels@, nodes@, k));
            }
            assert(rtree_decoded(rtrees@[idx as int], storage@, headers@[idx as int], bboxes@[idx as int]));
        }
        idx = idx + 1;
    }
    Ok(rtrees)
}


/// Checks the header of a file: its size, magic number and version.
fn read_header(storage: &[u8]) -> (r: Result<Header, LoadError>)
    ensures
        match header_error(storage@) {
            Some(e) => r == Err::<Header, LoadError>(e),
            None => r == Ok::<Header, LoadError>(file_header(storage@)),
        },
{
    if storage.len() < 144 {
        return Err(LoadError::Corrupted);
    }
    let header = Header::read_at(storage, 0);
    if header.magic != DB_MAGIC {
        return Err(LoadError::InvalidMagic);
    }
    if header.version != DB_VERSION {
        return Err(LoadError::InvalidVersion { got: header.version, expected: DB_VERSION });
    }
    Ok(header)
}

fn section_in_exec(len: usize, section: Section) -> (r: bool)
    ensures
        r == section_in(len as int, section),
{
    let range = section.byte_range();
    range.start <= range.end && range.end <= len
}

/// Whether the sections that loading reads directly lie inside the file; where they do
/// not, loading the file fails as corrupted.
pub fn sections_in_bounds(storage: &[u8]) -> (r: bool)
    ensures
        r == file_sections_in_bounds(storage@),
{
    match read_header(storage) {
        Err(_) => true,
        Ok(h) => {
            let len = storage.len();
            section_in_exec(len, h.data) && section_in_exec(len, h.metadata) && section_in_exec(
                len,
                h.write_zones.headers,
            ) && section_in_exec(len, h.write_zones.bboxes) && section_in_exec(
                len,
                h.read_zones.headers,
            ) && section_in_exec(len, h.read_zones.bboxes) && section_in_exec(
                len,
                h.registers.headers,
            ) && section_in_exec(len, h.registers.bboxes)
        },
    }
}

impl<'s> Db<'s> {
    /// The JSON text of the metadata section of a database file.
    pub fn metadata_json(storage: &'s [u8]) -> (r: Result<&'s [u8], LoadError>)
        requires
            file_sections_in_bounds(storage@),
        ensures
            match header_error(storage@) {
                Some(e) => r == Err::<&[u8], LoadError>(e),
                None => r matches Ok(json) && json@ == storage@.subrange(
                    sec_start(file_header(storage@).metadata),
                    sec_end(file_header(storage@).metadata),
                ),
            },
    {
        let header = read_header(storage)?;
        let range = header.metadata.byte_range();
        Ok(slice_subrange(storage, range.start, range.end))
    }

    /// Load a database from the bytes of its file, with the metadata that its metadata
    /// section holds.
    pub fn from_aligned_slice(storage: &'s [u8], metadata: Metadata) -> (r: Result<Self, LoadError>)
        ensures
            header_error(storage@) matches Some(e) ==> r == Err::<Self, LoadError>(e),
            header_error(storage@) is None && !file_sections_in_bounds(storage@) ==> r == Err::<Self, LoadError>(
                LoadError::Corrupted,
            ),
            header_error(storage@) is None && file_sections_in_bounds(storage@) ==> {
                let h = file_header(storage@);
                &&& (r is Ok <==> rtree_list_ok::<MemWriteSpec>(storage@, h.write_zones)
                    && rtree_list_ok::<MemReadSpec>(storage@, h.read_zones) && rtree_list_ok::<
                    RegSpec,
                >(storage@, h.registers))
                &&& (r matches Err(e) ==> e == LoadError::Corrupted)
                &&& (r matches Ok(db) ==> {
                    &&& db.raw_data@ == storage@.subrange(sec_start(h.data), sec_end(h.data))
                    &&& db.metadata == metadata
                    &&& rtree_list_decoded(db.write_zones@, storage@, h.write_zones)
                    &&& rtree_list_decoded(db.read_zones@, storage@, h.read_zones)
                    &&& rtree_list_decoded(db.registers@, storage@, h.registers)
                })
            },
    {
        if !sections_in_bounds(storage) {
            return Err(LoadError::Corrupted);
        }
        let header = read_header(storage)?;
        let data_range = header.data.byte_range();
        let raw_data = slice_subrange(storage, data_range.start, data_range.end);
        let write_zones = read_rtree_list::<MemWriteSpec>(storage, &header.write_zones)?;
        let read_zones = read_rtree_list::<MemReadSpec>(storage, &header.read_zones)?;
        let registers = read_rtree_list::<RegSpec>(storage, &header.registers)?;
        Ok(Self { write_zones, read_zones, registers, metadata, raw_data })
    }
}

/// Query for the leaves intersecting a memory rectangle.
#[derive(Debug, Clone, Copy)]
pub struct MemIntersects {
    node: MemNode,
}

impl MemIntersects {
    pub closed spec fn rect(&self) -> MemNode {
        self.node
    }

    /// The query for the rectangle `node`.
    pub closed spec fn of(node: MemNode) -> Self {
        Self { node }
    }

    pub proof fn lemma_of_rect(node: MemNode)
        ensures
            Self::of(node).rect() == node,
    {
    }

    pub fn new(node: MemNode) -> (r: Self)
        ensures
            r == Self::of(node),
            r.rect() == node,
    {
        Self { node }
    }
}

impl Query<MemWriteSpec> for MemIntersects {
    open spec fn accepts_node(&self, node: MemNode) -> bool {
        !self.rect().disjoint_from(node)
    }

    open spec fn accepts_leaf(&self, leaf: MemWriteLeaf) -> bool {
        !self.rect().disjoint_from(leaf.node)
    }

    open spec fn query_wf(&self) -> bool {
        self.rect().wf()
    }

    fn filter_node(&mut self, node: &MemNode) -> (r: bool) {
        !self.node.is_disjoint(node)
    }

    fn filter_leaf(&mut self, leaf: &MemWriteLeaf) -> (r: bool) {
        !self.node.is_disjoint(&leaf.node)
    }
}

impl Query<MemReadSpec> for MemIntersects {
    open spec fn accepts_node(&self, node: MemNode) -> bool {
        !self.rect().disjoint_from(node)
    }

    open spec fn accepts_leaf(&self, leaf: MemReadLeaf) -> bool {
        !self.rect().disjoint_from(leaf.node_spec())
    }

    open spec fn query_wf(&self) -> bool {
        self.rect().wf()
    }

    fn filter_node(&mut self, node: &MemNode) -> (r: bool) {
        !self.node.is_disjoint(node)
    }

    fn filter_leaf(&mut self, leaf: &MemReadLeaf) -> (r: bool) {
        !self.node.is_disjoint(&leaf.node())
    }
}

/// Query for the register leaves intersecting a (value, time) rectangle.
#[derive(Debug, Clone, Copy)]
pub struct RegIntersects {
    node: RegNode,
}

impl RegIntersects {
    pub closed spec fn rect(&self) -> RegNode {
        self.node
    }

    pub fn new(node: RegNode) -> (r: Self)
        ensures
            r.rect() == node,
    {
        Self { node }
    }
}

impl Query<RegSpec> for RegIntersects {
    open spec fn accepts_node(&self, node: RegNode) -> bool {
        !self.rect().disjoint_from(node)
    }

    open spec fn accepts_leaf(&self, leaf: RegLeaf) -> bool {
        !self.rect().disjoint_from(leaf.node_spec())
    }

    open spec fn query_wf(&self) -> bool {
        self.rect().wf()
    }

    fn filter_node(&mut self, node: &RegNode) -> (r: bool) {
        !self.node.is_disjoint(node)
    }

    fn filter_leaf(&mut self, leaf: &RegLeaf) -> (r: bool) {
        self.filter_node(&leaf.node())
    }
}

/// The trees whose bounding box a query accepts, in their order.
pub open spec fn accepted_trees<S: Spec, Q: Query<S>>(query: Q, rtrees: Seq<RTree<S>>) -> Seq<RTree<S>> {
    rtrees.filter(accepts_bbox(query))
}

/// The query accepts the tree's bounding box.
pub open spec fn accepts_bbox<S: Spec, Q: Query<S>>(query: Q) -> spec_fn(RTree<S>) -> bool {
    |t: RTree<S>| query.accepts_node(t.bbox)
}

/// Queries over several R-Trees, the last tree first.
pub struct MultiQueryIter<'rtree, S: Spec, Q> {
    zones: Vec<QueryIter<'rtree, S, Q>>,
}

impl<'rtree, S: Spec, Q: Query<S> + Copy> MultiQueryIter<'rtree, S, Q> {
    /// The traversals still open, the last one being visited first.
    pub closed spec fn zones_spec(&self) -> Seq<QueryIter<'rtree, S, Q>> {
        self.zones@
    }

    /// Leaves not yet visited by the last traversal.
    pub open spec fn top_remaining(&self) -> int {
        if self.zones_spec().len() == 0 {
            0
        } else {
            self.zones_spec().last().tree().leaves@.len() - self.zones_spec().last().cursor()
        }
    }

    /// The leaf `j` of the open traversal `z` is still to be reported.
    pub open spec fn pending(&self, z: int, j: int) -> bool {
        0 <= z < self.zones_spec().len() && self.zones_spec()[z].cursor() <= j
            && self.zones_spec()[z].tree().query_hit(self.zones_spec()[z].query_spec(), j)
    }

    pub closed spec fn inv(&self) -> bool {
        forall|z: int| 0 <= z < self.zones@.len() ==> (#[trigger] self.zones@[z]).inv()
    }

    /// The trees being traversed, in the order of the traversals.
    pub closed spec fn trees(&self) -> Seq<RTree<S>> {
        self.zones@.map_values(|z: QueryIter<'rtree, S, Q>| z.tree())
    }

    /// One traversal per tree whose bounding box the query accepts, in the order of the trees.
    #[verifier::spinoff_prover]
    pub fn new(query: Q, rtrees: &'rtree [RTree<S>]) -> (r: Self)
        requires
            query.query_wf(),
            forall|z: int|
                0 <= z < rtrees@.len() ==> (#[trigger] rtrees@[z]).shape_wf()
                    && rtrees@[z].items_wf(),
        ensures
            r.inv(),
            r.trees() == accepted_trees(query, rtrees@),
            r.zones_spec().len() == r.trees().len(),
            forall|z: int|
                0 <= z < r.zones_spec().len() ==> (#[trigger] r.zones_spec()[z]).cursor() == 0
                    && r.zones_spec()[z].query_spec() == query && r.zones_spec()[z].tree()
                    == r.trees()[z],
    {
        let mut zones: Vec<QueryIter<'rtree, S, Q>> = Vec::new();
        let mut i: usize = 0;
        while i < rtrees.len()
            invariant
                query.query_wf(),
                i <= rtrees@.len(),
                forall|z: int|
                    0 <= z < rtrees@.len() ==> (#[trigger] rtrees@[z]).shape_wf()
                        && rtrees@[z].items_wf(),
                forall|z: int|
                    0 <= z < zones@.len() ==> (#[trigger] zones@[z]).inv() && zones@[z].cursor()
                        == 0 && zones@[z].query_spec() == query,
                zones@.map_values(|z: QueryIter<'rtree, S, Q>| z.tree()) == accepted_trees(
                    query,
                    rtrees@.take(i as int),
                ),
            decreases rtrees@.len() - i,
        {
            let zone = &rtrees[i];
            let mut q = query;
            proof {
                assert(zone.items_wf());
                reveal(Seq::filter);
                assert(rtrees@.take(i + 1).drop_last() =~= rtrees@.take(i as int));
                assert(rtrees@.take(i + 1).last() == rtrees@[i as int]);
            }
            if q.filter_node(&zone.bbox) {
                zones.push(zone.query(query));
            }
            proof {
                assert(zones@.map_values(|z: QueryIter<'rtree, S, Q>| z.tree()) =~= accepted_trees(
                    query,
                    rtrees@.take(i + 1),
                ));
            }
            i = i + 1;
        }
        proof {
            assert(rtrees@.take(rtrees@.len() as int) =~= rtrees@);
        }
        Self { zones }
    }

    /// Next leaf of the last traversal that still has one; exhausted traversals are closed.
    pub fn next(&mut self) -> (r: Option<&'rtree S::Leaf>)
        requires
            old(self).inv(),
        ensures
            final(self).inv(),
            final(self).zones_spec().len() <= old(self).zones_spec().len(),
            forall|y: int|
                0 <= y < final(self).zones_spec().len() ==> (#[trigger] final(self).zones_spec()[y]).tree()
                    == old(self).zones_spec()[y].tree() && final(self).zones_spec()[y].query_spec()
                    == old(self).zones_spec()[y].query_spec(),
            r is Some ==> final(self).zones_spec().len() < old(self).zones_spec().len() || (
            final(self).zones_spec().len() == old(self).zones_spec().len() && 0
                <= final(self).top_remaining() < old(self).top_remaining()),
            r is None ==> final(self).zones_spec().len() == 0 && forall|z: int, j: int|
                !#[trigger] old(self).pending(z, j),
            r matches Some(leaf) ==> exists|z: int, j: int|
                {
                    &&& #[trigger] old(self).pending(z, j)
                    &&& *leaf == old(self).zones_spec()[z].tree().leaves@[j]
                    &&& forall|y: int, i: int| z < y ==> !#[trigger] old(self).pending(y, i)
                    &&& forall|i: int| i < j ==> !#[trigger] old(self).pending(z, i)
                    &&& forall|y: int, i: int|
                        #[trigger] final(self).pending(y, i) <==> old(self).pending(y, i) && (y
                            != z || i > j)
                },
    {
        loop
            invariant
                self.inv(),
                self.zones@.len() <= old(self).zones@.len(),
                forall|y: int|
                    0 <= y < self.zones@.len() ==> #[trigger] self.zones@[y] == old(self).zones@[y],
                forall|y: int, i: int|
                    self.zones@.len() <= y ==> !#[trigger] old(self).pending(y, i),
            decreases self.zones@.len(),
        {
            let ghost before = self.zones@;
            match self.zones.pop() {
                None => {
                    return None;
                },
                Some(mut zone) => {
                    let ghost k = self.zones@.len() as int;
                    proof {
                        assert(zone == before[k]);
                        assert(before[k].inv());
                    }
                    match zone.next() {
                        Some(leaf) => {
                            self.zones.push(zone);
                            proof {
                                let j = zone.cursor() - 1;
                                assert(old(self).pending(k, j));
                                assert forall|y: int, i: int|
                                    #[trigger] self.pending(y, i) <==> old(self).pending(y, i) && (y
                                        != k || i > j) by {
                                    if 0 <= y < k {
                                        assert(self.zones@[y] == old(self).zones@[y]);
                                    }
                                }
                                assert forall|y: int| 0 <= y < self.zones@.len() implies #[trigger] self.zones@[y].inv() by {
                                    if y < k {
                                        assert(self.zones@[y] == before[y]);
                                    }
                                }
                                assert forall|y: int|
                                    0 <= y < self.zones_spec().len() implies (#[trigger] self.zones_spec()[y]).tree()
                                        == old(self).zones_spec()[y].tree() && self.zones_spec()[y].query_spec()
                                        == old(self).zones_spec()[y].query_spec() by {
                                    if y < k {
                                        assert(self.zones@[y] == before[y]);
                                    }
                                }
                            }
                            return Some(leaf);
                        },
                        None => {
                            proof {
                                assert forall|y: int, i: int|
                                    self.zones@.len() <= y implies !#[trigger] old(self).pending(y, i) by {
                                    if y == k {
                                        assert(old(self).zones@[k] == before[k]);
                                    }
                                }
                                assert forall|y: int| 0 <= y < self.zones@.len() implies #[trigger] self.zones@[y].inv() by {
                                    assert(self.zones@[y] == before[y]);
                                }
                            }
                        },
                    }
                },
            }
        }
    }
}

} // verus!
