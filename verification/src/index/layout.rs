//! Layout of the database file: where each section goes.
use vstd::prelude::*;
use crate::flat::{Header, Level, MemNode, MemReadLeaf, MemWriteLeaf, RTreeHeader, RTreeList, RegLeaf, RegNode, Section, Zerocopyable};
use crate::index::scout::{RTreeScout, ScoutPass};
use crate::{DB_MAGIC, DB_VERSION};
use crate::db::{section_in, section_items, section_records_ok, sec_end, sec_start};
use vstd::utf8::encode_utf8;

verus! {

/// The section starts aligned for `T` and holds `count` records of `T`.
pub open spec fn section_holds<T: Zerocopyable>(s: Section, count: int) -> bool {
    &&& (s.start as int) % (T::align_spec() as int) == 0
    &&& s.end - s.start == count * T::size_spec()
    &&& s.start <= s.end
}

/// Room that laying out `count` records of `T` may take, padding included.
pub open spec fn room<T: Zerocopyable>(count: int) -> int {
    count * T::size_spec() + T::align_spec()
}

/// Room for the levels of trees.
pub open spec fn levels_room<N>(zones: Seq<RTreeScout<N>>) -> int
    decreases zones.len(),
{
    if zones.len() == 0 {
        0
    } else {
        levels_room::<N>(zones.drop_last()) + room::<Level>(zones.last().levels@.len() as int)
    }
}

/// Room for the nodes and leaves of trees.
pub open spec fn trees_room<N: Zerocopyable, L: Zerocopyable>(zones: Seq<RTreeScout<N>>) -> int
    decreases zones.len(),
{
    if zones.len() == 0 {
        0
    } else {
        trees_room::<N, L>(zones.drop_last()) + room::<N>(zones.last().node_count as int) + room::<L>(
            zones.last().leaf_count as int,
        )
    }
}

/// Length in bytes of a text.
pub open spec fn json_len(s: String) -> int {
    encode_utf8(s@).len() as int
}

/// Room for a whole file.
pub open spec fn layout_room(scout: ScoutPass) -> int {
    room::<Header>(1) + room::<u8>(json_len(scout.metadata_json))
    + room::<RTreeHeader>(scout.write_zones@.len() as int) + room::<MemNode>(scout.write_zones@.len() as int)
    + room::<RTreeHeader>(scout.read_zones@.len() as int) + room::<MemNode>(scout.read_zones@.len() as int)
    + room::<RTreeHeader>(scout.registers@.len() as int) + room::<RegNode>(scout.registers@.len() as int)
    + levels_room::<MemNode>(scout.write_zones@) + levels_room::<MemNode>(scout.read_zones@)
    + levels_room::<RegNode>(scout.registers@)
    + trees_room::<MemNode, MemWriteLeaf>(scout.write_zones@)
    + trees_room::<MemNode, MemReadLeaf>(scout.read_zones@)
    + trees_room::<RegNode, RegLeaf>(scout.registers@)
    + room::<u8>(scout.data_section_required_bytes as int)
}

/// Position of the next section in the file being laid out, and the sections laid out
/// so far, in order.
struct LayoutBuilder {
    pos: usize,
    placed: Ghost<Seq<Section>>,
}

/// Each section is a range, and each ends before the next starts.
pub open spec fn sections_sorted(s: Seq<Section>) -> bool {
    &&& forall|i: int| 0 <= i < s.len() ==> (#[trigger] s[i]).start <= s[i].end
    &&& forall|i: int, j: int| 0 <= i < j < s.len() ==> (#[trigger] s[i]).end <= (#[trigger] s[j]).start
}

/// The sections are sorted and end before `pos`.
pub open spec fn sorted_below(s: Seq<Section>, pos: int) -> bool {
    &&& sections_sorted(s)
    &&& forall|i: int| 0 <= i < s.len() ==> (#[trigger] s[i]).end <= pos
}

/// The levels sections of trees.
pub open spec fn levels_of(h: Seq<RTreeHeader>) -> Seq<Section> {
    h.map_values(|x: RTreeHeader| x.levels)
}

/// The nodes then leaves sections of each tree.
pub open spec fn nodes_leaves_of(h: Seq<RTreeHeader>) -> Seq<Section>
    decreases h.len(),
{
    if h.len() == 0 {
        Seq::empty()
    } else {
        nodes_leaves_of(h.drop_last()) + seq![h.last().nodes, h.last().leaves]
    }
}

/// Every section of the file after the header, in the order of the file.
pub open spec fn file_sections(l: StorageLayout) -> Seq<Section> {
    seq![
        l.header.metadata,
        l.header.write_zones.headers,
        l.header.write_zones.bboxes,
        l.header.read_zones.headers,
        l.header.read_zones.bboxes,
        l.header.registers.headers,
        l.header.registers.bboxes,
    ] + levels_of(l.write_zones@) + levels_of(l.read_zones@) + levels_of(l.registers@) + nodes_leaves_of(l.write_zones@)
        + nodes_leaves_of(l.read_zones@) + nodes_leaves_of(l.registers@) + seq![l.header.data]
}

/// A sorted sequence stays sorted with a section after its last end.
proof fn lemma_push_sorted(s: Seq<Section>, pos: int, x: Section)
    requires
        sorted_below(s, pos),
        pos <= x.start <= x.end,
    ensures
        sorted_below(s.push(x), x.end as int),
{
    let t = s.push(x);
    assert forall|i: int, j: int| 0 <= i < j < t.len() implies (#[trigger] t[i]).end <= (#[trigger] t[j]).start by {
        if j < s.len() {
            assert(t[i] == s[i] && t[j] == s[j]);
        } else {
            assert(t[i] == s[i]);
        }
    }
    assert forall|i: int| 0 <= i < t.len() implies (#[trigger] t[i]).start <= t[i].end && t[i].end <= x.end by {
        if i < s.len() {
            assert(t[i] == s[i]);
        }
    }
}

impl LayoutBuilder {
    fn add<T: Zerocopyable>(&mut self)
        requires
            (old(self).pos as int) % (T::align_spec() as int) == 0,
            old(self).pos + T::size_spec() <= usize::MAX,
        ensures
            final(self).pos == old(self).pos + T::size_spec(),
            final(self).placed == old(self).placed,
    {
        self.add_many::<T>(1);
    }

    fn add_many<T: Zerocopyable>(&mut self, count: usize)
        requires
            (old(self).pos as int) % (T::align_spec() as int) == 0,
            old(self).pos + count * T::size_spec() <= usize::MAX,
        ensures
            final(self).pos == old(self).pos + count * T::size_spec(),
            final(self).placed == old(self).placed,
    {
        let size = T::size();
        let pos0 = self.pos;
        proof {
            assert(0 <= count * size <= pos0 + count * size) by (nonlinear_arith)
                requires
                    size > 0,
                    count >= 0,
                    pos0 >= 0,
            ;
        }
        self.pos = self.pos + count * size;
    }

    fn align<T: Zerocopyable>(&mut self)
        requires
            old(self).pos + T::align_spec() <= usize::MAX,
        ensures
            old(self).pos <= final(self).pos < old(self).pos + T::align_spec(),
            (final(self).pos as int) % (T::align_spec() as int) == 0,
            final(self).placed == old(self).placed,
    {
        let needed_align = T::align();
        let pos0 = self.pos;
        let rest = pos0 % needed_align;
        if rest != 0 {
            self.pos = pos0 + (needed_align - rest);
            proof {
                let q = pos0 as int / needed_align as int;
                vstd::arithmetic::div_mod::lemma_fundamental_div_mod(pos0 as int, needed_align as int);
                let p1 = self.pos;
                assert(p1 == (q + 1) * needed_align) by (nonlinear_arith)
                    requires
                        pos0 == needed_align * q + rest,
                        p1 == pos0 + (needed_align - rest),
                ;
                vstd::arithmetic::div_mod::lemma_mod_multiples_basic(q + 1, needed_align as int);
            }
        }
    }

    fn section<T: Zerocopyable>(&mut self, section: &mut Section, count: usize)
        requires
            old(self).pos + room::<T>(count as int) <= usize::MAX,
            sorted_below(old(self).placed@, old(self).pos as int),
        ensures
            old(self).pos <= final(section).start,
            final(section).end == final(self).pos,
            final(self).pos <= old(self).pos + room::<T>(count as int),
            section_holds::<T>(*final(section), count as int),
            final(self).placed@ == old(self).placed@.push(*final(section)),
            sorted_below(final(self).placed@, final(self).pos as int),
    {
        let ghost placed0 = self.placed@;
        let ghost pos0 = self.pos as int;
        self.align::<T>();
        section.start = self.pos as u64;
        proof {
            assert(count * T::size_spec() >= 0) by (nonlinear_arith)
                requires
                    count >= 0,
                    T::size_spec() >= 0,
            ;
        }
        self.add_many::<T>(count);
        section.end = self.pos as u64;
        proof {
            lemma_push_sorted(placed0, pos0, *section);
            self.placed = Ghost(placed0.push(*section));
        }
    }
}


proof fn lemma_room_nonneg<T: Zerocopyable>(count: int)
    requires
        count >= 0,
    ensures
        room::<T>(count) >= count,
{
    T::lemma_layout_pos();
    assert(count * T::size_spec() >= count) by (nonlinear_arith)
        requires
            count >= 0,
            T::size_spec() >= 1,
    ;
}

proof fn lemma_levels_room_step<N>(zones: Seq<RTreeScout<N>>, i: int)
    requires
        0 <= i < zones.len(),
    ensures
        levels_room::<N>(zones.take(i + 1)) == levels_room::<N>(zones.take(i)) + room::<Level>(zones[i].levels@.len() as int),
        room::<Level>(zones[i].levels@.len() as int) >= 0,
{
    assert(zones.take(i + 1).drop_last() =~= zones.take(i));
    lemma_room_nonneg::<Level>(zones[i].levels@.len() as int);
}

proof fn lemma_levels_room_mono<N>(zones: Seq<RTreeScout<N>>, i: int)
    requires
        0 <= i <= zones.len(),
    ensures
        0 <= levels_room::<N>(zones.take(i)) <= levels_room::<N>(zones),
    decreases zones.len(),
{
    if i == zones.len() {
        assert(zones.take(i) =~= zones);
        if zones.len() > 0 {
            lemma_levels_room_mono::<N>(zones.drop_last(), i - 1);
            lemma_levels_room_step::<N>(zones, i - 1);
            assert(zones.take(i - 1) =~= zones.drop_last().take(i - 1));
            assert(zones.drop_last().take(i - 1) =~= zones.drop_last());
        }
    } else {
        lemma_levels_room_mono::<N>(zones.drop_last(), i);
        assert(zones.take(i) =~= zones.drop_last().take(i));
        lemma_levels_room_step::<N>(zones, zones.len() - 1);
        assert(zones.take(zones.len() - 1) =~= zones.drop_last());
        assert(zones.take(zones.len() as int) =~= zones);
    }
}

proof fn lemma_trees_room_step<N: Zerocopyable, L: Zerocopyable>(zones: Seq<RTreeScout<N>>, i: int)
    requires
        0 <= i < zones.len(),
    ensures
        trees_room::<N, L>(zones.take(i + 1)) == trees_room::<N, L>(zones.take(i)) + room::<N>(zones[i].node_count as int) + room::<L>(zones[i].leaf_count as int),
        room::<N>(zones[i].node_count as int) >= 0,
        room::<L>(zones[i].leaf_count as int) >= 0,
{
    assert(zones.take(i + 1).drop_last() =~= zones.take(i));
    lemma_room_nonneg::<N>(zones[i].node_count as int);
    lemma_room_nonneg::<L>(zones[i].leaf_count as int);
}

proof fn lemma_trees_room_mono<N: Zerocopyable, L: Zerocopyable>(zones: Seq<RTreeScout<N>>, i: int)
    requires
        0 <= i <= zones.len(),
    ensures
        0 <= trees_room::<N, L>(zones.take(i)) <= trees_room::<N, L>(zones),
    decreases zones.len(),
{
    if i == zones.len() {
        assert(zones.take(i) =~= zones);
        if zones.len() > 0 {
            lemma_trees_room_mono::<N, L>(zones.drop_last(), i - 1);
            lemma_trees_room_step::<N, L>(zones, i - 1);
            assert(zones.take(i - 1) =~= zones.drop_last().take(i - 1));
            assert(zones.drop_last().take(i - 1) =~= zones.drop_last());
        }
    } else {
        lemma_trees_room_mono::<N, L>(zones.drop_last(), i);
        assert(zones.take(i) =~= zones.drop_last().take(i));
        lemma_trees_room_step::<N, L>(zones, zones.len() - 1);
        assert(zones.take(zones.len() - 1) =~= zones.drop_last());
        assert(zones.take(zones.len() as int) =~= zones);
    }
}

impl LayoutBuilder {
    fn rtree_list_headers<N: Zerocopyable>(&mut self, flat_list: &mut RTreeList, scout_list: &[RTreeScout<N>])
        requires
            old(self).pos + room::<RTreeHeader>(scout_list@.len() as int) + room::<N>(scout_list@.len() as int) <= usize::MAX,
            sorted_below(old(self).placed@, old(self).pos as int),
        ensures
            final(self).placed@ == old(self).placed@ + seq![final(flat_list).headers, final(flat_list).bboxes],
            sorted_below(final(self).placed@, final(self).pos as int),
            old(self).pos <= final(flat_list).headers.start,
            final(self).pos <= old(self).pos + room::<RTreeHeader>(scout_list@.len() as int) + room::<N>(scout_list@.len() as int),
            section_holds::<RTreeHeader>(final(flat_list).headers, scout_list@.len() as int),
            section_holds::<N>(final(flat_list).bboxes, scout_list@.len() as int),
            final(flat_list).headers.end <= final(flat_list).bboxes.start,
            final(flat_list).bboxes.end == final(self).pos,
    {
        let ghost p0 = self.placed@;
        self.section::<RTreeHeader>(&mut flat_list.headers, scout_list.len());
        self.section::<N>(&mut flat_list.bboxes, scout_list.len());
        assert(self.placed@ =~= p0 + seq![flat_list.headers, flat_list.bboxes]);
    }

    fn rtree_levels<N>(&mut self, headers: &mut Vec<RTreeHeader>, scout_list: &[RTreeScout<N>])
        requires
            old(headers)@.len() == scout_list@.len(),
            old(self).pos + levels_room::<N>(scout_list@) <= usize::MAX,
            sorted_below(old(self).placed@, old(self).pos as int),
        ensures
            final(self).placed@ == old(self).placed@ + levels_of(final(headers)@),
            sorted_below(final(self).placed@, final(self).pos as int),
            final(headers)@.len() == old(headers)@.len(),
            old(self).pos <= final(self).pos <= old(self).pos + levels_room::<N>(scout_list@),
            forall|i: int| 0 <= i < final(headers)@.len() ==> {
                &&& section_holds::<Level>((#[trigger] final(headers)@[i]).levels, scout_list@[i].levels@.len() as int)
                &&& old(self).pos <= final(headers)@[i].levels.start
                &&& final(headers)@[i].levels.end <= final(self).pos
                &&& final(headers)@[i].node_size_order == old(headers)@[i].node_size_order
                &&& final(headers)@[i].nodes == old(headers)@[i].nodes
                &&& final(headers)@[i].leaves == old(headers)@[i].leaves
            },
    {
        let ghost pos0 = self.pos;
        let ghost h0 = headers@;
        let ghost p0 = self.placed@;
        let mut i: usize = 0;
        assert(levels_of(headers@.take(0)) =~= Seq::<Section>::empty());
        assert(p0 + Seq::<Section>::empty() =~= p0);
        while i < headers.len()
            invariant
                headers@.len() == h0.len(),
                h0.len() == scout_list@.len(),
                i <= h0.len(),
                self.placed@ == p0 + levels_of(headers@.take(i as int)),
                sorted_below(self.placed@, self.pos as int),
                pos0 + levels_room::<N>(scout_list@) <= usize::MAX,
                pos0 <= self.pos <= pos0 + levels_room::<N>(scout_list@.take(i as int)),
                forall|k: int| i <= k < h0.len() ==> #[trigger] headers@[k] == h0[k],
                forall|k: int| 0 <= k < i ==> {
                    &&& section_holds::<Level>((#[trigger] headers@[k]).levels, scout_list@[k].levels@.len() as int)
                    &&& pos0 <= headers@[k].levels.start
                    &&& headers@[k].levels.end <= self.pos
                    &&& headers@[k].node_size_order == h0[k].node_size_order
                    &&& headers@[k].nodes == h0[k].nodes
                    &&& headers@[k].leaves == h0[k].leaves
                },
            decreases h0.len() - i,
        {
            proof {
                lemma_levels_room_step::<N>(scout_list@, i as int);
                lemma_levels_room_mono::<N>(scout_list@, i + 1);
            }
            let count = scout_list[i].levels.len();
            let ghost before = headers@;
            self.section::<Level>(&mut headers[i].levels, count);
            proof {
                assert(headers@.take(i as int) =~= before.take(i as int));
                assert(levels_of(headers@.take(i + 1)) =~= levels_of(before.take(i as int)).push(headers@[i as int].levels));
                assert(self.placed@ =~= p0 + levels_of(headers@.take(i + 1)));
                assert forall|k: int| 0 <= k < i + 1 implies {
                    &&& section_holds::<Level>((#[trigger] headers@[k]).levels, scout_list@[k].levels@.len() as int)
                    &&& pos0 <= headers@[k].levels.start
                    &&& headers@[k].levels.end <= self.pos
                    &&& headers@[k].node_size_order == h0[k].node_size_order
                    &&& headers@[k].nodes == h0[k].nodes
                    &&& headers@[k].leaves == h0[k].leaves
                } by {
                    if k < i {
                        assert(headers@[k] == before[k]);
                    }
                }
                assert forall|k: int| i + 1 <= k < h0.len() implies #[trigger] headers@[k] == h0[k] by {
                    assert(headers@[k] == before[k]);
                }
            }
            i = i + 1;
        }
        proof {
            assert(scout_list@.take(i as int) =~= scout_list@);
            assert(headers@.take(i as int) =~= headers@);
        }
    }

    fn rtree_nodes_and_leaves<N: Zerocopyable, L: Zerocopyable>(&mut self, headers: &mut Vec<RTreeHeader>, scout_list: &[RTreeScout<N>])
        requires
            old(headers)@.len() == scout_list@.len(),
            old(self).pos + trees_room::<N, L>(scout_list@) <= usize::MAX,
            sorted_below(old(self).placed@, old(self).pos as int),
        ensures
            final(self).placed@ == old(self).placed@ + nodes_leaves_of(final(headers)@),
            sorted_below(final(self).placed@, final(self).pos as int),
            final(headers)@.len() == old(headers)@.len(),
            old(self).pos <= final(self).pos <= old(self).pos + trees_room::<N, L>(scout_list@),
            forall|i: int| 0 <= i < final(headers)@.len() ==> {
                &&& section_holds::<N>((#[trigger] final(headers)@[i]).nodes, scout_list@[i].node_count as int)
                &&& section_holds::<L>(final(headers)@[i].leaves, scout_list@[i].leaf_count as int)
                &&& old(self).pos <= final(headers)@[i].nodes.start
                &&& final(headers)@[i].nodes.end <= final(headers)@[i].leaves.start
                &&& final(headers)@[i].leaves.end <= final(self).pos
                &&& final(headers)@[i].node_size_order == old(headers)@[i].node_size_order
                &&& final(headers)@[i].levels == old(headers)@[i].levels
            },
    {
        let ghost pos0 = self.pos;
        let ghost h0 = headers@;
        let ghost p0 = self.placed@;
        let mut i: usize = 0;
        assert(headers@.take(0) =~= Seq::<RTreeHeader>::empty());
        assert(p0 + nodes_leaves_of(headers@.take(0)) =~= p0);
        while i < headers.len()
            invariant
                headers@.len() == h0.len(),
                h0.len() == scout_list@.len(),
                i <= h0.len(),
                self.placed@ == p0 + nodes_leaves_of(headers@.take(i as int)),
                sorted_below(self.placed@, self.pos as int),
                pos0 + trees_room::<N, L>(scout_list@) <= usize::MAX,
                pos0 <= self.pos <= pos0 + trees_room::<N, L>(scout_list@.take(i as int)),
                forall|k: int| i <= k < h0.len() ==> #[trigger] headers@[k] == h0[k],
                forall|k: int| 0 <= k < i ==> {
                    &&& section_holds::<N>((#[trigger] headers@[k]).nodes, scout_list@[k].node_count as int)
                    &&& section_holds::<L>(headers@[k].leaves, scout_list@[k].leaf_count as int)
                    &&& pos0 <= headers@[k].nodes.start
                    &&& headers@[k].nodes.end <= headers@[k].leaves.start
                    &&& headers@[k].leaves.end <= self.pos
                    &&& headers@[k].node_size_order == h0[k].node_size_order
                    &&& headers@[k].levels == h0[k].levels
                },
            decreases h0.len() - i,
        {
            proof {
                lemma_trees_room_step::<N, L>(scout_list@, i as int);
                lemma_trees_room_mono::<N, L>(scout_list@, i + 1);
            }
            let node_count = scout_list[i].node_count;
            let leaf_count = scout_list[i].leaf_count;
            let ghost before = headers@;
            self.section::<N>(&mut headers[i].nodes, node_count);
            self.section::<L>(&mut headers[i].leaves, leaf_count);
            proof {
                assert(headers@.take(i as int) =~= before.take(i as int));
                assert(headers@.take(i + 1).drop_last() =~= headers@.take(i as int));
                assert(headers@.take(i + 1).last() == headers@[i as int]);
                assert(self.placed@ =~= p0 + nodes_leaves_of(headers@.take(i + 1)));
                assert forall|k: int| 0 <= k < i + 1 implies {
                    &&& section_holds::<N>((#[trigger] headers@[k]).nodes, scout_list@[k].node_count as int)
                    &&& section_holds::<L>(headers@[k].leaves, scout_list@[k].leaf_count as int)
                    &&& pos0 <= headers@[k].nodes.start
                    &&& headers@[k].nodes.end <= headers@[k].leaves.start
                    &&& headers@[k].leaves.end <= self.pos
                    &&& headers@[k].node_size_order == h0[k].node_size_order
                    &&& headers@[k].levels == h0[k].levels
                } by {
                    if k < i {
                        assert(headers@[k] == before[k]);
                    }
                }
                assert forall|k: int| i + 1 <= k < h0.len() implies #[trigger] headers@[k] == h0[k] by {
                    assert(headers@[k] == before[k]);
                }
            }
            i = i + 1;
        }
        proof {
            assert(scout_list@.take(i as int) =~= scout_list@);
            assert(headers@.take(i as int) =~= headers@);
        }
    }
}


#[derive(Debug, Clone)]
pub struct StorageLayout {
    pub max_storage_size: usize,
    pub header: Header,
    pub write_zones: Vec<RTreeHeader>,
    pub read_zones: Vec<RTreeHeader>,
    pub registers: Vec<RTreeHeader>,
}

/// Headers of the trees of a list laid out within `limit` bytes: levels, nodes and leaves
/// hold the records that the first pass counted.
pub open spec fn trees_laid_out<N: Zerocopyable, L: Zerocopyable>(
    headers: Seq<RTreeHeader>,
    scouts: Seq<RTreeScout<N>>,
    order: u8,
    limit: int,
) -> bool {
    &&& headers.len() == scouts.len()
    &&& forall|i: int| 0 <= i < headers.len() ==> {
        &&& (#[trigger] headers[i]).node_size_order == order as u64
        &&& section_holds::<Level>(headers[i].levels, scouts[i].levels@.len() as int)
        &&& section_holds::<N>(headers[i].nodes, scouts[i].node_count as int)
        &&& section_holds::<L>(headers[i].leaves, scouts[i].leaf_count as int)
        &&& headers[i].levels.end <= limit
        &&& headers[i].nodes.end <= limit
        &&& headers[i].leaves.end <= limit
    }
}

/// A list of `n` trees laid out within `limit` bytes.
pub open spec fn list_laid_out<N: Zerocopyable>(list: RTreeList, n: int, limit: int) -> bool {
    &&& section_holds::<RTreeHeader>(list.headers, n)
    &&& section_holds::<N>(list.bboxes, n)
    &&& list.headers.end <= limit
    &&& list.bboxes.end <= limit
}

fn rtree_headers(count: usize, node_size_order: u8) -> (r: Vec<RTreeHeader>)
    ensures
        r@.len() == count,
        forall|i: int| 0 <= i < count ==> (#[trigger] r@[i]).node_size_order == node_size_order as u64,
{
    let rtree_header = RTreeHeader {
        node_size_order: node_size_order as u64,
        leaves: Section { start: 0, end: 0 },
        nodes: Section { start: 0, end: 0 },
        levels: Section { start: 0, end: 0 },
    };
    let mut r: Vec<RTreeHeader> = Vec::new();
    let mut i: usize = 0;
    while i < count
        invariant
            i <= count,
            r@.len() == i,
            rtree_header.node_size_order == node_size_order as u64,
            forall|k: int| 0 <= k < i ==> (#[trigger] r@[k]).node_size_order == node_size_order as u64,
        decreases count - i,
    {
        let ghost before = r@;
        r.push(rtree_header);
        proof {
            assert forall|k: int| 0 <= k < i + 1 implies (#[trigger] r@[k]).node_size_order == node_size_order as u64 by {
                if k < i {
                    assert(r@[k] == before[k]);
                }
            }
        }
        i = i + 1;
    }
    r
}

/// `layout` places the file that the first pass `scout` describes, with nodes of
/// `2^node_size_order` entries: the header, the metadata, each list of trees with its
/// trees' levels and leaves, and the data section last, in order and without overlap.
pub open spec fn laid_out(layout: StorageLayout, scout: ScoutPass, node_size_order: u8) -> bool {
    &&& layout.header.magic == DB_MAGIC
    &&& layout.header.version == DB_VERSION
    &&& section_holds::<u8>(layout.header.metadata, json_len(scout.metadata_json))
    &&& layout.header.metadata.start >= 144
    &&& layout.header.metadata.end <= layout.max_storage_size
    &&& list_laid_out::<MemNode>(layout.header.write_zones, scout.write_zones@.len() as int, layout.max_storage_size as int)
    &&& list_laid_out::<MemNode>(layout.header.read_zones, scout.read_zones@.len() as int, layout.max_storage_size as int)
    &&& list_laid_out::<RegNode>(layout.header.registers, scout.registers@.len() as int, layout.max_storage_size as int)
    &&& trees_laid_out::<MemNode, MemWriteLeaf>(layout.write_zones@, scout.write_zones@, node_size_order, layout.max_storage_size as int)
    &&& trees_laid_out::<MemNode, MemReadLeaf>(layout.read_zones@, scout.read_zones@, node_size_order, layout.max_storage_size as int)
    &&& trees_laid_out::<RegNode, RegLeaf>(layout.registers@, scout.registers@, node_size_order, layout.max_storage_size as int)
    &&& section_holds::<u8>(layout.header.data, scout.data_section_required_bytes as int)
    &&& layout.header.data.end == layout.max_storage_size
    &&& sections_sorted(file_sections(layout))
}

/// Lay out the database file: header, metadata, then the headers and bounding boxes of
/// each list of trees, the levels of every tree, their nodes and leaves, and the data
/// section last.
#[verifier::rlimit(40)]
#[verifier::spinoff_prover]
pub fn build_storage_layout(scout: &ScoutPass, node_size_order: u8) -> (layout: StorageLayout)
    requires
        layout_room(*scout) <= usize::MAX,
    ensures
        laid_out(layout, *scout, node_size_order),
{
    let empty = Section { start: 0, end: 0 };
    let empty_list = RTreeList { headers: empty, bboxes: empty };
    let mut header = Header {
        magic: DB_MAGIC,
        version: DB_VERSION,
        data: empty,
        metadata: empty,
        write_zones: empty_list,
        read_zones: empty_list,
        registers: empty_list,
    };
    let mut write_zones = rtree_headers(scout.write_zones.len(), node_size_order);
    let mut read_zones = rtree_headers(scout.read_zones.len(), node_size_order);
    let mut registers = rtree_headers(scout.registers.len(), node_size_order);
    let mut builder = LayoutBuilder { pos: 0, placed: Ghost(Seq::empty()) };
    let meta_len = scout.metadata_json.as_str().as_bytes().len();
    proof {
        lemma_room_nonneg::<Header>(1);
        lemma_room_nonneg::<u8>(json_len(scout.metadata_json));
        lemma_room_nonneg::<RTreeHeader>(scout.write_zones@.len() as int);
        lemma_room_nonneg::<MemNode>(scout.write_zones@.len() as int);
        lemma_room_nonneg::<RTreeHeader>(scout.read_zones@.len() as int);
        lemma_room_nonneg::<MemNode>(scout.read_zones@.len() as int);
        lemma_room_nonneg::<RTreeHeader>(scout.registers@.len() as int);
        lemma_room_nonneg::<RegNode>(scout.registers@.len() as int);
        lemma_levels_room_mono::<MemNode>(scout.write_zones@, 0);
        lemma_levels_room_mono::<MemNode>(scout.read_zones@, 0);
        lemma_levels_room_mono::<RegNode>(scout.registers@, 0);
        lemma_trees_room_mono::<MemNode, MemWriteLeaf>(scout.write_zones@, 0);
        lemma_trees_room_mono::<MemNode, MemReadLeaf>(scout.read_zones@, 0);
        lemma_trees_room_mono::<RegNode, RegLeaf>(scout.registers@, 0);
        lemma_room_nonneg::<u8>(scout.data_section_required_bytes as int);
        assert(meta_len == json_len(scout.metadata_json));
    }
    builder.add::<Header>();
    builder.section::<u8>(&mut header.metadata, meta_len);

    // Pack header and levels to improve page caching
    builder.rtree_list_headers::<MemNode>(&mut header.write_zones, scout.write_zones.as_slice());
    builder.rtree_list_headers::<MemNode>(&mut header.read_zones, scout.read_zones.as_slice());
    builder.rtree_list_headers::<RegNode>(&mut header.registers, scout.registers.as_slice());

    builder.rtree_levels::<MemNode>(&mut write_zones, scout.write_zones.as_slice());
    builder.rtree_levels::<MemNode>(&mut read_zones, scout.read_zones.as_slice());
    builder.rtree_levels::<RegNode>(&mut registers, scout.registers.as_slice());
    let ghost wl = write_zones@;
    let ghost rl = read_zones@;
    let ghost gl = registers@;

    // nodes & leaves
    builder.rtree_nodes_and_leaves::<MemNode, MemWriteLeaf>(&mut write_zones, scout.write_zones.as_slice());
    builder.rtree_nodes_and_leaves::<MemNode, MemReadLeaf>(&mut read_zones, scout.read_zones.as_slice());
    builder.rtree_nodes_and_leaves::<RegNode, RegLeaf>(&mut registers, scout.registers.as_slice());

    // data section at the end, will be truncated after deduplication
    builder.section::<u8>(&mut header.data, scout.data_section_required_bytes);

    let layout = StorageLayout { max_storage_size: builder.pos, header, write_zones, read_zones, registers };
    proof {
        assert(levels_of(layout.write_zones@) =~= levels_of(wl));
        assert(levels_of(layout.read_zones@) =~= levels_of(rl));
        assert(levels_of(layout.registers@) =~= levels_of(gl));
        assert(builder.placed@ =~= file_sections(layout));
    }
    layout
}


/// `room::<T>(count)`, if it fits in a `usize`.
fn room_exec<T: Zerocopyable>(count: usize) -> (r: Option<usize>)
    ensures
        r matches Some(v) ==> v == room::<T>(count as int),
        r is None ==> room::<T>(count as int) > usize::MAX,
{
    let size = T::size();
    let align = T::align();
    match count.checked_mul(size) {
        Some(b) => b.checked_add(align),
        None => {
            proof {
                T::lemma_layout_pos();
                assert(count * T::size_spec() + T::align_spec() > count * T::size_spec());
            }
            None
        },
    }
}

/// The sum, if it fits in a `usize`.
fn add_room(a: Option<usize>, b: Option<usize>) -> (r: Option<usize>)
    ensures
        r matches Some(v) ==> a matches Some(x) && b matches Some(y) && v == x + y,
        r is None ==> a is None || b is None || (a matches Some(x) && b matches Some(y) && x + y > usize::MAX),
{
    match (a, b) {
        (Some(x), Some(y)) => x.checked_add(y),
        _ => None,
    }
}

/// `levels_room` of the zones, if it fits in a `usize`.
fn levels_room_exec<N>(zones: &[RTreeScout<N>]) -> (r: Option<usize>)
    ensures
        r matches Some(v) ==> v == levels_room::<N>(zones@),
        r is None ==> levels_room::<N>(zones@) > usize::MAX,
{
    let mut total: usize = 0;
    let mut i: usize = 0;
    proof {
        assert(zones@.take(0) =~= Seq::<RTreeScout<N>>::empty());
    }
    while i < zones.len()
        invariant
            i <= zones@.len(),
            total == levels_room::<N>(zones@.take(i as int)),
        decreases zones@.len() - i,
    {
        proof {
            lemma_levels_room_step::<N>(zones@, i as int);
            lemma_levels_room_mono::<N>(zones@, i + 1);
        }
        let r = match room_exec::<Level>(zones[i].levels.len()) {
            Some(v) => v,
            None => {
                return None;
            },
        };
        total = match total.checked_add(r) {
            Some(t) => t,
            None => {
                return None;
            },
        };
        i = i + 1;
    }
    assert(zones@.take(zones@.len() as int) =~= zones@);
    Some(total)
}

/// `trees_room` of the zones, if it fits in a `usize`.
fn trees_room_exec<N: Zerocopyable, L: Zerocopyable>(zones: &[RTreeScout<N>]) -> (r: Option<usize>)
    ensures
        r matches Some(v) ==> v == trees_room::<N, L>(zones@),
        r is None ==> trees_room::<N, L>(zones@) > usize::MAX,
{
    let mut total: usize = 0;
    let mut i: usize = 0;
    proof {
        assert(zones@.take(0) =~= Seq::<RTreeScout<N>>::empty());
    }
    while i < zones.len()
        invariant
            i <= zones@.len(),
            total == trees_room::<N, L>(zones@.take(i as int)),
        decreases zones@.len() - i,
    {
        proof {
            lemma_trees_room_step::<N, L>(zones@, i as int);
            lemma_trees_room_mono::<N, L>(zones@, i + 1);
        }
        let a = match room_exec::<N>(zones[i].node_count) {
            Some(v) => v,
            None => {
                return None;
            },
        };
        let b = match room_exec::<L>(zones[i].leaf_count) {
            Some(v) => v,
            None => {
                return None;
            },
        };
        total = match add_room(add_room(Some(total), Some(a)), Some(b)) {
            Some(t) => t,
            None => {
                return None;
            },
        };
        i = i + 1;
    }
    assert(zones@.take(zones@.len() as int) =~= zones@);
    Some(total)
}

/// `layout_room` of the first pass's result, if it fits in a `usize`.
pub fn layout_room_exec(scout: &ScoutPass) -> (r: Option<usize>)
    ensures
        r matches Some(v) ==> v == layout_room(*scout),
        r is None ==> layout_room(*scout) > usize::MAX,
{
    let meta_len = scout.metadata_json.as_str().as_bytes().len();
    assert(meta_len == json_len(scout.metadata_json));
    proof {
        lemma_room_nonneg::<Header>(1);
        lemma_room_nonneg::<u8>(json_len(scout.metadata_json));
        lemma_room_nonneg::<RTreeHeader>(scout.write_zones@.len() as int);
        lemma_room_nonneg::<MemNode>(scout.write_zones@.len() as int);
        lemma_room_nonneg::<RTreeHeader>(scout.read_zones@.len() as int);
        lemma_room_nonneg::<MemNode>(scout.read_zones@.len() as int);
        lemma_room_nonneg::<RTreeHeader>(scout.registers@.len() as int);
        lemma_room_nonneg::<RegNode>(scout.registers@.len() as int);
        lemma_levels_room_mono::<MemNode>(scout.write_zones@, 0);
        lemma_levels_room_mono::<MemNode>(scout.read_zones@, 0);
        lemma_levels_room_mono::<RegNode>(scout.registers@, 0);
        lemma_trees_room_mono::<MemNode, MemWriteLeaf>(scout.write_zones@, 0);
        lemma_trees_room_mono::<MemNode, MemReadLeaf>(scout.read_zones@, 0);
        lemma_trees_room_mono::<RegNode, RegLeaf>(scout.registers@, 0);
        lemma_room_nonneg::<u8>(scout.data_section_required_bytes as int);
    }
    let mut t = room_exec::<Header>(1);
    t = add_room(t, room_exec::<u8>(meta_len));
    t = add_room(t, room_exec::<RTreeHeader>(scout.write_zones.len()));
    t = add_room(t, room_exec::<MemNode>(scout.write_zones.len()));
    t = add_room(t, room_exec::<RTreeHeader>(scout.read_zones.len()));
    t = add_room(t, room_exec::<MemNode>(scout.read_zones.len()));
    t = add_room(t, room_exec::<RTreeHeader>(scout.registers.len()));
    t = add_room(t, room_exec::<RegNode>(scout.registers.len()));
    t = add_room(t, levels_room_exec::<MemNode>(scout.write_zones.as_slice()));
    t = add_room(t, levels_room_exec::<MemNode>(scout.read_zones.as_slice()));
    t = add_room(t, levels_room_exec::<RegNode>(scout.registers.as_slice()));
    t = add_room(t, trees_room_exec::<MemNode, MemWriteLeaf>(scout.write_zones.as_slice()));
    t = add_room(t, trees_room_exec::<MemNode, MemReadLeaf>(scout.read_zones.as_slice()));
    t = add_room(t, trees_room_exec::<RegNode, RegLeaf>(scout.registers.as_slice()));
    t = add_room(t, room_exec::<u8>(scout.data_section_required_bytes));
    t
}

/// A section laid out for `n` records inside a file of `len` bytes is accepted by the
/// loader and read back as `n` records.
pub proof fn law_laid_out_section_reads_back<T: Zerocopyable>(s: Section, n: int, bytes: Seq<u8>)
    requires
        n >= 0,
        section_holds::<T>(s, n),
        s.end <= bytes.len(),
        bytes.len() <= usize::MAX,
    ensures
        section_in(bytes.len() as int, s),
        section_records_ok::<T>(s),
        section_items::<T>(bytes, s).len() == n,
{
    T::lemma_layout_pos();
    let size = T::size_spec() as int;
    assert(sec_start(s) == s.start);
    assert(sec_end(s) == s.end);
    assert((n * size) % size == 0) by {
        vstd::arithmetic::div_mod::lemma_mod_multiples_basic(n, size);
    }
    assert((n * size) / size == n) by {
        vstd::arithmetic::div_mod::lemma_div_multiples_vanish(n, size);
    }
}

} // verus!
