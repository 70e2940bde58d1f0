//! The database file: every section written at the place that the layout gave it.
use vstd::prelude::*;
use crate::flat::{Header, Level, MemNode, MemReadLeaf, MemWriteLeaf, RTreeHeader, RTreeList, RegLeaf, RegNode, Section, Zerocopyable};
use crate::db::{file_header, file_sections_in_bounds, header_error, rtree_list_ok, rtree_ok, sec_end, sec_start, section_in, section_items, section_records_ok};
use crate::index::fill::{Filler, TreeFill, trees_inv, views};
use crate::index::layout::{file_sections, levels_of, list_laid_out, nodes_leaves_of, section_holds, sections_sorted, trees_laid_out};
use crate::{DB_MAGIC, DB_VERSION};
use vstd::slice::slice_to_vec;
use crate::index::nodes::{build_intermediate_nodes_from_sorted_leaves, flatten_levels, leaf_rects, levels_up};
use crate::index::scout::{RTreeScout, ScoutPass};
use crate::irange::pow2;
use vstd::utf8::encode_utf8;
use crate::index::drive::IndexError;
use crate::index::hilbert_partition::{HilbertPartitionPass, RTreePartitions, PARTITIONS};
use crate::index::hilbert_spec::HilbertSpec;
use crate::index::layout::StorageLayout;
use crate::memory::{MemReadSpec, MemWriteSpec};
use crate::register::RegSpec;
use crate::rtree::Spec;

verus! {

/// Records encoded one after the other.
pub open spec fn encode_all<T: Zerocopyable>(records: Seq<T>) -> Seq<u8>
    decreases records.len(),
{
    if records.len() == 0 {
        Seq::empty()
    } else {
        encode_all(records.drop_last()) + records.last().encoding()
    }
}

/// The records encoded one after the other.
pub fn encode_records<T: Zerocopyable>(records: &[T]) -> (r: Vec<u8>)
    ensures
        r@ == encode_all(records@),
{
    let mut out: Vec<u8> = Vec::new();
    let mut i: usize = 0;
    while i < records.len()
        invariant
            i <= records@.len(),
            out@ == encode_all(records@.take(i as int)),
        decreases records@.len() - i,
    {
        records[i].write_to(&mut out);
        proof {
            assert(records@.take(i + 1).drop_last() =~= records@.take(i as int));
        }
        i = i + 1;
    }
    assert(records@.take(records@.len() as int) =~= records@);
    out
}

/// Records encoded one after the other take their size each.
pub proof fn lemma_encode_all_len<T: Zerocopyable>(records: Seq<T>)
    ensures
        encode_all(records).len() == records.len() * T::size_spec(),
    decreases records.len(),
{
    if records.len() > 0 {
        lemma_encode_all_len(records.drop_last());
        records.last().lemma_roundtrip();
        assert(records.len() * T::size_spec() == (records.len() - 1) * T::size_spec() + T::size_spec()) by (nonlinear_arith);
    }
}

/// The record `i` is encoded at `i` times the record size.
pub proof fn lemma_encode_all_index<T: Zerocopyable>(records: Seq<T>, i: int)
    requires
        0 <= i < records.len(),
    ensures
        encode_all(records).subrange(i * T::size_spec(), (i + 1) * T::size_spec()) == records[i].encoding(),
    decreases records.len(),
{
    let size = T::size_spec() as int;
    let n = records.len() as int;
    let init = records.drop_last();
    lemma_encode_all_len(init);
    records.last().lemma_roundtrip();
    assert((n - 1) * size + size == n * size) by (nonlinear_arith);
    assert(encode_all(records) == encode_all(init) + records.last().encoding());
    assert(encode_all(init).len() == (n - 1) * size);
    if i < n - 1 {
        lemma_encode_all_index(init, i);
        assert((i + 1) * size <= (n - 1) * size) by (nonlinear_arith)
            requires
                i + 1 <= n - 1,
                size >= 0,
        ;
        assert(0 <= i * size && (i + 1) * size == i * size + size) by (nonlinear_arith)
            requires
                i >= 0,
                size >= 0,
        ;
        assert(encode_all(records).subrange(i * size, (i + 1) * size) =~= encode_all(init).subrange(i * size, (i + 1) * size));
    } else {
        assert(i * size == (n - 1) * size);
        assert(encode_all(records).subrange(i * size, (i + 1) * size) =~= records.last().encoding());
    }
}

/// Law: a section whose bytes are the encoding of records, one after the other, is read
/// back as those records.
pub proof fn law_encoded_section_reads_back<T: Zerocopyable>(bytes: Seq<u8>, s: Section, records: Seq<T>)
    requires
        sec_start(s) <= sec_end(s) <= bytes.len(),
        bytes.subrange(sec_start(s), sec_end(s)) == encode_all(records),
    ensures
        section_items::<T>(bytes, s) == records,
{
    let size = T::size_spec() as int;
    let start = sec_start(s);
    let n = records.len() as int;
    T::lemma_layout_pos();
    lemma_encode_all_len(records);
    assert(sec_end(s) - start == n * size);
    assert((n * size) / size == n) by (nonlinear_arith)
        requires
            size > 0,
    ;
    let items = section_items::<T>(bytes, s);
    assert forall|i: int| 0 <= i < n implies items[i] == records[i] by {
        lemma_encode_all_index(records, i);
        records[i].lemma_roundtrip();
        assert(0 <= i * size && (i + 1) * size <= n * size && (i + 1) * size == i * size + size) by (nonlinear_arith)
            requires
                0 <= i < n,
                size > 0,
        ;
        assert(bytes.subrange(start + i * size, start + (i + 1) * size) =~= encode_all(records).subrange(
            i * size,
            (i + 1) * size,
        ));
    }
    assert(items =~= records);
}

/// `image` with `bytes` written from `at` on.
pub open spec fn overwrite(image: Seq<u8>, at: int, bytes: Seq<u8>) -> Seq<u8> {
    image.take(at) + bytes + image.skip(at + bytes.len())
}

/// Write `bytes` from `at` on, if they fit in the image.
pub fn put(image: &mut Vec<u8>, at: u64, bytes: &[u8]) -> (r: Result<(), IndexError>)
    ensures
        r is Ok <==> at + bytes@.len() <= old(image)@.len(),
        r is Ok ==> final(image)@ == overwrite(old(image)@, at as int, bytes@),
        final(image)@.len() == old(image)@.len(),
        r is Err ==> r == Err::<(), IndexError>(IndexError::Inconsistent) && final(image)@ == old(image)@,
{
    let len = image.len();
    if at > len as u64 || bytes.len() > len - (at as usize) {
        return Err(IndexError::Inconsistent);
    }
    let start = at as usize;
    let mut i: usize = 0;
    while i < bytes.len()
        invariant
            start + bytes@.len() <= image@.len() == len,
            old(image)@.len() == len,
            i <= bytes@.len(),
            image@ == overwrite(old(image)@, start as int, bytes@.take(i as int)),
        decreases bytes@.len() - i,
    {
        let ghost prev = image@;
        image.set(start + i, bytes[i]);
        proof {
            let want = overwrite(old(image)@, start as int, bytes@.take(i + 1));
            let had = overwrite(old(image)@, start as int, bytes@.take(i as int));
            assert(want.len() == image@.len());
            assert forall|j: int| 0 <= j < image@.len() implies image@[j] == want[j] by {
                if j < start {
                    assert(image@[j] == prev[j] && prev[j] == had[j]);
                } else if j < start + i {
                    assert(image@[j] == prev[j] && prev[j] == had[j]);
                    assert(had[j] == bytes@[j - start]);
                } else if j == start + i {
                } else {
                    assert(image@[j] == prev[j] && prev[j] == had[j]);
                    assert(had[j] == old(image)@[j]);
                }
            }
            assert(image@ =~= want);
        }
        i = i + 1;
    }
    assert(bytes@.take(bytes@.len() as int) =~= bytes@);
    Ok(())
}

/// Leaves in each partition, by partition.
pub open spec fn counts_of<S: Spec>(p: RTreePartitions<S>) -> Seq<usize> {
    p.partitions@.map_values(|x: crate::index::hilbert_partition::Partition| x.leaf_count)
}

/// Leaves in the partitions before the partition `k`.
pub open spec fn leaves_before(counts: Seq<usize>, k: int) -> int
    decreases k,
{
    if k <= 0 {
        0
    } else {
        leaves_before(counts, k - 1) + counts[k - 1]
    }
}

/// The sections of the partitions, one after the other from `start`, for records of `size` bytes.
pub open spec fn partition_sections(start: int, size: int, counts: Seq<usize>) -> Seq<Section> {
    Seq::new(
        counts.len(),
        |k: int|
            Section {
                start: (start + size * leaves_before(counts, k)) as u64,
                end: (start + size * leaves_before(counts, k + 1)) as u64,
            },
    )
}

/// Every partition of records of `size` bytes, placed one after the other from `start`,
/// ends within the 64-bit offsets.
pub open spec fn partitions_fit(start: int, size: int, counts: Seq<usize>) -> bool {
    forall|k: int| 0 <= k < counts.len() ==> start + size * #[trigger] leaves_before(counts, k + 1) <= u64::MAX
}

/// The trees of a list match their partitions one for one, and every tree's partitions fit.
pub open spec fn list_fits<S: Spec>(headers: Seq<RTreeHeader>, parts: Seq<RTreePartitions<S>>) -> bool {
    &&& headers.len() == parts.len()
    &&& forall|i: int|
        0 <= i < headers.len() ==> partitions_fit(
            (#[trigger] headers[i]).leaves.start as int,
            S::Leaf::size_spec() as int,
            counts_of(parts[i]),
        )
}

/// Why a list of trees cannot be placed: trees without partitions, or partitions too large.
pub open spec fn list_error<S: Spec>(headers: Seq<RTreeHeader>, parts: Seq<RTreePartitions<S>>) -> IndexError {
    if headers.len() != parts.len() {
        IndexError::Inconsistent
    } else {
        IndexError::TooLarge
    }
}

/// Where one tree's levels and partitions of leaves go.
pub struct RTreeViewMut {
    pub levels: Section,
    pub leaves: Vec<Section>,
}

/// Where a list of trees goes.
pub struct RTreeListViewMut {
    pub headers: Section,
    pub bboxes: Section,
    pub rtrees: Vec<RTreeViewMut>,
}

/// Where every part of the file goes.
pub struct StorageViewMut {
    pub header: Section,
    pub metadata: Section,
    pub data: Section,
    pub write_zones: RTreeListViewMut,
    pub read_zones: RTreeListViewMut,
    pub registers: RTreeListViewMut,
}

/// The list `v` places the trees of `headers` with the partitions `parts`.
pub open spec fn list_view_of<S: Spec>(v: RTreeListViewMut, list: RTreeList, headers: Seq<RTreeHeader>, parts: Seq<RTreePartitions<S>>) -> bool {
    &&& v.headers == list.headers
    &&& v.bboxes == list.bboxes
    &&& v.rtrees@.len() == headers.len()
    &&& forall|i: int| 0 <= i < headers.len() ==> {
        &&& (#[trigger] v.rtrees@[i]).levels == headers[i].levels
        &&& v.rtrees@[i].leaves@ == partition_sections(headers[i].leaves.start as int, S::Leaf::size_spec() as int, counts_of(parts[i]))
    }
}

/// The sections of the partitions of one tree.
fn partition_view<S: Spec>(start: u64, parts: &RTreePartitions<S>) -> (r: Result<Vec<Section>, IndexError>)
    ensures
        r matches Ok(v) ==> v@ == partition_sections(start as int, S::Leaf::size_spec() as int, counts_of(*parts)),
        r is Err ==> r == Err::<Vec<Section>, IndexError>(IndexError::TooLarge),
        r is Ok <==> partitions_fit(start as int, S::Leaf::size_spec() as int, counts_of(*parts)),
{
    let size = S::Leaf::size() as u64;
    let ghost counts = counts_of(*parts);
    let mut out: Vec<Section> = Vec::new();
    let mut pos: u64 = start;
    let mut k: usize = 0;
    while k < parts.partitions.len()
        invariant
            k <= parts.partitions@.len() == counts.len(),
            counts == counts_of(*parts),
            size == S::Leaf::size_spec(),
            pos == start + size * leaves_before(counts, k as int),
            out@ == partition_sections(start as int, size as int, counts).take(k as int),
            forall|j: int| 0 <= j < k ==> start + size * #[trigger] leaves_before(counts, j + 1) <= u64::MAX,
        decreases parts.partitions@.len() - k,
    {
        let count = parts.partitions[k].leaf_count as u64;
        proof {
            assert(counts[k as int] == count);
            assert(leaves_before(counts, k + 1) == leaves_before(counts, k as int) + counts[k as int]);
            assert(size * leaves_before(counts, k + 1) == size * leaves_before(counts, k as int) + size * counts[k as int]) by (nonlinear_arith);
            lemma_leaves_before_nonneg(counts, k as int);
            assert(size * leaves_before(counts, k as int) >= 0) by (nonlinear_arith)
                requires size >= 0, leaves_before(counts, k as int) >= 0;
        }
        let bytes = match size.checked_mul(count) {
            Some(b) => b,
            None => {
                proof {
                    assert(start + size * leaves_before(counts, k + 1) > u64::MAX);
                }
                return Err(IndexError::TooLarge);
            },
        };
        let end = match pos.checked_add(bytes) {
            Some(e) => e,
            None => {
                proof {
                    assert(start + size * leaves_before(counts, k + 1) > u64::MAX);
                }
                return Err(IndexError::TooLarge);
            },
        };
        out.push(Section { start: pos, end });
        proof {
            assert(out@ =~= partition_sections(start as int, size as int, counts).take(k + 1));
        }
        pos = end;
        k = k + 1;
    }
    assert(out@ =~= partition_sections(start as int, size as int, counts));
    Ok(out)
}

proof fn lemma_leaves_before_nonneg(counts: Seq<usize>, k: int)
    ensures
        leaves_before(counts, k) >= 0,
    decreases k,
{
    if k > 0 {
        lemma_leaves_before_nonneg(counts, k - 1);
    }
}

/// Where the trees of a list and their partitions go.
fn list_view<S: Spec>(list: RTreeList, headers: &Vec<RTreeHeader>, parts: &Vec<RTreePartitions<S>>) -> (r: Result<RTreeListViewMut, IndexError>)
    ensures
        r matches Ok(v) ==> list_view_of::<S>(v, list, headers@, parts@),
        r is Ok <==> list_fits::<S>(headers@, parts@),
        r matches Err(e) ==> e == list_error::<S>(headers@, parts@),
{
    if headers.len() != parts.len() {
        return Err(IndexError::Inconsistent);
    }
    let mut rtrees: Vec<RTreeViewMut> = Vec::new();
    let mut i: usize = 0;
    while i < headers.len()
        invariant
            i <= headers@.len() == parts@.len(),
            rtrees@.len() == i,
            forall|j: int| 0 <= j < i ==> {
                &&& (#[trigger] rtrees@[j]).levels == headers@[j].levels
                &&& rtrees@[j].leaves@ == partition_sections(headers@[j].leaves.start as int, S::Leaf::size_spec() as int, counts_of(parts@[j]))
            },
            forall|j: int|
                0 <= j < i ==> partitions_fit(
                    (#[trigger] headers@[j]).leaves.start as int,
                    S::Leaf::size_spec() as int,
                    counts_of(parts@[j]),
                ),
        decreases headers@.len() - i,
    {
        let leaves = match partition_view(headers[i].leaves.start, &parts[i]) {
            Ok(v) => v,
            Err(e) => {
                return Err(e);
            },
        };
        rtrees.push(RTreeViewMut { levels: headers[i].levels, leaves });
        i = i + 1;
    }
    Ok(RTreeListViewMut { headers: list.headers, bboxes: list.bboxes, rtrees })
}

/// The trees of every list match their partitions one for one, and every tree's
/// partitions fit.
pub open spec fn lists_fit(layout: StorageLayout, partitions: HilbertPartitionPass) -> bool {
    &&& list_fits::<MemWriteSpec>(layout.write_zones@, partitions.write_zones@)
    &&& list_fits::<MemReadSpec>(layout.read_zones@, partitions.read_zones@)
    &&& list_fits::<RegSpec>(layout.registers@, partitions.registers@)
}

/// Why the trees cannot be placed: the error of the first list that does not fit.
pub open spec fn lists_error(layout: StorageLayout, partitions: HilbertPartitionPass) -> IndexError {
    if !list_fits::<MemWriteSpec>(layout.write_zones@, partitions.write_zones@) {
        list_error::<MemWriteSpec>(layout.write_zones@, partitions.write_zones@)
    } else if !list_fits::<MemReadSpec>(layout.read_zones@, partitions.read_zones@) {
        list_error::<MemReadSpec>(layout.read_zones@, partitions.read_zones@)
    } else {
        list_error::<RegSpec>(layout.registers@, partitions.registers@)
    }
}

/// `v` says where every part of the file laid out by `layout` goes, each tree's leaves cut
/// by its partitions.
pub open spec fn view_of(v: StorageViewMut, layout: StorageLayout, partitions: HilbertPartitionPass) -> bool {
    &&& v.header == Section { start: 0, end: Header::size_spec() as u64 }
    &&& v.metadata == layout.header.metadata
    &&& v.data == layout.header.data
    &&& list_view_of::<MemWriteSpec>(v.write_zones, layout.header.write_zones, layout.write_zones@, partitions.write_zones@)
    &&& list_view_of::<MemReadSpec>(v.read_zones, layout.header.read_zones, layout.read_zones@, partitions.read_zones@)
    &&& list_view_of::<RegSpec>(v.registers, layout.header.registers, layout.registers@, partitions.registers@)
}

/// Where every part of the file goes: the header first, the metadata, the data section,
/// and per list of trees its headers, bounding boxes, each tree's levels and each of its
/// partitions of leaves, one after the other in the tree's leaves section.
pub fn build_storage_view_mut(layout: &StorageLayout, partitions: &HilbertPartitionPass) -> (r: Result<StorageViewMut, IndexError>)
    ensures
        r matches Ok(v) ==> view_of(v, *layout, *partitions),
        r is Ok <==> lists_fit(*layout, *partitions),
        r matches Err(e) ==> e == lists_error(*layout, *partitions),
        r matches Ok(v) ==> {
            &&& v.header == Section { start: 0, end: Header::size_spec() as u64 }
            &&& v.metadata == layout.header.metadata
            &&& v.data == layout.header.data
            &&& list_view_of::<MemWriteSpec>(v.write_zones, layout.header.write_zones, layout.write_zones@, partitions.write_zones@)
            &&& list_view_of::<MemReadSpec>(v.read_zones, layout.header.read_zones, layout.read_zones@, partitions.read_zones@)
            &&& list_view_of::<RegSpec>(v.registers, layout.header.registers, layout.registers@, partitions.registers@)
        },
        r is Ok <==> {
            &&& list_fits::<MemWriteSpec>(layout.write_zones@, partitions.write_zones@)
            &&& list_fits::<MemReadSpec>(layout.read_zones@, partitions.read_zones@)
            &&& list_fits::<RegSpec>(layout.registers@, partitions.registers@)
        },
        r matches Err(e) ==> e == if !list_fits::<MemWriteSpec>(layout.write_zones@, partitions.write_zones@) {
            list_error::<MemWriteSpec>(layout.write_zones@, partitions.write_zones@)
        } else if !list_fits::<MemReadSpec>(layout.read_zones@, partitions.read_zones@) {
            list_error::<MemReadSpec>(layout.read_zones@, partitions.read_zones@)
        } else {
            list_error::<RegSpec>(layout.registers@, partitions.registers@)
        },
{
    let write_zones = match list_view(layout.header.write_zones, &layout.write_zones, &partitions.write_zones) {
        Ok(v) => v,
        Err(e) => {
            return Err(e);
        },
    };
    let read_zones = match list_view(layout.header.read_zones, &layout.read_zones, &partitions.read_zones) {
        Ok(v) => v,
        Err(e) => {
            return Err(e);
        },
    };
    let registers = match list_view(layout.header.registers, &layout.registers, &partitions.registers) {
        Ok(v) => v,
        Err(e) => {
            return Err(e);
        },
    };
    Ok(
        StorageViewMut {
            header: Section { start: 0, end: Header::size() as u64 },
            metadata: layout.header.metadata,
            data: layout.header.data,
            write_zones,
            read_zones,
            registers,
        },
    )
}


/// `image` after each write in turn.
pub open spec fn apply_writes(image: Seq<u8>, writes: Seq<(int, Seq<u8>)>) -> Seq<u8>
    decreases writes.len(),
{
    if writes.len() == 0 {
        image
    } else {
        overwrite(apply_writes(image, writes.drop_last()), writes.last().0, writes.last().1)
    }
}

/// Every write lands inside an image of `len` bytes.
pub open spec fn writes_fit(len: int, writes: Seq<(int, Seq<u8>)>) -> bool {
    forall|i: int| 0 <= i < writes.len() ==> 0 <= (#[trigger] writes[i]).0 && writes[i].0 + writes[i].1.len() <= len
}

/// Writes keep the image's length.
pub proof fn lemma_apply_len(image: Seq<u8>, writes: Seq<(int, Seq<u8>)>)
    requires
        writes_fit(image.len() as int, writes),
    ensures
        apply_writes(image, writes).len() == image.len(),
    decreases writes.len(),
{
    if writes.len() > 0 {
        lemma_apply_len(image, writes.drop_last());
        assert(writes.drop_last().len() < writes.len());
        let w = writes.last();
        assert(writes[writes.len() - 1] == w);
    }
}

/// No two writes touch the same byte.
pub open spec fn writes_disjoint(writes: Seq<(int, Seq<u8>)>) -> bool {
    forall|i: int, j: int|
        0 <= i < j < writes.len() ==> (#[trigger] writes[i]).0 + writes[i].1.len() <= (#[trigger] writes[j]).0 || writes[j].0
            + writes[j].1.len() <= writes[i].0
}

/// Law: where no two writes touch the same byte, each write's bytes are read back at its
/// place once all are applied.
pub proof fn law_disjoint_writes_read_back(image: Seq<u8>, writes: Seq<(int, Seq<u8>)>, k: int)
    requires
        writes_fit(image.len() as int, writes),
        writes_disjoint(writes),
        0 <= k < writes.len(),
    ensures
        apply_writes(image, writes).subrange(writes[k].0, writes[k].0 + writes[k].1.len()) == writes[k].1,
    decreases writes.len(),
{
    let init = writes.drop_last();
    let last = writes.last();
    assert(writes[writes.len() - 1] == last);
    assert(writes_fit(image.len() as int, init)) by {
        assert forall|i: int| 0 <= i < init.len() implies 0 <= (#[trigger] init[i]).0 && init[i].0 + init[i].1.len() <= image.len() by {
            assert(init[i] == writes[i]);
        }
    }
    lemma_apply_len(image, init);
    let before = apply_writes(image, init);
    let w = writes[k];
    if k == writes.len() - 1 {
        assert(overwrite(before, last.0, last.1).subrange(last.0, last.0 + last.1.len()) =~= last.1);
    } else {
        assert(writes_disjoint(init)) by {
            assert forall|i: int, j: int| 0 <= i < j < init.len() implies (#[trigger] init[i]).0 + init[i].1.len() <= (
            #[trigger] init[j]).0 || init[j].0 + init[j].1.len() <= init[i].0 by {
                assert(init[i] == writes[i] && init[j] == writes[j]);
            }
        }
        assert(init[k] == w);
        law_disjoint_writes_read_back(image, init, k);
        assert(w.0 + w.1.len() <= last.0 || last.0 + last.1.len() <= w.0);
        assert(overwrite(before, last.0, last.1).subrange(w.0, w.0 + w.1.len()) =~= before.subrange(w.0, w.0 + w.1.len()));
    }
}

/// Applying `a` then `b` is applying `a + b`.
pub proof fn lemma_apply_concat(image: Seq<u8>, a: Seq<(int, Seq<u8>)>, b: Seq<(int, Seq<u8>)>)
    ensures
        apply_writes(apply_writes(image, a), b) == apply_writes(image, a + b),
    decreases b.len(),
{
    if b.len() == 0 {
        assert(a + b =~= a);
    } else {
        lemma_apply_concat(image, a, b.drop_last());
        assert((a + b).drop_last() =~= a + b.drop_last());
        assert((a + b).last() == b.last());
    }
}

/// The bounding boxes of the trees.
pub open spec fn bboxes_of<N>(scouts: Seq<RTreeScout<N>>) -> Seq<N> {
    scouts.map_values(|z: RTreeScout<N>| z.bbox)
}

/// The intermediate nodes over sorted leaves, grouped by `g`.
pub open spec fn built_nodes<S: HilbertSpec>(leaves: Seq<S::Leaf>, g: int) -> Seq<S::Node> {
    flatten_levels(levels_up::<S>(leaf_rects::<S>(leaves), g))
}

/// The leaves of a tree: its sorted partitions one after the other.
pub open spec fn tree_leaves<S: HilbertSpec>(t: TreeFill<S>) -> Seq<S::Leaf> {
    flatten_levels(views(t.sorted@))
}

/// The levels of each tree, encoded.
pub open spec fn levels_contents<N>(scouts: Seq<RTreeScout<N>>) -> Seq<Seq<u8>> {
    scouts.map_values(|z: RTreeScout<N>| encode_all(z.levels@))
}

/// The nodes then the leaves of each tree, encoded.
pub open spec fn bodies_contents<S: HilbertSpec>(trees: Seq<TreeFill<S>>, g: int) -> Seq<Seq<u8>>
    decreases trees.len(),
{
    if trees.len() == 0 {
        Seq::empty()
    } else {
        bodies_contents::<S>(trees.drop_last(), g) + seq![
            encode_all(built_nodes::<S>(tree_leaves::<S>(trees.last()), g)),
            encode_all(tree_leaves::<S>(trees.last())),
        ]
    }
}

/// The header of the file once the data section is cut to the `used` bytes of its `room`.
pub open spec fn cut_header(h: Header, room: nat, used: nat) -> Header {
    Header {
        data: Section {
            start: h.data.start,
            end: if h.data.end >= room - used {
                (h.data.end - (room - used)) as u64
            } else {
                0
            },
        },
        ..h
    }
}

/// Where each part of the file goes, in the order of the file: the header, every section
/// of the layout, and the used part of the data section.
pub open spec fn image_slots(l: StorageLayout, used: nat) -> Seq<Section> {
    seq![Section { start: 0, end: 144 }] + file_sections(l).drop_last() + seq![
        Section { start: l.header.data.start, end: (l.header.data.start + used) as u64 },
    ]
}

/// What each part of the file holds, in the order of `image_slots`.
pub open spec fn image_contents(l: StorageLayout, scout: ScoutPass, filler: Filler, g: int) -> Seq<Seq<u8>> {
    seq![
        cut_header(l.header, filler.dedup.room(), filler.dedup.section().len()).encoding(),
        encode_utf8(scout.metadata_json@),
        encode_all(l.write_zones@),
        encode_all(bboxes_of(scout.write_zones@)),
        encode_all(l.read_zones@),
        encode_all(bboxes_of(scout.read_zones@)),
        encode_all(l.registers@),
        encode_all(bboxes_of(scout.registers@)),
    ] + levels_contents(scout.write_zones@) + levels_contents(scout.read_zones@) + levels_contents(scout.registers@)
        + bodies_contents::<MemWriteSpec>(filler.write_zones@, g) + bodies_contents::<MemReadSpec>(filler.read_zones@, g)
        + bodies_contents::<RegSpec>(filler.registers@, g) + seq![filler.dedup.section()]
}

/// Each content written at the start of its slot.
pub open spec fn slot_writes(slots: Seq<Section>, contents: Seq<Seq<u8>>) -> Seq<(int, Seq<u8>)> {
    Seq::new(slots.len(), |i: int| (slots[i].start as int, contents[i]))
}

/// Each content fills its slot exactly.
pub open spec fn contents_fill(slots: Seq<Section>, contents: Seq<Seq<u8>>) -> bool {
    &&& slots.len() == contents.len()
    &&& forall|i: int| 0 <= i < slots.len() ==> (#[trigger] slots[i]).start <= slots[i].end && slots[i].end - slots[i].start
        == contents[i].len()
}

/// Write each content at the start of its slot, each filling its slot exactly.
fn put_slots(image: &mut Vec<u8>, slots: &Vec<Section>, contents: &Vec<Vec<u8>>) -> (r: Result<(), IndexError>)
    ensures
        r is Ok <==> contents_fill(slots@, views(contents@)) && writes_fit(old(image)@.len() as int, slot_writes(slots@, views(contents@))),
        r is Ok ==> final(image)@ == apply_writes(old(image)@, slot_writes(slots@, views(contents@))),
        r is Err ==> r == Err::<(), IndexError>(IndexError::Inconsistent),
{
    let ghost img0 = image@;
    let ghost all = slot_writes(slots@, views(contents@));
    if slots.len() != contents.len() {
        return Err(IndexError::Inconsistent);
    }
    let n = slots.len();
    let mut i: usize = 0;
    assert(all.take(0) =~= Seq::<(int, Seq<u8>)>::empty());
    while i < n
        invariant
            i <= n == slots@.len() == contents@.len(),
            all == slot_writes(slots@, views(contents@)),
            img0 == old(image)@,
            image@.len() == img0.len(),
            forall|k: int| 0 <= k < i ==> (#[trigger] slots@[k]).start <= slots@[k].end && slots@[k].end - slots@[k].start
                == contents@[k]@.len(),
            writes_fit(img0.len() as int, all.take(i as int)),
            image@ == apply_writes(img0, all.take(i as int)),
        decreases n - i,
    {
        let slot = slots[i];
        let bytes = contents[i].as_slice();
        let ghost w = all[i as int];
        assert(w == (slot.start as int, contents@[i as int]@));
        assert(views(contents@)[i as int] == contents@[i as int]@);
        if !(slot.start <= slot.end && slot.end - slot.start == bytes.len() as u64) {
            proof {
                assert(!((#[trigger] slots@[i as int]).start <= slots@[i as int].end && slots@[i as int].end - slots@[i as int].start
                    == views(contents@)[i as int].len()));
            }
            return Err(IndexError::Inconsistent);
        }
        let r = put_at(image, slot.start, bytes, Ghost(w));
        proof {
            assert(all.take(i + 1) =~= all.take(i as int) + seq![w]);
            lemma_fit_concat(img0.len() as int, all.take(i as int), seq![w]);
        }
        match r {
            Ok(()) => {},
            Err(e) => {
                proof {
                    lemma_fit_concat(img0.len() as int, all.take(i + 1), all.skip(i + 1));
                    assert(all.take(i + 1) + all.skip(i + 1) =~= all);
                }
                return Err(e);
            },
        }
        proof {
            lemma_apply_concat(img0, all.take(i as int), seq![w]);
        }
        i = i + 1;
    }
    assert(all.take(n as int) =~= all);
    Ok(())
}

/// Write `bytes` at the start of a section.
fn put_at(image: &mut Vec<u8>, at: u64, bytes: &[u8], Ghost(w): Ghost<(int, Seq<u8>)>) -> (r: Result<(), IndexError>)
    requires
        w == (at as int, bytes@),
    ensures
        r is Ok <==> writes_fit(old(image)@.len() as int, seq![w]),
        r is Ok ==> final(image)@ == apply_writes(old(image)@, seq![w]),
        r is Err ==> r == Err::<(), IndexError>(IndexError::Inconsistent),
        final(image)@.len() == old(image)@.len(),
{
    let r = put(image, at, bytes);
    proof {
        assert(seq![w].drop_last() =~= Seq::<(int, Seq<u8>)>::empty());
        assert(apply_writes(old(image)@, seq![w].drop_last()) == old(image)@);
        assert(seq![w].last() == w);
        assert(seq![w][0] == w);
    }
    r
}

/// A concatenation of writes fits when each part fits.
pub proof fn lemma_fit_concat(len: int, a: Seq<(int, Seq<u8>)>, b: Seq<(int, Seq<u8>)>)
    ensures
        writes_fit(len, a + b) <==> writes_fit(len, a) && writes_fit(len, b),
{
    if writes_fit(len, a) && writes_fit(len, b) {
        assert forall|i: int| 0 <= i < (a + b).len() implies 0 <= (#[trigger] (a + b)[i]).0 && (a + b)[i].0 + (a + b)[i].1.len() <= len by {
            if i < a.len() {
                assert((a + b)[i] == a[i]);
            } else {
                assert((a + b)[i] == b[i - a.len()]);
            }
        }
    }
    if writes_fit(len, a + b) {
        assert forall|i: int| 0 <= i < a.len() implies 0 <= (#[trigger] a[i]).0 && a[i].0 + a[i].1.len() <= len by {
            assert((a + b)[i] == a[i]);
        }
        assert forall|i: int| 0 <= i < b.len() implies 0 <= (#[trigger] b[i]).0 && b[i].0 + b[i].1.len() <= len by {
            assert((a + b)[i + a.len()] == b[i]);
        }
    }
}

/// The bounding boxes of the trees, in order.
fn bboxes_exec<N: Copy>(scouts: &Vec<RTreeScout<N>>) -> (r: Vec<N>)
    ensures
        r@ == bboxes_of(scouts@),
{
    let mut r: Vec<N> = Vec::new();
    let mut i: usize = 0;
    while i < scouts.len()
        invariant
            i <= scouts@.len(),
            r@ == bboxes_of(scouts@).take(i as int),
        decreases scouts@.len() - i,
    {
        r.push(scouts[i].bbox);
        proof {
            assert(r@ =~= bboxes_of(scouts@).take(i + 1));
        }
        i = i + 1;
    }
    assert(bboxes_of(scouts@).take(scouts@.len() as int) =~= bboxes_of(scouts@));
    r
}

/// The views after a push are the views before, and the pushed view.
proof fn lemma_views_push(c: Seq<Vec<u8>>, x: Vec<u8>)
    ensures
        views(c.push(x)) == views(c).push(x@),
{
    assert(views(c.push(x)) =~= views(c).push(x@));
}

/// Append a content.
fn push_content(contents: &mut Vec<Vec<u8>>, x: Vec<u8>)
    ensures
        views(final(contents)@) == views(old(contents)@).push(x@),
{
    let ghost c0 = contents@;
    contents.push(x);
    proof {
        lemma_views_push(c0, x);
    }
}

/// Append the levels sections of a list and their encoded levels.
fn push_levels<N>(slots: &mut Vec<Section>, contents: &mut Vec<Vec<u8>>, headers: &Vec<RTreeHeader>, scouts: &Vec<RTreeScout<N>>)
    requires
        headers@.len() == scouts@.len(),
    ensures
        final(slots)@ == old(slots)@ + levels_of(headers@),
        views(final(contents)@) == views(old(contents)@) + levels_contents(scouts@),
{
    let ghost s0 = slots@;
    let ghost c0 = views(contents@);
    let mut i: usize = 0;
    while i < headers.len()
        invariant
            i <= headers@.len() == scouts@.len(),
            slots@ == s0 + levels_of(headers@.take(i as int)),
            views(contents@) == c0 + levels_contents(scouts@.take(i as int)),
        decreases headers@.len() - i,
    {
        slots.push(headers[i].levels);
        let ghost cb = contents@;
        let enc = encode_records(scouts[i].levels.as_slice());
        let ghost ev = enc@;
        contents.push(enc);
        proof {
            lemma_views_push(cb, enc);
            assert(levels_of(headers@.take(i + 1)) =~= levels_of(headers@.take(i as int)).push(headers@[i as int].levels));
            assert(levels_contents(scouts@.take(i + 1)) =~= levels_contents(scouts@.take(i as int)).push(
                encode_all(scouts@[i as int].levels@),
            ));
            assert(slots@ =~= s0 + levels_of(headers@.take(i + 1)));
            assert(views(contents@) =~= c0 + levels_contents(scouts@.take(i + 1)));
        }
        i = i + 1;
    }
    assert(headers@.take(i as int) =~= headers@);
    assert(scouts@.take(i as int) =~= scouts@);
}

/// Append the nodes and leaves sections of a list, with the nodes built over each tree's
/// sorted leaves and those leaves, encoded.
fn push_bodies<S: HilbertSpec>(
    slots: &mut Vec<Section>,
    contents: &mut Vec<Vec<u8>>,
    headers: &Vec<RTreeHeader>,
    trees: &Vec<TreeFill<S>>,
    node_size_order: u8,
)
    requires
        headers@.len() == trees@.len(),
        1 <= node_size_order <= 16,
    ensures
        final(slots)@ == old(slots)@ + nodes_leaves_of(headers@),
        views(final(contents)@) == views(old(contents)@) + bodies_contents::<S>(trees@, pow2(node_size_order as nat) as int),
{
    let ghost g = pow2(node_size_order as nat) as int;
    let ghost s0 = slots@;
    let ghost c0 = views(contents@);
    let mut i: usize = 0;
    assert(headers@.take(0) =~= Seq::<RTreeHeader>::empty());
    assert(trees@.take(0) =~= Seq::<TreeFill<S>>::empty());
    assert(s0 + nodes_leaves_of(headers@.take(0)) =~= s0);
    assert(c0 + bodies_contents::<S>(trees@.take(0), g) =~= c0);
    while i < headers.len()
        invariant
            i <= headers@.len() == trees@.len(),
            1 <= node_size_order <= 16,
            g == pow2(node_size_order as nat) as int,
            slots@ == s0 + nodes_leaves_of(headers@.take(i as int)),
            views(contents@) == c0 + bodies_contents::<S>(trees@.take(i as int), g),
        decreases headers@.len() - i,
    {
        let leaves = trees[i].leaves();
        let nodes = build_intermediate_nodes_from_sorted_leaves::<S>(node_size_order, leaves.as_slice());
        slots.push(headers[i].nodes);
        slots.push(headers[i].leaves);
        let ghost cb = contents@;
        let enc_nodes = encode_records(nodes.as_slice());
        let enc_leaves = encode_records(leaves.as_slice());
        contents.push(enc_nodes);
        let ghost cm = contents@;
        contents.push(enc_leaves);
        proof {
            lemma_views_push(cb, enc_nodes);
            lemma_views_push(cm, enc_leaves);
            assert(views(contents@) == views(cb) + seq![enc_nodes@, enc_leaves@]);
            assert(headers@.take(i + 1).drop_last() =~= headers@.take(i as int));
            assert(trees@.take(i + 1).drop_last() =~= trees@.take(i as int));
            assert(slots@ =~= s0 + nodes_leaves_of(headers@.take(i + 1)));
            assert(views(contents@) =~= c0 + bodies_contents::<S>(trees@.take(i + 1), g));
        }
        i = i + 1;
    }
    assert(headers@.take(i as int) =~= headers@);
    assert(trees@.take(i as int) =~= trees@);
}

/// `n` zero bytes.
fn zeros(n: usize) -> (r: Vec<u8>)
    ensures
        r@ == Seq::new(n as nat, |_i: int| 0u8),
{
    let mut r: Vec<u8> = Vec::new();
    let mut i: usize = 0;
    while i < n
        invariant
            i <= n,
            r@ == Seq::new(i as nat, |_i: int| 0u8),
        decreases n - i,
    {
        r.push(0u8);
        proof {
            assert(r@ =~= Seq::new((i + 1) as nat, |_i: int| 0u8));
        }
        i = i + 1;
    }
    r
}

/// Every partition of a tree holds as many sorted leaves as its place in the view takes.
pub open spec fn partition_fill_one<S: HilbertSpec>(v: RTreeViewMut, t: TreeFill<S>) -> bool {
    &&& v.leaves@.len() == PARTITIONS
    &&& t.sorted@.len() == PARTITIONS
    &&& forall|k: int| 0 <= k < PARTITIONS ==> (#[trigger] v.leaves@[k]).end - v.leaves@[k].start == t.sorted@[k].len()
        * S::Leaf::size_spec()
}

/// Every partition of every tree of a list fills its place in the view.
pub open spec fn partitions_fill<S: HilbertSpec>(view: RTreeListViewMut, trees: Seq<TreeFill<S>>) -> bool {
    &&& view.rtrees@.len() == trees.len()
    &&& forall|i: int| 0 <= i < trees.len() ==> partition_fill_one::<S>(#[trigger] view.rtrees@[i], trees[i])
}

fn check_one<S: HilbertSpec>(v: &RTreeViewMut, t: &TreeFill<S>) -> (r: bool)
    ensures
        r == partition_fill_one::<S>(*v, *t),
{
    if v.leaves.len() != PARTITIONS || t.sorted.len() != PARTITIONS {
        return false;
    }
    let size = S::Leaf::size() as u64;
    let mut k: usize = 0;
    while k < PARTITIONS
        invariant
            v.leaves@.len() == PARTITIONS,
            t.sorted@.len() == PARTITIONS,
            size == S::Leaf::size_spec(),
            k <= PARTITIONS,
            forall|q: int| 0 <= q < k ==> (#[trigger] v.leaves@[q]).end - v.leaves@[q].start == t.sorted@[q].len() * S::Leaf::size_spec(),
        decreases PARTITIONS - k,
    {
        let sec = v.leaves[k];
        let count = t.sorted[k].len() as u64;
        let fits = match count.checked_mul(size) {
            Some(b) => sec.start <= sec.end && sec.end - sec.start == b,
            None => false,
        };
        if !fits {
            assert(!(v.leaves@[k as int].end - v.leaves@[k as int].start == t.sorted@[k as int].len() * S::Leaf::size_spec()));
            return false;
        }
        k = k + 1;
    }
    true
}

/// Check that every partition fills its place in the view.
fn check_partitions<S: HilbertSpec>(view: &RTreeListViewMut, trees: &Vec<TreeFill<S>>) -> (r: bool)
    ensures
        r == partitions_fill::<S>(*view, trees@),
{
    if view.rtrees.len() != trees.len() {
        return false;
    }
    let mut i: usize = 0;
    while i < trees.len()
        invariant
            i <= trees@.len() == view.rtrees@.len(),
            forall|j: int| 0 <= j < i ==> partition_fill_one::<S>(#[trigger] view.rtrees@[j], trees@[j]),
        decreases trees@.len() - i,
    {
        if !check_one(&view.rtrees[i], &trees[i]) {
            return false;
        }
        i = i + 1;
    }
    true
}

/// What writing the file needs: the data left unused fits in the file, the data section
/// ends within `u64`, the trees of the layout, the first pass and the filled passes match
/// one for one, every tree's partitions hold its sorted leaves, and every piece of the
/// file fills its place.
pub open spec fn image_fits(view: StorageViewMut, layout: StorageLayout, scout: ScoutPass, filler: Filler, g: int) -> bool {
    let used = filler.dedup.section().len();
    let unused = filler.dedup.room() - used;
    let slots = image_slots(layout, used);
    let contents = image_contents(layout, scout, filler, g);
    &&& unused <= layout.max_storage_size && layout.header.data.start + used <= u64::MAX
    &&& layout.write_zones@.len() == scout.write_zones@.len() == filler.write_zones@.len()
    &&& layout.read_zones@.len() == scout.read_zones@.len() == filler.read_zones@.len()
    &&& layout.registers@.len() == scout.registers@.len() == filler.registers@.len()
    &&& partitions_fill::<MemWriteSpec>(view.write_zones, filler.write_zones@)
    &&& partitions_fill::<MemReadSpec>(view.read_zones, filler.read_zones@)
    &&& partitions_fill::<RegSpec>(view.registers, filler.registers@)
    &&& contents_fill(slots, contents)
    &&& writes_fit(layout.max_storage_size as int, slot_writes(slots, contents))
}


/// The database file: zeros of the laid-out size, each part written at its place in the
/// order of the file, then cut after the data section's used bytes. The header tells the
/// data section's new end. Every part must fill its place exactly, and every partition of
/// sorted leaves its place in the view.
pub fn write_storage_image(
    view: &StorageViewMut,
    layout: &StorageLayout,
    scout: &ScoutPass,
    filler: &Filler,
    node_size_order: u8,
) -> (r: Result<Vec<u8>, IndexError>)
    requires
        1 <= node_size_order <= 16,
        filler.inv(),
    ensures
        ({
            let g = pow2(node_size_order as nat) as int;
            let used = filler.dedup.section().len();
            let unused = filler.dedup.room() - used;
            let slots = image_slots(*layout, used);
            let contents = image_contents(*layout, *scout, *filler, g);
            let blank = Seq::new(layout.max_storage_size as nat, |_i: int| 0u8);
            &&& r is Ok <==> unused <= layout.max_storage_size && layout.header.data.start + used <= u64::MAX
                && layout.write_zones@.len() == scout.write_zones@.len() == filler.write_zones@.len()
                && layout.read_zones@.len() == scout.read_zones@.len() == filler.read_zones@.len()
                && layout.registers@.len() == scout.registers@.len() == filler.registers@.len()
                && partitions_fill::<MemWriteSpec>(view.write_zones, filler.write_zones@)
                && partitions_fill::<MemReadSpec>(view.read_zones, filler.read_zones@)
                && partitions_fill::<RegSpec>(view.registers, filler.registers@)
                && contents_fill(slots, contents)
                && writes_fit(layout.max_storage_size as int, slot_writes(slots, contents))
            &&& r matches Ok(img) ==> img@ == apply_writes(blank, slot_writes(slots, contents)).take(
                layout.max_storage_size - unused,
            )
        }),
        r is Ok <==> image_fits(*view, *layout, *scout, *filler, pow2(node_size_order as nat) as int),
        r is Err ==> r == Err::<Vec<u8>, IndexError>(IndexError::Inconsistent),
{
    let ghost g = pow2(node_size_order as nat) as int;
    let used = filler.dedup.bytes_used();
    let room = filler.dedup.room_exec();
    proof {
        filler.dedup.lemma_used_in_room();
    }
    let unused = room - used;
    if unused > layout.max_storage_size {
        return Err(IndexError::Inconsistent);
    }
    if used as u64 > u64::MAX - layout.header.data.start {
        return Err(IndexError::Inconsistent);
    }
    if !(layout.write_zones.len() == scout.write_zones.len() && scout.write_zones.len() == filler.write_zones.len()
        && layout.read_zones.len() == scout.read_zones.len() && scout.read_zones.len() == filler.read_zones.len()
        && layout.registers.len() == scout.registers.len() && scout.registers.len() == filler.registers.len()) {
        return Err(IndexError::Inconsistent);
    }
    if !(check_partitions(&view.write_zones, &filler.write_zones) && check_partitions(&view.read_zones, &filler.read_zones)
        && check_partitions(&view.registers, &filler.registers)) {
        return Err(IndexError::Inconsistent);
    }
    let (slots, contents) = slots_and_contents(layout, scout, filler, node_size_order);
    let mut image = zeros(layout.max_storage_size);
    let ghost blank = image@;
    match put_slots(&mut image, &slots, &contents) {
        Ok(()) => {},
        Err(e) => {
            return Err(e);
        },
    }
    proof {
        lemma_apply_len(blank, slot_writes(slots@, views(contents@)));
    }
    let ghost full = image@;
    image.truncate(layout.max_storage_size - unused);
    assert(image@ =~= full.take(layout.max_storage_size - unused));
    Ok(image)
}

/// Where each part of the file goes, and what it holds, in the order of the file.
fn slots_and_contents(layout: &StorageLayout, scout: &ScoutPass, filler: &Filler, node_size_order: u8) -> (r: (Vec<Section>, Vec<Vec<u8>>))
    requires
        1 <= node_size_order <= 16,
        filler.inv(),
        layout.header.data.start + filler.dedup.section().len() <= u64::MAX,
        layout.write_zones@.len() == scout.write_zones@.len() == filler.write_zones@.len(),
        layout.read_zones@.len() == scout.read_zones@.len() == filler.read_zones@.len(),
        layout.registers@.len() == scout.registers@.len() == filler.registers@.len(),
    ensures
        r.0@ == image_slots(*layout, filler.dedup.section().len()),
        views(r.1@) == image_contents(*layout, *scout, *filler, pow2(node_size_order as nat) as int),
{
    let ghost g = pow2(node_size_order as nat) as int;
    let used = filler.dedup.bytes_used();
    let room = filler.dedup.room_exec();
    proof {
        filler.dedup.lemma_used_in_room();
    }
    let unused = room - used;
    let mut header = layout.header;
    header.data.end = if layout.header.data.end >= unused as u64 {
        layout.header.data.end - unused as u64
    } else {
        0
    };
    let mut slots: Vec<Section> = Vec::new();
    let mut contents: Vec<Vec<u8>> = Vec::new();
    assert(views(contents@) =~= Seq::<Seq<u8>>::empty());
    // header and metadata
    slots.push(Section { start: 0, end: 144 });
    let mut header_bytes: Vec<u8> = Vec::new();
    header.write_to(&mut header_bytes);
    push_content(&mut contents, header_bytes);
    slots.push(layout.header.metadata);
    push_content(&mut contents, slice_to_vec(scout.metadata_json.as_str().as_bytes()));
    // each list's headers and bounding boxes
    slots.push(layout.header.write_zones.headers);
    push_content(&mut contents, encode_records(layout.write_zones.as_slice()));
    slots.push(layout.header.write_zones.bboxes);
    push_content(&mut contents, encode_records(bboxes_exec(&scout.write_zones).as_slice()));
    slots.push(layout.header.read_zones.headers);
    push_content(&mut contents, encode_records(layout.read_zones.as_slice()));
    slots.push(layout.header.read_zones.bboxes);
    push_content(&mut contents, encode_records(bboxes_exec(&scout.read_zones).as_slice()));
    slots.push(layout.header.registers.headers);
    push_content(&mut contents, encode_records(layout.registers.as_slice()));
    slots.push(layout.header.registers.bboxes);
    push_content(&mut contents, encode_records(bboxes_exec(&scout.registers).as_slice()));
    proof {
        let h = cut_header(layout.header, filler.dedup.room(), filler.dedup.section().len());
        assert(header == h);
    }
    let ghost s8 = slots@;
    let ghost c8 = views(contents@);
    // every tree's levels
    push_levels(&mut slots, &mut contents, &layout.write_zones, &scout.write_zones);
    push_levels(&mut slots, &mut contents, &layout.read_zones, &scout.read_zones);
    push_levels(&mut slots, &mut contents, &layout.registers, &scout.registers);
    // every tree's nodes and leaves
    push_bodies(&mut slots, &mut contents, &layout.write_zones, &filler.write_zones, node_size_order);
    push_bodies(&mut slots, &mut contents, &layout.read_zones, &filler.read_zones, node_size_order);
    push_bodies(&mut slots, &mut contents, &layout.registers, &filler.registers, node_size_order);
    // the used part of the data section
    slots.push(Section { start: layout.header.data.start, end: layout.header.data.start + used as u64 });
    push_content(&mut contents, slice_to_vec(filler.dedup.section_exec()));
    proof {
        let l = *layout;
        let fs = file_sections(l);
        assert(fs.drop_last() =~= seq![
            l.header.metadata,
            l.header.write_zones.headers,
            l.header.write_zones.bboxes,
            l.header.read_zones.headers,
            l.header.read_zones.bboxes,
            l.header.registers.headers,
            l.header.registers.bboxes,
        ] + levels_of(l.write_zones@) + levels_of(l.read_zones@) + levels_of(l.registers@) + nodes_leaves_of(l.write_zones@)
            + nodes_leaves_of(l.read_zones@) + nodes_leaves_of(l.registers@));
        assert(slots@ =~= image_slots(l, filler.dedup.section().len()));
        assert(views(contents@) =~= image_contents(l, *scout, *filler, g));
    }
    (slots, contents)
}

/// What `build_storage_layout` promises of a layout for the first pass's result `scout`.
pub open spec fn laid_out(layout: StorageLayout, scout: ScoutPass) -> bool {
    &&& layout.header.magic == DB_MAGIC
    &&& layout.header.version == DB_VERSION
    &&& layout.header.metadata.start >= 144
    &&& section_holds::<u8>(layout.header.data, scout.data_section_required_bytes as int)
    &&& layout.header.data.end == layout.max_storage_size
    &&& sections_sorted(file_sections(layout))
}

/// The places of the parts of the file follow one another.
proof fn lemma_image_slots_sorted(layout: StorageLayout, scout: ScoutPass, used: nat)
    requires
        laid_out(layout, scout),
        used <= scout.data_section_required_bytes,
    ensures
        sections_sorted(image_slots(layout, used)),
        forall|i: int| 0 <= i < image_slots(layout, used).len() ==> (#[trigger] image_slots(layout, used)[i]).end
            <= layout.header.data.start + used,
{
    let fs = file_sections(layout);
    let slots = image_slots(layout, used);
    let n = fs.len();
    assert(n >= 8);
    assert(fs[0] == layout.header.metadata);
    assert(fs[n - 1] == layout.header.data);
    assert(slots.len() == n + 1);
    assert forall|i: int| 0 <= i < slots.len() implies (#[trigger] slots[i]).start <= slots[i].end && slots[i].end
        <= layout.header.data.start + used by {
        if i == 0 {
            assert(fs[0].end <= fs[n - 1].start);
        } else if i < n {
            assert(slots[i] == fs[i - 1]);
            assert(fs[i - 1].start <= fs[i - 1].end);
            if i - 1 < n - 1 {
                assert(fs[i - 1].end <= fs[n - 1].start);
            }
        } else {
            assert(slots[i] == Section { start: layout.header.data.start, end: (layout.header.data.start + used) as u64 });
        }
    }
    assert forall|i: int, j: int| 0 <= i < j < slots.len() implies (#[trigger] slots[i]).end <= (#[trigger] slots[j]).start by {
        if i == 0 {
            if j < n {
                assert(slots[j] == fs[j - 1]);
                if j - 1 > 0 {
                    assert(fs[0].end <= fs[j - 1].start);
                }
            } else {
                assert(fs[0].end <= fs[n - 1].start);
            }
        } else if j < n {
            assert(slots[i] == fs[i - 1] && slots[j] == fs[j - 1]);
        } else {
            assert(slots[i] == fs[i - 1]);
            assert(fs[i - 1].end <= fs[n - 1].start);
        }
    }
}

/// Law: every part of the file that indexing writes is read back at its place: the
/// header at the start, every section of the layout, and the used part of the data
/// section.
pub proof fn law_written_file_reads_back(
    layout: StorageLayout,
    scout: ScoutPass,
    filler: Filler,
    g: int,
    image: Seq<u8>,
)
    requires
        laid_out(layout, scout),
        filler.inv(),
        filler.dedup.room() == scout.data_section_required_bytes,
        contents_fill(
            image_slots(layout, filler.dedup.section().len()),
            image_contents(layout, scout, filler, g),
        ),
        writes_fit(
            layout.max_storage_size as int,
            slot_writes(image_slots(layout, filler.dedup.section().len()), image_contents(layout, scout, filler, g)),
        ),
        image == apply_writes(
            Seq::new(layout.max_storage_size as nat, |_i: int| 0u8),
            slot_writes(image_slots(layout, filler.dedup.section().len()), image_contents(layout, scout, filler, g)),
        ).take(layout.max_storage_size - (filler.dedup.room() - filler.dedup.section().len())),
    ensures
        image.len() == layout.header.data.start + filler.dedup.section().len(),
        forall|i: int|
            0 <= i < image_slots(layout, filler.dedup.section().len()).len() ==> (#[trigger] image_slots(
                layout,
                filler.dedup.section().len(),
            )[i]).start <= image_slots(layout, filler.dedup.section().len())[i].end <= image.len(),
        forall|i: int|
            0 <= i < image_slots(layout, filler.dedup.section().len()).len() ==> image.subrange(
                (#[trigger] image_slots(layout, filler.dedup.section().len())[i]).start as int,
                image_slots(layout, filler.dedup.section().len())[i].end as int,
            ) == image_contents(layout, scout, filler, g)[i],
{
    let used = filler.dedup.section().len();
    filler.dedup.lemma_used_in_room();
    let slots = image_slots(layout, used);
    let contents = image_contents(layout, scout, filler, g);
    let ws = slot_writes(slots, contents);
    let blank = Seq::new(layout.max_storage_size as nat, |_i: int| 0u8);
    lemma_image_slots_sorted(layout, scout, used);
    assert(writes_disjoint(ws)) by {
        assert forall|i: int, j: int| 0 <= i < j < ws.len() implies (#[trigger] ws[i]).0 + ws[i].1.len() <= (#[trigger] ws[j]).0
            || ws[j].0 + ws[j].1.len() <= ws[i].0 by {
            assert(slots[i].end <= slots[j].start);
            assert(slots[i].end - slots[i].start == contents[i].len());
        }
    }
    lemma_apply_len(blank, ws);
    let full = apply_writes(blank, ws);
    let cut = layout.max_storage_size - (filler.dedup.room() - used);
    assert(cut == layout.header.data.start + used);
    assert forall|i: int| 0 <= i < slots.len() implies (#[trigger] slots[i]).start <= slots[i].end <= image.len() by {
    }
    assert forall|i: int| 0 <= i < slots.len() implies image.subrange(
        (#[trigger] slots[i]).start as int,
        slots[i].end as int,
    ) == contents[i] by {
        law_disjoint_writes_read_back(blank, ws, i);
        assert(ws[i].0 + ws[i].1.len() == slots[i].end);
        assert(slots[i].end <= cut);
        assert(image.subrange(slots[i].start as int, slots[i].end as int) =~= full.subrange(
            slots[i].start as int,
            slots[i].end as int,
        ));
    }
}

proof fn lemma_nodes_leaves_index(h: Seq<RTreeHeader>, i: int)
    requires
        0 <= i < h.len(),
    ensures
        nodes_leaves_of(h).len() == 2 * h.len(),
        nodes_leaves_of(h)[2 * i] == h[i].nodes,
        nodes_leaves_of(h)[2 * i + 1] == h[i].leaves,
    decreases h.len(),
{
    lemma_nodes_leaves_len(h.drop_last());
    if i < h.len() - 1 {
        lemma_nodes_leaves_index(h.drop_last(), i);
    }
}

proof fn lemma_nodes_leaves_len(h: Seq<RTreeHeader>)
    ensures
        nodes_leaves_of(h).len() == 2 * h.len(),
    decreases h.len(),
{
    if h.len() > 0 {
        lemma_nodes_leaves_len(h.drop_last());
    }
}

proof fn lemma_bodies_len<S: HilbertSpec>(trees: Seq<TreeFill<S>>, g: int)
    ensures
        bodies_contents::<S>(trees, g).len() == 2 * trees.len(),
    decreases trees.len(),
{
    if trees.len() > 0 {
        lemma_bodies_len::<S>(trees.drop_last(), g);
    }
}

proof fn lemma_bodies_index<S: HilbertSpec>(trees: Seq<TreeFill<S>>, g: int, i: int)
    requires
        0 <= i < trees.len(),
    ensures
        bodies_contents::<S>(trees, g).len() == 2 * trees.len(),
        bodies_contents::<S>(trees, g)[2 * i] == encode_all(built_nodes::<S>(tree_leaves::<S>(trees[i]), g)),
        bodies_contents::<S>(trees, g)[2 * i + 1] == encode_all(tree_leaves::<S>(trees[i])),
    decreases trees.len(),
{
    lemma_bodies_len::<S>(trees.drop_last(), g);
    if i < trees.len() - 1 {
        lemma_bodies_index::<S>(trees.drop_last(), g, i);
    }
}

/// A section read back with its encoded records, inside a file that a `usize` can measure.
proof fn lemma_slot_items<T: Zerocopyable>(image: Seq<u8>, s: Section, records: Seq<T>)
    requires
        s.start <= s.end <= image.len() <= usize::MAX,
        image.subrange(s.start as int, s.end as int) == encode_all(records),
    ensures
        section_items::<T>(image, s) == records,
        section_in(image.len() as int, s),
{
    assert(sec_start(s) == s.start && sec_end(s) == s.end);
    law_encoded_section_reads_back::<T>(image, s, records);
}

/// The parts of one list of trees read back where the file holds them.
proof fn lemma_list_reads_back<S: HilbertSpec>(
    image: Seq<u8>,
    slots: Seq<Section>,
    contents: Seq<Seq<u8>>,
    list: RTreeList,
    headers: Seq<RTreeHeader>,
    scouts: Seq<RTreeScout<S::Node>>,
    trees: Seq<TreeFill<S>>,
    g: int,
    hi: int,
    li: int,
    bi: int,
)
    requires
        headers.len() == scouts.len() == trees.len(),
        0 <= hi && hi + 1 < slots.len(),
        0 <= li && li + headers.len() <= slots.len(),
        0 <= bi && bi + 2 * headers.len() <= slots.len(),
        slots.len() == contents.len(),
        image.len() <= usize::MAX,
        forall|k: int| 0 <= k < slots.len() ==> (#[trigger] slots[k]).start <= slots[k].end <= image.len()
            && image.subrange(slots[k].start as int, slots[k].end as int) == contents[k],
        slots[hi] == list.headers,
        slots[hi + 1] == list.bboxes,
        contents[hi] == encode_all(headers),
        contents[hi + 1] == encode_all(bboxes_of(scouts)),
        forall|i: int| 0 <= i < headers.len() ==> slots[li + i] == (#[trigger] headers[i]).levels && contents[li + i]
            == encode_all(scouts[i].levels@),
        forall|i: int| 0 <= i < headers.len() ==> slots[bi + 2 * i] == (#[trigger] headers[i]).nodes && contents[bi + 2 * i]
            == encode_all(built_nodes::<S>(tree_leaves::<S>(trees[i]), g)),
        forall|i: int| 0 <= i < headers.len() ==> slots[bi + 2 * i + 1] == (#[trigger] headers[i]).leaves && contents[bi + 2
            * i + 1] == encode_all(tree_leaves::<S>(trees[i])),
    ensures
        section_items::<RTreeHeader>(image, list.headers) == headers,
        section_items::<S::Node>(image, list.bboxes) == bboxes_of(scouts),
        section_in(image.len() as int, list.headers),
        section_in(image.len() as int, list.bboxes),
        forall|i: int| 0 <= i < headers.len() ==> {
            &&& section_items::<Level>(image, (#[trigger] headers[i]).levels) == scouts[i].levels@
            &&& section_items::<S::Node>(image, headers[i].nodes) == built_nodes::<S>(tree_leaves::<S>(trees[i]), g)
            &&& section_items::<S::Leaf>(image, headers[i].leaves) == tree_leaves::<S>(trees[i])
            &&& section_in(image.len() as int, headers[i].levels)
            &&& section_in(image.len() as int, headers[i].nodes)
            &&& section_in(image.len() as int, headers[i].leaves)
        },
{
    assert(slots[hi] == list.headers);
    lemma_slot_items::<RTreeHeader>(image, list.headers, headers);
    assert(slots[hi + 1] == list.bboxes);
    lemma_slot_items::<S::Node>(image, list.bboxes, bboxes_of(scouts));
    assert forall|i: int| 0 <= i < headers.len() implies {
        &&& section_items::<Level>(image, (#[trigger] headers[i]).levels) == scouts[i].levels@
        &&& section_items::<S::Node>(image, headers[i].nodes) == built_nodes::<S>(tree_leaves::<S>(trees[i]), g)
        &&& section_items::<S::Leaf>(image, headers[i].leaves) == tree_leaves::<S>(trees[i])
        &&& section_in(image.len() as int, headers[i].levels)
        &&& section_in(image.len() as int, headers[i].nodes)
        &&& section_in(image.len() as int, headers[i].leaves)
    } by {
        assert(slots[li + i] == headers[i].levels);
        lemma_slot_items::<Level>(image, headers[i].levels, scouts[i].levels@);
        assert(slots[bi + 2 * i] == headers[i].nodes);
        lemma_slot_items::<S::Node>(image, headers[i].nodes, built_nodes::<S>(tree_leaves::<S>(trees[i]), g));
        assert(slots[bi + 2 * i + 1] == headers[i].leaves);
        lemma_slot_items::<S::Leaf>(image, headers[i].leaves, tree_leaves::<S>(trees[i]));
    }
}

/// The slots that do not depend on the trees.
proof fn lemma_slots_fixed(layout: StorageLayout, scout: ScoutPass, filler: Filler, g: int)
    requires
        layout.write_zones@.len() == scout.write_zones@.len() == filler.write_zones@.len(),
        layout.read_zones@.len() == scout.read_zones@.len() == filler.read_zones@.len(),
        layout.registers@.len() == scout.registers@.len() == filler.registers@.len(),
    ensures
        ({
            let used = filler.dedup.section().len();
            let slots = image_slots(layout, used);
            let contents = image_contents(layout, scout, filler, g);
            let n = 9 + 3 * (layout.write_zones@.len() + layout.read_zones@.len() + layout.registers@.len());
            &&& slots.len() == n
            &&& contents.len() == n
            &&& slots[0] == Section { start: 0, end: 144 }
            &&& contents[0] == cut_header(layout.header, filler.dedup.room(), used).encoding()
            &&& slots[1] == layout.header.metadata
            &&& contents[1] == encode_utf8(scout.metadata_json@)
            &&& slots[2] == layout.header.write_zones.headers
            &&& contents[2] == encode_all(layout.write_zones@)
            &&& slots[3] == layout.header.write_zones.bboxes
            &&& contents[3] == encode_all(bboxes_of(scout.write_zones@))
            &&& slots[4] == layout.header.read_zones.headers
            &&& contents[4] == encode_all(layout.read_zones@)
            &&& slots[5] == layout.header.read_zones.bboxes
            &&& contents[5] == encode_all(bboxes_of(scout.read_zones@))
            &&& slots[6] == layout.header.registers.headers
            &&& contents[6] == encode_all(layout.registers@)
            &&& slots[7] == layout.header.registers.bboxes
            &&& contents[7] == encode_all(bboxes_of(scout.registers@))
            &&& slots[n - 1] == Section { start: layout.header.data.start, end: (layout.header.data.start + used) as u64 }
            &&& contents[n - 1] == filler.dedup.section()
        }),
{
    lemma_nodes_leaves_len(layout.write_zones@);
    lemma_nodes_leaves_len(layout.read_zones@);
    lemma_nodes_leaves_len(layout.registers@);
    lemma_bodies_len::<MemWriteSpec>(filler.write_zones@, g);
    lemma_bodies_len::<MemReadSpec>(filler.read_zones@, g);
    lemma_bodies_len::<RegSpec>(filler.registers@, g);
}

/// The slots of the levels of the list `which` (writes, reads, registers).
proof fn lemma_slot_levels(layout: StorageLayout, scout: ScoutPass, filler: Filler, g: int, which: int, i: int)
    requires
        layout.write_zones@.len() == scout.write_zones@.len() == filler.write_zones@.len(),
        layout.read_zones@.len() == scout.read_zones@.len() == filler.read_zones@.len(),
        layout.registers@.len() == scout.registers@.len() == filler.registers@.len(),
        0 <= which < 3,
        which == 0 ==> 0 <= i < layout.write_zones@.len(),
        which == 1 ==> 0 <= i < layout.read_zones@.len(),
        which == 2 ==> 0 <= i < layout.registers@.len(),
    ensures
        ({
            let used = filler.dedup.section().len();
            let slots = image_slots(layout, used);
            let contents = image_contents(layout, scout, filler, g);
            let w = layout.write_zones@.len() as int;
            let r = layout.read_zones@.len() as int;
            &&& which == 0 ==> slots[8 + i] == layout.write_zones@[i].levels && contents[8 + i] == encode_all(
                scout.write_zones@[i].levels@,
            )
            &&& which == 1 ==> slots[8 + w + i] == layout.read_zones@[i].levels && contents[8 + w + i] == encode_all(
                scout.read_zones@[i].levels@,
            )
            &&& which == 2 ==> slots[8 + w + r + i] == layout.registers@[i].levels && contents[8 + w + r + i] == encode_all(
                scout.registers@[i].levels@,
            )
        }),
{
    lemma_nodes_leaves_len(layout.write_zones@);
    lemma_nodes_leaves_len(layout.read_zones@);
    lemma_nodes_leaves_len(layout.registers@);
    lemma_bodies_len::<MemWriteSpec>(filler.write_zones@, g);
    lemma_bodies_len::<MemReadSpec>(filler.read_zones@, g);
    lemma_bodies_len::<RegSpec>(filler.registers@, g);
}

/// The slots of the nodes and leaves of the write zones.
proof fn lemma_slot_write_bodies(layout: StorageLayout, scout: ScoutPass, filler: Filler, g: int, i: int)
    requires
        layout.write_zones@.len() == scout.write_zones@.len() == filler.write_zones@.len(),
        layout.read_zones@.len() == scout.read_zones@.len() == filler.read_zones@.len(),
        layout.registers@.len() == scout.registers@.len() == filler.registers@.len(),
        0 <= i < layout.write_zones@.len(),
    ensures
        ({
            let used = filler.dedup.section().len();
            let slots = image_slots(layout, used);
            let contents = image_contents(layout, scout, filler, g);
            let t = (layout.write_zones@.len() + layout.read_zones@.len() + layout.registers@.len()) as int;
            &&& slots[8 + t + 2 * i] == layout.write_zones@[i].nodes
            &&& contents[8 + t + 2 * i] == encode_all(built_nodes::<MemWriteSpec>(tree_leaves::<MemWriteSpec>(filler.write_zones@[i]), g))
            &&& slots[8 + t + 2 * i + 1] == layout.write_zones@[i].leaves
            &&& contents[8 + t + 2 * i + 1] == encode_all(tree_leaves::<MemWriteSpec>(filler.write_zones@[i]))
        }),
{
    lemma_nodes_leaves_index(layout.write_zones@, i);
    lemma_bodies_index::<MemWriteSpec>(filler.write_zones@, g, i);
    lemma_nodes_leaves_len(layout.read_zones@);
    lemma_nodes_leaves_len(layout.registers@);
    lemma_bodies_len::<MemReadSpec>(filler.read_zones@, g);
    lemma_bodies_len::<RegSpec>(filler.registers@, g);
}

/// The slots of the nodes and leaves of the read zones.
proof fn lemma_slot_read_bodies(layout: StorageLayout, scout: ScoutPass, filler: Filler, g: int, i: int)
    requires
        layout.write_zones@.len() == scout.write_zones@.len() == filler.write_zones@.len(),
        layout.read_zones@.len() == scout.read_zones@.len() == filler.read_zones@.len(),
        layout.registers@.len() == scout.registers@.len() == filler.registers@.len(),
        0 <= i < layout.read_zones@.len(),
    ensures
        ({
            let used = filler.dedup.section().len();
            let slots = image_slots(layout, used);
            let contents = image_contents(layout, scout, filler, g);
            let w = layout.write_zones@.len() as int;
            let t = (layout.write_zones@.len() + layout.read_zones@.len() + layout.registers@.len()) as int;
            &&& slots[8 + t + 2 * w + 2 * i] == layout.read_zones@[i].nodes
            &&& contents[8 + t + 2 * w + 2 * i] == encode_all(built_nodes::<MemReadSpec>(tree_leaves::<MemReadSpec>(filler.read_zones@[i]), g))
            &&& slots[8 + t + 2 * w + 2 * i + 1] == layout.read_zones@[i].leaves
            &&& contents[8 + t + 2 * w + 2 * i + 1] == encode_all(tree_leaves::<MemReadSpec>(filler.read_zones@[i]))
        }),
{
    lemma_nodes_leaves_index(layout.read_zones@, i);
    lemma_bodies_index::<MemReadSpec>(filler.read_zones@, g, i);
    lemma_nodes_leaves_len(layout.write_zones@);
    lemma_nodes_leaves_len(layout.registers@);
    lemma_bodies_len::<MemWriteSpec>(filler.write_zones@, g);
    lemma_bodies_len::<RegSpec>(filler.registers@, g);
}

/// The slots of the nodes and leaves of the registers.
proof fn lemma_slot_register_bodies(layout: StorageLayout, scout: ScoutPass, filler: Filler, g: int, i: int)
    requires
        layout.write_zones@.len() == scout.write_zones@.len() == filler.write_zones@.len(),
        layout.read_zones@.len() == scout.read_zones@.len() == filler.read_zones@.len(),
        layout.registers@.len() == scout.registers@.len() == filler.registers@.len(),
        0 <= i < layout.registers@.len(),
    ensures
        ({
            let used = filler.dedup.section().len();
            let slots = image_slots(layout, used);
            let contents = image_contents(layout, scout, filler, g);
            let w = layout.write_zones@.len() as int;
            let r = layout.read_zones@.len() as int;
            let t = (layout.write_zones@.len() + layout.read_zones@.len() + layout.registers@.len()) as int;
            &&& slots[8 + t + 2 * w + 2 * r + 2 * i] == layout.registers@[i].nodes
            &&& contents[8 + t + 2 * w + 2 * r + 2 * i] == encode_all(built_nodes::<RegSpec>(tree_leaves::<RegSpec>(filler.registers@[i]), g))
            &&& slots[8 + t + 2 * w + 2 * r + 2 * i + 1] == layout.registers@[i].leaves
            &&& contents[8 + t + 2 * w + 2 * r + 2 * i + 1] == encode_all(tree_leaves::<RegSpec>(filler.registers@[i]))
        }),
{
    lemma_nodes_leaves_index(layout.registers@, i);
    lemma_bodies_index::<RegSpec>(filler.registers@, g, i);
    lemma_nodes_leaves_len(layout.write_zones@);
    lemma_nodes_leaves_len(layout.read_zones@);
    lemma_bodies_len::<MemWriteSpec>(filler.write_zones@, g);
    lemma_bodies_len::<MemReadSpec>(filler.read_zones@, g);
}

/// Law: the file that indexing writes is the file that loading reads: its header is valid
/// and tells the data section's new end, the sections it names lie inside the file, the
/// metadata and the used data are there, and every list of trees holds the headers and
/// bounding boxes of the layout, and for each tree the levels of the first pass, the
/// nodes built over its sorted leaves, and those leaves.
#[verifier::rlimit(100)]
#[verifier::spinoff_prover]
pub proof fn law_written_file_loads(layout: StorageLayout, scout: ScoutPass, filler: Filler, g: int, image: Seq<u8>)
    requires
        laid_out(layout, scout),
        filler.inv(),
        filler.dedup.room() == scout.data_section_required_bytes,
        layout.write_zones@.len() == scout.write_zones@.len() == filler.write_zones@.len(),
        layout.read_zones@.len() == scout.read_zones@.len() == filler.read_zones@.len(),
        layout.registers@.len() == scout.registers@.len() == filler.registers@.len(),
        contents_fill(
            image_slots(layout, filler.dedup.section().len()),
            image_contents(layout, scout, filler, g),
        ),
        writes_fit(
            layout.max_storage_size as int,
            slot_writes(image_slots(layout, filler.dedup.section().len()), image_contents(layout, scout, filler, g)),
        ),
        image == apply_writes(
            Seq::new(layout.max_storage_size as nat, |_i: int| 0u8),
            slot_writes(image_slots(layout, filler.dedup.section().len()), image_contents(layout, scout, filler, g)),
        ).take(layout.max_storage_size - (filler.dedup.room() - filler.dedup.section().len())),
    ensures
        ({
            let h = cut_header(layout.header, filler.dedup.room(), filler.dedup.section().len());
            &&& header_error(image) is None
            &&& file_header(image) == h
            &&& file_sections_in_bounds(image)
            &&& image.subrange(h.metadata.start as int, h.metadata.end as int) == encode_utf8(scout.metadata_json@)
            &&& image.subrange(h.data.start as int, h.data.end as int) == filler.dedup.section()
            &&& section_items::<RTreeHeader>(image, h.write_zones.headers) == layout.write_zones@
            &&& section_items::<MemNode>(image, h.write_zones.bboxes) == bboxes_of(scout.write_zones@)
            &&& section_items::<RTreeHeader>(image, h.read_zones.headers) == layout.read_zones@
            &&& section_items::<MemNode>(image, h.read_zones.bboxes) == bboxes_of(scout.read_zones@)
            &&& section_items::<RTreeHeader>(image, h.registers.headers) == layout.registers@
            &&& section_items::<RegNode>(image, h.registers.bboxes) == bboxes_of(scout.registers@)
            &&& forall|i: int| 0 <= i < layout.write_zones@.len() ==> {
                &&& section_items::<Level>(image, (#[trigger] layout.write_zones@[i]).levels) == scout.write_zones@[i].levels@
                &&& section_items::<MemNode>(image, layout.write_zones@[i].nodes) == built_nodes::<MemWriteSpec>(
                    tree_leaves::<MemWriteSpec>(filler.write_zones@[i]),
                    g,
                )
                &&& section_items::<MemWriteLeaf>(image, layout.write_zones@[i].leaves) == tree_leaves::<MemWriteSpec>(
                    filler.write_zones@[i],
                )
                &&& section_in(image.len() as int, layout.write_zones@[i].levels)
                &&& section_in(image.len() as int, layout.write_zones@[i].nodes)
                &&& section_in(image.len() as int, layout.write_zones@[i].leaves)
            }
            &&& forall|i: int| 0 <= i < layout.read_zones@.len() ==> {
                &&& section_items::<Level>(image, (#[trigger] layout.read_zones@[i]).levels) == scout.read_zones@[i].levels@
                &&& section_items::<MemNode>(image, layout.read_zones@[i].nodes) == built_nodes::<MemReadSpec>(
                    tree_leaves::<MemReadSpec>(filler.read_zones@[i]),
                    g,
                )
                &&& section_items::<MemReadLeaf>(image, layout.read_zones@[i].leaves) == tree_leaves::<MemReadSpec>(
                    filler.read_zones@[i],
                )
                &&& section_in(image.len() as int, layout.read_zones@[i].levels)
                &&& section_in(image.len() as int, layout.read_zones@[i].nodes)
                &&& section_in(image.len() as int, layout.read_zones@[i].leaves)
            }
            &&& forall|i: int| 0 <= i < layout.registers@.len() ==> {
                &&& section_items::<Level>(image, (#[trigger] layout.registers@[i]).levels) == scout.registers@[i].levels@
                &&& section_items::<RegNode>(image, layout.registers@[i].nodes) == built_nodes::<RegSpec>(
                    tree_leaves::<RegSpec>(filler.registers@[i]),
                    g,
                )
                &&& section_items::<RegLeaf>(image, layout.registers@[i].leaves) == tree_leaves::<RegSpec>(
                    filler.registers@[i],
                )
                &&& section_in(image.len() as int, layout.registers@[i].levels)
                &&& section_in(image.len() as int, layout.registers@[i].nodes)
                &&& section_in(image.len() as int, layout.registers@[i].leaves)
            }
        }),
{
    let used = filler.dedup.section().len();
    let slots = image_slots(layout, used);
    let contents = image_contents(layout, scout, filler, g);
    let h = cut_header(layout.header, filler.dedup.room(), used);
    law_written_file_reads_back(layout, scout, filler, g, image);
    filler.dedup.lemma_used_in_room();
    let fs = file_sections(layout);
    let w = layout.write_zones@;
    let r = layout.read_zones@;
    let q = layout.registers@;
    lemma_nodes_leaves_len(w);
    lemma_nodes_leaves_len(r);
    lemma_nodes_leaves_len(q);
    lemma_bodies_len::<MemWriteSpec>(filler.write_zones@, g);
    lemma_bodies_len::<MemReadSpec>(filler.read_zones@, g);
    lemma_bodies_len::<RegSpec>(filler.registers@, g);
    let t: int = (w.len() + r.len() + q.len()) as int;
    assert(image.len() <= usize::MAX);
    lemma_slots_fixed(layout, scout, filler, g);
    // the header
    h.lemma_roundtrip();
    assert(image.subrange(0, 144) == h.encoding());
    assert(file_header(image) == h);
    // metadata and data
    assert(h.data.end == layout.header.data.start + used);
    assert(section_in(image.len() as int, h.metadata)) by {
        assert(sec_start(h.metadata) == h.metadata.start && sec_end(h.metadata) == h.metadata.end);
    }
    assert(section_in(image.len() as int, h.data)) by {
        assert(sec_start(h.data) == h.data.start && sec_end(h.data) == h.data.end);
    }
    // the lists of trees
    assert forall|i: int| 0 <= i < w.len() implies slots[8 + i] == (#[trigger] w[i]).levels && contents[8 + i] == encode_all(
        scout.write_zones@[i].levels@,
    ) by {
        lemma_slot_levels(layout, scout, filler, g, 0, i);
    }
    assert forall|i: int| 0 <= i < r.len() implies slots[8 + w.len() + i] == (#[trigger] r[i]).levels && contents[8 + w.len() + i]
        == encode_all(scout.read_zones@[i].levels@) by {
        lemma_slot_levels(layout, scout, filler, g, 1, i);
    }
    assert forall|i: int| 0 <= i < q.len() implies slots[8 + w.len() + r.len() + i] == (#[trigger] q[i]).levels && contents[8
        + w.len() + r.len() + i] == encode_all(scout.registers@[i].levels@) by {
        lemma_slot_levels(layout, scout, filler, g, 2, i);
    }
    assert forall|i: int| 0 <= i < w.len() implies slots[8 + t + 2 * i] == (#[trigger] w[i]).nodes && contents[8 + t + 2 * i]
        == encode_all(built_nodes::<MemWriteSpec>(tree_leaves::<MemWriteSpec>(filler.write_zones@[i]), g)) && slots[8 + t + 2
        * i + 1] == w[i].leaves && contents[8 + t + 2 * i + 1] == encode_all(tree_leaves::<MemWriteSpec>(filler.write_zones@[i])) by {
        lemma_slot_write_bodies(layout, scout, filler, g, i);
    }
    assert forall|i: int| 0 <= i < r.len() implies slots[8 + t + 2 * w.len() + 2 * i] == (#[trigger] r[i]).nodes && contents[8
        + t + 2 * w.len() + 2 * i] == encode_all(built_nodes::<MemReadSpec>(tree_leaves::<MemReadSpec>(filler.read_zones@[i]), g))
        && slots[8 + t + 2 * w.len() + 2 * i + 1] == r[i].leaves && contents[8 + t + 2 * w.len() + 2 * i + 1] == encode_all(
        tree_leaves::<MemReadSpec>(filler.read_zones@[i]),
    ) by {
        lemma_slot_read_bodies(layout, scout, filler, g, i);
    }
    assert forall|i: int| 0 <= i < q.len() implies slots[8 + t + 2 * w.len() + 2 * r.len() + 2 * i] == (#[trigger] q[i]).nodes
        && contents[8 + t + 2 * w.len() + 2 * r.len() + 2 * i] == encode_all(
        built_nodes::<RegSpec>(tree_leaves::<RegSpec>(filler.registers@[i]), g),
    ) && slots[8 + t + 2 * w.len() + 2 * r.len() + 2 * i + 1] == q[i].leaves && contents[8 + t + 2 * w.len() + 2 * r.len() + 2
        * i + 1] == encode_all(tree_leaves::<RegSpec>(filler.registers@[i])) by {
        lemma_slot_register_bodies(layout, scout, filler, g, i);
    }
    lemma_list_reads_back::<MemWriteSpec>(image, slots, contents, layout.header.write_zones, w, scout.write_zones@, filler.write_zones@, g, 2, 8, (8 + t) as int);
    lemma_list_reads_back::<MemReadSpec>(image, slots, contents, layout.header.read_zones, r, scout.read_zones@, filler.read_zones@, g, 4, (8 + w.len()) as int, (8 + t + 2 * w.len()) as int);
    lemma_list_reads_back::<RegSpec>(image, slots, contents, layout.header.registers, q, scout.registers@, filler.registers@, g, 6, (8 + w.len() + r.len()) as int, (8 + t + 2 * w.len() + 2 * r.len()) as int);
}

/// The levels of every tree are ranges of its nodes.
pub open spec fn levels_fit<N>(zones: Seq<RTreeScout<N>>) -> bool {
    forall|i: int, l: int|
        0 <= i < zones.len() && 0 <= l < zones[i].levels@.len() ==> (#[trigger] zones[i].levels@[l]).offset
            <= zones[i].node_count && zones[i].levels@[l].size <= zones[i].node_count - zones[i].levels@[l].offset
}

/// The file loads: its header is valid, the sections it names lie inside it, and every
/// list of trees is well laid out.
pub open spec fn file_loads(bytes: Seq<u8>) -> bool {
    let h = file_header(bytes);
    &&& header_error(bytes) is None
    &&& file_sections_in_bounds(bytes)
    &&& rtree_list_ok::<MemWriteSpec>(bytes, h.write_zones)
    &&& rtree_list_ok::<MemReadSpec>(bytes, h.read_zones)
    &&& rtree_list_ok::<RegSpec>(bytes, h.registers)
}

/// A list of trees read back as laid out is well laid out.
proof fn lemma_list_ok<S: HilbertSpec>(
    image: Seq<u8>,
    list: RTreeList,
    headers: Seq<RTreeHeader>,
    scouts: Seq<RTreeScout<S::Node>>,
    trees: Seq<TreeFill<S>>,
    g: int,
    order: u8,
    limit: int,
)
    requires
        image.len() <= limit <= usize::MAX,
        headers.len() == scouts.len() == trees.len(),
        list_laid_out::<S::Node>(list, headers.len() as int, limit),
        trees_laid_out::<S::Node, S::Leaf>(headers, scouts, order, limit),
        levels_fit(scouts),
        section_items::<RTreeHeader>(image, list.headers) == headers,
        section_items::<S::Node>(image, list.bboxes) == bboxes_of(scouts),
        forall|i: int| 0 <= i < headers.len() ==> {
            &&& section_items::<Level>(image, (#[trigger] headers[i]).levels) == scouts[i].levels@
            &&& section_in(image.len() as int, headers[i].levels)
            &&& section_in(image.len() as int, headers[i].nodes)
            &&& section_in(image.len() as int, headers[i].leaves)
        },
    ensures
        rtree_list_ok::<S>(image, list),
{
    RTreeHeader::lemma_layout_pos();
    S::Node::lemma_layout_pos();
    S::Leaf::lemma_layout_pos();
    Level::lemma_layout_pos();
    assert(sec_start(list.headers) == list.headers.start && sec_end(list.headers) == list.headers.end);
    assert(sec_start(list.bboxes) == list.bboxes.start && sec_end(list.bboxes) == list.bboxes.end);
    lemma_holds_records_ok::<RTreeHeader>(list.headers, headers.len() as int);
    lemma_holds_records_ok::<S::Node>(list.bboxes, headers.len() as int);
    assert forall|i: int| 0 <= i < headers.len() implies rtree_ok::<S>(image, #[trigger] section_items::<RTreeHeader>(image, list.headers)[i]) by {
        let hd = headers[i];
        assert(section_items::<RTreeHeader>(image, list.headers)[i] == hd);
        lemma_holds_records_ok::<S::Leaf>(hd.leaves, scouts[i].leaf_count as int);
        lemma_holds_records_ok::<S::Node>(hd.nodes, scouts[i].node_count as int);
        lemma_holds_records_ok::<Level>(hd.levels, scouts[i].levels@.len() as int);
        assert(sec_start(hd.nodes) == hd.nodes.start && sec_end(hd.nodes) == hd.nodes.end);
        let n = section_items::<S::Node>(image, hd.nodes).len();
        assert(n == scouts[i].node_count) by {
            let size = S::Node::size_spec() as int;
            let c = scouts[i].node_count as int;
            assert((c * size) / size == c) by (nonlinear_arith)
                requires
                    size > 0,
            ;
        }
        assert forall|l: int| 0 <= l < section_items::<Level>(image, hd.levels).len() implies {
            let level = #[trigger] section_items::<Level>(image, hd.levels)[l];
            &&& level.offset <= n
            &&& level.size <= n - level.offset
        } by {
            assert(section_items::<Level>(image, hd.levels)[l] == scouts[i].levels@[l]);
        }
    }
}

/// A section holding whole aligned records of `T`, inside what a `usize` can measure,
/// passes the loader's record check.
proof fn lemma_holds_records_ok<T: Zerocopyable>(s: Section, count: int)
    requires
        section_holds::<T>(s, count),
        s.end <= usize::MAX,
        count >= 0,
    ensures
        section_records_ok::<T>(s),
{
    T::lemma_layout_pos();
    assert(sec_start(s) == s.start && sec_end(s) == s.end);
    let size = T::size_spec() as int;
    assert((count * size) % size == 0) by (nonlinear_arith)
        requires
            size > 0,
    ;
}

/// Law: the file that indexing writes loads: with the layout of the first pass's result,
/// the data of the third pass, and levels that are ranges of their nodes, the written file
/// has a valid header and well laid out lists of trees.
pub proof fn law_written_file_opens(
    layout: StorageLayout,
    scout: ScoutPass,
    filler: Filler,
    order: u8,
    image: Seq<u8>,
)
    requires
        laid_out(layout, scout),
        list_laid_out::<MemNode>(layout.header.write_zones, scout.write_zones@.len() as int, layout.max_storage_size as int),
        list_laid_out::<MemNode>(layout.header.read_zones, scout.read_zones@.len() as int, layout.max_storage_size as int),
        list_laid_out::<RegNode>(layout.header.registers, scout.registers@.len() as int, layout.max_storage_size as int),
        trees_laid_out::<MemNode, MemWriteLeaf>(layout.write_zones@, scout.write_zones@, order, layout.max_storage_size as int),
        trees_laid_out::<MemNode, MemReadLeaf>(layout.read_zones@, scout.read_zones@, order, layout.max_storage_size as int),
        trees_laid_out::<RegNode, RegLeaf>(layout.registers@, scout.registers@, order, layout.max_storage_size as int),
        levels_fit(scout.write_zones@),
        levels_fit(scout.read_zones@),
        levels_fit(scout.registers@),
        filler.inv(),
        filler.dedup.room() == scout.data_section_required_bytes,
        layout.write_zones@.len() == scout.write_zones@.len() == filler.write_zones@.len(),
        layout.read_zones@.len() == scout.read_zones@.len() == filler.read_zones@.len(),
        layout.registers@.len() == scout.registers@.len() == filler.registers@.len(),
        contents_fill(
            image_slots(layout, filler.dedup.section().len()),
            image_contents(layout, scout, filler, pow2(order as nat) as int),
        ),
        writes_fit(
            layout.max_storage_size as int,
            slot_writes(
                image_slots(layout, filler.dedup.section().len()),
                image_contents(layout, scout, filler, pow2(order as nat) as int),
            ),
        ),
        image == apply_writes(
            Seq::new(layout.max_storage_size as nat, |_i: int| 0u8),
            slot_writes(
                image_slots(layout, filler.dedup.section().len()),
                image_contents(layout, scout, filler, pow2(order as nat) as int),
            ),
        ).take(layout.max_storage_size - (filler.dedup.room() - filler.dedup.section().len())),
    ensures
        file_loads(image),
{
    let g = pow2(order as nat) as int;
    law_written_file_loads(layout, scout, filler, g, image);
    law_written_file_reads_back(layout, scout, filler, g, image);
    let limit = layout.max_storage_size as int;
    let h = file_header(image);
    assert(h.write_zones == layout.header.write_zones);
    lemma_list_ok::<MemWriteSpec>(image, layout.header.write_zones, layout.write_zones@, scout.write_zones@, filler.write_zones@, g, order, limit);
    lemma_list_ok::<MemReadSpec>(image, layout.header.read_zones, layout.read_zones@, scout.read_zones@, filler.read_zones@, g, order, limit);
    lemma_list_ok::<RegSpec>(image, layout.header.registers, layout.registers@, scout.registers@, filler.registers@, g, order, limit);
}

} // verus!
