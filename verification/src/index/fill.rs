//! Third pass: leaves sorted along the Hilbert curve and written in their partitions,
//! write data deduplicated in the data section.
use vstd::prelude::*;
use crate::index::disjoint::DataCut;
use crate::index::hilbert_spec::{HilbertSpec, hilbert_index_u64, partition_of};
use crate::index::hilbert_partition::{RTreePartitions, PARTITIONS, HilbertPartitionPass, find_zone_index, mem_covers, reg_covers};
use crate::index::pass::Event;
use crate::index::scout::{RTreeScout, ScoutPass};
use crate::flat::{MemNode, MemReadLeaf, MemWriteLeaf, RegLeaf};
use crate::irange::IRange;
use crate::db::leaf_bytes;
use crate::memory::{MemReadSpec, MemWriteSpec};
use crate::register::RegSpec;
use crate::rtree::Spec;
use crate::index::nodes::flatten_levels;
use vstd::slice::slice_to_vec;
use vstd::bytes::{spec_u64_to_le_bytes, spec_u64_from_le_bytes, u64_from_le_bytes, lemma_auto_spec_u64_to_from_le_bytes};

verus! {

/// Data of a write leaf: its bytes inline when they are at most 8, else their offset in
/// the data section.
#[derive(Debug, Clone, Copy)]
pub enum MaybeInlined {
    Inline { len: usize, data: [u8; 8] },
    Outline { offset: u64, len: usize },
}

/// The 8 bytes holding `bytes` followed by zeros.
pub open spec fn padded8(bytes: Seq<u8>) -> Seq<u8> {
    bytes + Seq::new((8 - bytes.len()) as nat, |_i: int| 0u8)
}

/// The inline data of at most 8 bytes.
pub open spec fn inlined(bytes: Seq<u8>) -> MaybeInlined {
    MaybeInlined::Inline { len: bytes.len() as usize, data: choose|a: [u8; 8]| a@ == padded8(bytes) }
}

impl MaybeInlined {
    /// The data stands for `bytes`, given the data section `section`.
    pub open spec fn holds(self, bytes: Seq<u8>, section: Seq<u8>) -> bool {
        match self {
            MaybeInlined::Inline { len, data } => len == bytes.len() && bytes.len() <= 8 && data@ == padded8(bytes),
            MaybeInlined::Outline { offset, len } => {
                &&& len == bytes.len()
                &&& bytes.len() > 8
                &&& offset + len <= section.len()
                &&& section.subrange(offset as int, offset + len) == bytes
            },
        }
    }

    /// The packed form of the data in a write leaf.
    pub open spec fn packed_spec(self) -> u64 {
        match self {
            MaybeInlined::Inline { data, .. } => spec_u64_from_le_bytes(data@),
            MaybeInlined::Outline { offset, .. } => offset,
        }
    }

    pub fn inline(data: &[u8]) -> (r: Self)
        requires
            data@.len() <= 8,
        ensures
            r == inlined(data@),
    {
        let mut new_data: [u8; 8] = [0, 0, 0, 0, 0, 0, 0, 0];
        let mut i: usize = 0;
        while i < data.len()
            invariant
                i <= data@.len() <= 8,
                forall|k: int| 0 <= k < i ==> new_data@[k] == data@[k],
                forall|k: int| i <= k < 8 ==> new_data@[k] == 0,
            decreases data@.len() - i,
        {
            new_data[i] = data[i];
            i = i + 1;
        }
        proof {
            assert(new_data@ =~= padded8(data@));
            let c = choose|a: [u8; 8]| a@ == padded8(data@);
            assert(c@ == new_data@);
            assert(c =~= new_data);
        }
        Self::Inline { len: data.len(), data: new_data }
    }

    /// The packed form of the data in a write leaf: the inline bytes read as a
    /// little-endian integer, or the offset in the data section.
    pub fn packed(&self) -> (r: u64)
        ensures
            r == self.packed_spec(),
    {
        match self {
            MaybeInlined::Inline { data, .. } => u64_from_le_bytes(data.as_slice()),
            MaybeInlined::Outline { offset, .. } => *offset,
        }
    }
}

impl DataCut for MaybeInlined {
    open spec fn fits(self, len: nat) -> bool {
        match self {
            MaybeInlined::Inline { len: l, .. } => l == len && len <= 8,
            MaybeInlined::Outline { offset, len: l } => l == len && len > 8 && offset + len <= u64::MAX,
        }
    }

    open spec fn cut_spec(self, cut_left: nat, cut_right: nat, kept: Seq<u8>) -> Self {
        match self {
            MaybeInlined::Inline { .. } => inlined(kept),
            MaybeInlined::Outline { offset, .. } => if kept.len() <= 8 {
                inlined(kept)
            } else {
                MaybeInlined::Outline { offset: (offset + cut_left) as u64, len: kept.len() as usize }
            },
        }
    }

    fn cut(self, cut_left: usize, cut_right: usize, kept: &[u8]) -> (r: Self) {
        match self {
            MaybeInlined::Inline { .. } => Self::inline(kept),
            MaybeInlined::Outline { offset, .. } => {
                if kept.len() <= 8 {
                    Self::inline(kept)
                } else {
                    MaybeInlined::Outline { offset: offset + cut_left as u64, len: kept.len() }
                }
            },
        }
    }
}

/// Law: cutting the data of written bytes keeps it standing for the bytes that remain.
pub proof fn law_cut_keeps_bytes(d: MaybeInlined, left: Seq<u8>, kept: Seq<u8>, right: Seq<u8>, section: Seq<u8>)
    requires
        d.holds(left + kept + right, section),
        d.fits((left + kept + right).len()),
        kept.len() >= 1,
    ensures
        d.cut_spec(left.len(), right.len(), kept).holds(kept, section),
{
    if kept.len() <= 8 {
        let c = choose|a: [u8; 8]| a@ == padded8(kept);
        let w = padded8(kept);
        assert(w.len() == 8);
        let arr: [u8; 8] = [w[0], w[1], w[2], w[3], w[4], w[5], w[6], w[7]];
        assert(arr@ =~= w);
    } else {
        match d {
            MaybeInlined::Outline { offset, len } => {
                let full = left + kept + right;
                assert(section.subrange(offset + left.len(), offset + left.len() + kept.len()) =~= full.subrange(
                    left.len() as int,
                    (left.len() + kept.len()) as int,
                ));
                assert(full.subrange(left.len() as int, (left.len() + kept.len()) as int) =~= kept);
            },
            MaybeInlined::Inline { .. } => {},
        }
    }
}

/// The bytes that a write leaf with this packed data stands for are `bytes`.
pub proof fn lemma_packed_reads_back(d: MaybeInlined, bytes: Seq<u8>, section: Seq<u8>)
    requires
        d.holds(bytes, section),
    ensures
        bytes.len() <= 8 ==> spec_u64_to_le_bytes(d.packed_spec()).take(bytes.len() as int) == bytes,
        bytes.len() > 8 ==> section.subrange(d.packed_spec() as int, d.packed_spec() + bytes.len()) == bytes,
{
    lemma_auto_spec_u64_to_from_le_bytes();
    match d {
        MaybeInlined::Inline { data, .. } => {
            assert(data@.len() == 8);
            assert(spec_u64_to_le_bytes(spec_u64_from_le_bytes(data@)) == data@);
            assert(padded8(bytes).take(bytes.len() as int) =~= bytes);
        },
        MaybeInlined::Outline { .. } => {},
    }
}


/// Law: a write leaf whose packed data stands for `bytes` in the data section reads
/// back `bytes`, whatever follows the part of the section placed so far.
pub proof fn law_filled_leaf_reads_back(d: MaybeInlined, node: MemNode, bytes: Seq<u8>, section: Seq<u8>, rest: Seq<u8>)
    requires
        d.holds(bytes, section),
        node.addr_max - node.addr_min + 1 == bytes.len(),
    ensures
        leaf_bytes(MemWriteLeaf { node, packed_data: d.packed_spec() }, section + rest) == bytes,
{
    lemma_packed_reads_back(d, bytes, section);
    if bytes.len() > 8 {
        let o = d.packed_spec() as int;
        assert((section + rest).subrange(o, o + bytes.len()) =~= section.subrange(o, o + bytes.len()));
    }
}

/// The deduplication table: byte strings already placed in the data section, with their
/// offsets. A `hashbrown::HashMap` that Verus does not see inside.
#[verifier::external_body]
pub struct DedupMemo {
    map: hashbrown::HashMap<Vec<u8>, u64>,
}

/// What the deduplication table holds.
pub uninterp spec fn memo_contents(memo: DedupMemo) -> Map<Seq<u8>, u64>;

/// `hashbrown::HashMap::new`: an empty table.
#[verifier::external_body]
fn memo_new() -> (r: DedupMemo)
    ensures
        memo_contents(r).dom().is_empty(),
{
    DedupMemo { map: hashbrown::HashMap::new() }
}

/// `hashbrown::HashMap::get`: the offset stored for `key`, if any.
#[verifier::external_body]
fn memo_get(m: &DedupMemo, key: &[u8]) -> (r: Option<u64>)
    ensures
        r == (if memo_contents(*m).dom().contains(key@) {
            Some(memo_contents(*m)[key@])
        } else {
            None
        }),
{
    m.map.get(key).copied()
}

/// `hashbrown::HashMap::insert`: `key` now maps to `value`.
#[verifier::external_body]
fn memo_insert(m: &mut DedupMemo, key: Vec<u8>, value: u64)
    ensures
        memo_contents(*final(m)) == memo_contents(*old(m)).insert(key@, value),
{
    m.map.insert(key, value);
}

/// Write data laid one after the other in the data section, each distinct byte string once.
pub struct DataDedup {
    data: Vec<u8>,
    room: usize,
    memo: DedupMemo,
}

impl DataDedup {
    /// The bytes placed so far.
    pub closed spec fn section(&self) -> Seq<u8> {
        self.data@
    }

    /// The size of the data section.
    pub closed spec fn room(&self) -> nat {
        self.room as nat
    }

    /// The byte strings placed so far, with their offsets.
    pub closed spec fn placed(&self) -> Map<Seq<u8>, u64> {
        memo_contents(self.memo)
    }

    /// Every placed string lies in the data section at its offset.
    pub closed spec fn inv(&self) -> bool {
        &&& self.data@.len() <= self.room
        &&& forall|k: Seq<u8>| #[trigger] memo_contents(self.memo).dom().contains(k) ==> {
            let o = memo_contents(self.memo)[k];
            &&& o + k.len() <= self.data@.len()
            &&& self.data@.subrange(o as int, o + k.len()) == k
        }
    }

    /// An empty data section of `room` bytes.
    pub fn new(room: usize) -> (r: Self)
        ensures
            r.inv(),
            r.section() == Seq::<u8>::empty(),
            r.room() == room,
            r.placed() == Map::<Seq<u8>, u64>::empty(),
    {
        let memo = memo_new();
        assert(memo_contents(memo) =~= Map::<Seq<u8>, u64>::empty());
        DataDedup { data: Vec::new(), room, memo }
    }

    /// The bytes placed fit in the section.
    pub proof fn lemma_used_in_room(&self)
        requires
            self.inv(),
        ensures
            self.section().len() <= self.room(),
    {
    }

    /// The bytes placed so far.
    pub fn section_exec(&self) -> (r: &[u8])
        ensures
            r@ == self.section(),
    {
        self.data.as_slice()
    }

    /// Size of the data section.
    pub fn room_exec(&self) -> (r: usize)
        ensures
            r == self.room(),
    {
        self.room
    }

    /// Bytes used in the data section.
    pub fn bytes_used(&self) -> (r: usize)
        ensures
            r == self.section().len(),
    {
        self.data.len()
    }

    /// Place `bytes` in the data section, or find them already there: their offset.
    /// `None` when they are new and the section has no room left for them.
    pub fn insert(&mut self, bytes: &[u8]) -> (r: Option<u64>)
        requires
            old(self).inv(),
        ensures
            final(self).inv(),
            final(self).room() == old(self).room(),
            old(self).placed().dom().contains(bytes@) ==> r == Some(old(self).placed()[bytes@]) && *final(self) == *old(self),
            !old(self).placed().dom().contains(bytes@) ==> {
                if old(self).section().len() + bytes@.len() <= old(self).room() {
                    &&& r == Some(old(self).section().len() as u64)
                    &&& final(self).section() == old(self).section() + bytes@
                    &&& final(self).placed() == old(self).placed().insert(bytes@, old(self).section().len() as u64)
                } else {
                    r is None && *final(self) == *old(self)
                }
            },
            r matches Some(o) ==> o + bytes@.len() <= final(self).section().len()
                && final(self).section().subrange(o as int, o + bytes@.len()) == bytes@,
    {
        match memo_get(&self.memo, bytes) {
            Some(o) => Some(o),
            None => {
                if bytes.len() > self.room - self.data.len() {
                    return None;
                }
                let offset = self.data.len() as u64;
                let ghost before = self.data@;
                let ghost placed = memo_contents(self.memo);
                let mut i: usize = 0;
                while i < bytes.len()
                    invariant
                        i <= bytes@.len(),
                        self.data@ == before + bytes@.take(i as int),
                        memo_contents(self.memo) == placed,
                        self.room == old(self).room,
                        before.len() + bytes@.len() <= self.room,
                    decreases bytes@.len() - i,
                {
                    self.data.push(bytes[i]);
                    proof {
                        assert(bytes@.take(i + 1) =~= bytes@.take(i as int).push(bytes@[i as int]));
                    }
                    i = i + 1;
                }
                assert(bytes@.take(bytes@.len() as int) =~= bytes@);
                memo_insert(&mut self.memo, slice_to_vec(bytes), offset);
                proof {
                    assert forall|k: Seq<u8>| #[trigger] memo_contents(self.memo).dom().contains(k) implies {
                        let o = memo_contents(self.memo)[k];
                        &&& o + k.len() <= self.data@.len()
                        &&& self.data@.subrange(o as int, o + k.len()) == k
                    } by {
                        if k == bytes@ {
                            assert(self.data@.subrange(offset as int, offset + k.len()) =~= k);
                        } else {
                            assert(placed.dom().contains(k));
                            let o = placed[k];
                            assert(self.data@.subrange(o as int, o + k.len()) =~= before.subrange(o as int, o + k.len()));
                        }
                    }
                    assert(self.data@.subrange(offset as int, offset + bytes@.len()) =~= bytes@);
                }
                Some(offset)
            },
        }
    }
}


/// `(a, b) <= (c, d)` in the lexicographic order that std gives tuples.
pub open spec fn pair_le(a: (u128, usize), b: (u128, usize)) -> bool {
    a.0 < b.0 || (a.0 == b.0 && a.1 <= b.1)
}

/// `slice::sort_unstable` on pairs of integers: the same pairs, in nondecreasing
/// lexicographic order.
#[verifier::external_body]
fn sort_pairs(v: &mut Vec<(u128, usize)>)
    ensures
        final(v)@.to_multiset() == old(v)@.to_multiset(),
        forall|i: int, j: int| 0 <= i <= j < final(v)@.len() ==> pair_le(final(v)@[i], final(v)@[j]),
{
    v.sort_unstable();
}

/// Position of a leaf along the Hilbert curve of the bounding box `bbox`.
pub open spec fn hilbert_key_of<S: HilbertSpec>(leaf: S::Leaf, bbox: S::Node) -> u128 {
    hilbert_index_u64(S::coordinates(leaf, bbox).0, S::coordinates(leaf, bbox).1, 64)
}

/// `order` lists every index below `n` once.
pub open spec fn index_permutation(order: Seq<int>, n: nat) -> bool {
    &&& order.len() == n
    &&& forall|i: int| 0 <= i < n ==> 0 <= #[trigger] order[i] < n
    &&& forall|i: int, j: int| 0 <= i < n && 0 <= j < n && i != j ==> order[i] != order[j]
}

/// `out` holds the leaves of `input`, each once, ordered along the Hilbert curve of `bbox`.
pub open spec fn hilbert_sorted<S: HilbertSpec>(out: Seq<S::Leaf>, input: Seq<S::Leaf>, bbox: S::Node) -> bool {
    &&& out.len() == input.len()
    &&& exists|order: Seq<int>|
        index_permutation(order, input.len()) && forall|i: int| 0 <= i < out.len() ==> #[trigger] out[i] == input[order[i]]
    &&& forall|i: int, j: int|
        0 <= i <= j < out.len() ==> hilbert_key_of::<S>(out[i], bbox) <= hilbert_key_of::<S>(out[j], bbox)
}

/// Every leaf is well formed and inside the well-formed box `bbox`.
pub open spec fn leaves_inside<S: Spec>(leaves: Seq<S::Leaf>, bbox: S::Node) -> bool {
    &&& S::node_wf(bbox)
    &&& forall|i: int| 0 <= i < leaves.len() ==> S::leaf_wf(#[trigger] leaves[i]) && S::node_covers_leaf(bbox, leaves[i])
}

/// The leaves ordered along the Hilbert curve of `bbox`.
pub fn sort_along_curve<S: HilbertSpec>(leaves: &Vec<S::Leaf>, bbox: &S::Node) -> (out: Vec<S::Leaf>)
    requires
        leaves_inside::<S>(leaves@, *bbox),
    ensures
        hilbert_sorted::<S>(out@, leaves@, *bbox),
{
    let n = leaves.len();
    let mut pairs: Vec<(u128, usize)> = Vec::new();
    let mut i: usize = 0;
    while i < n
        invariant
            i <= n == leaves@.len(),
            leaves_inside::<S>(leaves@, *bbox),
            pairs@.len() == i,
            forall|k: int| 0 <= k < i ==> #[trigger] pairs@[k] == (hilbert_key_of::<S>(leaves@[k], *bbox), k as usize),
        decreases n - i,
    {
        let key = S::hilbert_key(&leaves[i], bbox);
        pairs.push((key, i));
        i = i + 1;
    }
    let ghost before = pairs@;
    proof {
        assert(before.no_duplicates()) by {
            assert forall|a: int, b: int| 0 <= a < before.len() && 0 <= b < before.len() && a != b implies before[a] != before[b] by {
                assert(before[a].1 == a && before[b].1 == b);
            }
        }
        before.lemma_multiset_has_no_duplicates();
    }
    sort_pairs(&mut pairs);
    let ghost after = pairs@;
    proof {
        broadcast use vstd::seq_lib::to_multiset_contains, vstd::seq_lib::to_multiset_len;

        after.lemma_multiset_has_no_duplicates_conv();
        assert(after.to_multiset().len() == after.len());
        assert(before.to_multiset().len() == before.len());
        assert forall|k: int| 0 <= k < after.len() implies (#[trigger] after[k]).1 < n && after[k].0 == hilbert_key_of::<S>(
            leaves@[after[k].1 as int],
            *bbox,
        ) by {
            assert(after.contains(after[k]));
            assert(after.to_multiset().count(after[k]) > 0);
            assert(before.contains(after[k]));
            let j = choose|j: int| 0 <= j < before.len() && before[j] == after[k];
            assert(before[j] == (hilbert_key_of::<S>(leaves@[j], *bbox), j as usize));
        }
    }
    let mut out: Vec<S::Leaf> = Vec::new();
    let mut i: usize = 0;
    while i < n
        invariant
            i <= n == leaves@.len() == after.len(),
            pairs@ == after,
            out@.len() == i,
            forall|k: int| 0 <= k < after.len() ==> (#[trigger] after[k]).1 < n && after[k].0 == hilbert_key_of::<S>(
                leaves@[after[k].1 as int],
                *bbox,
            ),
            forall|k: int| 0 <= k < i ==> #[trigger] out@[k] == leaves@[after[k].1 as int],
        decreases n - i,
    {
        let idx = pairs[i].1;
        out.push(leaves[idx]);
        i = i + 1;
    }
    proof {
        let order = after.map_values(|p: (u128, usize)| p.1 as int);
        assert(index_permutation(order, leaves@.len())) by {
            assert forall|a: int, b: int| 0 <= a < n && 0 <= b < n && a != b implies order[a] != order[b] by {
                assert(after[a] != after[b]);
                if after[a].1 == after[b].1 {
                    assert(after[a].0 == after[b].0);
                }
            }
        }
        assert(forall|k: int| 0 <= k < out@.len() ==> #[trigger] out@[k] == leaves@[order[k]]);
        assert forall|a: int, b: int| 0 <= a <= b < out@.len() implies hilbert_key_of::<S>(out@[a], *bbox) <= hilbert_key_of::<
            S,
        >(out@[b], *bbox) by {
            assert(pair_le(after[a], after[b]));
            assert(out@[a] == leaves@[after[a].1 as int]);
            assert(out@[b] == leaves@[after[b].1 as int]);
        }
    }
    out
}


/// The views of vectors.
pub open spec fn views<A>(v: Seq<Vec<A>>) -> Seq<Seq<A>> {
    v.map_values(|x: Vec<A>| x@)
}

/// One tree being filled: leaves wait in the buffer of their partition until the
/// partition holds as many leaves as the second pass counted there, then they are sorted
/// along the Hilbert curve into their place.
pub struct TreeFill<S: Spec> {
    pub bbox: S::Node,
    pub counts: Vec<usize>,
    pub buffers: Vec<Vec<S::Leaf>>,
    pub sorted: Vec<Vec<S::Leaf>>,
}

impl<S: HilbertSpec> TreeFill<S> {
    pub open spec fn inv(&self) -> bool {
        &&& self.counts@.len() == PARTITIONS
        &&& self.buffers@.len() == PARTITIONS
        &&& self.sorted@.len() == PARTITIONS
        &&& forall|k: int| 0 <= k < PARTITIONS && #[trigger] self.buffers@[k]@.len() > 0 ==> leaves_inside::<S>(self.buffers@[k]@, self.bbox)
    }

    /// Every partition filled, no leaf left waiting.
    pub open spec fn complete(&self) -> bool {
        forall|k: int| 0 <= k < PARTITIONS ==> #[trigger] self.buffers@[k]@.len() == 0
    }

    /// Nothing received yet for the partitions `p`.
    pub fn new(p: &RTreePartitions<S>) -> (r: Self)
        requires
            p.partitions@.len() == PARTITIONS,
        ensures
            r.inv(),
            r.bbox == p.bbox,
            forall|k: int| 0 <= k < PARTITIONS ==> #[trigger] r.counts@[k] == p.partitions@[k].leaf_count,
            forall|k: int| 0 <= k < PARTITIONS ==> #[trigger] r.buffers@[k]@.len() == 0 && r.sorted@[k]@.len() == 0,
    {
        let mut counts: Vec<usize> = Vec::new();
        let mut buffers: Vec<Vec<S::Leaf>> = Vec::new();
        let mut sorted: Vec<Vec<S::Leaf>> = Vec::new();
        let mut i: usize = 0;
        while i < PARTITIONS
            invariant
                i <= PARTITIONS,
                p.partitions@.len() == PARTITIONS,
                counts@.len() == i && buffers@.len() == i && sorted@.len() == i,
                forall|k: int| 0 <= k < i ==> #[trigger] counts@[k] == p.partitions@[k].leaf_count,
                forall|k: int| 0 <= k < i ==> #[trigger] buffers@[k]@.len() == 0 && sorted@[k]@.len() == 0,
            decreases PARTITIONS - i,
        {
            counts.push(p.partitions[i].leaf_count);
            buffers.push(Vec::new());
            sorted.push(Vec::new());
            i = i + 1;
        }
        TreeFill { bbox: p.bbox, counts, buffers, sorted }
    }

    /// Put a leaf in the buffer of its partition; when the buffer then holds as many
    /// leaves as the partition counts, they are sorted into the partition's place and the
    /// buffer is emptied.
    pub fn push_leaf(&mut self, leaf: S::Leaf)
        requires
            old(self).inv(),
            S::leaf_wf(leaf),
            S::node_wf(old(self).bbox),
            S::node_covers_leaf(old(self).bbox, leaf),
        ensures
            final(self).inv(),
            final(self).bbox == old(self).bbox,
            final(self).counts@ == old(self).counts@,
            ({
                let k = partition_of(S::coordinates(leaf, old(self).bbox)) as int;
                let grown = old(self).buffers@[k]@.push(leaf);
                &&& forall|j: int| 0 <= j < PARTITIONS && j != k ==> #[trigger] final(self).buffers@[j]@ == old(self).buffers@[j]@
                    && final(self).sorted@[j]@ == old(self).sorted@[j]@
                &&& if grown.len() == old(self).counts@[k] {
                    &&& final(self).buffers@[k]@.len() == 0
                    &&& hilbert_sorted::<S>(final(self).sorted@[k]@, grown, old(self).bbox)
                } else {
                    &&& final(self).buffers@[k]@ == grown
                    &&& final(self).sorted@[k]@ == old(self).sorted@[k]@
                }
            }),
    {
        let k = S::hilbert_partition_key(&leaf, &self.bbox) as usize;
        let ghost old_buffers = self.buffers@;
        let ghost old_sorted = self.sorted@;
        self.buffers[k].push(leaf);
        if self.buffers[k].len() == self.counts[k] {
            let out = sort_along_curve::<S>(&self.buffers[k], &self.bbox);
            self.sorted.set(k, out);
            self.buffers.set(k, Vec::new());
        }
        proof {
            assert forall|j: int| 0 <= j < PARTITIONS && #[trigger] self.buffers@[j]@.len() > 0 implies leaves_inside::<S>(
                self.buffers@[j]@,
                self.bbox,
            ) by {
                if j != k {
                    assert(self.buffers@[j] == old_buffers[j]);
                }
            }
        }
    }

    /// The tree's leaves section: the sorted partitions one after the other.
    pub fn leaves(&self) -> (r: Vec<S::Leaf>)
        ensures
            r@ == flatten_levels(views(self.sorted@)),
    {
        let mut r: Vec<S::Leaf> = Vec::new();
        let mut i: usize = 0;
        while i < self.sorted.len()
            invariant
                i <= self.sorted@.len(),
                r@ == flatten_levels(views(self.sorted@.take(i as int))),
            decreases self.sorted@.len() - i,
        {
            let part = &self.sorted[i];
            let mut j: usize = 0;
            let ghost start = r@;
            while j < part.len()
                invariant
                    j <= part@.len(),
                    r@ == start + part@.take(j as int),
                decreases part@.len() - j,
            {
                r.push(part[j]);
                proof {
                    assert(part@.take(j + 1) =~= part@.take(j as int).push(part@[j as int]));
                }
                j = j + 1;
            }
            proof {
                let t = views(self.sorted@.take(i + 1));
                assert(t.drop_last() =~= views(self.sorted@.take(i as int)));
                assert(t.last() == part@);
                assert(part@.take(part@.len() as int) =~= part@);
            }
            i = i + 1;
        }
        assert(self.sorted@.take(self.sorted@.len() as int) =~= self.sorted@);
        r
    }
}


/// `new` is `old` after `push_leaf` of `leaf`.
pub open spec fn pushed<S: HilbertSpec>(before: TreeFill<S>, after: TreeFill<S>, leaf: S::Leaf) -> bool {
    let k = partition_of(S::coordinates(leaf, before.bbox)) as int;
    let grown = before.buffers@[k]@.push(leaf);
    &&& after.inv()
    &&& after.bbox == before.bbox
    &&& after.counts@ == before.counts@
    &&& forall|j: int| 0 <= j < PARTITIONS && j != k ==> #[trigger] after.buffers@[j]@ == before.buffers@[j]@ && after.sorted@[j]@ == before.sorted@[j]@
    &&& if grown.len() == before.counts@[k] {
        &&& after.buffers@[k]@.len() == 0
        &&& hilbert_sorted::<S>(after.sorted@[k]@, grown, before.bbox)
    } else {
        &&& after.buffers@[k]@ == grown
        &&& after.sorted@[k]@ == before.sorted@[k]@
    }
}

/// Every tree of a list is well formed.
pub open spec fn trees_inv<S: HilbertSpec>(trees: Seq<TreeFill<S>>) -> bool {
    forall|i: int| 0 <= i < trees.len() ==> (#[trigger] trees[i]).inv()
}

/// `new` is `old` with `leaf` pushed in the tree `idx`.
pub open spec fn pushed_in<S: HilbertSpec>(before: Seq<TreeFill<S>>, after: Seq<TreeFill<S>>, idx: int, leaf: S::Leaf) -> bool {
    &&& 0 <= idx < before.len()
    &&& after.len() == before.len()
    &&& pushed::<S>(before[idx], after[idx], leaf)
    &&& forall|i: int| 0 <= i < before.len() && i != idx ==> #[trigger] after[i] == before[i]
}

/// `i` is the first zone whose addresses meet `range`.
pub open spec fn first_meeting(zones: Seq<RTreeScout<MemNode>>, range: IRange<u64>, i: int) -> bool {
    &&& 0 <= i < zones.len()
    &&& !zones[i].bbox.addr_range_spec().disjoint_from(range)
    &&& forall|j: int| 0 <= j < i ==> (#[trigger] zones[j]).bbox.addr_range_spec().disjoint_from(range)
}

/// No zone's addresses meet `range`.
pub open spec fn meets_none(zones: Seq<RTreeScout<MemNode>>, range: IRange<u64>) -> bool {
    forall|j: int| 0 <= j < zones.len() ==> (#[trigger] zones[j]).bbox.addr_range_spec().disjoint_from(range)
}

/// Push a leaf in the tree `idx` when `fits` says that its requirements hold.
fn fill_checked<S: HilbertSpec>(trees: &mut Vec<TreeFill<S>>, idx: usize, leaf: S::Leaf, fits: bool) -> (r: Result<(), FillError>)
    requires
        trees_inv::<S>(old(trees)@),
        fits ==> idx < old(trees)@.len() && S::leaf_wf(leaf) && S::node_wf(old(trees)@[idx as int].bbox)
            && S::node_covers_leaf(old(trees)@[idx as int].bbox, leaf),
    ensures
        trees_inv::<S>(final(trees)@),
        r is Ok <==> fits,
        r is Ok ==> pushed_in::<S>(old(trees)@, final(trees)@, idx as int, leaf),
        r is Err ==> r == Err::<(), FillError>(FillError::Malformed) && final(trees)@ == old(trees)@,
{
    if !fits {
        return Err(FillError::Malformed);
    }
    let ghost before = trees@;
    trees[idx].push_leaf(leaf);
    proof {
        assert forall|i: int| 0 <= i < trees@.len() implies (#[trigger] trees@[i]).inv() by {
            if i != idx {
                assert(trees@[i] == before[i]);
            }
        }
    }
    Ok(())
}

/// What the third pass hands on: the bytes used in the data section.
pub struct FillPass {
    pub data_used: usize,
}

/// A leaf could not be filled in: no zone holds it, the data section has no room left,
/// the leaf is malformed or lies outside its tree, or leaves are left waiting at the end.
#[derive(Debug, Clone, Copy, PartialEq, Eq)]
pub enum FillError {
    NoZone,
    NoRoom,
    Malformed,
    Incomplete,
}

/// The third pass in progress.
pub struct Filler {
    pub dedup: DataDedup,
    pub write_zones: Vec<TreeFill<MemWriteSpec>>,
    pub read_zones: Vec<TreeFill<MemReadSpec>>,
    pub registers: Vec<TreeFill<RegSpec>>,
}

/// Trees to fill for the partitions of a list.
/// Trees with nothing filled yet, one per tree of `parts`, expecting its partitions' counts.
pub open spec fn trees_fresh<S: HilbertSpec>(r: Seq<TreeFill<S>>, parts: Seq<RTreePartitions<S>>) -> bool {
    &&& trees_inv::<S>(r)
    &&& r.len() == parts.len()
    &&& forall|i: int| 0 <= i < r.len() ==> (#[trigger] r[i]).bbox == parts[i].bbox
    &&& forall|i: int, k: int| 0 <= i < r.len() && 0 <= k < PARTITIONS ==> #[trigger] r[i].counts@[k] == parts[i].partitions@[k].leaf_count
    &&& forall|i: int, k: int| 0 <= i < r.len() && 0 <= k < PARTITIONS ==> #[trigger] r[i].buffers@[k]@.len() == 0 && r[i].sorted@[k]@.len() == 0
}

fn trees_for<S: HilbertSpec>(parts: &Vec<RTreePartitions<S>>) -> (r: Vec<TreeFill<S>>)
    requires
        forall|i: int| 0 <= i < parts@.len() ==> (#[trigger] parts@[i]).partitions@.len() == PARTITIONS,
    ensures
        trees_inv::<S>(r@),
        r@.len() == parts@.len(),
        forall|i: int| 0 <= i < r@.len() ==> (#[trigger] r@[i]).bbox == parts@[i].bbox,
        forall|i: int, k: int| 0 <= i < r@.len() && 0 <= k < PARTITIONS ==> #[trigger] r@[i].counts@[k] == parts@[i].partitions@[k].leaf_count,
        forall|i: int, k: int| 0 <= i < r@.len() && 0 <= k < PARTITIONS ==> #[trigger] r@[i].buffers@[k]@.len() == 0 && r@[i].sorted@[k]@.len() == 0,
{
    let mut r: Vec<TreeFill<S>> = Vec::new();
    let mut i: usize = 0;
    while i < parts.len()
        invariant
            i <= parts@.len(),
            forall|i: int| 0 <= i < parts@.len() ==> (#[trigger] parts@[i]).partitions@.len() == PARTITIONS,
            trees_inv::<S>(r@),
            r@.len() == i,
            forall|j: int| 0 <= j < i ==> (#[trigger] r@[j]).bbox == parts@[j].bbox,
            forall|j: int, k: int| 0 <= j < i && 0 <= k < PARTITIONS ==> #[trigger] r@[j].counts@[k] == parts@[j].partitions@[k].leaf_count,
            forall|j: int, k: int| 0 <= j < i && 0 <= k < PARTITIONS ==> #[trigger] r@[j].buffers@[k]@.len() == 0 && r@[j].sorted@[k]@.len() == 0,
        decreases parts@.len() - i,
    {
        r.push(TreeFill::new(&parts[i]));
        i = i + 1;
    }
    r
}

/// Every tree of the list has no leaf left waiting.
pub open spec fn trees_complete<S: HilbertSpec>(trees: Seq<TreeFill<S>>) -> bool {
    forall|i: int| 0 <= i < trees.len() ==> (#[trigger] trees[i]).complete()
}

fn all_complete<S: HilbertSpec>(trees: &Vec<TreeFill<S>>) -> (r: bool)
    requires
        trees_inv::<S>(trees@),
    ensures
        r == trees_complete::<S>(trees@),
{
    let mut i: usize = 0;
    while i < trees.len()
        invariant
            i <= trees@.len(),
            trees_inv::<S>(trees@),
            forall|k: int| 0 <= k < i ==> (#[trigger] trees@[k]).complete(),
        decreases trees@.len() - i,
    {
        let t = &trees[i];
        let mut k: usize = 0;
        while k < t.buffers.len()
            invariant
                i < trees@.len(),
                *t == trees@[i as int],
                k <= t.buffers@.len() == PARTITIONS,
                forall|j: int| 0 <= j < k ==> #[trigger] t.buffers@[j]@.len() == 0,
            decreases t.buffers@.len() - k,
        {
            if t.buffers[k].len() != 0 {
                assert(!trees@[i as int].complete()) by {
                    assert(trees@[i as int].buffers@[k as int]@.len() != 0);
                }
                return false;
            }
            k = k + 1;
        }
        i = i + 1;
    }
    true
}

/// What sorting one event into its partition does to the filler, and when it fails.
pub open spec fn fill_consumed(
    o: Filler,
    event: Event<MaybeInlined>,
    scout: ScoutPass,
    n: Filler,
    r: Result<(), FillError>,
) -> bool {
    &&& n.inv()
    &&& n.dedup == o.dedup
    &&& n.write_zones@.len() == o.write_zones@.len()
    &&& n.read_zones@.len() == o.read_zones@.len()
    &&& n.registers@.len() == o.registers@.len()
    &&& r is Err ==> n.write_zones@ == o.write_zones@ && n.read_zones@
        == o.read_zones@ && n.registers@ == o.registers@
    &&& match event {
        Event::MemoryWrite(l) => {
            let w = MemWriteLeaf { node: l.node, packed_data: l.data.packed_spec() };
            &&& r == Err::<(), FillError>(FillError::NoZone) <==> l.node.wf() && meets_none(scout.write_zones@, l.node.addr_range_spec())
            &&& r is Ok ==> n.read_zones@ == o.read_zones@
                && n.registers@ == o.registers@
                && exists|i: int| first_meeting(scout.write_zones@, l.node.addr_range_spec(), i)
                    && pushed_in::<MemWriteSpec>(o.write_zones@, n.write_zones@, i, w)
        },
        Event::MemoryRead(l) => {
            &&& r == Err::<(), FillError>(FillError::NoZone) <==> l.wf() && meets_none(scout.read_zones@, l.node_spec().addr_range_spec())
            &&& r is Ok ==> n.write_zones@ == o.write_zones@
                && n.registers@ == o.registers@
                && exists|i: int| first_meeting(scout.read_zones@, l.node_spec().addr_range_spec(), i)
                    && pushed_in::<MemReadSpec>(o.read_zones@, n.read_zones@, i, l)
        },
        Event::Register { idx, leaf } => {
            r is Ok ==> n.write_zones@ == o.write_zones@
                && n.read_zones@ == o.read_zones@
                && pushed_in::<RegSpec>(o.registers@, n.registers@, idx as int, leaf)
        },
        Event::AslrSlide(_) => r is Ok && n == o
    }
}

/// What placing the bytes of a write does to the filler, and what data it gives.
pub open spec fn fill_mapped(
    o: Filler,
    bytes: Seq<u8>,
    n: Filler,
    r: Result<MaybeInlined, FillError>,
) -> bool {
    &&& n.inv()
    &&& n.write_zones@ == o.write_zones@
    &&& n.read_zones@ == o.read_zones@
    &&& n.registers@ == o.registers@
    &&& n.dedup.room() == o.dedup.room()
    &&& o.dedup.section().is_prefix_of(n.dedup.section())
    &&& bytes.len() <= 8 ==> r == Ok::<MaybeInlined, FillError>(inlined(bytes))
    &&& r is Err <==> bytes.len() > 8 && !o.dedup.placed().dom().contains(bytes)
        && o.dedup.section().len() + bytes.len() > o.dedup.room()
    &&& r is Err ==> r == Err::<MaybeInlined, FillError>(FillError::NoRoom)
    &&& r matches Ok(d) ==> d.holds(bytes, n.dedup.section()) && d.fits(bytes.len())
}

/// Nothing filled yet: an empty data section as large as the first pass found needed,
/// and the trees of the second pass's partitions with nothing placed.
pub open spec fn filler_fresh(f: Filler, scout: ScoutPass, partitions: HilbertPartitionPass) -> bool {
    &&& f.inv()
    &&& f.dedup.room() == scout.data_section_required_bytes
    &&& f.dedup.section().len() == 0
    &&& f.dedup.placed() == Map::<Seq<u8>, u64>::empty()
    &&& trees_fresh::<MemWriteSpec>(f.write_zones@, partitions.write_zones@)
    &&& trees_fresh::<MemReadSpec>(f.read_zones@, partitions.read_zones@)
    &&& trees_fresh::<RegSpec>(f.registers@, partitions.registers@)
}

impl Filler {
    /// No write leaf is left waiting in a buffer.
    pub fn writes_complete(&self) -> (r: bool)
        requires
            self.inv(),
        ensures
            r == trees_complete::<MemWriteSpec>(self.write_zones@),
    {
        all_complete(&self.write_zones)
    }

    pub open spec fn inv(&self) -> bool {
        &&& self.dedup.inv()
        &&& trees_inv::<MemWriteSpec>(self.write_zones@)
        &&& trees_inv::<MemReadSpec>(self.read_zones@)
        &&& trees_inv::<RegSpec>(self.registers@)
    }

    /// Nothing filled yet: a data section as large as the first pass found needed, and
    /// the partitions of the second pass.
    pub fn new(scout: &ScoutPass, partitions: &HilbertPartitionPass) -> (r: Self)
        requires
            partitions.inv(),
        ensures
            r.inv(),
            r.dedup.room() == scout.data_section_required_bytes,
            r.dedup.section().len() == 0,
            r.write_zones@.len() == partitions.write_zones@.len(),
            r.read_zones@.len() == partitions.read_zones@.len(),
            r.registers@.len() == partitions.registers@.len(),
            filler_fresh(r, *scout, *partitions),
    {
        let dedup = DataDedup::new(scout.data_section_required_bytes);
        let write_zones = trees_for(&partitions.write_zones);
        let read_zones = trees_for(&partitions.read_zones);
        let registers = trees_for(&partitions.registers);
        let f = Filler { dedup, write_zones, read_zones, registers };
        assert(trees_fresh::<MemWriteSpec>(f.write_zones@, partitions.write_zones@));
        assert(trees_fresh::<MemReadSpec>(f.read_zones@, partitions.read_zones@));
        assert(trees_fresh::<RegSpec>(f.registers@, partitions.registers@));
        assert(f.dedup.placed() == Map::<Seq<u8>, u64>::empty());
        f
    }

    /// The data of written bytes: inline when they are at most 8, else placed once in
    /// the data section.
    pub fn map_data(&mut self, bytes: &[u8]) -> (r: Result<MaybeInlined, FillError>)
        requires
            old(self).inv(),
        ensures
            fill_mapped(*old(self), bytes@, *final(self), r),
    {
        if bytes.len() <= 8 {
            let d = MaybeInlined::inline(bytes);
            proof {
                let c = choose|a: [u8; 8]| a@ == padded8(bytes@);
                let w = padded8(bytes@);
                let arr: [u8; 8] = [w[0], w[1], w[2], w[3], w[4], w[5], w[6], w[7]];
                assert(arr@ =~= w);
                assert(old(self).dedup.section().is_prefix_of(self.dedup.section()));
            }
            Ok(d)
        } else {
            let ghost before = self.dedup.section();
            match self.dedup.insert(bytes) {
                Some(offset) => {
                    proof {
                        assert(before.is_prefix_of(self.dedup.section())) by {
                            if !old(self).dedup.placed().dom().contains(bytes@) {
                                assert(self.dedup.section().take(before.len() as int) =~= before);
                            }
                        }
                    }
                    Ok(MaybeInlined::Outline { offset, len: bytes.len() })
                },
                None => {
                    assert(before.is_prefix_of(self.dedup.section()));
                    Err(FillError::NoRoom)
                },
            }
        }
    }

    /// Fill one normalized event in: a leaf goes to the partition buffer of its tree, a
    /// memory leaf to the first zone that its addresses meet.
    pub fn consume(&mut self, event: &Event<MaybeInlined>, scout: &ScoutPass) -> (r: Result<(), FillError>)
        requires
            old(self).inv(),
            scout.inv(),
            old(self).write_zones@.len() == scout.write_zones@.len(),
            old(self).read_zones@.len() == scout.read_zones@.len(),
        ensures
            fill_consumed(*old(self), *event, *scout, *final(self), r),
    {
        match event {
            Event::MemoryWrite(leaf) => {
                let node = leaf.node;
                if !(node.addr_min <= node.addr_max && node.time_min <= node.time_max) {
                    return Err(FillError::Malformed);
                }
                let idx = match find_zone_index(&scout.write_zones, node.addr_range()) {
                    Some(i) => i,
                    None => {
                        return Err(FillError::NoZone);
                    },
                };
                let w = MemWriteLeaf { node, packed_data: leaf.data.packed() };
                let fits = idx < self.write_zones.len() && mem_covers(&self.write_zones[idx].bbox, &node)
                    && self.write_zones[idx].bbox.addr_min <= self.write_zones[idx].bbox.addr_max
                    && self.write_zones[idx].bbox.time_min <= self.write_zones[idx].bbox.time_max;
                let r = fill_checked(&mut self.write_zones, idx, w, fits);
                proof {
                    if r is Ok {
                        assert(first_meeting(scout.write_zones@, node.addr_range_spec(), idx as int));
                    }
                }
                r
            },
            Event::MemoryRead(leaf) => {
                let node = leaf.node();
                if !(node.addr_min <= node.addr_max) {
                    return Err(FillError::Malformed);
                }
                let idx = match find_zone_index(&scout.read_zones, node.addr_range()) {
                    Some(i) => i,
                    None => {
                        return Err(FillError::NoZone);
                    },
                };
                let fits = idx < self.read_zones.len() && mem_covers(&self.read_zones[idx].bbox, &node)
                    && self.read_zones[idx].bbox.addr_min <= self.read_zones[idx].bbox.addr_max
                    && self.read_zones[idx].bbox.time_min <= self.read_zones[idx].bbox.time_max;
                let r = fill_checked(&mut self.read_zones, idx, *leaf, fits);
                proof {
                    if r is Ok {
                        assert(first_meeting(scout.read_zones@, node.addr_range_spec(), idx as int));
                    }
                }
                r
            },
            Event::Register { idx, leaf } => {
                let idx = *idx;
                let fits = idx < self.registers.len() && leaf.time_min <= leaf.time_max && reg_covers(
                    &self.registers[idx].bbox,
                    &leaf.node(),
                ) && self.registers[idx].bbox.value_min <= self.registers[idx].bbox.value_max
                    && self.registers[idx].bbox.time_min <= self.registers[idx].bbox.time_max;
                fill_checked(&mut self.registers, idx, *leaf, fits)
            },
            Event::AslrSlide(_) => Ok(()),
        }
    }
}

} // verus!
