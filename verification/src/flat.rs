//! Fixed-layout records of the database file.
use vstd::prelude::*;
use core::ops::Range;
use vstd::bytes::{
    lemma_auto_spec_u32_to_from_le_bytes, lemma_auto_spec_u64_to_from_le_bytes, spec_u32_from_le_bytes,
    spec_u32_to_le_bytes, spec_u64_from_le_bytes, spec_u64_to_le_bytes, u32_from_le_bytes,
    u32_to_le_bytes, u64_from_le_bytes, u64_to_le_bytes,
};
use vstd::slice::slice_subrange;

verus! {

pub type Addr = u64;

pub type Time = u32;

pub type PackedData = u64;

/// A `[start, end)` byte range inside the database file.
#[derive(Clone, Copy, Debug, PartialEq, Eq, Default)]
pub struct Section {
    pub start: u64,
    pub end: u64,
}

#[derive(Clone, Copy, Debug, PartialEq, Eq, Default)]
pub struct RTreeList {
    pub headers: Section,
    pub bboxes: Section,
}

#[derive(Clone, Copy, Debug, PartialEq, Eq, Default)]
pub struct Header {
    pub magic: u64,
    pub version: u64,
    pub metadata: Section,
    pub data: Section,
    pub write_zones: RTreeList,
    pub read_zones: RTreeList,
    pub registers: RTreeList,
}

#[derive(Clone, Copy, Debug, PartialEq, Eq, Default)]
pub struct RTreeHeader {
    pub node_size_order: u64,
    pub leaves: Section,
    pub nodes: Section,
    pub levels: Section,
}

#[derive(Clone, Copy, Debug, PartialEq, Eq, Default)]
pub struct Level {
    /// Offset in rtree.nodes
    pub offset: u64,
    /// Number of nodes
    pub size: u64,
}

/// Memory R-Tree node
#[derive(Clone, Copy, Debug, PartialEq, Eq, Default)]
pub struct MemNode {
    pub addr_min: Addr,
    pub addr_max: Addr,
    pub time_min: Time,
    pub time_max: Time,
}

/// Memory R-Tree leaf
#[derive(Clone, Copy, Debug, PartialEq, Eq, Default)]
pub struct MemWriteLeaf {
    pub node: MemNode,
    pub packed_data: PackedData,
}

#[derive(Clone, Copy, Debug, PartialEq, Eq, Default)]
pub struct MemReadLeaf {
    pub addr_min: Addr,
    pub addr_max: Addr,
    pub time: Time,
}

/// Register R-Tree node
#[derive(Clone, Copy, Debug, PartialEq, Eq, Default)]
pub struct RegNode {
    pub value_min: u64,
    pub value_max: u64,
    pub time_min: Time,
    pub time_max: Time,
}

/// Register R-Tree leaf
#[derive(Clone, Copy, Debug, PartialEq, Eq, Default)]
pub struct RegLeaf {
    pub value: u64,
    pub time_min: Time,
    pub time_max: Time,
}

impl Section {
    /// Byte range of the item `idx`: it starts `idx` items after the section start and,
    /// as written, spans `idx` bytes.
    pub fn item_byte_range<T>(&self, idx: usize) -> (r: Range<usize>)
        requires
            self.start <= self.end,
            ((self.end - self.start) as usize) as nat % vstd::layout::size_of::<T>() == 0
                || (vstd::layout::size_of::<T>() == 0 && (self.end - self.start) as usize == 0),
            self.start as usize + vstd::layout::size_of::<T>() * idx + idx <= usize::MAX,
        ensures
            r.start == self.start as usize + vstd::layout::size_of::<T>() * idx,
            r.end == r.start + idx,
    {
        let size = core::mem::size_of::<T>();
        let span = (self.end - self.start) as usize;
        proof {
            assert(size as nat == vstd::layout::size_of::<T>());
            assert(0 <= size * idx <= self.start as usize + size * idx) by (nonlinear_arith)
                requires
                    size >= 0,
                    idx >= 0,
                    self.start as usize >= 0,
            ;
        }
        let start = self.start as usize + size * idx;
        start..start + idx
    }

    pub fn byte_range(&self) -> (r: Range<usize>)
        ensures
            r.start == self.start as usize,
            r.end == self.end as usize,
    {
        self.start as usize..self.end as usize
    }
}


/// A fixed-size record of the database file: its little-endian encoding, field after
/// field with no padding, and the alignment its position in the file must have.
pub trait Zerocopyable: Copy + Sized {
    /// Size in bytes of the encoding.
    spec fn size_spec() -> nat;

    /// Alignment of the record in the file.
    spec fn align_spec() -> nat;

    spec fn encoding(self) -> Seq<u8>;

    spec fn decoding(bytes: Seq<u8>) -> Self;

    fn size() -> (r: usize)
        ensures
            r == Self::size_spec(),
            r > 0,
    ;

    fn align() -> (r: usize)
        ensures
            r == Self::align_spec(),
            r > 0,
    ;

    /// Decode the record that starts at `at`.
    fn read_at(bytes: &[u8], at: usize) -> (r: Self)
        requires
            at + Self::size_spec() <= bytes.len(),
        ensures
            r == Self::decoding(bytes@.subrange(at as int, at + Self::size_spec())),
    ;

    /// Append the encoding of the record.
    fn write_to(&self, out: &mut Vec<u8>)
        ensures
            final(out)@ == old(out)@ + self.encoding(),
    ;

    /// Records take room and need a positive alignment.
    proof fn lemma_layout_pos()
        ensures
            Self::size_spec() > 0,
            Self::align_spec() > 0,
    ;

    /// Decoding an encoding gives the record back.
    proof fn lemma_roundtrip(self)
        ensures
            self.encoding().len() == Self::size_spec(),
            Self::decoding(self.encoding()) == self,
    ;
}

/// Little-endian `u64` at `at`.
fn read_u64(bytes: &[u8], at: usize) -> (r: u64)
    requires
        at + 8 <= bytes.len(),
    ensures
        r == spec_u64_from_le_bytes(bytes@.subrange(at as int, at + 8)),
{
    u64_from_le_bytes(slice_subrange(bytes, at, at + 8))
}

/// Little-endian `u32` at `at`.
fn read_u32(bytes: &[u8], at: usize) -> (r: u32)
    requires
        at + 4 <= bytes.len(),
    ensures
        r == spec_u32_from_le_bytes(bytes@.subrange(at as int, at + 4)),
{
    u32_from_le_bytes(slice_subrange(bytes, at, at + 4))
}

fn write_u64(x: u64, out: &mut Vec<u8>)
    ensures
        final(out)@ == old(out)@ + spec_u64_to_le_bytes(x),
{
    let mut v = u64_to_le_bytes(x);
    out.append(&mut v);
}

fn write_u32(x: u32, out: &mut Vec<u8>)
    ensures
        final(out)@ == old(out)@ + spec_u32_to_le_bytes(x),
{
    let mut v = u32_to_le_bytes(x);
    out.append(&mut v);
}

impl Zerocopyable for u8 {
    open spec fn size_spec() -> nat {
        1
    }

    open spec fn align_spec() -> nat {
        1
    }

    open spec fn encoding(self) -> Seq<u8> {
        seq![self]
    }

    open spec fn decoding(bytes: Seq<u8>) -> Self {
        bytes[0]
    }

    fn size() -> (r: usize) {
        1
    }

    fn align() -> (r: usize) {
        1
    }

    fn read_at(bytes: &[u8], at: usize) -> (r: Self) {
        bytes[at]
    }

    fn write_to(&self, out: &mut Vec<u8>) {
        out.push(*self);
    }

    proof fn lemma_layout_pos() {
    }

    proof fn lemma_roundtrip(self) {
    }
}

impl Zerocopyable for Section {
    open spec fn size_spec() -> nat {
        16
    }

    open spec fn align_spec() -> nat {
        8
    }

    open spec fn encoding(self) -> Seq<u8> {
        spec_u64_to_le_bytes(self.start) + spec_u64_to_le_bytes(self.end)
    }

    open spec fn decoding(bytes: Seq<u8>) -> Self {
        Section {
            start: spec_u64_from_le_bytes(bytes.subrange(0, 8)),
            end: spec_u64_from_le_bytes(bytes.subrange(8, 16)),
        }
    }

    fn size() -> (r: usize) {
        16
    }

    fn align() -> (r: usize) {
        8
    }

    fn read_at(bytes: &[u8], at: usize) -> (r: Self) {
        proof {
            assert(bytes@.subrange(at as int, at + 16).subrange(0, 8) =~= bytes@.subrange(at + 0, at + 8));
            assert(bytes@.subrange(at as int, at + 16).subrange(8, 16) =~= bytes@.subrange(at + 8, at + 16));
        }
        Section {
            start: read_u64(bytes, at + 0),
            end: read_u64(bytes, at + 8),
        }
    }

    fn write_to(&self, out: &mut Vec<u8>) {
        let ghost start = out@;
        write_u64(self.start, out);
        write_u64(self.end, out);
        assert(out@ =~= start + self.encoding());
    }

    proof fn lemma_layout_pos() {
    }

    proof fn lemma_roundtrip(self) {
        lemma_auto_spec_u64_to_from_le_bytes();
        lemma_auto_spec_u32_to_from_le_bytes();
        
        let e = self.encoding();
        assert(e.subrange(0, 8) =~= spec_u64_to_le_bytes(self.start));
        assert(e.subrange(8, 16) =~= spec_u64_to_le_bytes(self.end));
    }
}

impl Zerocopyable for RTreeList {
    open spec fn size_spec() -> nat {
        32
    }

    open spec fn align_spec() -> nat {
        8
    }

    open spec fn encoding(self) -> Seq<u8> {
        self.headers.encoding() + self.bboxes.encoding()
    }

    open spec fn decoding(bytes: Seq<u8>) -> Self {
        RTreeList {
            headers: Section::decoding(bytes.subrange(0, 16)),
            bboxes: Section::decoding(bytes.subrange(16, 32)),
        }
    }

    fn size() -> (r: usize) {
        32
    }

    fn align() -> (r: usize) {
        8
    }

    fn read_at(bytes: &[u8], at: usize) -> (r: Self) {
        proof {
            assert(bytes@.subrange(at as int, at + 32).subrange(0, 16) =~= bytes@.subrange(at + 0, at + 16));
            assert(bytes@.subrange(at as int, at + 32).subrange(16, 32) =~= bytes@.subrange(at + 16, at + 32));
        }
        RTreeList {
            headers: Section::read_at(bytes, at + 0),
            bboxes: Section::read_at(bytes, at + 16),
        }
    }

    fn write_to(&self, out: &mut Vec<u8>) {
        let ghost start = out@;
        self.headers.write_to(out);
        self.bboxes.write_to(out);
        assert(out@ =~= start + self.encoding());
    }

    proof fn lemma_layout_pos() {
    }

    proof fn lemma_roundtrip(self) {
        lemma_auto_spec_u64_to_from_le_bytes();
        lemma_auto_spec_u32_to_from_le_bytes();
        self.headers.lemma_roundtrip();
        self.bboxes.lemma_roundtrip();
        let e = self.encoding();
        assert(e.subrange(0, 16) =~= self.headers.encoding());
        assert(e.subrange(16, 32) =~= self.bboxes.encoding());
    }
}

impl Zerocopyable for Header {
    open spec fn size_spec() -> nat {
        144
    }

    open spec fn align_spec() -> nat {
        8
    }

    open spec fn encoding(self) -> Seq<u8> {
        spec_u64_to_le_bytes(self.magic) + spec_u64_to_le_bytes(self.version) + self.metadata.encoding() + self.data.encoding() + self.write_zones.encoding() + self.read_zones.encoding() + self.registers.encoding()
    }

    open spec fn decoding(bytes: Seq<u8>) -> Self {
        Header {
            magic: spec_u64_from_le_bytes(bytes.subrange(0, 8)),
            version: spec_u64_from_le_bytes(bytes.subrange(8, 16)),
            metadata: Section::decoding(bytes.subrange(16, 32)),
            data: Section::decoding(bytes.subrange(32, 48)),
            write_zones: RTreeList::decoding(bytes.subrange(48, 80)),
            read_zones: RTreeList::decoding(bytes.subrange(80, 112)),
            registers: RTreeList::decoding(bytes.subrange(112, 144)),
        }
    }

    fn size() -> (r: usize) {
        144
    }

    fn align() -> (r: usize) {
        8
    }

    fn read_at(bytes: &[u8], at: usize) -> (r: Self) {
        proof {
            assert(bytes@.subrange(at as int, at + 144).subrange(0, 8) =~= bytes@.subrange(at + 0, at + 8));
            assert(bytes@.subrange(at as int, at + 144).subrange(8, 16) =~= bytes@.subrange(at + 8, at + 16));
            assert(bytes@.subrange(at as int, at + 144).subrange(16, 32) =~= bytes@.subrange(at + 16, at + 32));
            assert(bytes@.subrange(at as int, at + 144).subrange(32, 48) =~= bytes@.subrange(at + 32, at + 48));
            assert(bytes@.subrange(at as int, at + 144).subrange(48, 80) =~= bytes@.subrange(at + 48, at + 80));
            assert(bytes@.subrange(at as int, at + 144).subrange(80, 112) =~= bytes@.subrange(at + 80, at + 112));
            assert(bytes@.subrange(at as int, at + 144).subrange(112, 144) =~= bytes@.subrange(at + 112, at + 144));
        }
        Header {
            magic: read_u64(bytes, at + 0),
            version: read_u64(bytes, at + 8),
            metadata: Section::read_at(bytes, at + 16),
            data: Section::read_at(bytes, at + 32),
            write_zones: RTreeList::read_at(bytes, at + 48),
            read_zones: RTreeList::read_at(bytes, at + 80),
            registers: RTreeList::read_at(bytes, at + 112),
        }
    }

    fn write_to(&self, out: &mut Vec<u8>) {
        let ghost start = out@;
        write_u64(self.magic, out);
        write_u64(self.version, out);
        self.metadata.write_to(out);
        self.data.write_to(out);
        self.write_zones.write_to(out);
        self.read_zones.write_to(out);
        self.registers.write_to(out);
        assert(out@ =~= start + self.encoding());
    }

    proof fn lemma_layout_pos() {
    }

    proof fn lemma_roundtrip(self) {
        lemma_auto_spec_u64_to_from_le_bytes();
        lemma_auto_spec_u32_to_from_le_bytes();
        self.metadata.lemma_roundtrip();
        self.data.lemma_roundtrip();
        self.write_zones.lemma_roundtrip();
        self.read_zones.lemma_roundtrip();
        self.registers.lemma_roundtrip();
        let e = self.encoding();
        assert(e.subrange(0, 8) =~= spec_u64_to_le_bytes(self.magic));
        assert(e.subrange(8, 16) =~= spec_u64_to_le_bytes(self.version));
        assert(e.subrange(16, 32) =~= self.metadata.encoding());
        assert(e.subrange(32, 48) =~= self.data.encoding());
        assert(e.subrange(48, 80) =~= self.write_zones.encoding());
        assert(e.subrange(80, 112) =~= self.read_zones.encoding());
        assert(e.subrange(112, 144) =~= self.registers.encoding());
    }
}

impl Zerocopyable for RTreeHeader {
    open spec fn size_spec() -> nat {
        56
    }

    open spec fn align_spec() -> nat {
        8
    }

    open spec fn encoding(self) -> Seq<u8> {
        spec_u64_to_le_bytes(self.node_size_order) + self.leaves.encoding() + self.nodes.encoding() + self.levels.encoding()
    }

    open spec fn decoding(bytes: Seq<u8>) -> Self {
        RTreeHeader {
            node_size_order: spec_u64_from_le_bytes(bytes.subrange(0, 8)),
            leaves: Section::decoding(bytes.subrange(8, 24)),
            nodes: Section::decoding(bytes.subrange(24, 40)),
            levels: Section::decoding(bytes.subrange(40, 56)),
        }
    }

    fn size() -> (r: usize) {
        56
    }

    fn align() -> (r: usize) {
        8
    }

    fn read_at(bytes: &[u8], at: usize) -> (r: Self) {
        proof {
            assert(bytes@.subrange(at as int, at + 56).subrange(0, 8) =~= bytes@.subrange(at + 0, at + 8));
            assert(bytes@.subrange(at as int, at + 56).subrange(8, 24) =~= bytes@.subrange(at + 8, at + 24));
            assert(bytes@.subrange(at as int, at + 56).subrange(24, 40) =~= bytes@.subrange(at + 24, at + 40));
            assert(bytes@.subrange(at as int, at + 56).subrange(40, 56) =~= bytes@.subrange(at + 40, at + 56));
        }
        RTreeHeader {
            node_size_order: read_u64(bytes, at + 0),
            leaves: Section::read_at(bytes, at + 8),
            nodes: Section::read_at(bytes, at + 24),
            levels: Section::read_at(bytes, at + 40),
        }
    }

    fn write_to(&self, out: &mut Vec<u8>) {
        let ghost start = out@;
        write_u64(self.node_size_order, out);
        self.leaves.write_to(out);
        self.nodes.write_to(out);
        self.levels.write_to(out);
        assert(out@ =~= start + self.encoding());
    }

    proof fn lemma_layout_pos() {
    }

    proof fn lemma_roundtrip(self) {
        lemma_auto_spec_u64_to_from_le_bytes();
        lemma_auto_spec_u32_to_from_le_bytes();
        self.leaves.lemma_roundtrip();
        self.nodes.lemma_roundtrip();
        self.levels.lemma_roundtrip();
        let e = self.encoding();
        assert(e.subrange(0, 8) =~= spec_u64_to_le_bytes(self.node_size_order));
        assert(e.subrange(8, 24) =~= self.leaves.encoding());
        assert(e.subrange(24, 40) =~= self.nodes.encoding());
        assert(e.subrange(40, 56) =~= self.levels.encoding());
    }
}

impl Zerocopyable for Level {
    open spec fn size_spec() -> nat {
        16
    }

    open spec fn align_spec() -> nat {
        8
    }

    open spec fn encoding(self) -> Seq<u8> {
        spec_u64_to_le_bytes(self.offset) + spec_u64_to_le_bytes(self.size)
    }

    open spec fn decoding(bytes: Seq<u8>) -> Self {
        Level {
            offset: spec_u64_from_le_bytes(bytes.subrange(0, 8)),
            size: spec_u64_from_le_bytes(bytes.subrange(8, 16)),
        }
    }

    fn size() -> (r: usize) {
        16
    }

    fn align() -> (r: usize) {
        8
    }

    fn read_at(bytes: &[u8], at: usize) -> (r: Self) {
        proof {
            assert(bytes@.subrange(at as int, at + 16).subrange(0, 8) =~= bytes@.subrange(at + 0, at + 8));
            assert(bytes@.subrange(at as int, at + 16).subrange(8, 16) =~= bytes@.subrange(at + 8, at + 16));
        }
        Level {
            offset: read_u64(bytes, at + 0),
            size: read_u64(bytes, at + 8),
        }
    }

    fn write_to(&self, out: &mut Vec<u8>) {
        let ghost start = out@;
        write_u64(self.offset, out);
        write_u64(self.size, out);
        assert(out@ =~= start + self.encoding());
    }

    proof fn lemma_layout_pos() {
    }

    proof fn lemma_roundtrip(self) {
        lemma_auto_spec_u64_to_from_le_bytes();
        lemma_auto_spec_u32_to_from_le_bytes();
        
        let e = self.encoding();
        assert(e.subrange(0, 8) =~= spec_u64_to_le_bytes(self.offset));
        assert(e.subrange(8, 16) =~= spec_u64_to_le_bytes(self.size));
    }
}

impl Zerocopyable for MemNode {
    open spec fn size_spec() -> nat {
        24
    }

    open spec fn align_spec() -> nat {
        8
    }

    open spec fn encoding(self) -> Seq<u8> {
        spec_u64_to_le_bytes(self.addr_min) + spec_u64_to_le_bytes(self.addr_max) + spec_u32_to_le_bytes(self.time_min) + spec_u32_to_le_bytes(self.time_max)
    }

    open spec fn decoding(bytes: Seq<u8>) -> Self {
        MemNode {
            addr_min: spec_u64_from_le_bytes(bytes.subrange(0, 8)),
            addr_max: spec_u64_from_le_bytes(bytes.subrange(8, 16)),
            time_min: spec_u32_from_le_bytes(bytes.subrange(16, 20)),
            time_max: spec_u32_from_le_bytes(bytes.subrange(20, 24)),
        }
    }

    fn size() -> (r: usize) {
        24
    }

    fn align() -> (r: usize) {
        8
    }

    fn read_at(bytes: &[u8], at: usize) -> (r: Self) {
        proof {
            assert(bytes@.subrange(at as int, at + 24).subrange(0, 8) =~= bytes@.subrange(at + 0, at + 8));
            assert(bytes@.subrange(at as int, at + 24).subrange(8, 16) =~= bytes@.subrange(at + 8, at + 16));
            assert(bytes@.subrange(at as int, at + 24).subrange(16, 20) =~= bytes@.subrange(at + 16, at + 20));
            assert(bytes@.subrange(at as int, at + 24).subrange(20, 24) =~= bytes@.subrange(at + 20, at + 24));
        }
        MemNode {
            addr_min: read_u64(bytes, at + 0),
            addr_max: read_u64(bytes, at + 8),
            time_min: read_u32(bytes, at + 16),
            time_max: read_u32(bytes, at + 20),
        }
    }

    fn write_to(&self, out: &mut Vec<u8>) {
        let ghost start = out@;
        write_u64(self.addr_min, out);
        write_u64(self.addr_max, out);
        write_u32(self.time_min, out);
        write_u32(self.time_max, out);
        assert(out@ =~= start + self.encoding());
    }

    proof fn lemma_layout_pos() {
    }

    proof fn lemma_roundtrip(self) {
        lemma_auto_spec_u64_to_from_le_bytes();
        lemma_auto_spec_u32_to_from_le_bytes();
        
        let e = self.encoding();
        assert(e.subrange(0, 8) =~= spec_u64_to_le_bytes(self.addr_min));
        assert(e.subrange(8, 16) =~= spec_u64_to_le_bytes(self.addr_max));
        assert(e.subrange(16, 20) =~= spec_u32_to_le_bytes(self.time_min));
        assert(e.subrange(20, 24) =~= spec_u32_to_le_bytes(self.time_max));
    }
}

impl Zerocopyable for MemWriteLeaf {
    open spec fn size_spec() -> nat {
        32
    }

    open spec fn align_spec() -> nat {
        8
    }

    open spec fn encoding(self) -> Seq<u8> {
        self.node.encoding() + spec_u64_to_le_bytes(self.packed_data)
    }

    open spec fn decoding(bytes: Seq<u8>) -> Self {
        MemWriteLeaf {
            node: MemNode::decoding(bytes.subrange(0, 24)),
            packed_data: spec_u64_from_le_bytes(bytes.subrange(24, 32)),
        }
    }

    fn size() -> (r: usize) {
        32
    }

    fn align() -> (r: usize) {
        8
    }

    fn read_at(bytes: &[u8], at: usize) -> (r: Self) {
        proof {
            assert(bytes@.subrange(at as int, at + 32).subrange(0, 24) =~= bytes@.subrange(at + 0, at + 24));
            assert(bytes@.subrange(at as int, at + 32).subrange(24, 32) =~= bytes@.subrange(at + 24, at + 32));
        }
        MemWriteLeaf {
            node: MemNode::read_at(bytes, at + 0),
            packed_data: read_u64(bytes, at + 24),
        }
    }

    fn write_to(&self, out: &mut Vec<u8>) {
        let ghost start = out@;
        self.node.write_to(out);
        write_u64(self.packed_data, out);
        assert(out@ =~= start + self.encoding());
    }

    proof fn lemma_layout_pos() {
    }

    proof fn lemma_roundtrip(self) {
        lemma_auto_spec_u64_to_from_le_bytes();
        lemma_auto_spec_u32_to_from_le_bytes();
        self.node.lemma_roundtrip();
        let e = self.encoding();
        assert(e.subrange(0, 24) =~= self.node.encoding());
        assert(e.subrange(24, 32) =~= spec_u64_to_le_bytes(self.packed_data));
    }
}

impl Zerocopyable for MemReadLeaf {
    open spec fn size_spec() -> nat {
        20
    }

    open spec fn align_spec() -> nat {
        1
    }

    open spec fn encoding(self) -> Seq<u8> {
        spec_u64_to_le_bytes(self.addr_min) + spec_u64_to_le_bytes(self.addr_max) + spec_u32_to_le_bytes(self.time)
    }

    open spec fn decoding(bytes: Seq<u8>) -> Self {
        MemReadLeaf {
            addr_min: spec_u64_from_le_bytes(bytes.subrange(0, 8)),
            addr_max: spec_u64_from_le_bytes(bytes.subrange(8, 16)),
            time: spec_u32_from_le_bytes(bytes.subrange(16, 20)),
        }
    }

    fn size() -> (r: usize) {
        20
    }

    fn align() -> (r: usize) {
        1
    }

    fn read_at(bytes: &[u8], at: usize) -> (r: Self) {
        proof {
            assert(bytes@.subrange(at as int, at + 20).subrange(0, 8) =~= bytes@.subrange(at + 0, at + 8));
            assert(bytes@.subrange(at as int, at + 20).subrange(8, 16) =~= bytes@.subrange(at + 8, at + 16));
            assert(bytes@.subrange(at as int, at + 20).subrange(16, 20) =~= bytes@.subrange(at + 16, at + 20));
        }
        MemReadLeaf {
            addr_min: read_u64(bytes, at + 0),
            addr_max: read_u64(bytes, at + 8),
            time: read_u32(bytes, at + 16),
        }
    }

    fn write_to(&self, out: &mut Vec<u8>) {
        let ghost start = out@;
        write_u64(self.addr_min, out);
        write_u64(self.addr_max, out);
        write_u32(self.time, out);
        assert(out@ =~= start + self.encoding());
    }

    proof fn lemma_layout_pos() {
    }

    proof fn lemma_roundtrip(self) {
        lemma_auto_spec_u64_to_from_le_bytes();
        lemma_auto_spec_u32_to_from_le_bytes();
        
        let e = self.encoding();
        assert(e.subrange(0, 8) =~= spec_u64_to_le_bytes(self.addr_min));
        assert(e.subrange(8, 16) =~= spec_u64_to_le_bytes(self.addr_max));
        assert(e.subrange(16, 20) =~= spec_u32_to_le_bytes(self.time));
    }
}

impl Zerocopyable for RegNode {
    open spec fn size_spec() -> nat {
        24
    }

    open spec fn align_spec() -> nat {
        8
    }

    open spec fn encoding(self) -> Seq<u8> {
        spec_u64_to_le_bytes(self.value_min) + spec_u64_to_le_bytes(self.value_max) + spec_u32_to_le_bytes(self.time_min) + spec_u32_to_le_bytes(self.time_max)
    }

    open spec fn decoding(bytes: Seq<u8>) -> Self {
        RegNode {
            value_min: spec_u64_from_le_bytes(bytes.subrange(0, 8)),
            value_max: spec_u64_from_le_bytes(bytes.subrange(8, 16)),
            time_min: spec_u32_from_le_bytes(bytes.subrange(16, 20)),
            time_max: spec_u32_from_le_bytes(bytes.subrange(20, 24)),
        }
    }

    fn size() -> (r: usize) {
        24
    }

    fn align() -> (r: usize) {
        8
    }

    fn read_at(bytes: &[u8], at: usize) -> (r: Self) {
        proof {
            assert(bytes@.subrange(at as int, at + 24).subrange(0, 8) =~= bytes@.subrange(at + 0, at + 8));
            assert(bytes@.subrange(at as int, at + 24).subrange(8, 16) =~= bytes@.subrange(at + 8, at + 16));
            assert(bytes@.subrange(at as int, at + 24).subrange(16, 20) =~= bytes@.subrange(at + 16, at + 20));
            assert(bytes@.subrange(at as int, at + 24).subrange(20, 24) =~= bytes@.subrange(at + 20, at + 24));
        }
        RegNode {
            value_min: read_u64(bytes, at + 0),
            value_max: read_u64(bytes, at + 8),
            time_min: read_u32(bytes, at + 16),
            time_max: read_u32(bytes, at + 20),
        }
    }

    fn write_to(&self, out: &mut Vec<u8>) {
        let ghost start = out@;
        write_u64(self.value_min, out);
        write_u64(self.value_max, out);
        write_u32(self.time_min, out);
        write_u32(self.time_max, out);
        assert(out@ =~= start + self.encoding());
    }

    proof fn lemma_layout_pos() {
    }

    proof fn lemma_roundtrip(self) {
        lemma_auto_spec_u64_to_from_le_bytes();
        lemma_auto_spec_u32_to_from_le_bytes();
        
        let e = self.encoding();
        assert(e.subrange(0, 8) =~= spec_u64_to_le_bytes(self.value_min));
        assert(e.subrange(8, 16) =~= spec_u64_to_le_bytes(self.value_max));
        assert(e.subrange(16, 20) =~= spec_u32_to_le_bytes(self.time_min));
        assert(e.subrange(20, 24) =~= spec_u32_to_le_bytes(self.time_max));
    }
}

impl Zerocopyable for RegLeaf {
    open spec fn size_spec() -> nat {
        16
    }

    open spec fn align_spec() -> nat {
        8
    }

    open spec fn encoding(self) -> Seq<u8> {
        spec_u64_to_le_bytes(self.value) + spec_u32_to_le_bytes(self.time_min) + spec_u32_to_le_bytes(self.time_max)
    }

    open spec fn decoding(bytes: Seq<u8>) -> Self {
        RegLeaf {
            value: spec_u64_from_le_bytes(bytes.subrange(0, 8)),
            time_min: spec_u32_from_le_bytes(bytes.subrange(8, 12)),
            time_max: spec_u32_from_le_bytes(bytes.subrange(12, 16)),
        }
    }

    fn size() -> (r: usize) {
        16
    }

    fn align() -> (r: usize) {
        8
    }

    fn read_at(bytes: &[u8], at: usize) -> (r: Self) {
        proof {
            assert(bytes@.subrange(at as int, at + 16).subrange(0, 8) =~= bytes@.subrange(at + 0, at + 8));
            assert(bytes@.subrange(at as int, at + 16).subrange(8, 12) =~= bytes@.subrange(at + 8, at + 12));
            assert(bytes@.subrange(at as int, at + 16).subrange(12, 16) =~= bytes@.subrange(at + 12, at + 16));
        }
        RegLeaf {
            value: read_u64(bytes, at + 0),
            time_min: read_u32(bytes, at + 8),
            time_max: read_u32(bytes, at + 12),
        }
    }

    fn write_to(&self, out: &mut Vec<u8>) {
        let ghost start = out@;
        write_u64(self.value, out);
        write_u32(self.time_min, out);
        write_u32(self.time_max, out);
        assert(out@ =~= start + self.encoding());
    }

    proof fn lemma_layout_pos() {
    }

    proof fn lemma_roundtrip(self) {
        lemma_auto_spec_u64_to_from_le_bytes();
        lemma_auto_spec_u32_to_from_le_bytes();
        
        let e = self.encoding();
        assert(e.subrange(0, 8) =~= spec_u64_to_le_bytes(self.value));
        assert(e.subrange(8, 12) =~= spec_u32_to_le_bytes(self.time_min));
        assert(e.subrange(12, 16) =~= spec_u32_to_le_bytes(self.time_max));
    }
}

} // verus!
