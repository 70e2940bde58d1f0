//! Cutting memory writes into disjoint rectangles of (address, time).
use vstd::prelude::*;
use crate::flat::{Addr, MemNode, Time};
use crate::irange::IRange;
use vstd::slice::slice_subrange;
use smallvec::SmallVec;

verus! {

/// A memory write leaf with the data that it carries.
pub struct DisjointMemLeaf<D> {
    pub node: MemNode,
    pub data: D,
}

/// Data attached to written bytes, which can be cut along with them.
pub trait DataCut: Copy + Sized {
    /// The data describes `len` bytes.
    spec fn fits(self, len: nat) -> bool;

    /// The data of the bytes `kept` that remain when `cut_left` bytes are cut on the left
    /// and `cut_right` on the right.
    spec fn cut_spec(self, cut_left: nat, cut_right: nat, kept: Seq<u8>) -> Self;

    fn cut(self, cut_left: usize, cut_right: usize, kept: &[u8]) -> (r: Self)
        requires
            kept@.len() >= 1,
            self.fits((cut_left + kept@.len() + cut_right) as nat),
        ensures
            r == self.cut_spec(cut_left as nat, cut_right as nat, kept@),
            r.fits(kept@.len()),
    ;
}

/// No data: only the rectangles are wanted.
#[derive(Debug, Clone, Copy)]
pub struct NoData;

impl DataCut for NoData {
    open spec fn fits(self, len: nat) -> bool {
        true
    }

    open spec fn cut_spec(self, cut_left: nat, cut_right: nat, kept: Seq<u8>) -> Self {
        self
    }

    fn cut(self, _cut_left: usize, _cut_right: usize, _kept: &[u8]) -> (r: Self) {
        self
    }
}

/// The bytes of a write, held in a `smallvec::SmallVec` that keeps up to 8 of them inline.
#[verifier::external_body]
pub struct SmallBytes {
    inner: SmallVec<[u8; 8]>,
}

/// The bytes that a small vector of bytes holds, in order.
pub uninterp spec fn small_bytes(v: SmallBytes) -> Seq<u8>;

/// `SmallVec::from_slice`: a small vector that holds a copy of the bytes, in order.
#[verifier::external_body]
fn small_from_slice(bytes: &[u8]) -> (r: SmallBytes)
    ensures
        small_bytes(r) == bytes@,
{
    SmallBytes { inner: SmallVec::from_slice(bytes) }
}

/// `SmallVec::as_slice`: the bytes that the small vector holds.
#[verifier::external_body]
fn small_as_slice(v: &SmallBytes) -> (r: &[u8])
    ensures
        r@ == small_bytes(*v),
{
    v.inner.as_slice()
}

/// A write still open in time: its bytes are the last written at its addresses.
pub struct TemporaryLeaf<D> {
    pub time_min: Time,
    pub addr_min: Addr,
    pub addr_max: Addr,
    pub bytes: SmallBytes,
    pub data: D,
}

impl<D> TemporaryLeaf<D> {
    /// The bytes of the write, in address order.
    #[verifier::inline]
    pub open spec fn bytes_seq(&self) -> Seq<u8> {
        small_bytes(self.bytes)
    }
}

impl<D: DataCut> TemporaryLeaf<D> {
    pub open spec fn wf(&self) -> bool {
        &&& self.addr_min <= self.addr_max
        &&& self.bytes_seq().len() == self.addr_max - self.addr_min + 1
        &&& self.data.fits(self.bytes_seq().len())
    }

    /// The rectangle of the write, closed at `time_max`.
    pub open spec fn rect(&self, time_max: Time) -> MemNode {
        MemNode {
            addr_min: self.addr_min,
            addr_max: self.addr_max,
            time_min: self.time_min,
            time_max,
        }
    }

    /// The leaf of the write, closed at `time_max`.
    pub fn complete(&self, time_max: Time) -> (r: DisjointMemLeaf<D>)
        ensures
            r.node == self.rect(time_max),
            r.data == self.data,
    {
        DisjointMemLeaf {
            node: MemNode {
                time_min: self.time_min,
                time_max,
                addr_min: self.addr_min,
                addr_max: self.addr_max,
            },
            data: self.data,
        }
    }

    /// The part of the write inside `bbox`, starting at `bbox.time_min`.
    pub fn mask_with_bbox(&self, bbox: MemNode) -> (r: Self)
        requires
            self.wf(),
            self.addr_min <= bbox.addr_min <= bbox.addr_max <= self.addr_max,
        ensures
            r.wf(),
            r.time_min == bbox.time_min,
            r.addr_min == bbox.addr_min,
            r.addr_max == bbox.addr_max,
            r.bytes_seq() == self.bytes_seq().subrange(
                bbox.addr_min - self.addr_min,
                bbox.addr_max - self.addr_min + 1,
            ),
            r.data == self.data.cut_spec(
                (bbox.addr_min - self.addr_min) as nat,
                (self.addr_max - bbox.addr_max) as nat,
                r.bytes_seq(),
            ),
    {
        let cut_left = (bbox.addr_min - self.addr_min) as usize;
        let cut_right = (self.addr_max - bbox.addr_max) as usize;
        let all = small_as_slice(&self.bytes);
        let len = all.len();
        let kept = slice_subrange(all, cut_left, len - cut_right);
        let data = self.data.cut(cut_left, cut_right, kept);
        let bytes = small_from_slice(kept);
        Self {
            time_min: bbox.time_min,
            addr_min: bbox.addr_min,
            addr_max: bbox.addr_max,
            data,
            bytes,
        }
    }
}


/// The write `t` covers the address `a`.
pub open spec fn covers<D>(t: TemporaryLeaf<D>, a: int) -> bool {
    t.addr_min <= a <= t.addr_max
}

/// The write `t` shares an address with the range `r`.
pub open spec fn meets<D>(t: TemporaryLeaf<D>, r: IRange<Addr>) -> bool {
    t.addr_min <= r.max && r.min <= t.addr_max
}

/// Time and value of the byte that the writes hold at `a`, if one covers it.
pub open spec fn written_in<D>(temps: Seq<TemporaryLeaf<D>>, a: int) -> Option<(Time, u8)> {
    if exists|k: int| 0 <= k < temps.len() && covers(#[trigger] temps[k], a) {
        let k = choose|k: int| 0 <= k < temps.len() && covers(#[trigger] temps[k], a);
        Some((temps[k].time_min, temps[k].bytes_seq()[a - temps[k].addr_min]))
    } else {
        None
    }
}

/// Writes sorted by address, with disjoint address ranges, each well formed and not
/// after `time`.
pub open spec fn temps_ok<D: DataCut>(temps: Seq<TemporaryLeaf<D>>, time: Time) -> bool {
    &&& forall|k: int| 0 <= k < temps.len() ==> (#[trigger] temps[k]).wf() && temps[k].time_min <= time
    &&& forall|i: int, j: int| 0 <= i < j < temps.len() ==> (#[trigger] temps[i]).addr_max < (#[trigger] temps[j]).addr_min
}

/// The byte at `a` of sorted disjoint writes is the one of the write covering it.
proof fn lemma_written_at<D: DataCut>(temps: Seq<TemporaryLeaf<D>>, time: Time, k: int, a: int)
    requires
        temps_ok(temps, time),
        0 <= k < temps.len(),
        covers(temps[k], a),
    ensures
        written_in(temps, a) == Some((temps[k].time_min, temps[k].bytes_seq()[a - temps[k].addr_min])),
{
    let c = choose|c: int| 0 <= c < temps.len() && covers(#[trigger] temps[c], a);
    if c < k {
        assert(temps[c].addr_max < temps[k].addr_min);
    } else if c > k {
        assert(temps[k].addr_max < temps[c].addr_min);
    }
}

/// The leaf closing the part of `e` that a write over `n` at `time` hides: the addresses
/// of both, from `e`'s time to just before `time`.
pub open spec fn hidden_leaf<D: DataCut>(e: TemporaryLeaf<D>, n: IRange<Addr>, time: Time) -> (MemNode, D) {
    let lo: int = if e.addr_min < n.min { n.min as int } else { e.addr_min as int };
    let hi: int = if n.max < e.addr_max { n.max as int } else { e.addr_max as int };
    (
        MemNode { addr_min: lo as u64, addr_max: hi as u64, time_min: e.time_min, time_max: (time - 1) as u32 },
        e.data.cut_spec(
            (lo - e.addr_min) as nat,
            (e.addr_max - hi) as nat,
            e.bytes_seq().subrange(lo - e.addr_min, hi - e.addr_min + 1),
        ),
    )
}

/// Leaves closed by a write over `n` at `time`, for the writes `mid` that it meets, in order.
pub open spec fn hidden_leaves<D: DataCut>(mid: Seq<TemporaryLeaf<D>>, n: IRange<Addr>, time: Time) -> Seq<(MemNode, D)>
    decreases mid.len(),
{
    if mid.len() == 0 {
        Seq::empty()
    } else {
        let rest = hidden_leaves(mid.drop_last(), n, time);
        if mid.last().time_min < time {
            rest.push(hidden_leaf(mid.last(), n, time))
        } else {
            rest
        }
    }
}

/// Rectangle and data of each leaf.
pub open spec fn leaf_views<D>(leaves: Seq<DisjointMemLeaf<D>>) -> Seq<(MemNode, D)> {
    leaves.map_values(|l: DisjointMemLeaf<D>| (l.node, l.data))
}

/// Writes that are still open, kept so that later writes cut them into disjoint leaves.
pub struct DisjointPass<D> {
    current_time: Time,
    /// Temporary leaves, sorted by start address, with disjoint address ranges
    temporaries: Vec<TemporaryLeaf<D>>,
}

impl<D: DataCut> DisjointPass<D> {
    pub closed spec fn time(&self) -> Time {
        self.current_time
    }

    pub closed spec fn temps(&self) -> Seq<TemporaryLeaf<D>> {
        self.temporaries@
    }

    pub closed spec fn inv(&self) -> bool {
        temps_ok(self.temporaries@, self.current_time)
    }

    /// Time and value of the last byte written at `a` that no leaf closes yet.
    pub open spec fn written(&self, a: int) -> Option<(Time, u8)> {
        written_in(self.temps(), a)
    }

    pub fn new() -> (r: Self)
        ensures
            r.inv(),
            r.time() == 0,
            r.temps().len() == 0,
    {
        Self { current_time: 0, temporaries: Vec::new() }
    }

    /// Indices `[lo, hi)` of the writes that meet `query`.
    fn iter_temporaries_in_range(temporaries: &Vec<TemporaryLeaf<D>>, query: IRange<Addr>) -> (r: (usize, usize))
        requires
            exists|t: Time| temps_ok(temporaries@, t),
            query.wf(),
        ensures
            r.0 <= r.1 <= temporaries@.len(),
            forall|k: int| 0 <= k < temporaries@.len() ==> ((r.0 <= k < r.1) <==> meets(#[trigger] temporaries@[k], query)),
            forall|k: int| 0 <= k < r.0 ==> (#[trigger] temporaries@[k]).addr_max < query.min,
            forall|k: int| r.1 <= k < temporaries@.len() ==> (#[trigger] temporaries@[k]).addr_min > query.max,
    {
        let ghost t = choose|t: Time| temps_ok(temporaries@, t);
        let mut lo: usize = 0;
        while lo < temporaries.len() && temporaries[lo].addr_max < query.min
            invariant
                temps_ok(temporaries@, t),
                lo <= temporaries@.len(),
                forall|k: int| 0 <= k < lo ==> (#[trigger] temporaries@[k]).addr_max < query.min,
            decreases temporaries@.len() - lo,
        {
            lo = lo + 1;
        }
        let mut hi: usize = lo;
        while hi < temporaries.len() && temporaries[hi].addr_min <= query.max
            invariant
                temps_ok(temporaries@, t),
                lo <= hi <= temporaries@.len(),
                forall|k: int| 0 <= k < lo ==> (#[trigger] temporaries@[k]).addr_max < query.min,
                lo < temporaries@.len() ==> temporaries@[lo as int].addr_max >= query.min,
                forall|k: int| lo <= k < hi ==> (#[trigger] temporaries@[k]).addr_min <= query.max,
            decreases temporaries@.len() - hi,
        {
            hi = hi + 1;
        }
        proof {
            assert forall|k: int| 0 <= k < temporaries@.len() implies ((lo <= k < hi) <==> meets(#[trigger] temporaries@[k], query)) by {
                if lo <= k && lo < temporaries@.len() {
                    if k > lo {
                        assert(temporaries@[lo as int].addr_max < temporaries@[k].addr_min);
                    }
                    assert(temporaries@[k].addr_max >= query.min);
                }
                if k >= hi && hi < temporaries@.len() {
                    if k > hi {
                        assert(temporaries@[hi as int].addr_max < temporaries@[k].addr_min);
                    }
                    assert(temporaries@[k].addr_min > query.max);
                }
            }
            assert forall|k: int| hi <= k < temporaries@.len() implies (#[trigger] temporaries@[k]).addr_min > query.max by {
                if k > hi {
                    assert(temporaries@[hi as int].addr_max < temporaries@[k].addr_min);
                }
            }
        }
        (lo, hi)
    }
}


/// The byte at `a` is written, with the value `b`.
pub open spec fn written_is(w: Option<(Time, u8)>, b: u8) -> bool {
    match w {
        Some((_, v)) => v == b,
        None => false,
    }
}

impl<D: DataCut> DisjointPass<D> {
    /// Every byte of `check_bytes`, at `addr` on, is the last byte written there.
    fn is_duplicate_write(&self, addr: Addr, check_bytes: &[u8]) -> (r: bool)
        requires
            self.inv(),
            check_bytes@.len() >= 1,
            addr + check_bytes@.len() - 1 <= u64::MAX,
        ensures
            r == forall|a: int|
                addr <= a < addr + check_bytes@.len() ==> written_is(#[trigger] self.written(a), check_bytes@[a - addr]),
    {
        let len = check_bytes.len();
        let check_range = IRange::from_start_len(addr, len as u64);
        let ghost temps = self.temporaries@;
        let (lo, hi) = Self::iter_temporaries_in_range(&self.temporaries, check_range);
        let mut cursor: u64 = check_range.min;
        let mut k: usize = lo;
        while k < hi
            invariant
                temps == self.temporaries@,
                temps_ok(temps, self.current_time),
                check_range.min == addr,
                check_range.max == addr + check_bytes@.len() - 1,
                len == check_bytes@.len(),
                lo <= k <= hi <= temps.len(),
                forall|j: int| 0 <= j < temps.len() ==> ((lo <= j < hi) <==> meets(#[trigger] temps[j], check_range)),
                addr <= cursor <= check_range.max,
                k < hi ==> cursor <= temps[k as int].addr_max,
                forall|j: int| lo <= j < k ==> (#[trigger] temps[j]).addr_max < cursor,
                forall|a: int| addr <= a < cursor ==> written_is(#[trigger] written_in(temps, a), check_bytes@[a - addr]),
            decreases hi - k,
        {
            let tmp = &self.temporaries[k];
            proof {
                assert(temps[k as int].wf());
            }
            if cursor < tmp.addr_min {
                proof {
                    assert forall|j: int| 0 <= j < temps.len() implies !covers(#[trigger] temps[j], cursor as int) by {
                        if j > k {
                            assert(temps[k as int].addr_max < temps[j].addr_min);
                        }
                    }
                    assert(!written_is(written_in(temps, cursor as int), check_bytes@[cursor - addr]));
                    assert(!written_is(self.written(cursor as int), check_bytes@[cursor - addr]));
                }
                return false;
            }
            let iter_to = if tmp.addr_max < check_range.max {
                tmp.addr_max
            } else {
                check_range.max
            };
            let tmp_bytes = small_as_slice(&tmp.bytes);
            let tmp_len = tmp_bytes.len();
            proof {
                assert(iter_to - cursor < len);
                assert(tmp_len == tmp.bytes_seq().len());
            }
            let diff = iter_to - cursor;
            assert(diff < len);
            let count = diff as usize + 1;
            let off_check = (cursor - check_range.min) as usize;
            let off_tmp = (cursor - tmp.addr_min) as usize;
            let mut i: usize = 0;
            while i < count
                invariant
                    temps == self.temporaries@,
                    temps_ok(temps, self.current_time),
                    *tmp == temps[k as int],
                    k < temps.len(),
                    tmp.addr_min <= cursor <= iter_to <= tmp.addr_max,
                    iter_to <= check_range.max,
                    check_range.min == addr,
                    check_range.max == addr + check_bytes@.len() - 1,
                    count == iter_to - cursor + 1,
                    off_check == cursor - addr,
                    off_tmp == cursor - tmp.addr_min,
                    i <= count,
                    tmp_bytes@ == tmp.bytes_seq(),
                    tmp_len == tmp_bytes@.len(),
                    len == check_bytes@.len(),
                    forall|a: int| addr <= a < cursor + i ==> written_is(#[trigger] written_in(temps, a), check_bytes@[a - addr]),
                decreases count - i,
            {
                proof {
                    lemma_written_at(temps, self.current_time, k as int, cursor + i);
                }
                if check_bytes[off_check + i] != tmp_bytes[off_tmp + i] {
                    proof {
                        assert(!written_is(self.written(cursor + i), check_bytes@[cursor + i - addr]));
                    }
                    return false;
                }
                i = i + 1;
            }
            if iter_to == check_range.max {
                return true;
            }
            cursor = iter_to + 1;
            k = k + 1;
            proof {
                if k < hi {
                    assert(temps[k - 1].addr_max < temps[k as int].addr_min);
                }
            }
        }
        proof {
            assert forall|j: int| 0 <= j < temps.len() implies !covers(#[trigger] temps[j], cursor as int) by {
                if lo <= j < hi {
                } else {
                    assert(!meets(temps[j], check_range));
                }
            }
            assert(!written_is(written_in(temps, cursor as int), check_bytes@[cursor - addr]));
            assert(!written_is(self.written(cursor as int), check_bytes@[cursor - addr]));
        }
        false
    }
}


/// Filtering a sequence whose elements satisfy the predicate exactly on `[lo, hi)`.
proof fn lemma_filter_range<A>(s: Seq<A>, pred: spec_fn(A) -> bool, lo: int, hi: int)
    requires
        0 <= lo <= hi <= s.len(),
        forall|k: int| 0 <= k < s.len() ==> ((lo <= k < hi) <==> pred(#[trigger] s[k])),
    ensures
        s.filter(pred) == s.subrange(lo, hi),
    decreases s.len(),
{
    reveal(Seq::filter);
    if s.len() == 0 {
        assert(s.subrange(lo, hi) =~= Seq::<A>::empty());
    } else {
        let d = s.drop_last();
        if hi == s.len() && lo < hi {
            lemma_filter_range(d, pred, lo, hi - 1);
            assert(s.subrange(lo, hi) =~= d.subrange(lo, hi - 1).push(s.last()));
        } else if hi == s.len() {
            lemma_filter_range(d, pred, lo - 1, hi - 1);
            assert(d.subrange(lo - 1, hi - 1) =~= Seq::<A>::empty());
            assert(s.subrange(lo, hi) =~= Seq::<A>::empty());
        } else {
            lemma_filter_range(d, pred, lo, hi);
            assert(s.subrange(lo, hi) =~= d.subrange(lo, hi));
        }
    }
}

/// The address range of a write of `len` bytes at `addr`.
pub open spec fn write_range(addr: Addr, len: nat) -> IRange<Addr> {
    IRange { min: addr, max: (addr + len - 1) as u64 }
}

/// The predicate "meets the range".
pub open spec fn meets_range<D>(r: IRange<Addr>) -> spec_fn(TemporaryLeaf<D>) -> bool {
    |t: TemporaryLeaf<D>| meets(t, r)
}

/// Writes after a new write over `range`: the writes before it, the part of the first
/// met write below it, the new write, the part of the last met write above it, the
/// writes after it.
proof fn lemma_after_write<D: DataCut>(
    old_temps: Seq<TemporaryLeaf<D>>,
    t0: Time,
    time: Time,
    lo: int,
    hi: int,
    range: IRange<Addr>,
    w: Seq<TemporaryLeaf<D>>,
    newt: TemporaryLeaf<D>,
    above: Seq<TemporaryLeaf<D>>,
    fin: Seq<TemporaryLeaf<D>>,
)
    requires
        temps_ok(old_temps, t0),
        t0 <= time,
        0 <= lo <= hi <= old_temps.len(),
        range.min <= range.max,
        forall|j: int| 0 <= j < lo ==> (#[trigger] old_temps[j]).addr_max < range.min,
        forall|j: int| hi <= j < old_temps.len() ==> (#[trigger] old_temps[j]).addr_min > range.max,
        forall|j: int| lo <= j < hi ==> meets(#[trigger] old_temps[j], range),
        w.len() == lo + (if lo < hi && old_temps[lo].addr_min < range.min { 1int } else { 0 }),
        w.subrange(0, lo) == old_temps.subrange(0, lo),
        lo < hi && old_temps[lo].addr_min < range.min ==> {
            let b = w.last();
            &&& b.wf()
            &&& b.time_min == old_temps[lo].time_min
            &&& b.addr_min == old_temps[lo].addr_min
            &&& b.addr_max == range.min - 1
            &&& b.bytes_seq() == old_temps[lo].bytes_seq().subrange(0, range.min - old_temps[lo].addr_min)
        },
        newt.wf(),
        newt.time_min == time,
        newt.addr_min == range.min,
        newt.addr_max == range.max,
        above.len() == (if lo < hi && range.max < old_temps[hi - 1].addr_max { 1int } else { 0 }),
        above.len() == 1 ==> {
            let b = above[0];
            &&& b.wf()
            &&& b.time_min == old_temps[hi - 1].time_min
            &&& b.addr_min == range.max + 1
            &&& b.addr_max == old_temps[hi - 1].addr_max
            &&& b.bytes_seq() == old_temps[hi - 1].bytes_seq().subrange(
                range.max + 1 - old_temps[hi - 1].addr_min,
                old_temps[hi - 1].bytes_seq().len() as int,
            )
        },
        fin == w + seq![newt] + above + old_temps.subrange(hi, old_temps.len() as int),
    ensures
        temps_ok(fin, time),
        forall|a: int|
            #[trigger] written_in(fin, a) == if range.min <= a <= range.max {
                Some((time, newt.bytes_seq()[a - range.min]))
            } else {
                written_in(old_temps, a)
            },
{
    let p = w.len() as int;
    let na = above.len() as int;
    let tail_start = p + 1 + na;
    assert forall|j: int| 0 <= j < lo implies fin[j] == old_temps[j] by {
        assert(w[j] == w.subrange(0, lo)[j]);
    }
    assert forall|j: int| hi <= j < old_temps.len() implies fin[tail_start + j - hi] == old_temps[j] by {}
    assert(fin[p] == newt);
    assert(fin.len() == tail_start + old_temps.len() - hi);
    // the pieces, by position
    assert forall|j: int| 0 <= j < fin.len() implies (#[trigger] fin[j]).wf() && fin[j].time_min <= time by {
        if j < lo {
        } else if j < p {
            assert(fin[j] == w.last());
        } else if j == p {
        } else if j < tail_start {
            assert(fin[j] == above[0]);
        } else {
            assert(fin[j] == old_temps[j - tail_start + hi]);
        }
    }
    assert forall|q: int| 0 <= q < p implies (#[trigger] fin[q]).addr_max < range.min by {
        if q >= lo {
            assert(fin[q] == w.last());
        }
    }
    assert forall|q: int| p < q < fin.len() implies (#[trigger] fin[q]).addr_min > range.max by {
        if q < tail_start {
            assert(fin[q] == above[0]);
        } else {
            assert(fin[q] == old_temps[q - tail_start + hi]);
        }
    }
    assert forall|i: int, j: int| 0 <= i < j < fin.len() implies (#[trigger] fin[i]).addr_max < (#[trigger] fin[j]).addr_min by {
        if j < p {
            if j < lo {
                assert(old_temps[i].addr_max < old_temps[j].addr_min);
            } else {
                assert(fin[j] == w.last());
                assert(old_temps[i].addr_max < old_temps[lo].addr_min);
            }
        } else if i > p {
            if j >= tail_start {
                if i < tail_start {
                    assert(fin[i] == above[0]);
                    assert(old_temps[hi - 1].addr_max < old_temps[j - tail_start + hi].addr_min);
                } else {
                    assert(old_temps[i - tail_start + hi].addr_max < old_temps[j - tail_start + hi].addr_min);
                }
            }
        } else if i < p && j > p {
            assert(fin[i].addr_max < range.min);
            assert(fin[j].addr_min > range.max);
        }
    }
    assert forall|a: int|
        #[trigger] written_in(fin, a) == if range.min <= a <= range.max {
            Some((time, newt.bytes_seq()[a - range.min]))
        } else {
            written_in(old_temps, a)
        } by {
        if range.min <= a <= range.max {
            lemma_written_at(fin, time, p, a);
        } else if exists|j: int| 0 <= j < old_temps.len() && covers(#[trigger] old_temps[j], a) {
            let j = choose|j: int| 0 <= j < old_temps.len() && covers(#[trigger] old_temps[j], a);
            lemma_written_at(old_temps, t0, j, a);
            if j < lo {
                lemma_written_at(fin, time, j, a);
            } else if j >= hi {
                lemma_written_at(fin, time, tail_start + j - hi, a);
            } else if a < range.min {
                if j > lo {
                    assert(old_temps[lo].addr_max < old_temps[j].addr_min);
                }
                assert(j == lo);
                assert(fin[p - 1] == w.last());
                lemma_written_at(fin, time, p - 1, a);
            } else {
                if j < hi - 1 {
                    assert(old_temps[j].addr_max < old_temps[hi - 1].addr_min);
                }
                assert(j == hi - 1);
                assert(fin[p + 1] == above[0]);
                lemma_written_at(fin, time, p + 1, a);
            }
        } else {
            assert forall|j: int| 0 <= j < fin.len() implies !covers(#[trigger] fin[j], a) by {
                if j < lo {
                    assert(!covers(old_temps[j], a));
                } else if j < p {
                    assert(fin[j] == w.last());
                    assert(!covers(old_temps[lo], a));
                } else if j == p {
                } else if j < tail_start {
                    assert(fin[j] == above[0]);
                    assert(!covers(old_temps[hi - 1], a));
                } else {
                    assert(!covers(old_temps[j - tail_start + hi], a));
                }
            }
        }
    }
}

impl<D: DataCut> DisjointPass<D> {
    /// Record a write of `bytes` at `addr` at `time`: the parts of open writes that it
    /// hides are closed into leaves pushed on `out`, the rest of them stays open, and
    /// the write opens. With `can_dedup`, a write of the bytes already there is dropped.
    #[verifier::rlimit(50)]
    #[verifier::spinoff_prover]
    pub fn push_memory_write(
        &mut self,
        time: Time,
        addr: Addr,
        bytes: &[u8],
        data: D,
        can_dedup: bool,
        out: &mut Vec<DisjointMemLeaf<D>>,
    )
        requires
            old(self).inv(),
            old(self).time() <= time,
            bytes@.len() >= 1,
            addr + bytes@.len() - 1 <= u64::MAX,
            data.fits(bytes@.len()),
        ensures
            final(self).inv(),
            final(self).time() == time,
            ({
                let dup = can_dedup && forall|a: int|
                    addr <= a < addr + bytes@.len() ==> written_is(#[trigger] old(self).written(a), bytes@[a - addr]);
                let range = write_range(addr, bytes@.len());
                &&& dup ==> final(self).temps() == old(self).temps() && final(out)@ == old(out)@
                &&& !dup ==> forall|a: int|
                    #[trigger] final(self).written(a) == if addr <= a < addr + bytes@.len() {
                        Some((time, bytes@[a - addr]))
                    } else {
                        old(self).written(a)
                    }
                &&& !dup ==> leaf_views(final(out)@) == leaf_views(old(out)@) + hidden_leaves(
                    old(self).temps().filter(meets_range(range)),
                    range,
                    time,
                )
            }),
    {
        self.current_time = time;
        proof {
            assert(temps_ok(self.temporaries@, time)) by {
                assert(forall|k: int| 0 <= k < self.temporaries@.len() ==> (#[trigger] self.temporaries@[k]).time_min <= time);
            }
        }
        if can_dedup {
            if self.is_duplicate_write(addr, bytes) {
                proof {
                    assert(self.inv());
                    assert(self.temps() == old(self).temps());
                    assert forall|a: int| #[trigger] old(self).written(a) == self.written(a) by {}
                }
                return;
            }
        }
        proof {
            assert forall|a: int|
                #![trigger old(self).written(a)]
                #![trigger self.written(a)]
                old(self).written(a) == self.written(a) by {}
        }
        let ghost old_temps = self.temporaries@;
        let ghost out0 = out@;
        let len = bytes.len();
        let addr_range = IRange::from_start_len(addr, len as u64);
        let new = TemporaryLeaf {
            time_min: time,
            addr_min: addr_range.min,
            addr_max: addr_range.max,
            bytes: small_from_slice(bytes),
            data,
        };
        let (lo, hi) = Self::iter_temporaries_in_range(&self.temporaries, addr_range);
        proof {
            lemma_filter_range(old_temps, meets_range(addr_range), lo as int, hi as int);
        }
        let mut tail = self.temporaries.split_off(hi);
        let mid = self.temporaries.split_off(lo);
        let ghost prefix = self.temporaries@;
        proof {
            assert(prefix =~= old_temps.subrange(0, lo as int));
            assert(mid@ =~= old_temps.subrange(lo as int, hi as int));
            assert(tail@ =~= old_temps.subrange(hi as int, old_temps.len() as int));
        }
        let mut above: Vec<TemporaryLeaf<D>> = Vec::new();
        let mut k: usize = 0;
        while k < mid.len()
            invariant
                temps_ok(old_temps, self.current_time),
                self.current_time == time,
                addr_range == write_range(addr, bytes@.len()),
                addr_range.min <= addr_range.max,
                lo <= hi <= old_temps.len(),
                mid@ == old_temps.subrange(lo as int, hi as int),
                prefix == old_temps.subrange(0, lo as int),
                forall|j: int| 0 <= j < mid@.len() ==> meets(#[trigger] mid@[j], addr_range),
                forall|j: int| 0 <= j < lo ==> (#[trigger] old_temps[j]).addr_max < addr_range.min,
                k <= mid@.len(),
                self.temporaries@.len() == prefix.len() + (if k > 0 && mid@[0].addr_min < addr_range.min { 1int } else { 0 }),
                self.temporaries@.subrange(0, prefix.len() as int) == prefix,
                k > 0 && mid@[0].addr_min < addr_range.min ==> {
                    let b = self.temporaries@.last();
                    &&& b.wf()
                    &&& b.time_min == mid@[0].time_min
                    &&& b.addr_min == mid@[0].addr_min
                    &&& b.addr_max == addr_range.min - 1
                    &&& b.bytes_seq() == mid@[0].bytes_seq().subrange(0, addr_range.min - mid@[0].addr_min)
                },
                above@.len() == (if k == mid@.len() && k > 0 && addr_range.max < mid@.last().addr_max { 1int } else { 0 }),
                above@.len() == 1 ==> {
                    let b = above@[0];
                    &&& b.wf()
                    &&& b.time_min == mid@.last().time_min
                    &&& b.addr_min == addr_range.max + 1
                    &&& b.addr_max == mid@.last().addr_max
                    &&& b.bytes_seq() == mid@.last().bytes_seq().subrange(
                        addr_range.max + 1 - mid@.last().addr_min,
                        mid@.last().bytes_seq().len() as int,
                    )
                },
                leaf_views(out@) == leaf_views(out0) + hidden_leaves(mid@.take(k as int), addr_range, time),
            decreases mid@.len() - k,
        {
            let existing = &mid[k];
            proof {
                assert(mid@[k as int] == old_temps[lo + k]);
                assert(*existing == mid@[k as int]);
                assert(meets(mid@[k as int], addr_range));
                assert(mid@.last() == old_temps[lo + mid@.len() - 1]);
                assert(meets(mid@.last(), addr_range));
                assert(existing.wf());
                if k > 0 {
                    assert(old_temps[lo as int].addr_max < old_temps[lo + k].addr_min);
                }
                if k + 1 < mid@.len() {
                    assert(old_temps[lo + k].addr_max < old_temps[lo + mid@.len() - 1].addr_min);
                }
            }
            if existing.addr_min < addr_range.min {
                let below = existing.mask_with_bbox(
                    MemNode {
                        addr_min: existing.addr_min,
                        addr_max: addr_range.min - 1,
                        time_min: existing.time_min,
                        time_max: Time::MAX,
                    },
                );
                self.temporaries.push(below);
            }
            if addr_range.max < existing.addr_max {
                let a = existing.mask_with_bbox(
                    MemNode {
                        addr_min: addr_range.max + 1,
                        addr_max: existing.addr_max,
                        time_min: existing.time_min,
                        time_max: Time::MAX,
                    },
                );
                above.push(a);
            }
            let ghost out1 = out@;
            if existing.time_min < time {
                let lo_addr = if existing.addr_min < addr_range.min {
                    addr_range.min
                } else {
                    existing.addr_min
                };
                let hi_addr = if addr_range.max < existing.addr_max {
                    addr_range.max
                } else {
                    existing.addr_max
                };
                let hidden = existing.mask_with_bbox(
                    MemNode {
                        addr_min: lo_addr,
                        addr_max: hi_addr,
                        time_min: existing.time_min,
                        time_max: time - 1,
                    },
                );
                out.push(hidden.complete(time - 1));
            }
            proof {
                let mk = mid@.take(k + 1);
                assert(mk.drop_last() =~= mid@.take(k as int));
                assert(mk.last() == *existing);
                assert(leaf_views(out@) =~= if existing.time_min < time {
                    leaf_views(out1).push(hidden_leaf(*existing, addr_range, time))
                } else {
                    leaf_views(out1)
                });
                assert(self.temporaries@.subrange(0, prefix.len() as int) =~= prefix);
            }
            k = k + 1;
        }
        let ghost with_below = self.temporaries@;
        let ghost newt = new;
        let ghost above_s = above@;
        self.temporaries.push(new);
        self.temporaries.append(&mut above);
        self.temporaries.append(&mut tail);
        proof {
            assert(mid@.take(mid@.len() as int) =~= mid@);
            assert(self.temporaries@ =~= with_below + seq![newt] + above_s + old_temps.subrange(hi as int, old_temps.len() as int));
            if lo < hi {
                assert(mid@[0] == old_temps[lo as int]);
                assert(mid@.last() == old_temps[hi - 1]);
            }
            lemma_after_write(old_temps, old(self).current_time, time, lo as int, hi as int, addr_range, with_below, newt, above_s, self.temporaries@);
            assert(self.inv());
            assert(newt.bytes_seq() == bytes@);
            assert forall|a: int|
                #[trigger] self.written(a) == if addr <= a < addr + bytes@.len() {
                    Some((time, bytes@[a - addr]))
                } else {
                    old(self).written(a)
                } by {
                assert(written_in(self.temporaries@, a) == if addr_range.min <= a <= addr_range.max {
                    Some((time, newt.bytes_seq()[a - addr_range.min]))
                } else {
                    written_in(old_temps, a)
                });
            }
            assert(old(self).temps().filter(meets_range(addr_range)) == mid@);
        }
    }
}


/// The leaves closing the open writes at `time`.
pub open spec fn closed_leaves<D>(temps: Seq<TemporaryLeaf<D>>, time: Time) -> Seq<(MemNode, D)> {
    temps.map_values(|t: TemporaryLeaf<D>| (MemNode { addr_min: t.addr_min, addr_max: t.addr_max, time_min: t.time_min, time_max: time }, t.data))
}

impl<D: DataCut> DisjointPass<D> {
    /// Close every open write at the current time.
    pub fn finish(self, out: &mut Vec<DisjointMemLeaf<D>>)
        requires
            self.inv(),
        ensures
            leaf_views(final(out)@) == leaf_views(old(out)@) + closed_leaves(self.temps(), self.time()),
    {
        let ghost out0 = out@;
        let mut k: usize = 0;
        while k < self.temporaries.len()
            invariant
                k <= self.temporaries@.len(),
                leaf_views(out@) == leaf_views(out0) + closed_leaves(self.temporaries@.take(k as int), self.current_time),
            decreases self.temporaries@.len() - k,
        {
            let partial = &self.temporaries[k];
            let leaf = partial.complete(self.current_time);
            let ghost prev = out@;
            out.push(leaf);
            proof {
                assert(leaf_views(out@) =~= leaf_views(prev).push((leaf.node, leaf.data)));
                assert(self.temporaries@.take(k + 1) =~= self.temporaries@.take(k as int).push(*partial));
                assert(closed_leaves(self.temporaries@.take(k + 1), self.current_time) =~= closed_leaves(
                    self.temporaries@.take(k as int),
                    self.current_time,
                ).push((leaf.node, leaf.data)));
                assert(leaf_views(out@) =~= leaf_views(out0) + closed_leaves(self.temporaries@.take(k + 1), self.current_time));
            }
            k = k + 1;
        }
        proof {
            assert(self.temporaries@.take(k as int) =~= self.temporaries@);
        }
    }
}


/// No two rectangles share a point.
pub open spec fn pairwise_disjoint(nodes: Seq<MemNode>) -> bool {
    forall|i: int, j: int| 0 <= i < j < nodes.len() ==> (#[trigger] nodes[i]).disjoint_from(#[trigger] nodes[j])
}

/// The rectangles of leaves.
pub open spec fn nodes_of<D>(leaves: Seq<(MemNode, D)>) -> Seq<MemNode> {
    leaves.map_values(|l: (MemNode, D)| l.0)
}

/// Leaves already closed lie before the open writes: each is well formed and ends
/// before `time`, and at each of its addresses an open write started after it ended.
pub open spec fn leaves_before_open<D>(leaves: Seq<MemNode>, temps: Seq<TemporaryLeaf<D>>, time: Time) -> bool {
    &&& forall|k: int| 0 <= k < leaves.len() ==> (#[trigger] leaves[k]).wf() && leaves[k].time_max < time
    &&& forall|k: int, a: int|
        0 <= k < leaves.len() && leaves[k].addr_min <= a <= leaves[k].addr_max ==> match #[trigger] written_in(temps, a) {
            Some((t, _)) => (#[trigger] leaves[k]).time_max < t,
            None => false,
        }
}

/// The rectangle `n` is the part that a write over `r` at `time` hides of the open write `m`.
pub open spec fn hidden_from<D>(n: MemNode, m: TemporaryLeaf<D>, r: IRange<Addr>, time: Time) -> bool {
    &&& m.addr_min <= n.addr_min && n.addr_max <= m.addr_max
    &&& r.min <= n.addr_min && n.addr_max <= r.max
    &&& n.time_min == m.time_min
    &&& n.time_min < time
    &&& n.time_max == time - 1
    &&& n.wf()
}

/// The writes that a filter keeps stay sorted and disjoint, and each is one of the writes.
proof fn lemma_filter_temps_ok<D: DataCut>(temps: Seq<TemporaryLeaf<D>>, time: Time, pred: spec_fn(TemporaryLeaf<D>) -> bool)
    requires
        temps_ok(temps, time),
    ensures
        temps_ok(temps.filter(pred), time),
        forall|x: int| 0 <= x < temps.filter(pred).len() ==> exists|k: int| 0 <= k < temps.len() && temps[k] == #[trigger] temps.filter(pred)[x],
    decreases temps.len(),
{
    reveal(Seq::filter);
    if temps.len() > 0 {
        let d = temps.drop_last();
        assert(temps_ok(d, time)) by {
            assert forall|i: int, j: int| 0 <= i < j < d.len() implies (#[trigger] d[i]).addr_max < (#[trigger] d[j]).addr_min by {
                assert(d[i] == temps[i] && d[j] == temps[j]);
            }
        }
        lemma_filter_temps_ok(d, time, pred);
        let f = temps.filter(pred);
        let fd = d.filter(pred);
        assert forall|x: int| 0 <= x < fd.len() implies exists|k: int| 0 <= k < temps.len() - 1 && temps[k] == #[trigger] fd[x] by {
            let k = choose|k: int| 0 <= k < d.len() && d[k] == fd[x];
            assert(temps[k] == d[k]);
        }
        if pred(temps.last()) {
            assert(f == fd.push(temps.last()));
            assert forall|x: int| 0 <= x < fd.len() implies (#[trigger] fd[x]).addr_max < temps.last().addr_min by {
                let k = choose|k: int| 0 <= k < temps.len() - 1 && temps[k] == fd[x];
                assert(temps[k].addr_max < temps[temps.len() - 1].addr_min);
            }
            assert forall|x: int| 0 <= x < f.len() implies exists|k: int| 0 <= k < temps.len() && temps[k] == #[trigger] f[x] by {
                if x < fd.len() {
                    assert(f[x] == fd[x]);
                    let k = choose|k: int| 0 <= k < temps.len() - 1 && temps[k] == fd[x];
                } else {
                    assert(f[x] == temps[temps.len() - 1]);
                }
            }
            assert forall|i: int, j: int| 0 <= i < j < f.len() implies (#[trigger] f[i]).addr_max < (#[trigger] f[j]).addr_min by {
                if j < fd.len() {
                    assert(f[i] == fd[i] && f[j] == fd[j]);
                } else {
                    assert(f[i] == fd[i]);
                }
            }
            assert forall|x: int| 0 <= x < f.len() implies (#[trigger] f[x]).wf() && f[x].time_min <= time by {
                if x < fd.len() {
                    assert(f[x] == fd[x]);
                }
            }
        } else {
            assert(f == fd);
            assert forall|x: int| 0 <= x < f.len() implies exists|k: int| 0 <= k < temps.len() && temps[k] == #[trigger] f[x] by {
                let k = choose|k: int| 0 <= k < temps.len() - 1 && temps[k] == fd[x];
            }
        }
    }
}

/// The leaves hidden by a write over `r` are disjoint; each lies at the addresses of
/// `r` and of one met write, from that write's time to just before `time`.
proof fn lemma_hidden_props<D: DataCut>(mid: Seq<TemporaryLeaf<D>>, t0: Time, time: Time, r: IRange<Addr>)
    requires
        temps_ok(mid, t0),
        t0 <= time,
        r.min <= r.max,
        forall|i: int| 0 <= i < mid.len() ==> meets(#[trigger] mid[i], r),
    ensures
        pairwise_disjoint(nodes_of(hidden_leaves(mid, r, time))),
        forall|x: int|
            #![trigger hidden_leaves(mid, r, time)[x]]
            0 <= x < hidden_leaves(mid, r, time).len() ==> hidden_leaves(mid, r, time)[x].0.wf() && exists|i: int|
                0 <= i < mid.len() && #[trigger] hidden_from(hidden_leaves(mid, r, time)[x].0, mid[i], r, time),
    decreases mid.len(),
{
    if mid.len() == 0 {
        assert(hidden_leaves(mid, r, time).len() == 0);
    }
    if mid.len() > 0 {
        let d = mid.drop_last();
        assert(temps_ok(d, t0)) by {
            assert forall|i: int, j: int| 0 <= i < j < d.len() implies (#[trigger] d[i]).addr_max < (#[trigger] d[j]).addr_min by {
                assert(d[i] == mid[i] && d[j] == mid[j]);
            }
        }
        assert forall|i: int| 0 <= i < d.len() implies meets(#[trigger] d[i], r) by {
            assert(d[i] == mid[i]);
        }
        lemma_hidden_props(d, t0, time, r);
        let hd = hidden_leaves(d, r, time);
        let h = hidden_leaves(mid, r, time);
        let last = mid.last();
        assert(last == mid[mid.len() - 1]);
        assert forall|x: int| 0 <= x < hd.len() implies (#[trigger] hd[x]).0.addr_max < last.addr_min by {
            let i = choose|i: int| 0 <= i < d.len() && #[trigger] hidden_from(hd[x].0, d[i], r, time);
            assert(mid[i] == d[i]);
            assert(mid[i].addr_max < mid[mid.len() - 1].addr_min);
        }
        if last.time_min < time {
            assert(h == hd.push(hidden_leaf(last, r, time)));
            let hl = hidden_leaf(last, r, time).0;
            assert forall|x: int|
                #![trigger hidden_leaves(mid, r, time)[x]]
                0 <= x < hidden_leaves(mid, r, time).len() implies hidden_leaves(mid, r, time)[x].0.wf() && exists|i: int|
                0 <= i < mid.len() && #[trigger] hidden_from(hidden_leaves(mid, r, time)[x].0, mid[i], r, time) by {
                if x < hd.len() {
                    assert(h[x] == hd[x]);
                    let i = choose|i: int| 0 <= i < d.len() && #[trigger] hidden_from(hd[x].0, d[i], r, time);
                    assert(mid[i] == d[i]);
                    assert(hidden_from(hidden_leaves(mid, r, time)[x].0, mid[i], r, time));
                } else {
                    assert(h[x] == hidden_leaf(last, r, time));
                    assert(last.wf());
                    assert(meets(last, r));
                    assert(hidden_from(hidden_leaves(mid, r, time)[x].0, mid[mid.len() - 1], r, time));
                }
            }

            let nh = nodes_of(h);
            assert forall|i: int, j: int| 0 <= i < j < nh.len() implies (#[trigger] nh[i]).disjoint_from(#[trigger] nh[j]) by {
                if j < hd.len() {
                    assert(nh[i] == nodes_of(hd)[i] && nh[j] == nodes_of(hd)[j]);
                } else {
                    assert(nh[i] == hd[i].0);
                    assert(nh[j] == hl);
                    assert(hd[i].0.addr_max < last.addr_min);
                }
            }
        } else {
            assert(h == hd);
            assert forall|x: int|
                #![trigger hidden_leaves(mid, r, time)[x]]
                0 <= x < hidden_leaves(mid, r, time).len() implies hidden_leaves(mid, r, time)[x].0.wf() && exists|i: int|
                0 <= i < mid.len() && #[trigger] hidden_from(hidden_leaves(mid, r, time)[x].0, mid[i], r, time) by {
                let i = choose|i: int| 0 <= i < d.len() && #[trigger] hidden_from(hd[x].0, d[i], r, time);
                assert(mid[i] == d[i]);
                assert(hidden_from(hidden_leaves(mid, r, time)[x].0, mid[i], r, time));
            }
        }
    }
}

/// A write kept by the disjoint pass closes leaves disjoint from each other and from the
/// leaves closed before, and those lie before the writes open after it.
pub proof fn law_push_keeps_leaves_disjoint<D: DataCut>(
    leaves: Seq<MemNode>,
    before: DisjointPass<D>,
    after: DisjointPass<D>,
    time: Time,
    addr: Addr,
    bytes: Seq<u8>,
)
    requires
        before.inv(),
        before.time() <= time,
        bytes.len() >= 1,
        addr + bytes.len() - 1 <= u64::MAX,
        pairwise_disjoint(leaves),
        leaves_before_open(leaves, before.temps(), before.time()),
        after.time() == time,
        forall|a: int|
            #[trigger] after.written(a) == if addr <= a < addr + bytes.len() {
                Some((time, bytes[a - addr]))
            } else {
                before.written(a)
            },
    ensures
        ({
            let range = write_range(addr, bytes.len());
            let all = leaves + nodes_of(hidden_leaves(before.temps().filter(meets_range(range)), range, time));
            &&& pairwise_disjoint(all)
            &&& leaves_before_open(all, after.temps(), after.time())
        }),
{
    let range = write_range(addr, bytes.len());
    let temps = before.temps();
    let mid = temps.filter(meets_range(range));
    lemma_filter_temps_ok(temps, before.time(), meets_range(range));
    reveal(Seq::filter);
    assert forall|i: int| 0 <= i < mid.len() implies meets(#[trigger] mid[i], range) by {
        temps.lemma_filter_pred(meets_range(range), i);
    }
    lemma_hidden_props(mid, before.time(), time, range);
    let h = nodes_of(hidden_leaves(mid, range, time));
    let all = leaves + h;
    assert forall|x: int|
        #![trigger h[x]]
        0 <= x < h.len() implies exists|i: int|
        0 <= i < mid.len() && #[trigger] hidden_from(h[x], mid[i], range, time) by {
        assert(h[x] == hidden_leaves(mid, range, time)[x].0);
        let i = choose|i: int| 0 <= i < mid.len() && #[trigger] hidden_from(hidden_leaves(mid, range, time)[x].0, mid[i], range, time);
        assert(hidden_from(h[x], mid[i], range, time));
    }
    assert forall|i: int, j: int| 0 <= i < j < all.len() implies (#[trigger] all[i]).disjoint_from(#[trigger] all[j]) by {
        if j < leaves.len() {
            assert(all[i] == leaves[i] && all[j] == leaves[j]);
        } else if i >= leaves.len() {
            assert(all[i] == h[i - leaves.len()] && all[j] == h[j - leaves.len()]);
        } else {
            let l = leaves[i];
            let n = h[j - leaves.len()];
            assert(all[i] == l && all[j] == n);
            let m = choose|m: int| 0 <= m < mid.len() && #[trigger] hidden_from(h[j - leaves.len()], mid[m], range, time);
            if !(l.addr_max < n.addr_min || n.addr_max < l.addr_min) {
                let a: int = if l.addr_min < n.addr_min { n.addr_min as int } else { l.addr_min as int };
                let k = choose|k: int| 0 <= k < temps.len() && temps[k] == mid[m];
                lemma_written_at(temps, before.time(), k, a);
                assert(match written_in(temps, a) {
                    Some((t, _)) => l.time_max < t,
                    None => false,
                });
            }
        }
    }
    assert forall|k: int| 0 <= k < all.len() implies (#[trigger] all[k]).wf() && all[k].time_max < after.time() by {
        if k >= leaves.len() {
            assert(all[k] == h[k - leaves.len()]);
        } else {
            assert(all[k] == leaves[k]);
        }
    }
    assert forall|k: int, a: int|
        0 <= k < all.len() && all[k].addr_min <= a <= all[k].addr_max implies match #[trigger] written_in(after.temps(), a) {
            Some((t, _)) => (#[trigger] all[k]).time_max < t,
            None => false,
        } by {
        assert(after.written(a) == written_in(after.temps(), a));
        if k >= leaves.len() {
            assert(all[k] == h[k - leaves.len()]);
        } else {
            assert(all[k] == leaves[k]);
            assert(before.written(a) == written_in(temps, a));
        }
    }
}

/// Closing the open writes gives leaves disjoint from each other and from the leaves
/// closed before.
pub proof fn law_finish_keeps_leaves_disjoint<D: DataCut>(leaves: Seq<MemNode>, pass: DisjointPass<D>)
    requires
        pass.inv(),
        pairwise_disjoint(leaves),
        leaves_before_open(leaves, pass.temps(), pass.time()),
    ensures
        pairwise_disjoint(leaves + nodes_of(closed_leaves(pass.temps(), pass.time()))),
{
    let temps = pass.temps();
    let c = nodes_of(closed_leaves(temps, pass.time()));
    let all = leaves + c;
    assert forall|x: int| 0 <= x < c.len() implies #[trigger] c[x] == (MemNode {
        addr_min: temps[x].addr_min,
        addr_max: temps[x].addr_max,
        time_min: temps[x].time_min,
        time_max: pass.time(),
    }) by {}
    assert forall|i: int, j: int| 0 <= i < j < all.len() implies (#[trigger] all[i]).disjoint_from(#[trigger] all[j]) by {
        if j < leaves.len() {
            assert(all[i] == leaves[i] && all[j] == leaves[j]);
        } else if i >= leaves.len() {
            assert(all[i] == c[i - leaves.len()] && all[j] == c[j - leaves.len()]);
            assert(temps[i - leaves.len()].addr_max < temps[j - leaves.len()].addr_min);
        } else {
            let l = leaves[i];
            let x = j - leaves.len();
            let n = c[x];
            assert(all[i] == l && all[j] == n);
            if !(l.addr_max < n.addr_min || n.addr_max < l.addr_min) {
                let a: int = if l.addr_min < n.addr_min { n.addr_min as int } else { l.addr_min as int };
                lemma_written_at(temps, pass.time(), x, a);
                assert(match written_in(temps, a) {
                    Some((t, _)) => l.time_max < t,
                    None => false,
                });
            }
        }
    }
}

} // verus!
