//! Normalized events: disjoint memory writes, memory reads and register leaves.
use vstd::prelude::*;
use crate::flat::{Addr, MemReadLeaf, RegLeaf, Time};
use crate::index::disjoint::{
    DataCut, DisjointMemLeaf, DisjointPass, closed_leaves, hidden_leaves, leaf_views, meets_range,
    write_range, written_is,
};
use crate::index::parser::MemoryMode;
use crate::irange::IRange;

verus! {

/// An event of the trace once normalized.
pub enum Event<D> {
    MemoryWrite(DisjointMemLeaf<D>),
    MemoryRead(MemReadLeaf),
    Register { idx: usize, leaf: RegLeaf },
    AslrSlide(Addr),
}

/// The write leaves of a sequence of events.
pub open spec fn write_events<D>(leaves: Seq<DisjointMemLeaf<D>>) -> Seq<Event<D>> {
    leaves.map_values(|l: DisjointMemLeaf<D>| Event::MemoryWrite(l))
}

/// An open register leaf: a single write, not after `time`.
pub open spec fn reg_leaf_ok(o: Option<RegLeaf>, time: Time) -> bool {
    match o {
        Some(l) => l.time_min == l.time_max && l.time_max <= time,
        None => true,
    }
}

/// Turns raw events into normalized ones: memory writes cut into disjoint leaves, and per
/// register, leaves spanning the time from one write to the next.
pub struct Normalizer<D> {
    curr_time: Time,
    disjoint: DisjointPass<D>,
    last_reg_leaves: Vec<Option<RegLeaf>>,
}

/// What a memory access does to the normalizer and the events it gives.
pub open spec fn memory_pushed<D: DataCut>(
    n0: Normalizer<D>,
    time: Time,
    addr: Addr,
    bytes: Seq<u8>,
    mode: MemoryMode,
    data: D,
    n1: Normalizer<D>,
    out0: Seq<Event<D>>,
    out1: Seq<Event<D>>,
) -> bool {
    &&& n1.inv()
    &&& n1.time() == time
    &&& n1.open_registers() == n0.open_registers()
    &&& n1.writes().time() == time
    &&& exists|leaves: Seq<DisjointMemLeaf<D>>|
        #![trigger write_events(leaves)]
        {
            let range = write_range(addr, bytes.len());
            let dup = (mode is Read) && forall|a: int|
                addr <= a < addr + bytes.len() ==> written_is(#[trigger] n0.writes().written(a), bytes[a - addr]);
            &&& dup ==> leaves.len() == 0 && n1.writes().temps() == n0.writes().temps()
            &&& !dup ==> leaf_views(leaves) == hidden_leaves(
                n0.writes().temps().filter(meets_range(range)),
                range,
                time,
            )
            &&& !dup ==> forall|a: int|
                #[trigger] n1.writes().written(a) == if addr <= a < addr + bytes.len() {
                    Some((time, bytes[a - addr]))
                } else {
                    n0.writes().written(a)
                }
            &&& out1 == out0 + write_events(leaves) + if mode is Write {
                Seq::empty()
            } else {
                seq![Event::MemoryRead(MemReadLeaf { addr_min: addr, addr_max: range.max, time })]
            }
        }
}

impl<D: DataCut> Normalizer<D> {
    pub closed spec fn time(&self) -> Time {
        self.curr_time
    }

    pub closed spec fn writes(&self) -> DisjointPass<D> {
        self.disjoint
    }

    /// Per register, the leaf of its last write, still open.
    pub closed spec fn open_registers(&self) -> Seq<Option<RegLeaf>> {
        self.last_reg_leaves@
    }

    pub closed spec fn inv(&self) -> bool {
        &&& self.disjoint.inv()
        &&& self.disjoint.time() <= self.curr_time
        &&& forall|i: int|
            0 <= i < self.last_reg_leaves@.len() ==> reg_leaf_ok(#[trigger] self.last_reg_leaves@[i], self.curr_time)
    }

    pub fn new() -> (r: Self)
        ensures
            r.inv(),
            r.time() == 0,
            r.writes().temps().len() == 0,
            r.open_registers().len() == 0,
    {
        Self { curr_time: 0, disjoint: DisjointPass::new(), last_reg_leaves: Vec::new() }
    }

    /// Time of the last event.
    pub fn current_time(&self) -> (r: Time)
        ensures
            r == self.time(),
    {
        self.curr_time
    }

    /// Every register seen so far has an open leaf.
    pub fn registers_open(&self) -> (r: bool)
        ensures
            r == forall|i: int| 0 <= i < self.open_registers().len() ==> (#[trigger] self.open_registers()[i]) is Some,
    {
        let mut i: usize = 0;
        while i < self.last_reg_leaves.len()
            invariant
                i <= self.last_reg_leaves@.len(),
                forall|k: int| 0 <= k < i ==> (#[trigger] self.last_reg_leaves@[k]) is Some,
            decreases self.last_reg_leaves@.len() - i,
        {
            if self.last_reg_leaves[i].is_none() {
                return false;
            }
            i = i + 1;
        }
        true
    }

    pub fn push_slide(&mut self, slide: Addr, out: &mut Vec<Event<D>>)
        ensures
            *final(self) == *old(self),
            final(out)@ == old(out)@.push(Event::AslrSlide(slide)),
    {
        out.push(Event::AslrSlide(slide));
    }

    /// A memory access at `time`: a write is cut into disjoint leaves (a read-only access
    /// that writes back the bytes already there is dropped), and a read gives a read leaf.
    pub fn push_memory(
        &mut self,
        time: Time,
        addr: Addr,
        bytes: &[u8],
        mode: MemoryMode,
        data: D,
        out: &mut Vec<Event<D>>,
    )
        requires
            old(self).inv(),
            old(self).time() <= time,
            bytes@.len() >= 1,
            addr + bytes@.len() - 1 <= u64::MAX,
            data.fits(bytes@.len()),
        ensures
            memory_pushed(*old(self), time, addr, bytes@, mode, data, *final(self), old(out)@, final(out)@),
    {
        self.curr_time = time;
        let is_read_only = match mode {
            MemoryMode::Read => true,
            _ => false,
        };
        let is_read = match mode {
            MemoryMode::Write => false,
            _ => true,
        };
        let mut leaves: Vec<DisjointMemLeaf<D>> = Vec::new();
        self.disjoint.push_memory_write(time, addr, bytes, data, is_read_only, &mut leaves);
        let ghost out0 = out@;
        let ghost lv = leaves@;
        assert(lv.len() == leaves.len());
        let mut k: usize = 0;
        while leaves.len() > 0
            invariant
                lv.len() == k + leaves@.len(),
                lv.len() <= usize::MAX,
                forall|j: int| 0 <= j < leaves@.len() ==> leaves@[j] == lv[k + j],
                out@ == out0 + write_events(lv.take(k as int)),
            decreases leaves@.len(),
        {
            let leaf = leaves.remove(0);
            out.push(Event::MemoryWrite(leaf));
            proof {
                assert(lv.take(k + 1) =~= lv.take(k as int).push(leaf));
                assert(write_events(lv.take(k + 1)) =~= write_events(lv.take(k as int)).push(Event::MemoryWrite(leaf)));
            }
            k = k + 1;
        }
        proof {
            assert(lv.take(k as int) =~= lv);
        }
        if is_read {
            let range = IRange::from_start_len(addr, bytes.len() as u64);
            out.push(Event::MemoryRead(MemReadLeaf { addr_min: range.min, addr_max: range.max, time }));
            proof {
                assert(out@ =~= out0 + write_events(lv) + seq![Event::MemoryRead(MemReadLeaf { addr_min: range.min, addr_max: range.max, time })]);
            }
        }
        proof {
            if !is_read {
                assert(out@ =~= out0 + write_events(lv) + Seq::empty());
            }
            assert(write_events(lv) == write_events(lv));
        }
    }
}


/// The open register leaves made long enough to hold the register `idx`.
pub open spec fn with_register(regs: Seq<Option<RegLeaf>>, idx: int) -> Seq<Option<RegLeaf>> {
    if regs.len() < idx + 1 {
        regs + Seq::new((idx + 1 - regs.len()) as nat, |_i: int| None::<RegLeaf>)
    } else {
        regs
    }
}

/// The leaves closing the open register leaves at `time`, by register.
pub open spec fn closed_registers<D>(regs: Seq<Option<RegLeaf>>, time: Time) -> Seq<Event<D>> {
    Seq::new(
        regs.len(),
        |i: int|
            Event::Register {
                idx: i as usize,
                leaf: RegLeaf { value: regs[i]->0.value, time_min: regs[i]->0.time_min, time_max: time },
            },
    )
}

/// One register write at `time` on the register's open leaf: the leaf it opens, and the
/// leaf it closes (none where the open leaf began at the same time: the last value wins).
pub open spec fn reg_step(open: Option<RegLeaf>, time: Time, value: u64) -> (Option<RegLeaf>, Seq<RegLeaf>) {
    let opened = RegLeaf { value, time_min: time, time_max: time };
    match open {
        Some(last) => if last.time_min == time && last.time_max == time {
            (Some(opened), Seq::empty())
        } else {
            (Some(opened), seq![RegLeaf { value: last.value, time_min: last.time_min, time_max: (time - 1) as u32 }])
        },
        None => (Some(opened), Seq::empty()),
    }
}

/// The register events of leaves closed for register `idx`.
pub open spec fn reg_events<D>(idx: usize, leaves: Seq<RegLeaf>) -> Seq<Event<D>> {
    leaves.map_values(|l: RegLeaf| Event::Register { idx, leaf: l })
}

/// The leaves that successive writes `(time, value)` to one register close, starting with
/// no open leaf, and the leaf they leave open.
pub open spec fn reg_fold(writes: Seq<(Time, u64)>) -> (Option<RegLeaf>, Seq<RegLeaf>)
    decreases writes.len(),
{
    if writes.len() == 0 {
        (None, Seq::empty())
    } else {
        let prev = reg_fold(writes.drop_last());
        let step = reg_step(prev.0, writes.last().0, writes.last().1);
        (step.0, prev.1 + step.1)
    }
}

/// Some leaf of `ls` holds `time`, with the value `v`.
pub open spec fn held_with(ls: Seq<RegLeaf>, time: int, v: u64) -> bool {
    exists|j: int| 0 <= j < ls.len() && ls[j].time_min <= time <= ls[j].time_max && ls[j].value == v
}

/// Some leaf of `ls` starts at `time`.
pub open spec fn starts_a_leaf(ls: Seq<RegLeaf>, time: int) -> bool {
    exists|j: int| 0 <= j < ls.len() && ls[j].time_min == time
}

/// Every leaf of one register once the trace ends at `end`: those its writes closed, then
/// the open one closed at `end`.
#[verifier::opaque]
pub open spec fn register_leaves(writes: Seq<(Time, u64)>, end: Time) -> Seq<RegLeaf> {
    let f = reg_fold(writes);
    match f.0 {
        Some(o) => f.1.push(RegLeaf { value: o.value, time_min: o.time_min, time_max: end }),
        None => f.1,
    }
}

/// The value of the last write at or before `t`; of writes at one time, the later wins.
pub open spec fn value_at(writes: Seq<(Time, u64)>, t: int) -> u64
    decreases writes.len(),
{
    if writes.len() == 0 {
        0
    } else if writes.last().0 <= t {
        writes.last().1
    } else {
        value_at(writes.drop_last(), t)
    }
}

/// The writes come in time order.
pub open spec fn times_sorted(writes: Seq<(Time, u64)>) -> bool {
    forall|i: int, j: int| 0 <= i <= j < writes.len() ==> #[trigger] writes[i].0 <= #[trigger] writes[j].0
}

/// Leaves that follow one another without gap or overlap, each holding, at every time
/// it spans, the value of the last write at or before that time.
pub open spec fn leaves_follow_writes(leaves: Seq<RegLeaf>, writes: Seq<(Time, u64)>) -> bool {
    &&& forall|i: int| 0 <= i < leaves.len() ==> (#[trigger] leaves[i]).time_min <= leaves[i].time_max
    &&& forall|i: int| 0 <= i < leaves.len() - 1 ==> (#[trigger] leaves[i + 1]).time_min == leaves[i].time_max + 1
    &&& forall|i: int, t: int|
        0 <= i < leaves.len() && (#[trigger] leaves[i]).time_min <= t <= leaves[i].time_max
            ==> leaves[i].value == #[trigger] value_at(writes, t)
}

proof fn lemma_value_at_later_write(writes: Seq<(Time, u64)>, w: (Time, u64), t: int)
    requires
        t < w.0,
    ensures
        value_at(writes.push(w), t) == value_at(writes, t),
{
    assert(writes.push(w).drop_last() =~= writes);
}

proof fn lemma_reg_fold(writes: Seq<(Time, u64)>)
    requires
        writes.len() > 0,
        times_sorted(writes),
    ensures
        reg_fold(writes).0 == Some(RegLeaf { value: writes.last().1, time_min: writes.last().0, time_max: writes.last().0 }),
        leaves_follow_writes(reg_fold(writes).1, writes),
        reg_fold(writes).1.len() == 0 ==> writes[0].0 == writes.last().0,
        reg_fold(writes).1.len() > 0 ==> {
            &&& reg_fold(writes).1[0].time_min == writes[0].0
            &&& reg_fold(writes).1.last().time_max + 1 == writes.last().0
        },
    decreases writes.len(),
{
    let w = writes.last();
    let rest = writes.drop_last();
    assert(rest.push(w) =~= writes);
    if rest.len() == 0 {
        assert(reg_fold(rest).1 =~= Seq::<RegLeaf>::empty());
        assert(reg_fold(writes).1 =~= Seq::<RegLeaf>::empty());
    } else {
        assert(times_sorted(rest)) by {
            assert forall|i: int, j: int| 0 <= i <= j < rest.len() implies #[trigger] rest[i].0 <= #[trigger] rest[j].0 by {
                assert(writes[i] == rest[i] && writes[j] == rest[j]);
            }
        }
        lemma_reg_fold(rest);
        let prev = reg_fold(rest);
        let tp = rest.last().0;
        assert(writes[rest.len() - 1] == rest.last());
        assert(tp <= w.0);
        assert(rest[0] == writes[0]);
        let ls = reg_fold(writes).1;
        if tp == w.0 {
            assert(ls =~= prev.1);
            assert forall|i: int, t: int|
                0 <= i < ls.len() && (#[trigger] ls[i]).time_min <= t <= ls[i].time_max
                    implies ls[i].value == #[trigger] value_at(writes, t) by {
                assert(ls[i].time_max < tp) by {
                    lemma_leaves_before(prev.1, tp, i);
                }
                assert(value_at(rest, t) == ls[i].value);
                lemma_value_at_later_write(rest, w, t);
            }
        } else {
            let c = RegLeaf { value: rest.last().1, time_min: tp, time_max: (w.0 - 1) as u32 };
            assert(ls =~= prev.1.push(c));
            assert forall|i: int, t: int|
                0 <= i < ls.len() && (#[trigger] ls[i]).time_min <= t <= ls[i].time_max
                    implies ls[i].value == #[trigger] value_at(writes, t) by {
                if i < prev.1.len() {
                    assert(ls[i] == prev.1[i]);
                    lemma_leaves_before(prev.1, tp, i);
                    assert(value_at(rest, t) == prev.1[i].value);
                } else {
                    assert(ls[i] == c);
                    assert(value_at(rest, t) == rest.last().1);
                }
                lemma_value_at_later_write(rest, w, t);
            }
        }
    }
}

/// Leaves that follow one another and end just before `tp` all end before it.
proof fn lemma_leaves_before(leaves: Seq<RegLeaf>, tp: Time, k: int)
    requires
        leaves.len() > 0,
        leaves.last().time_max + 1 == tp,
        forall|i: int| 0 <= i < leaves.len() ==> (#[trigger] leaves[i]).time_min <= leaves[i].time_max,
        forall|i: int| 0 <= i < leaves.len() - 1 ==> (#[trigger] leaves[i + 1]).time_min == leaves[i].time_max + 1,
        0 <= k < leaves.len(),
    ensures
        leaves[k].time_max < tp,
    decreases leaves.len() - k,
{
    if k < leaves.len() - 1 {
        lemma_leaves_before(leaves, tp, k + 1);
        assert(leaves[k + 1].time_min == leaves[k].time_max + 1);
    }
}

/// Law: successive writes to one register, in time order and closed when the trace ends at
/// `end`, leave leaves that cover `[first write, end]` without gap or overlap, each holding,
/// at every time it spans, the value of the last write at or before that time.
pub proof fn law_register_leaves_tile_time(writes: Seq<(Time, u64)>, end: Time)
    requires
        writes.len() > 0,
        times_sorted(writes),
        writes.last().0 <= end,
    ensures
        register_leaves(writes, end).len() > 0,
        register_leaves(writes, end)[0].time_min == writes[0].0,
        register_leaves(writes, end).last().time_max == end,
        leaves_follow_writes(register_leaves(writes, end), writes),
{
    lemma_reg_fold(writes);
    let f = reg_fold(writes);
    let w = writes.last();
    let c = RegLeaf { value: w.1, time_min: w.0, time_max: end };
    reveal(register_leaves);
    let all = register_leaves(writes, end);
    assert(all =~= f.1.push(c));
    assert forall|i: int, t: int|
        0 <= i < all.len() && (#[trigger] all[i]).time_min <= t <= all[i].time_max
            implies all[i].value == #[trigger] value_at(writes, t) by {
        if i < f.1.len() {
            assert(all[i] == f.1[i]);
        } else {
            assert(all[i] == c);
        }
    }
    assert forall|i: int| 0 <= i < all.len() - 1 implies (#[trigger] all[i + 1]).time_min == all[i].time_max + 1 by {
        if i + 1 < f.1.len() {
            assert(all[i + 1] == f.1[i + 1] && all[i] == f.1[i]);
        } else {
            assert(all[i + 1] == c && all[i] == f.1.last());
        }
    }
}

/// The leaves that writes close start at times written, and every time written but the
/// last starts one of them or is the time of the last write.
#[verifier::spinoff_prover]
#[verifier::rlimit(30)]
proof fn lemma_reg_fold_starts(writes: Seq<(Time, u64)>)
    requires
        writes.len() > 0,
        times_sorted(writes),
    ensures
        reg_fold(writes).0 == Some(RegLeaf { value: writes.last().1, time_min: writes.last().0, time_max: writes.last().0 }),
        forall|k: int|
            0 <= k < reg_fold(writes).1.len() ==> exists|i: int|
                0 <= i < writes.len() && writes[i].0 == (#[trigger] reg_fold(writes).1[k]).time_min,
        forall|i: int|
            0 <= i < writes.len() ==> (#[trigger] writes[i]).0 == writes.last().0 || exists|k: int|
                0 <= k < reg_fold(writes).1.len() && reg_fold(writes).1[k].time_min == writes[i].0,
    decreases writes.len(),
{
    let w = writes.last();
    let rest = writes.drop_last();
    let all = reg_fold(writes).1;
    if rest.len() == 0 {
        assert(reg_fold(rest).1 =~= Seq::<RegLeaf>::empty());
        assert(all =~= Seq::<RegLeaf>::empty());
        assert forall|i: int| 0 <= i < writes.len() implies (#[trigger] writes[i]).0 == writes.last().0 || exists|k: int|
            0 <= k < all.len() && all[k].time_min == writes[i].0 by {
            assert(i == 0);
        }
    } else {
        assert(times_sorted(rest)) by {
            assert forall|i: int, j: int| 0 <= i <= j < rest.len() implies #[trigger] rest[i].0 <= #[trigger] rest[j].0 by {
                assert(writes[i] == rest[i] && writes[j] == rest[j]);
            }
        }
        lemma_reg_fold_starts(rest);
        let prev = reg_fold(rest).1;
        let tp = rest.last().0;
        assert(writes[rest.len() - 1] == rest.last());
        if tp == w.0 {
            assert(all =~= prev);
        } else {
            let c = RegLeaf { value: rest.last().1, time_min: tp, time_max: (w.0 - 1) as u32 };
            assert(all =~= prev.push(c));
        }
        assert forall|k: int| 0 <= k < all.len() implies exists|i: int|
            0 <= i < writes.len() && writes[i].0 == (#[trigger] all[k]).time_min by {
            if k < prev.len() {
                assert(all[k] == prev[k]);
                let i = choose|i: int| 0 <= i < rest.len() && rest[i].0 == prev[k].time_min;
                assert(writes[i] == rest[i]);
            } else {
                assert(all[k].time_min == tp);
                assert(writes[rest.len() - 1].0 == tp);
            }
        }
        assert forall|i: int| 0 <= i < writes.len() implies (#[trigger] writes[i]).0 == writes.last().0 || exists|k: int|
            0 <= k < all.len() && all[k].time_min == writes[i].0 by {
            if i < rest.len() {
                assert(writes[i] == rest[i]);
                if rest[i].0 == tp {
                    if tp != w.0 {
                        assert(all[prev.len() as int].time_min == tp);
                    }
                } else {
                    let k = choose|k: int| 0 <= k < prev.len() && prev[k].time_min == rest[i].0;
                    assert(all[k] == prev[k]);
                }
            }
        }
    }
}

/// Law: the leaves that writes to one register leave when the trace ends at `end` start
/// exactly at the times written: each leaf starts at a time written, and each time written
/// starts a leaf.
#[verifier::spinoff_prover]
#[verifier::rlimit(40)]
pub proof fn law_register_leaves_start_at_writes(writes: Seq<(Time, u64)>, end: Time)
    requires
        writes.len() > 0,
        times_sorted(writes),
        writes.last().0 <= end,
    ensures
        forall|k: int|
            0 <= k < register_leaves(writes, end).len() ==> exists|i: int|
                0 <= i < writes.len() && writes[i].0 == (#[trigger] register_leaves(writes, end)[k]).time_min,
        forall|i: int| 0 <= i < writes.len() ==> #[trigger] starts_a_leaf(register_leaves(writes, end), writes[i].0 as int),
{
    lemma_reg_fold_starts(writes);
    let f = reg_fold(writes);
    let w = writes.last();
    let c = RegLeaf { value: w.1, time_min: w.0, time_max: end };
    reveal(register_leaves);
    let all = register_leaves(writes, end);
    assert(all =~= f.1.push(c));
    assert forall|k: int| 0 <= k < all.len() implies exists|i: int|
        0 <= i < writes.len() && writes[i].0 == (#[trigger] all[k]).time_min by {
        if k < f.1.len() {
            assert(all[k] == f.1[k]);
        } else {
            assert(writes[writes.len() - 1].0 == all[k].time_min);
        }
    }
    assert forall|i: int| 0 <= i < writes.len() implies #[trigger] starts_a_leaf(all, writes[i].0 as int) by {
        if writes[i].0 == w.0 {
            assert(all[f.1.len() as int].time_min == w.0);
        } else {
            let k = choose|k: int| 0 <= k < f.1.len() && f.1[k].time_min == writes[i].0;
            assert(all[k] == f.1[k]);
        }
    }
}

/// Leaves that follow one another without gap: a later leaf starts and ends no earlier.
proof fn lemma_follow_monotone(leaves: Seq<RegLeaf>, k: int, m: int)
    requires
        forall|i: int| 0 <= i < leaves.len() ==> (#[trigger] leaves[i]).time_min <= leaves[i].time_max,
        forall|i: int| 0 <= i < leaves.len() - 1 ==> (#[trigger] leaves[i + 1]).time_min == leaves[i].time_max + 1,
        0 <= k <= m < leaves.len(),
    ensures
        leaves[k].time_min <= leaves[m].time_min,
        leaves[k].time_max <= leaves[m].time_max,
    decreases m - k,
{
    if k < m {
        lemma_follow_monotone(leaves, k, m - 1);
        assert(leaves[(m - 1) + 1].time_min == leaves[m - 1].time_max + 1);
    }
}

/// Leaves that follow one another without gap hold every time from the first start to the
/// last end.
pub(crate) proof fn lemma_follow_covers(leaves: Seq<RegLeaf>, time: int)
    requires
        leaves.len() > 0,
        forall|i: int| 0 <= i < leaves.len() ==> (#[trigger] leaves[i]).time_min <= leaves[i].time_max,
        forall|i: int| 0 <= i < leaves.len() - 1 ==> (#[trigger] leaves[i + 1]).time_min == leaves[i].time_max + 1,
        leaves[0].time_min <= time <= leaves.last().time_max,
    ensures
        exists|k: int| 0 <= k < leaves.len() && (#[trigger] leaves[k]).time_min <= time <= leaves[k].time_max,
    decreases leaves.len(),
{
    let n = leaves.len() - 1;
    if leaves[n].time_min <= time {
        assert(leaves[n].time_min <= time <= leaves[n].time_max);
    } else {
        assert(n > 0);
        let d = leaves.drop_last();
        assert(leaves[(n - 1) + 1].time_min == leaves[n - 1].time_max + 1);
        assert forall|i: int| 0 <= i < d.len() - 1 implies (#[trigger] d[i + 1]).time_min == d[i].time_max + 1 by {
            assert(d[i + 1] == leaves[i + 1] && d[i] == leaves[i]);
        }
        assert forall|i: int| 0 <= i < d.len() implies (#[trigger] d[i]).time_min <= d[i].time_max by {
            assert(d[i] == leaves[i]);
        }
        lemma_follow_covers(d, time);
        let k = choose|k: int| 0 <= k < d.len() && (#[trigger] d[k]).time_min <= time <= d[k].time_max;
        assert(leaves[k] == d[k]);
    }
}

/// A time that a leaf holds lies between the first start and the last end of leaves that
/// follow one another without gap.
pub(crate) proof fn lemma_leaf_within(l: Seq<RegLeaf>, k: int, time: int)
    requires
        forall|i: int| 0 <= i < l.len() ==> (#[trigger] l[i]).time_min <= l[i].time_max,
        forall|i: int| 0 <= i < l.len() - 1 ==> (#[trigger] l[i + 1]).time_min == l[i].time_max + 1,
        0 <= k < l.len(),
        l[k].time_min <= time <= l[k].time_max,
    ensures
        l[0].time_min <= time <= l.last().time_max,
{
    lemma_follow_monotone(l, 0, k);
    lemma_follow_monotone(l, k, l.len() - 1);
}

/// The leaves `l` of a register's writes when the trace ends at `end`: they follow one
/// another from the first write to `end`, each holding the value of the last write at or
/// before its times; each starts at a time written, and each time written starts one.
pub(crate) proof fn lemma_register_leaves_answer(writes: Seq<(Time, u64)>, end: Time, l: Seq<RegLeaf>)
    requires
        writes.len() > 0,
        times_sorted(writes),
        writes.last().0 <= end,
        l == register_leaves(writes, end),
    ensures
        l.len() > 0,
        l[0].time_min == writes[0].0,
        l.last().time_max == end,
        leaves_follow_writes(l, writes),
        forall|k: int| 0 <= k < l.len() ==> exists|i: int| 0 <= i < writes.len() && writes[i].0 == (#[trigger] l[k]).time_min,
        forall|i: int| 0 <= i < writes.len() ==> #[trigger] starts_a_leaf(l, writes[i].0 as int),
{
    law_register_leaves_tile_time(writes, end);
    law_register_leaves_start_at_writes(writes, end);
}

/// The leaf `j` of `ls` holds the time `time`.
pub open spec fn holds_time(ls: Seq<RegLeaf>, j: int, time: int) -> bool {
    0 <= j < ls.len() && ls[j].time_min <= time <= ls[j].time_max
}

/// A leaf of the tree holds only times from the first write to `end`, with the value of the
/// last write at or before them.
#[verifier::spinoff_prover]
pub(crate) proof fn lemma_tree_holds_only_written_times(ls: Seq<RegLeaf>, writes: Seq<(Time, u64)>, end: Time)
    requires
        writes.len() > 0,
        times_sorted(writes),
        writes.last().0 <= end,
        forall|x: RegLeaf| ls.contains(x) <==> #[trigger] register_leaves(writes, end).contains(x),
    ensures
        forall|j: int, time: int|
            #[trigger] holds_time(ls, j, time) ==> writes[0].0 <= time <= end && ls[j].value == value_at(
                writes,
                time,
            ),
{
    let l = register_leaves(writes, end);
    lemma_register_leaves_answer(writes, end, l);
    assert forall|j: int, time: int| #[trigger] holds_time(ls, j, time) implies writes[0].0 <= time <= end
        && ls[j].value == value_at(writes, time) by {
        assert(ls.contains(ls[j]));
        assert(l.contains(ls[j]));
        let k = choose|k: int| 0 <= k < l.len() && l[k] == ls[j];
        assert(l[k].time_min <= time <= l[k].time_max);
        lemma_leaf_within(l, k, time);
        assert(l[k].value == value_at(writes, time));
    }
}

/// Every time from the first write to `end` is held by a leaf of the tree, with the value of
/// the last write at or before it.
#[verifier::spinoff_prover]
pub(crate) proof fn lemma_tree_holds_every_written_time(ls: Seq<RegLeaf>, writes: Seq<(Time, u64)>, end: Time)
    requires
        writes.len() > 0,
        times_sorted(writes),
        writes.last().0 <= end,
        forall|x: RegLeaf| ls.contains(x) <==> #[trigger] register_leaves(writes, end).contains(x),
    ensures
        forall|time: int| writes[0].0 <= time <= end ==> #[trigger] held_with(ls, time, value_at(writes, time)),
{
    let l = register_leaves(writes, end);
    lemma_register_leaves_answer(writes, end, l);
    assert forall|time: int| writes[0].0 <= time <= end implies #[trigger] held_with(ls, time, value_at(writes, time)) by {
        lemma_follow_covers(l, time);
        let k = choose|k: int| 0 <= k < l.len() && (#[trigger] l[k]).time_min <= time <= l[k].time_max;
        assert(l.contains(l[k]));
        assert(ls.contains(l[k]));
        let j = choose|j: int| 0 <= j < ls.len() && ls[j] == l[k];
        assert(l[k].value == value_at(writes, time));
        assert(holds_time(ls, j, time));
    }
}

/// Every leaf of the tree starts at a time written, with the value of the last write then.
#[verifier::spinoff_prover]
pub(crate) proof fn lemma_tree_starts_at_writes(ls: Seq<RegLeaf>, writes: Seq<(Time, u64)>, end: Time)
    requires
        writes.len() > 0,
        times_sorted(writes),
        writes.last().0 <= end,
        forall|x: RegLeaf| ls.contains(x) <==> #[trigger] register_leaves(writes, end).contains(x),
    ensures
        forall|j: int|
            0 <= j < ls.len() ==> exists|i: int|
                0 <= i < writes.len() && writes[i].0 == (#[trigger] ls[j]).time_min && ls[j].value
                    == value_at(writes, writes[i].0 as int),
{
    let l = register_leaves(writes, end);
    lemma_register_leaves_answer(writes, end, l);
    assert forall|j: int| 0 <= j < ls.len() implies exists|i: int|
        0 <= i < writes.len() && writes[i].0 == (#[trigger] ls[j]).time_min && ls[j].value
            == value_at(writes, writes[i].0 as int) by {
        assert(ls.contains(ls[j]));
        assert(l.contains(ls[j]));
        let k = choose|k: int| 0 <= k < l.len() && l[k] == ls[j];
        let i = choose|i: int| 0 <= i < writes.len() && writes[i].0 == (#[trigger] l[k]).time_min;
        assert(l[k].time_min <= writes[i].0 <= l[k].time_max);
        assert(l[k].value == value_at(writes, writes[i].0 as int));
    }
}

/// Every time written starts a leaf of the tree.
#[verifier::spinoff_prover]
pub(crate) proof fn lemma_tree_has_every_write(ls: Seq<RegLeaf>, writes: Seq<(Time, u64)>, end: Time)
    requires
        writes.len() > 0,
        times_sorted(writes),
        writes.last().0 <= end,
        forall|x: RegLeaf| ls.contains(x) <==> #[trigger] register_leaves(writes, end).contains(x),
    ensures
        forall|i: int| 0 <= i < writes.len() ==> #[trigger] starts_a_leaf(ls, writes[i].0 as int),
{
    let l = register_leaves(writes, end);
    lemma_register_leaves_answer(writes, end, l);
    assert forall|i: int| 0 <= i < writes.len() implies #[trigger] starts_a_leaf(ls, writes[i].0 as int) by {
        assert(starts_a_leaf(l, writes[i].0 as int));
        let k = choose|k: int| 0 <= k < l.len() && l[k].time_min == writes[i].0;
        assert(l.contains(l[k]));
        assert(ls.contains(l[k]));
        let j = choose|j: int| 0 <= j < ls.len() && ls[j] == l[k];
        assert(ls[j].time_min == writes[i].0);
    }
}

/// What a register write does to the normalizer and the events it gives.
pub open spec fn register_pushed<D: DataCut>(
    n0: Normalizer<D>,
    time: Time,
    idx: usize,
    value: u64,
    n1: Normalizer<D>,
    out0: Seq<Event<D>>,
    out1: Seq<Event<D>>,
) -> bool {
    &&& n1.inv()
    &&& n1.time() == time
    &&& n1.writes() == n0.writes()
    &&& ({
        let regs = with_register(n0.open_registers(), idx as int);
        let opened = RegLeaf { value, time_min: time, time_max: time };
        &&& n1.open_registers() == regs.update(idx as int, Some(opened))
        &&& match regs[idx as int] {
            Some(last) => if last.time_min == time && last.time_max == time {
                out1 == out0
            } else {
                out1 == out0.push(
                    Event::Register {
                        idx,
                        leaf: RegLeaf { value: last.value, time_min: last.time_min, time_max: (time - 1) as u32 },
                    },
                )
            },
            None => out1 == out0,
        }
        &&& n1.open_registers()[idx as int] == reg_step(regs[idx as int], time, value).0
        &&& out1 == out0 + reg_events::<D>(idx, reg_step(regs[idx as int], time, value).1)
    })
}

impl<D: DataCut> Normalizer<D> {
    /// A register write at `time`: the register's open leaf is closed just before it,
    /// unless it was opened at the same time, in which case the last value wins.
    pub fn push_register(&mut self, time: Time, idx: usize, value: u64, out: &mut Vec<Event<D>>)
        requires
            old(self).inv(),
            old(self).time() <= time,
            idx < usize::MAX,
        ensures
            register_pushed(*old(self), time, idx, value, *final(self), old(out)@, final(out)@),
    {
        self.curr_time = time;
        let ghost regs0 = self.last_reg_leaves@;
        while self.last_reg_leaves.len() < idx + 1
            invariant
                idx < usize::MAX,
                self.curr_time == time,
                self.disjoint == old(self).disjoint,
                old(self).inv(),
                old(self).curr_time <= time,
                regs0 == old(self).last_reg_leaves@,
                regs0.len() <= self.last_reg_leaves@.len(),
                self.last_reg_leaves@.len() <= if regs0.len() < idx + 1 { idx + 1 } else { regs0.len() as int },
                self.last_reg_leaves@ == regs0 + Seq::new((self.last_reg_leaves@.len() - regs0.len()) as nat, |_i: int| None::<RegLeaf>),
            decreases idx + 1 - self.last_reg_leaves@.len(),
        {
            let ghost before = self.last_reg_leaves@;
            self.last_reg_leaves.push(None);
            proof {
                assert(self.last_reg_leaves@ =~= regs0 + Seq::new((self.last_reg_leaves@.len() - regs0.len()) as nat, |_i: int| None::<RegLeaf>));
            }
        }
        proof {
            assert(self.last_reg_leaves@ =~= with_register(regs0, idx as int));
        }
        let opened = RegLeaf { value, time_min: time, time_max: time };
        match self.last_reg_leaves[idx] {
            Some(last) => {
                if last.time_min == time && last.time_max == time {
                    self.last_reg_leaves.set(idx, Some(opened));
                    proof {
                        assert(reg_events::<D>(idx, Seq::empty()) =~= Seq::empty());
                    }
                } else {
                    let closed = RegLeaf { value: last.value, time_min: last.time_min, time_max: time - 1 };
                    out.push(Event::Register { idx, leaf: closed });
                    self.last_reg_leaves.set(idx, Some(opened));
                    proof {
                        assert(reg_events::<D>(idx, seq![closed]) =~= seq![Event::Register { idx, leaf: closed }]);
                    }
                }
            },
            None => {
                self.last_reg_leaves.set(idx, Some(opened));
                proof {
                    assert(reg_events::<D>(idx, Seq::empty()) =~= Seq::empty());
                }
            },
        }
        proof {
            assert forall|i: int| 0 <= i < self.last_reg_leaves@.len() implies reg_leaf_ok(#[trigger] self.last_reg_leaves@[i], self.curr_time) by {
                if i != idx && i < regs0.len() {
                    assert(self.last_reg_leaves@[i] == regs0[i]);
                    assert(regs0[i] == old(self).last_reg_leaves@[i]);
                    assert(reg_leaf_ok(old(self).last_reg_leaves@[i], old(self).curr_time));
                    assert(old(self).curr_time <= self.curr_time);
                    assert(reg_leaf_ok(self.last_reg_leaves@[i], self.curr_time));
                } else if i != idx {
                    assert(self.last_reg_leaves@[i] == with_register(regs0, idx as int)[i]);
                    assert(with_register(regs0, idx as int)[i] is None);
                    assert(reg_leaf_ok(self.last_reg_leaves@[i], self.curr_time));
                } else {
                    assert(self.last_reg_leaves@[i] == Some(opened));
                    assert(reg_leaf_ok(self.last_reg_leaves@[i], self.curr_time));
                }
            }
            let regs = with_register(old(self).open_registers(), idx as int);
            assert(self.open_registers() =~= regs.update(idx as int, Some(opened)));
            assert(out@ =~= old(out)@ + reg_events::<D>(idx, reg_step(regs[idx as int], time, value).1));
        }
    }

    /// Close every open memory write at the time of the last write, then every open
    /// register leaf at the time of the last event.
    pub fn finish(self, out: &mut Vec<Event<D>>)
        requires
            self.inv(),
            forall|i: int| 0 <= i < self.open_registers().len() ==> (#[trigger] self.open_registers()[i]) is Some,
        ensures
            exists|leaves: Seq<DisjointMemLeaf<D>>|
                #![trigger write_events(leaves)]
                {
                    &&& leaf_views(leaves) == closed_leaves(self.writes().temps(), self.writes().time())
                    &&& final(out)@ == old(out)@ + write_events(leaves) + closed_registers::<D>(
                        self.open_registers(),
                        self.time(),
                    )
                },
    {
        let mut leaves: Vec<DisjointMemLeaf<D>> = Vec::new();
        let ghost temps = self.disjoint.temps();
        let ghost wtime = self.disjoint.time();
        self.disjoint.finish(&mut leaves);
        let ghost out0 = out@;
        let ghost lv = leaves@;
        assert(lv.len() == leaves.len());
        let mut k: usize = 0;
        while leaves.len() > 0
            invariant
                lv.len() == k + leaves@.len(),
                lv.len() <= usize::MAX,
                forall|j: int| 0 <= j < leaves@.len() ==> leaves@[j] == lv[k + j],
                out@ == out0 + write_events(lv.take(k as int)),
            decreases leaves@.len(),
        {
            let leaf = leaves.remove(0);
            out.push(Event::MemoryWrite(leaf));
            proof {
                assert(lv.take(k + 1) =~= lv.take(k as int).push(leaf));
                assert(write_events(lv.take(k + 1)) =~= write_events(lv.take(k as int)).push(Event::MemoryWrite(leaf)));
            }
            k = k + 1;
        }
        proof {
            assert(lv.take(k as int) =~= lv);
        }
        let ghost out1 = out@;
        let regs = &self.last_reg_leaves;
        proof {
            assert forall|i: int| 0 <= i < regs@.len() implies (#[trigger] regs@[i]) is Some by {
                assert(self.open_registers()[i] is Some);
            }
        }
        let mut idx: usize = 0;
        while idx < regs.len()
            invariant
                idx <= regs@.len(),
                regs@ == self.last_reg_leaves@,
                forall|i: int| 0 <= i < regs@.len() ==> (#[trigger] regs@[i]) is Some,
                out@ == out1 + closed_registers::<D>(regs@, self.curr_time).take(idx as int),
            decreases regs@.len() - idx,
        {
            match regs[idx] {
                Some(last) => {
                    let leaf = RegLeaf { value: last.value, time_min: last.time_min, time_max: self.curr_time };
                    out.push(Event::Register { idx, leaf });
                },
                None => {},
            }
            proof {
                assert(closed_registers::<D>(regs@, self.curr_time).take(idx + 1) =~= closed_registers::<D>(
                    regs@,
                    self.curr_time,
                ).take(idx as int).push(closed_registers::<D>(regs@, self.curr_time)[idx as int]));
            }
            idx = idx + 1;
        }
        proof {
            assert(closed_registers::<D>(regs@, self.curr_time).take(idx as int) =~= closed_registers::<D>(regs@, self.curr_time));
            assert(write_events(lv) == write_events(lv));
        }
    }
}

} // verus!
