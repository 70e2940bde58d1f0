//! Driving the passes over a trace: raw events are normalized, then handed to a pass.
use vstd::prelude::*;
use crate::db::{Metadata, file_header, section_items};
use crate::flat::{RTreeHeader, RTreeList};
use crate::index::fill::TreeFill;
use crate::index::hilbert_spec::HilbertSpec;
use crate::memory::{MemReadSpec};
use crate::register::RegSpec;
use crate::flat::{Addr, Time};
use crate::index::disjoint::{DataCut, DisjointMemLeaf, NoData, closed_leaves, leaf_views};
use crate::index::fill::{FillError, FillPass, Filler, MaybeInlined, fill_consumed, fill_mapped, filler_fresh, trees_complete};
use crate::index::nodes::lemma_pow2_ge2;
use crate::memory::MemWriteSpec;
use crate::index::hilbert_partition::{HilbertPartitionPass, PartitionError, empty_partitions, partition_consumed};
use crate::index::parser::{EventView, MemoryMode, Pass, ProgressReporter, RawEvent, StaticEventList, TimedRawEvent, raw_view};
use crate::index::image::{
    StorageViewMut, image_fits, law_written_file_loads, lists_error, lists_fit, tree_leaves, build_storage_view_mut, file_loads,
    law_written_file_opens, view_of, write_storage_image,
};
use crate::index::layout::{StorageLayout, build_storage_layout, laid_out, layout_room, layout_room_exec};
use crate::index::pass::{Event, Normalizer, closed_registers, memory_pushed, register_pushed, write_events};
use crate::index::scout::{RTreeScout, ScoutError, ScoutPass, counted, lemma_counted_levels_fit, div_ceil, lemma_div_ceil_bounds, nodes_above, scout_consumed};
use crate::irange::pow2;
use vstd::utf8::encode_utf8;

verus! {

/// Why a trace could not be indexed.
#[derive(Debug, Clone, Copy, PartialEq, Eq)]
pub enum IndexError {
    /// An event comes earlier in time than the one before it.
    TimeBackwards,
    /// A memory access of no byte.
    EmptyAccess,
    /// A memory access past the last address.
    AddressOverflow,
    /// A register that the first pass did not see.
    UnknownRegister,
    /// A register with no value at the end of the trace.
    RegisterNeverWritten,
    /// A tree or the file would be too large.
    TooLarge,
    /// The passes disagree on the trees.
    Inconsistent,
    Scout(ScoutError),
    Partition(PartitionError),
    Fill(FillError),
}

/// Receives the raw events of a trace.
pub trait EventSink {
    /// What the sink began with, kept through every event.
    type Origin;

    spec fn inv(&self) -> bool;

    spec fn origin(&self) -> Self::Origin;

    /// The events received so far, in order.
    spec fn received(&self) -> Seq<EventView>;

    fn emit(&mut self, event: RawEvent<'_>)
        requires
            old(self).inv(),
        ensures
            final(self).inv(),
            final(self).received() == old(self).received().push(raw_view(event)),
            final(self).origin() == old(self).origin(),
    ;
}

/// A trace: it hands its raw events, in order, to a sink.
pub trait TraceParser {
    /// The events of the trace, in order.
    spec fn events(&self) -> Seq<EventView>;

    fn parse<E: EventSink, P: ProgressReporter>(&mut self, progress: &mut P, sink: &mut E)
        requires
            old(sink).inv(),
        ensures
            final(sink).inv(),
            final(sink).received() == old(sink).received() + old(self).events(),
            final(sink).origin() == old(sink).origin(),
            final(self).events() == old(self).events(),
    ;
}

/// What the raw events say.
pub open spec fn raw_views(events: Seq<RawEvent>) -> Seq<EventView> {
    events.map_values(|e: RawEvent| raw_view(e))
}

impl<'a> TraceParser for StaticEventList<'a> {
    open spec fn events(&self) -> Seq<EventView> {
        raw_views(self.events@)
    }

    /// Every event of the list, in order.
    fn parse<E: EventSink, P: ProgressReporter>(&mut self, progress: &mut P, sink: &mut E)
        ensures
            final(sink).received() == old(sink).received() + raw_views(old(self).events@),
    {
        progress.total(self.events.len());
        let ghost r0 = sink.received();
        let mut i: usize = 0;
        while i < self.events.len()
            invariant
                i <= self.events@.len(),
                *self == *old(self),
                sink.inv(),
                sink.origin() == old(sink).origin(),
                sink.received() == r0 + raw_views(self.events@.take(i as int)),
            decreases self.events@.len() - i,
        {
            sink.emit(self.events[i]);
            proof {
                assert(raw_views(self.events@.take(i + 1)) =~= raw_views(self.events@.take(i as int)).push(raw_view(self.events@[i as int])));
            }
            progress.current(i);
            i = i + 1;
        }
        assert(self.events@.take(i as int) =~= self.events@);
    }
}

/// A pass over the normalized events.
pub trait Stage: Sized {
    type Data: DataCut;

    spec fn ready(&self) -> bool;

    /// `register_index` of `name` may leave the stage as `next` and give `r`.
    spec fn indexed(&self, name: Seq<char>, next: Self, r: Result<usize, IndexError>) -> bool;

    /// `data_of` the bytes may leave the stage as `next` and give `r`.
    spec fn mapped(&self, bytes: Seq<u8>, next: Self, r: Result<Self::Data, IndexError>) -> bool;

    /// `take` of the event may leave the stage as `next` and give `r`.
    spec fn took(&self, event: Event<Self::Data>, next: Self, r: Result<(), IndexError>) -> bool;

    /// Index of a register.
    fn register_index(&mut self, name: &str) -> (r: Result<usize, IndexError>)
        requires
            old(self).ready(),
        ensures
            final(self).ready(),
            r matches Ok(i) ==> i < usize::MAX,
            old(self).indexed(name@, *final(self), r),
    ;

    /// Data attached to the written bytes.
    fn data_of(&mut self, bytes: &[u8]) -> (r: Result<Self::Data, IndexError>)
        requires
            old(self).ready(),
        ensures
            final(self).ready(),
            r matches Ok(d) ==> d.fits(bytes@.len()),
            old(self).mapped(bytes@, *final(self), r),
    ;

    /// One normalized event.
    fn take(&mut self, event: &Event<Self::Data>) -> (r: Result<(), IndexError>)
        requires
            old(self).ready(),
        ensures
            final(self).ready(),
            old(self).took(*event, *final(self), r),
    ;
}

/// `states` are those the stage goes through from `s0` to `s1`, taking each of `events`
/// in turn and accepting every one.
pub open spec fn runs_through<St: Stage>(s0: St, events: Seq<Event<St::Data>>, states: Seq<St>, s1: St) -> bool {
    &&& states.len() == events.len() + 1
    &&& states[0] == s0
    &&& states.last() == s1
    &&& forall|i: int| 0 <= i < events.len() ==> #[trigger] states[i].took(events[i], states[i + 1], Ok(()))
}

/// `s1` is what taking each of `events` in turn, every one accepted, may leave of `s0`.
pub open spec fn took_all<St: Stage>(s0: St, events: Seq<Event<St::Data>>, s1: St) -> bool {
    exists|states: Seq<St>| #[trigger] runs_through(s0, events, states, s1)
}

/// The stage `s0` accepts the events before the `k`-th, which it refuses with `e`,
/// leaving `s1`.
pub open spec fn refused_at<St: Stage>(s0: St, events: Seq<Event<St::Data>>, s1: St, e: IndexError) -> bool {
    exists|k: int, mid: St|
        0 <= k < events.len() && #[trigger] took_all(s0, events.take(k), mid) && mid.took(events[k], s1, Err(e))
}

/// What normalizing one raw event may do with the stage `s0` and the normalizer `n0`,
/// pushing events from `out0` to `out1`: a slide passes through; an event earlier than the
/// last one, an access of no byte or one past the last address is refused; otherwise the
/// stage's answer for the written bytes or the register's name decides, and the
/// normalizer cuts the access or closes the register's last leaf.
pub open spec fn normalize_step<St: Stage>(
    s0: St,
    n0: Normalizer<St::Data>,
    event: EventView,
    s1: St,
    n1: Normalizer<St::Data>,
    out0: Seq<Event<St::Data>>,
    out1: Seq<Event<St::Data>>,
    r: Result<(), IndexError>,
) -> bool {
    let refused = |e: IndexError| r == Err::<(), IndexError>(e) && s1 == s0 && n1 == n0 && out1 == out0;
    match event {
        EventView::Slide(slide) => r is Ok && s1 == s0 && n1 == n0 && out1 == out0.push(Event::AslrSlide(slide)),
        EventView::Memory { time, addr, bytes, mode } => if time < n0.time() {
            refused(IndexError::TimeBackwards)
        } else if bytes.len() == 0 {
            refused(IndexError::EmptyAccess)
        } else if addr + bytes.len() - 1 > u64::MAX {
            refused(IndexError::AddressOverflow)
        } else {
            memory_step(s0, n0, time, addr, bytes, mode, s1, n1, out0, out1, r)
        },
        EventView::Register { time, name, value } => if time < n0.time() {
            refused(IndexError::TimeBackwards)
        } else {
            register_step(s0, n0, time, name, value, s1, n1, out0, out1, r)
        },
    }
}

/// The stage's answer for the written bytes decides; its data goes with the access.
pub open spec fn memory_step<St: Stage>(
    s0: St,
    n0: Normalizer<St::Data>,
    time: Time,
    addr: Addr,
    bytes: Seq<u8>,
    mode: MemoryMode,
    s1: St,
    n1: Normalizer<St::Data>,
    out0: Seq<Event<St::Data>>,
    out1: Seq<Event<St::Data>>,
    r: Result<(), IndexError>,
) -> bool {
    exists|d: Result<St::Data, IndexError>|
        #[trigger] s0.mapped(bytes, s1, d) && match d {
            Ok(data) => r is Ok && memory_pushed(n0, time, addr, bytes, mode, data, n1, out0, out1),
            Err(e) => r == Err::<(), IndexError>(e) && n1 == n0 && out1 == out0,
        }
}

/// The stage's answer for a register's name decides; its index goes with the write.
pub open spec fn register_step<St: Stage>(
    s0: St,
    n0: Normalizer<St::Data>,
    time: Time,
    name: Seq<char>,
    value: u64,
    s1: St,
    n1: Normalizer<St::Data>,
    out0: Seq<Event<St::Data>>,
    out1: Seq<Event<St::Data>>,
    r: Result<(), IndexError>,
) -> bool {
    exists|i: Result<usize, IndexError>|
        #[trigger] s0.indexed(name, s1, i) && match i {
            Ok(idx) => r is Ok && register_pushed(n0, time, idx, value, n1, out0, out1),
            Err(e) => r == Err::<(), IndexError>(e) && n1 == n0 && out1 == out0,
        }
}

/// The stage `s0` takes `events` and leaves `s1`: all accepted where there is no error,
/// else refused at one.
pub open spec fn handed<St: Stage>(s0: St, events: Seq<Event<St::Data>>, s1: St, error: Option<IndexError>) -> bool {
    match error {
        None => took_all(s0, events, s1),
        Some(e) => refused_at(s0, events, s1, e),
    }
}

/// What one raw event does to the stage, the normalizer and the first error: once an
/// event is refused the rest are passed over; else the event is normalized, and the
/// events that come of it are handed to the stage.
pub open spec fn emit_step<St: Stage>(
    s0: St,
    n0: Normalizer<St::Data>,
    e0: Option<IndexError>,
    event: EventView,
    s1: St,
    n1: Normalizer<St::Data>,
    e1: Option<IndexError>,
) -> bool {
    match e0 {
        Some(_) => s1 == s0 && n1 == n0 && e1 == e0,
        None => exists|mid: St, out: Seq<Event<St::Data>>, r: Result<(), IndexError>|
            #[trigger] normalize_step(s0, n0, event, mid, n1, Seq::empty(), out, r) && match r {
                Err(e) => s1 == mid && e1 == Some(e),
                Ok(_) => handed(mid, out, s1, e1),
            },
    }
}

/// A normalizer that has seen nothing.
pub open spec fn normalizer_fresh<D: DataCut>(n: Normalizer<D>) -> bool {
    &&& n.inv()
    &&& n.time() == 0
    &&& n.writes().temps().len() == 0
    &&& n.open_registers().len() == 0
}

/// `trace` holds the stage, the normalizer and the first error before each of `events`
/// and after the last, from the stage `start`.
pub open spec fn runs_events<St: Stage>(
    start: St,
    events: Seq<EventView>,
    trace: Seq<(St, Normalizer<St::Data>, Option<IndexError>)>,
) -> bool {
    &&& trace.len() == events.len() + 1
    &&& trace[0].0 == start
    &&& normalizer_fresh(trace[0].1)
    &&& trace[0].2 is None
    &&& forall|i: int|
        0 <= i < events.len() ==> #[trigger] emit_step(
            trace[i].0,
            trace[i].1,
            trace[i].2,
            events[i],
            trace[i + 1].0,
            trace[i + 1].1,
            trace[i + 1].2,
        )
}

/// What the end of the trace gives: the first error; a register never written; else the
/// open writes and register leaves, closed, handed to the stage.
pub open spec fn finished<St: Stage>(
    stage: St,
    normalizer: Normalizer<St::Data>,
    error: Option<IndexError>,
    r: Result<St, IndexError>,
) -> bool {
    match error {
        Some(e) => r == Err::<St, IndexError>(e),
        None => if !(forall|i: int|
            0 <= i < normalizer.open_registers().len() ==> (#[trigger] normalizer.open_registers()[i]) is Some) {
            r == Err::<St, IndexError>(IndexError::RegisterNeverWritten)
        } else {
            exists|leaves: Seq<DisjointMemLeaf<St::Data>>|
                #![trigger write_events(leaves)]
                {
                    let events = write_events(leaves) + closed_registers::<St::Data>(
                        normalizer.open_registers(),
                        normalizer.time(),
                    );
                    &&& leaf_views(leaves) == closed_leaves(normalizer.writes().temps(), normalizer.writes().time())
                    &&& match r {
                        Ok(st) => took_all(stage, events, st),
                        Err(e) => exists|s1: St| refused_at(stage, events, s1, e),
                    }
                }
        },
    }
}

/// The events handed to `start`, through a normalizer, as `trace` runs, and what the end
/// of the trace gives.
pub open spec fn pipeline<St: Stage>(
    start: St,
    events: Seq<EventView>,
    trace: Seq<(St, Normalizer<St::Data>, Option<IndexError>)>,
    r: Result<St, IndexError>,
) -> bool {
    runs_events(start, events, trace) && finished(trace.last().0, trace.last().1, trace.last().2, r)
}

/// Raw events normalized and handed to a stage; the first error stops the rest.
pub struct Normalize<St: Stage> {
    pub stage: St,
    pub normalizer: Normalizer<St::Data>,
    pub error: Option<IndexError>,
    pub seen: Ghost<Seq<EventView>>,
    /// The stage it began with.
    pub start: Ghost<St>,
    /// The stage, normalizer and error before each event seen, and now.
    pub trace: Ghost<Seq<(St, Normalizer<St::Data>, Option<IndexError>)>>,
}

impl<St: Stage> Normalize<St> {
    /// Every register seen has been written.
    pub open spec fn registers_written(&self) -> bool {
        forall|i: int| 0 <= i < self.normalizer.open_registers().len() ==> (#[trigger] self.normalizer.open_registers()[i]) is Some
    }

    pub fn new(stage: St) -> (r: Self)
        requires
            stage.ready(),
        ensures
            r.inv(),
            r.stage == stage,
            r.error is None,
            r.start@ == stage,
            r.seen@.len() == 0,
    {
        let normalizer = Normalizer::new();
        let ghost trace = seq![(stage, normalizer, None::<IndexError>)];
        Normalize { stage, normalizer, error: None, seen: Ghost(Seq::empty()), start: Ghost(stage), trace: Ghost(trace) }
    }

    /// Hand the normalized events over to the stage, up to the first error.
    fn hand_over(&mut self, out: &Vec<Event<St::Data>>) -> (r: Result<(), IndexError>)
        requires
            old(self).stage.ready(),
        ensures
            final(self).stage.ready(),
            final(self).normalizer == old(self).normalizer,
            final(self).error == old(self).error,
            final(self).seen == old(self).seen,
            final(self).start == old(self).start,
            final(self).trace == old(self).trace,
            r is Ok ==> took_all(old(self).stage, out@, final(self).stage),
            r matches Err(e) ==> refused_at(old(self).stage, out@, final(self).stage, e),
    {
        let mut i: usize = 0;
        let ghost mut states: Seq<St> = seq![self.stage];
        proof {
            assert(runs_through(old(self).stage, out@.take(0), states, self.stage));
        }
        while i < out.len()
            invariant
                i <= out@.len(),
                self.stage.ready(),
                self.normalizer == old(self).normalizer,
                self.error == old(self).error,
                self.seen == old(self).seen,
                self.start == old(self).start,
                self.trace == old(self).trace,
                runs_through(old(self).stage, out@.take(i as int), states, self.stage),
            decreases out@.len() - i,
        {
            let ghost prev = self.stage;
            let res = self.stage.take(&out[i]);
            assert(prev.took(out@[i as int], self.stage, res));
            match res {
                Ok(()) => {
                    proof {
                        let t = out@.take(i + 1);
                        assert(res is Ok && res->Ok_0 == ());
                        let states1 = states.push(self.stage);
                        assert forall|k: int| 0 <= k < t.len() implies #[trigger] states1[k].took(t[k], states1[k + 1], Ok(())) by {
                            if k < i {
                                assert(states1[k] == states[k] && states1[k + 1] == states[k + 1]);
                                assert(t[k] == out@.take(i as int)[k]);
                            } else {
                                assert(states1[k] == prev && states1[k + 1] == self.stage);
                            }
                        }
                        states = states1;
                        assert(runs_through(old(self).stage, t, states, self.stage));
                    }
                },
                Err(e) => {
                    proof {
                        assert(took_all(old(self).stage, out@.take(i as int), prev));
                        assert(res == Err::<(), IndexError>(e));
                    }
                    return Err(e);
                },
            }
            i = i + 1;
        }
        proof {
            assert(out@.take(i as int) =~= out@);
            assert(took_all(old(self).stage, out@, self.stage));
        }
        Ok(())
    }

    /// Normalize one raw event: memory accesses are checked, their data mapped, and they
    /// are cut into disjoint writes; register writes close the register's last leaf.
    fn normalize(&mut self, event: RawEvent<'_>, out: &mut Vec<Event<St::Data>>) -> (r: Result<(), IndexError>)
        requires
            old(self).stage.ready(),
            old(self).normalizer.inv(),
        ensures
            final(self).stage.ready(),
            final(self).normalizer.inv(),
            final(self).error == old(self).error,
            final(self).seen == old(self).seen,
            final(self).start == old(self).start,
            final(self).trace == old(self).trace,
            normalize_step(
                old(self).stage,
                old(self).normalizer,
                raw_view(event),
                final(self).stage,
                final(self).normalizer,
                old(out)@,
                final(out)@,
                r,
            ),
    {
        match event {
            RawEvent::AslrSlide(slide) => {
                self.normalizer.push_slide(slide, out);
                Ok(())
            },
            RawEvent::TimedEvent { time, event: timed } => {
                if time < self.normalizer.current_time() {
                    return Err(IndexError::TimeBackwards);
                }
                match timed {
                    TimedRawEvent::Memory { addr, bytes, mode } => {
                        if bytes.len() == 0 {
                            return Err(IndexError::EmptyAccess);
                        }
                        let last = bytes.len() as u64 - 1;
                        if addr > u64::MAX - last {
                            return Err(IndexError::AddressOverflow);
                        }
                        let ghost prev = self.stage;
                        let res = self.stage.data_of(bytes);
                        assert(prev.mapped(bytes@, self.stage, res));
                        let data = match res {
                            Ok(d) => d,
                            Err(e) => {
                                return Err(e);
                            },
                        };
                        self.normalizer.push_memory(time, addr, bytes, mode, data, out);
                        Ok(())
                    },
                    TimedRawEvent::Register { name, value } => {
                        let ghost prev = self.stage;
                        let res = self.stage.register_index(name);
                        assert(prev.indexed(name@, self.stage, res));
                        let idx = match res {
                            Ok(i) => i,
                            Err(e) => {
                                assert(register_step(prev, self.normalizer, time, name@, value, self.stage, self.normalizer, out@, out@, Err(e)));
                                return Err(e);
                            },
                        };
                        self.normalizer.push_register(time, idx, value, out);
                        Ok(())
                    },
                }
            },
        }
    }

    /// The stage once the trace is over: open writes and register leaves are closed
    /// and handed over.
    #[verifier::loop_isolation(false)]
    pub fn finish(self) -> (r: Result<St, IndexError>)
        requires
            self.inv(),
        ensures
            r matches Ok(st) ==> st.ready(),
            finished(self.stage, self.normalizer, self.error, r),
    {
        match self.error {
            Some(e) => {
                return Err(e);
            },
            None => {},
        }
        let ghost old_self = self;
        let Normalize { stage, normalizer, error: _, seen: _, start: _, trace: _ } = self;
        if !normalizer.registers_open() {
            return Err(IndexError::RegisterNeverWritten);
        }
        let mut out: Vec<Event<St::Data>> = Vec::new();
        normalizer.finish(&mut out);
        let ghost events = out@;
        let mut stage = stage;
        let mut i: usize = 0;
        let ghost mut states: Seq<St> = seq![stage];
        proof {
            assert(runs_through(old_self.stage, events.take(0), states, stage));
        }
        while i < out.len()
            invariant
                i <= out@.len(),
                events == out@,
                stage.ready(),
                runs_through(old_self.stage, events.take(i as int), states, stage),
            decreases out@.len() - i,
        {
            let ghost prev = stage;
            let res = stage.take(&out[i]);
            match res {
                Ok(()) => {
                    proof {
                        let t = events.take(i + 1);
                        assert(res is Ok && res->Ok_0 == ());
                        let states1 = states.push(stage);
                        assert forall|k: int| 0 <= k < t.len() implies #[trigger] states1[k].took(t[k], states1[k + 1], Ok(())) by {
                            if k < i {
                                assert(states1[k] == states[k] && states1[k + 1] == states[k + 1]);
                                assert(t[k] == events.take(i as int)[k]);
                            } else {
                                assert(states1[k] == prev && states1[k + 1] == stage);
                            }
                        }
                        states = states1;
                        assert(runs_through(old_self.stage, t, states, stage));
                    }
                },
                Err(e) => {
                    proof {
                        assert(took_all(old_self.stage, events.take(i as int), prev));
                        assert(res == Err::<(), IndexError>(e));
                        assert(refused_at(old_self.stage, events, stage, e));
                    }
                    return Err(e);
                },
            }
            i = i + 1;
        }
        proof {
            assert(events.take(i as int) =~= events);
            assert(took_all(old_self.stage, events, stage));
        }
        Ok(stage)
    }
}

impl<St: Stage> EventSink for Normalize<St> {
    type Origin = St;

    open spec fn origin(&self) -> St {
        self.start@
    }

    open spec fn inv(&self) -> bool {
        &&& self.stage.ready()
        &&& self.normalizer.inv()
        &&& runs_events(self.start@, self.seen@, self.trace@)
        &&& self.trace@.last() == (self.stage, self.normalizer, self.error)
    }

    open spec fn received(&self) -> Seq<EventView> {
        self.seen@
    }

    /// Once an event is refused, the rest are passed over; else the event is normalized,
    /// and the events that come of it are handed to the stage.
    fn emit(&mut self, event: RawEvent<'_>)
        ensures
            emit_step(
                old(self).stage,
                old(self).normalizer,
                old(self).error,
                raw_view(event),
                final(self).stage,
                final(self).normalizer,
                final(self).error,
            ),
    {
        let ghost s0 = self.stage;
        let ghost n0 = self.normalizer;
        let ghost e0 = self.error;
        let ghost seen0 = self.seen@;
        let ghost trace0 = self.trace@;
        if self.error.is_none() {
            let mut out: Vec<Event<St::Data>> = Vec::new();
            let res = self.normalize(event, &mut out);
            let ghost mid = self.stage;
            assert(normalize_step(s0, n0, raw_view(event), mid, self.normalizer, Seq::empty(), out@, res));
            match res {
                Ok(()) => {
                    assert(res is Ok && res->Ok_0 == ());
                    match self.hand_over(&out) {
                        Ok(()) => {
                            assert(handed(mid, out@, self.stage, self.error));
                        },
                        Err(e) => {
                            self.error = Some(e);
                            assert(handed(mid, out@, self.stage, self.error));
                        },
                    }
                },
                Err(e) => {
                    self.error = Some(e);
                },
            }
        }
        proof {
            assert(emit_step(s0, n0, e0, raw_view(event), self.stage, self.normalizer, self.error));
            let ev = raw_view(event);
            let seen1 = seen0.push(ev);
            let trace1 = trace0.push((self.stage, self.normalizer, self.error));
            assert forall|i: int| 0 <= i < seen1.len() implies #[trigger] emit_step(
                trace1[i].0,
                trace1[i].1,
                trace1[i].2,
                seen1[i],
                trace1[i + 1].0,
                trace1[i + 1].1,
                trace1[i + 1].2,
            ) by {
                if i < seen0.len() {
                    assert(trace1[i] == trace0[i] && trace1[i + 1] == trace0[i + 1] && seen1[i] == seen0[i]);
                } else {
                    assert(trace1[i] == trace0.last() && trace1[i + 1] == (self.stage, self.normalizer, self.error));
                }
            }
            self.seen = Ghost(seen1);
            self.trace = Ghost(trace1);
            assert(runs_events(self.start@, self.seen@, self.trace@));
        }
    }
}

/// Parse the trace, normalize its events and hand them to the stage: the stage once
/// every event is handed over, or the first error.
pub fn parse_and_normalize_events<T: TraceParser, P: ProgressReporter, St: Stage>(
    parser: &mut T,
    progress: &mut P,
    stage: St,
) -> (r: Result<St, IndexError>)
    requires
        stage.ready(),
    ensures
        r matches Ok(st) ==> st.ready(),
        exists|trace: Seq<(St, Normalizer<St::Data>, Option<IndexError>)>|
            #[trigger] pipeline(stage, old(parser).events(), trace, r),
        final(parser).events() == old(parser).events(),
{
    let mut sink = Normalize::new(stage);
    parser.parse(progress, &mut sink);
    assert(sink.seen@ =~= old(parser).events());
    let ghost trace = sink.trace@;
    let r = sink.finish();
    assert(pipeline(stage, old(parser).events(), trace, r));
    r
}

/// The first pass: zones, registers and sizes.
pub struct ScoutStage {
    pub scout: ScoutPass,
    pub alsr_slide: Option<Addr>,
}

impl Stage for ScoutStage {
    type Data = NoData;

    open spec fn ready(&self) -> bool {
        self.scout.inv()
    }

    /// The register's index in the names seen so far; a new name is added last.
    open spec fn indexed(&self, name: Seq<char>, next: Self, r: Result<usize, IndexError>) -> bool {
        let (o, n) = (self.scout, next.scout);
        &&& next.alsr_slide == self.alsr_slide
        &&& n.data_section_required_bytes == o.data_section_required_bytes
        &&& n.write_zones == o.write_zones
        &&& n.read_zones == o.read_zones
        &&& n.registers == o.registers
        &&& r matches Ok(i)
        &&& i < n.reg_name_mapping@.len()
        &&& n.reg_name_mapping@[i as int]@ == name
        &&& forall|k: int| 0 <= k < i ==> (#[trigger] n.reg_name_mapping@[k])@ != name
        &&& i < o.reg_name_mapping@.len() ==> n.reg_name_mapping@ == o.reg_name_mapping@
        &&& i == o.reg_name_mapping@.len() ==> n.reg_name_mapping@.drop_last() == o.reg_name_mapping@
    }

    /// The bytes of a write of more than 8 bytes are counted in the data section.
    open spec fn mapped(&self, bytes: Seq<u8>, next: Self, r: Result<NoData, IndexError>) -> bool {
        let (o, n) = (self.scout, next.scout);
        &&& next.alsr_slide == self.alsr_slide
        &&& n.write_zones == o.write_zones
        &&& n.read_zones == o.read_zones
        &&& n.registers == o.registers
        &&& n.reg_name_mapping == o.reg_name_mapping
        &&& r is Ok <==> (bytes.len() <= 8 || o.data_section_required_bytes + bytes.len() <= usize::MAX)
        &&& r is Ok ==> n.data_section_required_bytes == if bytes.len() > 8 {
            o.data_section_required_bytes + bytes.len()
        } else {
            o.data_section_required_bytes as int
        }
        &&& r is Err ==> r == Err::<NoData, IndexError>(IndexError::Scout(ScoutError::Overflow))
    }

    /// The event counted by the first pass (see `scout_consumed`).
    open spec fn took(&self, event: Event<NoData>, next: Self, r: Result<(), IndexError>) -> bool {
        match r {
            Ok(()) => scout_consumed(self.scout, self.alsr_slide, event, next.scout, next.alsr_slide, Ok(())),
            Err(IndexError::Scout(e)) => scout_consumed(self.scout, self.alsr_slide, event, next.scout, next.alsr_slide, Err(e)),
            Err(_) => false,
        }
    }

    fn register_index(&mut self, name: &str) -> (r: Result<usize, IndexError>) {
        let i = self.scout.reg_index(name);
        let _count = self.scout.reg_name_mapping.len();
        Ok(i)
    }

    fn data_of(&mut self, bytes: &[u8]) -> (r: Result<NoData, IndexError>) {
        match self.scout.map_data(bytes.len()) {
            Ok(()) => Ok(NoData),
            Err(e) => Err(IndexError::Scout(e)),
        }
    }

    fn take(&mut self, event: &Event<NoData>) -> (r: Result<(), IndexError>) {
        match self.scout.consume(event, &mut self.alsr_slide) {
            Ok(()) => Ok(()),
            Err(e) => Err(IndexError::Scout(e)),
        }
    }
}

/// The index of the register named `name`, if the first pass saw it.
pub fn find_register(names: &Vec<String>, name: &str) -> (r: Option<usize>)
    ensures
        r matches Some(i) ==> i < names@.len() && names@[i as int]@ == name@,
        r is None ==> forall|k: int| 0 <= k < names@.len() ==> (#[trigger] names@[k])@ != name@,
{
    let wanted = name.to_owned();
    let mut i: usize = 0;
    while i < names.len()
        invariant
            i <= names@.len(),
            wanted@ == name@,
            forall|k: int| 0 <= k < i ==> (#[trigger] names@[k])@ != name@,
        decreases names@.len() - i,
    {
        if names[i] == wanted {
            return Some(i);
        }
        i = i + 1;
    }
    None
}

/// The second pass: leaves counted per Hilbert partition.
pub struct PartitionStage<'a> {
    pub scout: &'a ScoutPass,
    pub pass: HilbertPartitionPass,
}

impl<'a> Stage for PartitionStage<'a> {
    type Data = NoData;

    open spec fn ready(&self) -> bool {
        &&& self.scout.inv()
        &&& self.pass.inv()
        &&& self.pass.write_zones@.len() == self.scout.write_zones@.len()
        &&& self.pass.read_zones@.len() == self.scout.read_zones@.len()
        &&& self.pass.registers@.len() == self.scout.registers@.len()
    }

    /// The register's index among the names of the first pass; an unknown name fails.
    open spec fn indexed(&self, name: Seq<char>, next: Self, r: Result<usize, IndexError>) -> bool {
        let names = self.scout.reg_name_mapping@;
        &&& next == *self
        &&& match r {
            Ok(i) => i < names.len() && names[i as int]@ == name,
            Err(e) => e == IndexError::UnknownRegister && forall|k: int| 0 <= k < names.len() ==> (#[trigger] names[k])@ != name,
        }
    }

    /// No data is kept.
    open spec fn mapped(&self, bytes: Seq<u8>, next: Self, r: Result<NoData, IndexError>) -> bool {
        next == *self && r is Ok
    }

    /// The event counted in its partition (see `partition_consumed`).
    open spec fn took(&self, event: Event<NoData>, next: Self, r: Result<(), IndexError>) -> bool {
        &&& next.scout == self.scout
        &&& match r {
            Ok(()) => partition_consumed(self.pass, event, *self.scout, next.pass, Ok(())),
            Err(IndexError::Partition(e)) => partition_consumed(self.pass, event, *self.scout, next.pass, Err(e)),
            Err(_) => false,
        }
    }

    fn register_index(&mut self, name: &str) -> (r: Result<usize, IndexError>) {
        let _count = self.scout.reg_name_mapping.len();
        match find_register(&self.scout.reg_name_mapping, name) {
            Some(i) => Ok(i),
            None => Err(IndexError::UnknownRegister),
        }
    }

    fn data_of(&mut self, bytes: &[u8]) -> (r: Result<NoData, IndexError>) {
        Ok(NoData)
    }

    fn take(&mut self, event: &Event<NoData>) -> (r: Result<(), IndexError>) {
        match self.pass.consume(event, self.scout) {
            Ok(()) => Ok(()),
            Err(e) => Err(IndexError::Partition(e)),
        }
    }
}

/// The third pass: leaves sorted into their partitions, data placed.
pub struct FillStage<'a> {
    pub scout: &'a ScoutPass,
    pub filler: Filler,
}

impl<'a> Stage for FillStage<'a> {
    type Data = MaybeInlined;

    open spec fn ready(&self) -> bool {
        &&& self.scout.inv()
        &&& self.filler.inv()
        &&& self.filler.write_zones@.len() == self.scout.write_zones@.len()
        &&& self.filler.read_zones@.len() == self.scout.read_zones@.len()
    }

    /// The register's index among the names of the first pass; an unknown name fails.
    open spec fn indexed(&self, name: Seq<char>, next: Self, r: Result<usize, IndexError>) -> bool {
        let names = self.scout.reg_name_mapping@;
        &&& next == *self
        &&& match r {
            Ok(i) => i < names.len() && names[i as int]@ == name,
            Err(e) => e == IndexError::UnknownRegister && forall|k: int| 0 <= k < names.len() ==> (#[trigger] names[k])@ != name,
        }
    }

    /// The bytes placed, or inlined (see `fill_mapped`).
    open spec fn mapped(&self, bytes: Seq<u8>, next: Self, r: Result<MaybeInlined, IndexError>) -> bool {
        &&& next.scout == self.scout
        &&& match r {
            Ok(d) => fill_mapped(self.filler, bytes, next.filler, Ok(d)),
            Err(IndexError::Fill(e)) => fill_mapped(self.filler, bytes, next.filler, Err(e)),
            Err(_) => false,
        }
    }

    /// The event sorted into its partition (see `fill_consumed`).
    open spec fn took(&self, event: Event<MaybeInlined>, next: Self, r: Result<(), IndexError>) -> bool {
        &&& next.scout == self.scout
        &&& match r {
            Ok(()) => fill_consumed(self.filler, event, *self.scout, next.filler, Ok(())),
            Err(IndexError::Fill(e)) => fill_consumed(self.filler, event, *self.scout, next.filler, Err(e)),
            Err(_) => false,
        }
    }

    fn register_index(&mut self, name: &str) -> (r: Result<usize, IndexError>) {
        let _count = self.scout.reg_name_mapping.len();
        match find_register(&self.scout.reg_name_mapping, name) {
            Some(i) => Ok(i),
            None => Err(IndexError::UnknownRegister),
        }
    }

    fn data_of(&mut self, bytes: &[u8]) -> (r: Result<MaybeInlined, IndexError>) {
        match self.filler.map_data(bytes) {
            Ok(d) => Ok(d),
            Err(e) => Err(IndexError::Fill(e)),
        }
    }

    fn take(&mut self, event: &Event<MaybeInlined>) -> (r: Result<(), IndexError>) {
        match self.filler.consume(event, self.scout) {
            Ok(()) => Ok(()),
            Err(e) => Err(IndexError::Fill(e)),
        }
    }
}


/// Every tree of the list has few enough nodes and leaves for its node count to fit.
fn trees_fit<N>(trees: &Vec<RTreeScout<N>>) -> (r: bool)
    ensures
        r == forall|i: int| 0 <= i < trees@.len() ==> (#[trigger] trees@[i]).node_count <= usize::MAX / 2
            && trees@[i].leaf_count <= usize::MAX / 4,
{
    let mut i: usize = 0;
    while i < trees.len()
        invariant
            i <= trees@.len(),
            forall|k: int| 0 <= k < i ==> (#[trigger] trees@[k]).node_count <= usize::MAX / 2 && trees@[k].leaf_count
                <= usize::MAX / 4,
        decreases trees@.len() - i,
    {
        if trees[i].node_count > usize::MAX / 2 || trees[i].leaf_count > usize::MAX / 4 {
            return false;
        }
        i = i + 1;
    }
    true
}

proof fn lemma_trees_count_fit<N>(trees: Seq<RTreeScout<N>>, g: int)
    requires
        g >= 2,
        forall|i: int| 0 <= i < trees.len() ==> (#[trigger] trees[i]).node_count <= usize::MAX / 2 && trees[i].leaf_count
            <= usize::MAX / 4,
    ensures
        forall|i: int| 0 <= i < trees.len() ==> (#[trigger] trees[i]).node_count + nodes_above(trees[i].leaf_count as int, g)
            <= usize::MAX,
{
    assert forall|i: int| 0 <= i < trees.len() implies (#[trigger] trees[i]).node_count + nodes_above(
        trees[i].leaf_count as int,
        g,
    ) <= usize::MAX by {
        crate::index::scout::lemma_nodes_above_bound(trees[i].leaf_count as int, g);
    }
}

/// Every tree has few enough nodes and leaves for its node count to fit.
pub open spec fn trees_fit_spec<N>(trees: Seq<RTreeScout<N>>) -> bool {
    forall|i: int| 0 <= i < trees.len() ==> (#[trigger] trees[i]).node_count <= usize::MAX / 2
        && trees[i].leaf_count <= usize::MAX / 4
}

/// What the first pass refuses once every event is counted: a register name without a
/// tree, or trees too large to count their nodes.
pub open spec fn scout_check(st: ScoutStage) -> Option<IndexError> {
    if st.scout.reg_name_mapping@.len() != st.scout.registers@.len() {
        Some(IndexError::UnknownRegister)
    } else if !(trees_fit_spec(st.scout.write_zones@) && trees_fit_spec(st.scout.read_zones@) && trees_fit_spec(
        st.scout.registers@,
    )) {
        Some(IndexError::TooLarge)
    } else {
        None
    }
}

/// The second pass has a tree for each tree of the first.
pub open spec fn partition_lengths_match(p: HilbertPartitionPass, scout: ScoutPass) -> bool {
    &&& p.write_zones@.len() == scout.write_zones@.len()
    &&& p.read_zones@.len() == scout.read_zones@.len()
    &&& p.registers@.len() == scout.registers@.len()
}

/// What the third pass refuses once every event is sorted: trees or a data section that
/// do not match the first two passes, or a write leaf that found no place.
pub open spec fn fill_check(f: Filler, scout: ScoutPass, partitions: HilbertPartitionPass) -> Option<IndexError> {
    if !(f.write_zones@.len() == scout.write_zones@.len() && f.read_zones@.len() == scout.read_zones@.len()
        && f.registers@.len() == partitions.registers@.len() && f.dedup.room()
        == scout.data_section_required_bytes) {
        Some(IndexError::Inconsistent)
    } else if !trees_complete::<MemWriteSpec>(f.write_zones@) {
        Some(IndexError::Fill(FillError::Incomplete))
    } else {
        None
    }
}

/// The first pass accepts the events and keeps `s` and `m` of its stage.
pub open spec fn scout_accepted(events: Seq<EventView>, g: int, s: ScoutPass, m: Metadata) -> bool {
    exists|start: ScoutStage, trace: Seq<(ScoutStage, Normalizer<NoData>, Option<IndexError>)>, st: ScoutStage|
        #[trigger] pipeline(start, events, trace, Ok(st)) && scout_fresh(start) && scout_check(st) is None
            && scouted(st, s, m, g)
}

/// The first pass refuses the events with `e`: its stage refuses one, or refuses what it
/// counted.
pub open spec fn scout_refused(events: Seq<EventView>, e: IndexError) -> bool {
    exists|start: ScoutStage, trace: Seq<(ScoutStage, Normalizer<NoData>, Option<IndexError>)>, r1: Result<ScoutStage, IndexError>|
        #[trigger] pipeline(start, events, trace, r1) && scout_fresh(start) && match r1 {
            Err(e1) => e == e1,
            Ok(st) => scout_check(st) == Some(e),
        }
}

/// The second pass, over the first pass `scout`, accepts the events and counts `p`.
pub open spec fn partitions_accepted<'a>(events: Seq<EventView>, scout: &'a ScoutPass, p: HilbertPartitionPass) -> bool {
    exists|start: PartitionStage<'a>, trace: Seq<(PartitionStage<'a>, Normalizer<NoData>, Option<IndexError>)>, st: PartitionStage<'a>|
        #[trigger] pipeline(start, events, trace, Ok(st)) && start.scout == scout && partitions_fresh(start.pass, *scout)
            && p == st.pass && partition_lengths_match(st.pass, *scout)
}

/// The second pass refuses the events with `e`.
pub open spec fn partitions_refused<'a>(events: Seq<EventView>, scout: &'a ScoutPass, e: IndexError) -> bool {
    exists|
        start: PartitionStage<'a>,
        trace: Seq<(PartitionStage<'a>, Normalizer<NoData>, Option<IndexError>)>,
        r1: Result<PartitionStage<'a>, IndexError>,
    |
        #[trigger] pipeline(start, events, trace, r1) && start.scout == scout && partitions_fresh(start.pass, *scout)
            && match r1 {
            Err(e1) => e == e1,
            Ok(st) => e == IndexError::Inconsistent && !partition_lengths_match(st.pass, *scout),
        }
}

/// The third pass, over `scout` and `partitions`, accepts the events and fills `f`.
pub open spec fn fill_accepted<'a>(events: Seq<EventView>, scout: &'a ScoutPass, partitions: HilbertPartitionPass, f: Filler) -> bool {
    exists|start: FillStage<'a>, trace: Seq<(FillStage<'a>, Normalizer<MaybeInlined>, Option<IndexError>)>, st: FillStage<'a>|
        #[trigger] pipeline(start, events, trace, Ok(st)) && start.scout == scout && filler_fresh(start.filler, *scout, partitions)
            && f == st.filler && fill_check(st.filler, *scout, partitions) is None
}

/// The third pass refuses the events with `e`.
pub open spec fn fill_refused<'a>(events: Seq<EventView>, scout: &'a ScoutPass, partitions: HilbertPartitionPass, e: IndexError) -> bool {
    exists|
        start: FillStage<'a>,
        trace: Seq<(FillStage<'a>, Normalizer<MaybeInlined>, Option<IndexError>)>,
        r1: Result<FillStage<'a>, IndexError>,
    |
        #[trigger] pipeline(start, events, trace, r1) && start.scout == scout && filler_fresh(start.filler, *scout, partitions)
            && match r1 {
            Err(e1) => e == e1,
            Ok(st) => fill_check(st.filler, *scout, partitions) == Some(e),
        }
}

/// The first pass before any event: nothing counted, no slide.
pub open spec fn scout_fresh(start: ScoutStage) -> bool {
    &&& start.scout.inv()
    &&& start.scout.reg_name_mapping@.len() == 0
    &&& start.scout.data_section_required_bytes == 0
    &&& start.scout.metadata_json@.len() == 0
    &&& start.scout.write_zones@.len() == 0
    &&& start.scout.read_zones@.len() == 0
    &&& start.scout.registers@.len() == 0
    &&& start.alsr_slide is None
}

/// `s` and `m` are what the first pass keeps of the stage `st` once every event is
/// counted: its registers and data size, each tree counted with nodes of `g` entries,
/// the last slide and the register names by index.
pub open spec fn scouted(st: ScoutStage, s: ScoutPass, m: Metadata, g: int) -> bool {
    &&& s.reg_name_mapping == st.scout.reg_name_mapping
    &&& s.data_section_required_bytes == st.scout.data_section_required_bytes
    &&& s.write_zones@.len() == st.scout.write_zones@.len()
    &&& s.read_zones@.len() == st.scout.read_zones@.len()
    &&& s.registers@.len() == st.scout.registers@.len()
    &&& forall|i: int| 0 <= i < s.write_zones@.len() ==> counted(#[trigger] st.scout.write_zones@[i], s.write_zones@[i], g)
    &&& forall|i: int| 0 <= i < s.read_zones@.len() ==> counted(#[trigger] st.scout.read_zones@[i], s.read_zones@[i], g)
    &&& forall|i: int| 0 <= i < s.registers@.len() ==> counted(#[trigger] st.scout.registers@[i], s.registers@[i], g)
    &&& m.alsr_slide == st.alsr_slide
    &&& m.register_names@.len() == st.scout.reg_name_mapping@.len()
    &&& forall|i: int| 0 <= i < m.register_names@.len() ==> (#[trigger] m.register_names@[i])@ == st.scout.reg_name_mapping@[i]@
    &&& s.metadata_json@ == metadata_json_text(m.alsr_slide, m.register_names@)
}

/// The second pass before any event: the first pass's trees with empty partitions.
pub open spec fn partitions_fresh(p: HilbertPartitionPass, scout: ScoutPass) -> bool {
    &&& p.inv()
    &&& p.write_zones@.len() == scout.write_zones@.len()
    &&& p.read_zones@.len() == scout.read_zones@.len()
    &&& p.registers@.len() == scout.registers@.len()
    &&& forall|i: int| 0 <= i < p.write_zones@.len() ==> (#[trigger] p.write_zones@[i]).bbox == scout.write_zones@[i].bbox
        && p.write_zones@[i].partitions@ == empty_partitions()
    &&& forall|i: int| 0 <= i < p.read_zones@.len() ==> (#[trigger] p.read_zones@[i]).bbox == scout.read_zones@[i].bbox
        && p.read_zones@[i].partitions@ == empty_partitions()
    &&& forall|i: int| 0 <= i < p.registers@.len() ==> (#[trigger] p.registers@[i]).bbox == scout.registers@[i].bbox
        && p.registers@[i].partitions@ == empty_partitions()
}

/// The metadata written as `serde_json` writes it: a JSON object whose field
/// `alsr_slide` holds the slide or `null` and whose field `register_names` holds the names
/// in order.
pub uninterp spec fn metadata_json_text(slide: Option<u64>, names: Seq<String>) -> Seq<char>;

/// `serde_json`: the metadata as a JSON object of its two fields (`Value::to_string`).
#[verifier::external_body]
fn encode_metadata(slide: Option<u64>, names: &Vec<String>) -> (r: String)
    ensures
        r@ == metadata_json_text(slide, names@),
{
    let mut fields = serde_json::Map::new();
    fields.insert("alsr_slide".to_string(), serde_json::Value::from(slide));
    fields.insert("register_names".to_string(), serde_json::Value::from(names.clone()));
    serde_json::Value::Object(fields).to_string()
}

/// The first pass over the trace: the zones of memory accesses, the registers, the size of
/// the data section, then each tree's node count and levels; with the metadata: the last
/// ASLR slide and the register names by index.
pub fn scout_pass<T: TraceParser, P: ProgressReporter>(parser: &mut T, progress: &mut P, node_size_order: u8) -> (r: Result<(ScoutPass, Metadata), IndexError>)
    requires
        1 <= node_size_order <= 16,
    ensures
        r matches Ok((s, m)) ==> {
            &&& s.inv()
            &&& m.register_names@.len() == s.registers@.len() == s.reg_name_mapping@.len()
            &&& forall|i: int| 0 <= i < m.register_names@.len() ==> (#[trigger] m.register_names@[i])@ == s.reg_name_mapping@[i]@
            &&& scout_accepted(old(parser).events(), pow2(node_size_order as nat) as int, s, m)
        },
        r matches Err(e) ==> scout_refused(old(parser).events(), e),
        final(parser).events() == old(parser).events(),
{
    let start = ScoutStage { scout: ScoutPass::new(), alsr_slide: None };
    let ghost start_g = start;
    let r1 = parse_and_normalize_events(parser, progress, start);
    let ghost trace = choose|trace: Seq<(ScoutStage, Normalizer<NoData>, Option<IndexError>)>|
        #[trigger] pipeline(start_g, old(parser).events(), trace, r1);
    assert(pipeline(start_g, old(parser).events(), trace, r1));
    let stage = match r1 {
        Ok(st) => st,
        Err(e) => {
            return Err(e);
        },
    };
    let ghost st_g = stage;
    let ScoutStage { scout, alsr_slide } = stage;
    let mut scout = scout;
    if scout.reg_name_mapping.len() != scout.registers.len() {
        assert(scout_check(st_g) == Some(IndexError::UnknownRegister));
        return Err(IndexError::UnknownRegister);
    }
    let mut register_names: Vec<String> = Vec::new();
    let mut i: usize = 0;
    while i < scout.reg_name_mapping.len()
        invariant
            i <= scout.reg_name_mapping@.len(),
            register_names@.len() == i,
            forall|k: int| 0 <= k < i ==> (#[trigger] register_names@[k])@ == scout.reg_name_mapping@[k]@,
        decreases scout.reg_name_mapping@.len() - i,
    {
        register_names.push(scout.reg_name_mapping[i].clone());
        i = i + 1;
    }
    if !(trees_fit(&scout.write_zones) && trees_fit(&scout.read_zones) && trees_fit(&scout.registers)) {
        assert(scout_check(st_g) == Some(IndexError::TooLarge));
        return Err(IndexError::TooLarge);
    }
    assert(scout_check(st_g) is None);
    proof {
        lemma_pow2_ge2(node_size_order as nat);
        let g = pow2(node_size_order as nat) as int;
        lemma_trees_count_fit(scout.write_zones@, g);
        lemma_trees_count_fit(scout.read_zones@, g);
        lemma_trees_count_fit(scout.registers@, g);
    }
    let ghost before = scout;
    scout.compute_node_counts(node_size_order);
    proof {
        let g = pow2(node_size_order as nat) as int;
        assert forall|i: int| 0 <= i < scout.write_zones@.len() implies (#[trigger] scout.write_zones@[i]).bbox == before.write_zones@[i].bbox by {
            assert(crate::index::scout::counted(before.write_zones@[i], scout.write_zones@[i], g));
        }
        assert forall|i: int| 0 <= i < scout.read_zones@.len() implies (#[trigger] scout.read_zones@[i]).bbox == before.read_zones@[i].bbox by {
            assert(crate::index::scout::counted(before.read_zones@[i], scout.read_zones@[i], g));
        }
        assert forall|i: int| 0 <= i < scout.registers@.len() implies (#[trigger] scout.registers@[i]).bbox == before.registers@[i].bbox
            && scout.registers@[i].leaf_count == before.registers@[i].leaf_count by {
            assert(crate::index::scout::counted(before.registers@[i], scout.registers@[i], g));
        }
        lemma_counted_levels_fit(before.write_zones@, scout.write_zones@, g);
        lemma_counted_levels_fit(before.read_zones@, scout.read_zones@, g);
        lemma_counted_levels_fit(before.registers@, scout.registers@, g);
        assert(scout.inv());
    }
    scout.metadata_json = encode_metadata(alsr_slide, &register_names);
    let metadata = Metadata { alsr_slide, register_names };
    proof {
        assert(scouted(st_g, scout, metadata, pow2(node_size_order as nat) as int));
        assert(pipeline(start_g, old(parser).events(), trace, Ok::<ScoutStage, IndexError>(st_g)));
    }
    Ok((scout, metadata))
}

/// The second pass over the trace: the leaves of every tree counted per Hilbert partition.
pub fn hilbert_partition_pass<'a, T: TraceParser, P: ProgressReporter>(
    parser: &mut T,
    progress: &mut P,
    scout: &'a ScoutPass,
) -> (r: Result<HilbertPartitionPass, IndexError>)
    requires
        scout.inv(),
    ensures
        r matches Ok(p) ==> {
            &&& p.inv()
            &&& p.write_zones@.len() == scout.write_zones@.len()
            &&& p.read_zones@.len() == scout.read_zones@.len()
            &&& p.registers@.len() == scout.registers@.len()
            &&& partitions_accepted(old(parser).events(), scout, p)
        },
        r matches Err(e) ==> partitions_refused(old(parser).events(), scout, e),
        final(parser).events() == old(parser).events(),
{
    let pass = HilbertPartitionPass::new(scout);
    let start = PartitionStage { scout, pass };
    let ghost start_g = start;
    let r1 = parse_and_normalize_events(parser, progress, start);
    let ghost trace = choose|trace: Seq<(PartitionStage<'a>, Normalizer<NoData>, Option<IndexError>)>|
        #[trigger] pipeline(start_g, old(parser).events(), trace, r1);
    assert(pipeline(start_g, old(parser).events(), trace, r1));
    let st = match r1 {
        Ok(st) => st,
        Err(e) => {
            return Err(e);
        },
    };
    let ghost st_g = st;
    let pass = st.pass;
    if pass.write_zones.len() != scout.write_zones.len() || pass.read_zones.len() != scout.read_zones.len()
        || pass.registers.len() != scout.registers.len() {
        return Err(IndexError::Inconsistent);
    }
    proof {
        assert(pipeline(start_g, old(parser).events(), trace, Ok::<PartitionStage<'a>, IndexError>(st_g)));
    }
    Ok(pass)
}

/// The third pass over the trace: every leaf sorted into its partition, the write data
/// placed in the data section; every write leaf must have found its place.
pub fn fill_pass<'a, T: TraceParser, P: ProgressReporter>(
    parser: &mut T,
    progress: &mut P,
    scout: &'a ScoutPass,
    partitions: &HilbertPartitionPass,
) -> (r: Result<(FillPass, Filler), IndexError>)
    requires
        scout.inv(),
        partitions.inv(),
        partitions.write_zones@.len() == scout.write_zones@.len(),
        partitions.read_zones@.len() == scout.read_zones@.len(),
    ensures
        r matches Ok((f, filler)) ==> {
            &&& filler.inv()
            &&& f.data_used == filler.dedup.section().len()
            &&& filler.dedup.room() == scout.data_section_required_bytes
            &&& trees_complete::<MemWriteSpec>(filler.write_zones@)
            &&& filler.write_zones@.len() == scout.write_zones@.len()
            &&& filler.read_zones@.len() == scout.read_zones@.len()
            &&& filler.registers@.len() == partitions.registers@.len()
            &&& fill_accepted(old(parser).events(), scout, *partitions, filler)
        },
        r matches Err(e) ==> fill_refused(old(parser).events(), scout, *partitions, e),
        final(parser).events() == old(parser).events(),
{
    let filler = Filler::new(scout, partitions);
    let start = FillStage { scout, filler };
    let ghost start_g = start;
    let r1 = parse_and_normalize_events(parser, progress, start);
    let ghost trace = choose|trace: Seq<(FillStage<'a>, Normalizer<MaybeInlined>, Option<IndexError>)>|
        #[trigger] pipeline(start_g, old(parser).events(), trace, r1);
    assert(pipeline(start_g, old(parser).events(), trace, r1));
    let stage = match r1 {
        Ok(st) => st,
        Err(e) => {
            return Err(e);
        },
    };
    let ghost st_g = stage;
    let filler = stage.filler;
    if filler.write_zones.len() != scout.write_zones.len() || filler.read_zones.len() != scout.read_zones.len()
        || filler.registers.len() != partitions.registers.len() || filler.dedup.room_exec()
        != scout.data_section_required_bytes {
        assert(fill_check(st_g.filler, *scout, *partitions) == Some(IndexError::Inconsistent));
        return Err(IndexError::Inconsistent);
    }
    if !filler.writes_complete() {
        assert(fill_check(st_g.filler, *scout, *partitions) == Some(IndexError::Fill(FillError::Incomplete)));
        return Err(IndexError::Fill(FillError::Incomplete));
    }
    let data_used = filler.dedup.bytes_used();
    proof {
        assert(pipeline(start_g, old(parser).events(), trace, Ok::<FillStage<'a>, IndexError>(st_g)));
    }
    Ok((FillPass { data_used }, filler))
}

/// The trees of a list in the file `img` hold, one for one, the leaves that the third
/// pass sorted into `trees`.
pub open spec fn file_leaves_hold<S: HilbertSpec>(img: Seq<u8>, list: RTreeList, trees: Seq<TreeFill<S>>) -> bool {
    let headers = section_items::<RTreeHeader>(img, list.headers);
    &&& headers.len() == trees.len()
    &&& forall|i: int|
        0 <= i < trees.len() ==> section_items::<S::Leaf>(img, (#[trigger] headers[i]).leaves) == tree_leaves::<S>(trees[i])
}

/// The three passes over the events `events`, with nodes of `g` entries, gave the first
/// pass `s` with the metadata `m`, the partitions `p` and the filled trees `f`.
pub open spec fn passes_over<'a>(
    events: Seq<EventView>,
    g: int,
    s: &'a ScoutPass,
    m: Metadata,
    p: HilbertPartitionPass,
    f: Filler,
) -> bool {
    &&& scout_accepted(events, g, *s, m)
    &&& partitions_accepted(events, s, p)
    &&& fill_accepted(events, s, p, f)
}

/// Laying out and writing the file, for the first pass `scout` and the passes `p` and `f`
/// that followed it, refuses with `e`: the file has room, and for a layout of it, its
/// trees do not fit their partitions, or the file cannot be written (see `image_fits`).
pub open spec fn written_refused(scout: ScoutPass, p: HilbertPartitionPass, f: Filler, order: u8, e: IndexError) -> bool {
    &&& layout_room(scout) <= usize::MAX
    &&& exists|layout: StorageLayout|
        #[trigger] laid_out(layout, scout, order) && {
            ||| !lists_fit(layout, p) && e == lists_error(layout, p)
            ||| exists|v: StorageViewMut|
                #[trigger] view_of(v, layout, p) && !image_fits(v, layout, scout, f, pow2(order as nat) as int) && e
                    == IndexError::Inconsistent
        }
}

/// Indexing refuses the events with `e`, for nodes of `2^order` entries: a pass refuses
/// them, the file the first pass describes has no room, or laying out and writing the
/// file refuses.
pub open spec fn index_refused<'a>(events: Seq<EventView>, order: u8, e: IndexError) -> bool {
    let g = pow2(order as nat) as int;
    ||| scout_refused(events, e)
    ||| exists|s: &'a ScoutPass, m: Metadata|
        #[trigger] scout_accepted(events, g, *s, m) && {
            ||| e == IndexError::TooLarge && layout_room(*s) > usize::MAX
            ||| partitions_refused(events, s, e)
            ||| exists|p: HilbertPartitionPass|
                #[trigger] partitions_accepted(events, s, p) && {
                    ||| fill_refused(events, s, p, e)
                    ||| exists|f: Filler| #[trigger] fill_accepted(events, s, p, f) && written_refused(*s, p, f, order, e)
                }
        }
}

/// Index a trace: the first pass finds the trees and their sizes, the file is laid out,
/// the second pass counts the leaves of each Hilbert partition, the third sorts them into
/// place, and the file is written with every tree's nodes built over its sorted leaves.
/// The file it gives loads; its metadata section holds the JSON of the last slide and the
/// register names by index.
pub fn build_index<T: TraceParser, P: ProgressReporter>(
    parser: &mut T,
    progress: &mut P,
    node_size_order: u8,
) -> (r: Result<Vec<u8>, IndexError>)
    requires
        1 <= node_size_order <= 16,
    ensures
        r matches Ok(img) ==> file_loads(img@),
        r matches Ok(img) ==> exists|s: &ScoutPass, m: Metadata, p: HilbertPartitionPass, f: Filler|
            #[trigger] passes_over(old(parser).events(), pow2(node_size_order as nat) as int, s, m, p, f) && {
                let h = file_header(img@);
                &&& m.register_names@.len() == s.reg_name_mapping@.len() == s.registers@.len()
                &&& forall|i: int| 0 <= i < m.register_names@.len() ==> (#[trigger] m.register_names@[i])@ == s.reg_name_mapping@[i]@
                &&& img@.subrange(h.metadata.start as int, h.metadata.end as int) == encode_utf8(
                    metadata_json_text(m.alsr_slide, m.register_names@),
                )
                &&& file_leaves_hold::<MemWriteSpec>(img@, h.write_zones, f.write_zones@)
                &&& file_leaves_hold::<MemReadSpec>(img@, h.read_zones, f.read_zones@)
                &&& file_leaves_hold::<RegSpec>(img@, h.registers, f.registers@)
            },
        r matches Err(e) ==> index_refused(old(parser).events(), node_size_order, e),
{
    progress.start(Pass::Scout);
    let (scout, metadata) = match scout_pass(parser, progress, node_size_order) {
        Ok(v) => v,
        Err(e) => {
            return Err(e);
        },
    };
    let ghost g = pow2(node_size_order as nat) as int;
    let ghost events = old(parser).events();
    if layout_room_exec(&scout).is_none() {
        proof {
            assert(scout_accepted(events, g, *(&scout), metadata));
        }
        return Err(IndexError::TooLarge);
    }
    let layout = build_storage_layout(&scout, node_size_order);
    progress.start(Pass::Partitions);
    let partitions = match hilbert_partition_pass(parser, progress, &scout) {
        Ok(p) => p,
        Err(e) => {
            proof {
                assert(scout_accepted(events, g, *(&scout), metadata) && partitions_refused(events, &scout, e));
            }
            return Err(e);
        },
    };
    progress.start(Pass::Fill);
    let (_fill, filler) = match fill_pass(parser, progress, &scout, &partitions) {
        Ok(v) => v,
        Err(e) => {
            proof {
                assert(scout_accepted(events, g, *(&scout), metadata) && partitions_accepted(events, &scout, partitions)
                    && fill_refused(events, &scout, partitions, e));
            }
            return Err(e);
        },
    };
    proof {
        assert(scout_accepted(events, g, *(&scout), metadata) && partitions_accepted(events, &scout, partitions)
            && fill_accepted(events, &scout, partitions, filler));
    }
    let view = match build_storage_view_mut(&layout, &partitions) {
        Ok(v) => v,
        Err(e) => {
            proof {
                assert(laid_out(layout, scout, node_size_order));
                assert(written_refused(scout, partitions, filler, node_size_order, e));
                assert(scout_accepted(events, g, *(&scout), metadata) && partitions_accepted(events, &scout, partitions)
                    && fill_accepted(events, &scout, partitions, filler) && written_refused(*(&scout), partitions, filler, node_size_order, e));
            }
            return Err(e);
        },
    };
    let image = match write_storage_image(&view, &layout, &scout, &filler, node_size_order) {
        Ok(img) => img,
        Err(e) => {
            proof {
                assert(laid_out(layout, scout, node_size_order));
                assert(view_of(view, layout, partitions));
                assert(written_refused(scout, partitions, filler, node_size_order, e));
                assert(scout_accepted(events, g, *(&scout), metadata) && partitions_accepted(events, &scout, partitions)
                    && fill_accepted(events, &scout, partitions, filler) && written_refused(*(&scout), partitions, filler, node_size_order, e));
            }
            return Err(e);
        },
    };
    proof {
        law_written_file_opens(layout, scout, filler, node_size_order, image@);
        let g = pow2(node_size_order as nat) as int;
        law_written_file_loads(layout, scout, filler, g, image@);
        let h = file_header(image@);
        assert(image@.subrange(h.metadata.start as int, h.metadata.end as int) == encode_utf8(
            metadata_json_text(metadata.alsr_slide, metadata.register_names@),
        ));
        assert(passes_over(old(parser).events(), g, &scout, metadata, partitions, filler));
    }
    progress.finish();
    Ok(image)
}

} // verus!
