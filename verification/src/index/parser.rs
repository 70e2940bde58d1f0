//! Events of a trace, as a parser reports them.
use vstd::prelude::*;
use crate::flat::{Addr, Time};

verus! {

/// Progress of the indexing
#[derive(Clone, Copy, Debug, PartialEq, Eq)]
pub enum Progress {
    Start(Pass),
    Finish,
    Total(usize),
    Current(usize),
}

/// The passes over the trace
#[derive(Clone, Copy, Debug, PartialEq, Eq)]
pub enum Pass {
    Scout,
    Partitions,
    Fill,
}

/// Receives the progress of the indexing.
pub trait ProgressReporter {
    fn report(&mut self, progress: Progress);

    fn start(&mut self, pass: Pass) {
        self.report(Progress::Start(pass));
    }

    fn total(&mut self, total: usize) {
        self.report(Progress::Total(total));
    }

    fn current(&mut self, current: usize) {
        self.report(Progress::Current(current));
    }

    fn finish(&mut self) {
        self.report(Progress::Finish);
    }
}

impl ProgressReporter for () {
    fn report(&mut self, _progress: Progress) {
    }
}

/// Memory event mode
#[derive(Debug, Clone, Copy)]
pub enum MemoryMode {
    Read,
    Write,
    ReadWrite,
}

/// Timed raw (unprocessed) event from the trace parser
#[derive(Debug, Clone, Copy)]
pub enum TimedRawEvent<'a> {
    /// A memory event
    Memory {
        /// Base address
        addr: Addr,
        bytes: &'a [u8],
        mode: MemoryMode,
    },
    /// A register update event
    Register { name: &'a str, value: u64 },
}

/// Raw (unprocessed) from the trace parser
#[derive(Debug, Clone, Copy)]
pub enum RawEvent<'a> {
    AslrSlide(Addr),
    TimedEvent { time: Time, event: TimedRawEvent<'a> },
}

/// What a raw event says, without borrowing.
pub enum EventView {
    Slide(Addr),
    Memory { time: Time, addr: Addr, bytes: Seq<u8>, mode: MemoryMode },
    Register { time: Time, name: Seq<char>, value: u64 },
}

/// What the raw event says.
pub open spec fn raw_view(e: RawEvent) -> EventView {
    match e {
        RawEvent::AslrSlide(slide) => EventView::Slide(slide),
        RawEvent::TimedEvent { time, event } => match event {
            TimedRawEvent::Memory { addr, bytes, mode } => EventView::Memory { time, addr, bytes: bytes@, mode },
            TimedRawEvent::Register { name, value } => EventView::Register { time, name: name@, value },
        },
    }
}

/// In-memory list of events for testing/fuzzing purposes
pub struct StaticEventList<'a> {
    pub events: Vec<RawEvent<'a>>,
}

} // verus!
