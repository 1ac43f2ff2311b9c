//! Pipeline event sink: how operations talk to the outside world (live
//! transcripts, byte counters) without knowing who listens.

use vstd::prelude::*;

verus! {

#[derive(Debug, Clone, Copy, PartialEq, Eq)]
pub enum Level {
    Debug,
    Info,
    Warn,
    Error,
}

#[derive(Debug, Clone)]
pub enum PipelineEvent {
    StepStarted { op: String, step: String },
    StepFinished { op: String, step: String, changed: bool },
    Line { level: Level, source: String, msg: String },
    /// Real byte counters — never fake progress.
    Bytes { op: String, label: String, done: u64, total: Option<u64> },
}

/// Where events go. Implemented over a plain value: an emitter owns what it
/// collects.
pub trait Sink {
    fn emit(&mut self, event: PipelineEvent);
}

/// Discards everything.
pub struct NullSink;

impl Sink for NullSink {
    fn emit(&mut self, event: PipelineEvent) {
    }
}

/// Collects everything (tests, incident bundles).
pub struct VecSink {
    events: Vec<PipelineEvent>,
}

/// The transcript lines among the events, in order.
pub open spec fn line_msgs(evs: Seq<PipelineEvent>) -> Seq<Seq<char>>
    decreases evs.len(),
{
    if evs.len() == 0 {
        Seq::empty()
    } else {
        let pre = line_msgs(evs.drop_last());
        match evs.last() {
            PipelineEvent::Line { msg, .. } => pre.push(msg@),
            _ => pre,
        }
    }
}

pub open spec fn strings(v: Seq<String>) -> Seq<Seq<char>> {
    v.map_values(|s: String| s@)
}

impl VecSink {
    pub closed spec fn recorded(&self) -> Seq<PipelineEvent> {
        self.events@
    }

    pub fn new() -> (s: Self)
        ensures
            s.recorded() == Seq::<PipelineEvent>::empty(),
    {
        VecSink { events: Vec::new() }
    }

    pub fn record(&mut self, event: PipelineEvent)
        ensures
            final(self).recorded() == old(self).recorded().push(event),
    {
        self.events.push(event);
    }

    pub fn events(&self) -> (r: Vec<PipelineEvent>)
        ensures
            r@.len() == self.recorded().len(),
            forall|i: int| 0 <= i < r@.len() ==> event_eq(#[trigger] r@[i], self.recorded()[i]),
    {
        clone_events(&self.events)
    }

    pub fn lines(&self) -> (r: Vec<String>)
        ensures
            strings(r@) == line_msgs(self.recorded()),
    {
        let mut out: Vec<String> = Vec::new();
        let mut i: usize = 0;
        while i < self.events.len()
            invariant
                i <= self.events.len(),
                strings(out@) == line_msgs(self.events@.take(i as int)),
            decreases self.events.len() - i,
        {
            proof {
                assert(self.events@.take(i + 1).drop_last() =~= self.events@.take(i as int));
                assert(self.events@.take(i + 1).last() == self.events@[i as int]);
            }
            match &self.events[i] {
                PipelineEvent::Line { msg, .. } => {
                    out.push(msg.clone());
                    proof {
                        assert(strings(out@) =~= line_msgs(self.events@.take(i as int)).push(msg@));
                    }
                },
                _ => {},
            }
            i += 1;
        }
        proof {
            assert(self.events@.take(self.events.len() as int) =~= self.events@);
        }
        out
    }
}

impl Sink for VecSink {
    fn emit(&mut self, event: PipelineEvent) {
        self.events.push(event);
    }
}

/// Two events carry the same texts and values.
pub open spec fn event_eq(a: PipelineEvent, b: PipelineEvent) -> bool {
    match (a, b) {
        (PipelineEvent::StepStarted { op: o1, step: s1 }, PipelineEvent::StepStarted { op: o2, step: s2 }) =>
            o1@ == o2@ && s1@ == s2@,
        (PipelineEvent::StepFinished { op: o1, step: s1, changed: c1 }, PipelineEvent::StepFinished { op: o2, step: s2, changed: c2 }) =>
            o1@ == o2@ && s1@ == s2@ && c1 == c2,
        (PipelineEvent::Line { level: l1, source: x1, msg: m1 }, PipelineEvent::Line { level: l2, source: x2, msg: m2 }) =>
            l1 == l2 && x1@ == x2@ && m1@ == m2@,
        (PipelineEvent::Bytes { op: o1, label: b1, done: d1, total: t1 }, PipelineEvent::Bytes { op: o2, label: b2, done: d2, total: t2 }) =>
            o1@ == o2@ && b1@ == b2@ && d1 == d2 && t1 == t2,
        _ => false,
    }
}

/// A copy of one event.
pub fn clone_event(e: &PipelineEvent) -> (r: PipelineEvent)
    ensures
        event_eq(r, *e),
{
    match e {
        PipelineEvent::StepStarted { op, step } => PipelineEvent::StepStarted { op: op.clone(), step: step.clone() },
        PipelineEvent::StepFinished { op, step, changed } => PipelineEvent::StepFinished { op: op.clone(), step: step.clone(), changed: *changed },
        PipelineEvent::Line { level, source, msg } => PipelineEvent::Line { level: *level, source: source.clone(), msg: msg.clone() },
        PipelineEvent::Bytes { op, label, done, total } => PipelineEvent::Bytes { op: op.clone(), label: label.clone(), done: *done, total: *total },
    }
}

/// A copy of a list of events.
pub fn clone_events(v: &Vec<PipelineEvent>) -> (r: Vec<PipelineEvent>)
    ensures
        r@.len() == v@.len(),
        forall|i: int| 0 <= i < r@.len() ==> event_eq(#[trigger] r@[i], v@[i]),
{
    let mut out: Vec<PipelineEvent> = Vec::new();
    let mut i: usize = 0;
    while i < v.len()
        invariant
            i <= v.len(),
            out@.len() == i,
            forall|k: int| 0 <= k < i ==> event_eq(#[trigger] out@[k], v@[k]),
        decreases v.len() - i,
    {
        out.push(clone_event(&v[i]));
        i += 1;
    }
    out
}

} // verus!
