//! The operation runner: every operation is a sequence of named steps run
//! through this one place, which provides transcripts, journal records,
//! fail-closed semantics and the report a front end renders.
//!
//! A step's body is outside work (it awaits commands); the runner's part is
//! what happens around it. So a step is three calls: `begin_step` before the
//! body, then `step_done` or `step_failed` with what the body gave back, and
//! for a checked step `step_unverified` when the read-back says no.

use vstd::prelude::*;
use vstd::string::*;
use crate::error::{display_of, remedy_of, why_of, CoreError, OperatorError};
use crate::sink::{Level, PipelineEvent, Sink};

verus! {

/// Journal hook: phase-by-phase records of every operation, written before
/// each step runs so an interrupted operation is visible.
pub trait Journal {
    fn record(&mut self, op: &str, step: &str, status: &str);
}

/// A journal that keeps nothing.
pub struct NullJournal;

impl Journal for NullJournal {
    fn record(&mut self, op: &str, step: &str, status: &str) {
    }
}

#[derive(Debug, Clone)]
pub struct StepReport {
    pub name: String,
    pub changed: bool,
}

#[derive(Debug, Clone)]
pub struct OperationReport {
    pub op: String,
    pub steps: Vec<StepReport>,
    pub ok: bool,
    pub error: Option<OperatorError>,
    /// Set when the operation deliberately did not run. `ok` is false —
    /// nothing happened — but this tells it apart from a fault.
    pub deferred: Option<String>,
}

/// Outcome of a step body: did it change anything?
#[derive(Debug, Clone, Copy, PartialEq, Eq)]
pub enum StepOutcome {
    Changed,
    Unchanged,
}

/// A step report as plain values: its name and whether it changed anything.
pub open spec fn report_view(r: StepReport) -> (Seq<char>, bool) {
    (r.name@, r.changed)
}

pub open spec fn reports_view(v: Seq<StepReport>) -> Seq<(Seq<char>, bool)> {
    v.map_values(|r: StepReport| report_view(r))
}

/// `e` is the transcript line `level` / `HOST` / `msg`.
pub open spec fn is_host_line(e: PipelineEvent, level: Level, msg: Seq<char>) -> bool {
    e matches PipelineEvent::Line { level: l, source, msg: m } && l == level && source@
        == "HOST"@ && m@ == msg
}

/// The status an operation that stopped with `err` closes its journal with.
pub open spec fn closing_status(err: CoreError) -> Seq<char> {
    match err {
        CoreError::Deferred(_) => "deferred"@,
        _ => "failed"@,
    }
}

pub struct Runner<S: Sink, J: Journal> {
    op: String,
    sink: S,
    journal: J,
    steps: Vec<StepReport>,
    /// Every `(step, status)` this runner has written to the journal.
    journaled: Ghost<Seq<(Seq<char>, Seq<char>)>>,
    /// Every event this runner has handed to the sink.
    emitted: Ghost<Seq<PipelineEvent>>,
}

impl<S: Sink, J: Journal> Runner<S, J> {
    /// The operation's name.
    pub closed spec fn op_name(&self) -> Seq<char> {
        self.op@
    }

    /// The steps that finished, in order.
    pub closed spec fn steps(&self) -> Seq<(Seq<char>, bool)> {
        reports_view(self.steps@)
    }

    /// The journal records written so far, as `(step, status)`.
    pub closed spec fn journaled(&self) -> Seq<(Seq<char>, Seq<char>)> {
        self.journaled@
    }

    /// The events emitted so far.
    pub closed spec fn emitted(&self) -> Seq<PipelineEvent> {
        self.emitted@
    }

    pub fn new(op: &str, sink: S, journal: J) -> (r: Self)
        ensures
            r.op_name() == op@,
            r.steps() == Seq::<(Seq<char>, bool)>::empty(),
            r.journaled() == Seq::<(Seq<char>, Seq<char>)>::empty(),
            r.emitted() == Seq::<PipelineEvent>::empty(),
    {
        let r = Runner {
            op: String::from_str(op),
            sink,
            journal,
            steps: Vec::new(),
            journaled: Ghost(Seq::empty()),
            emitted: Ghost(Seq::empty()),
        };
        proof {
            assert(reports_view(r.steps@) =~= Seq::<(Seq<char>, bool)>::empty());
        }
        r
    }

    pub fn op(&self) -> (r: &str)
        ensures
            r@ == self.op_name(),
    {
        self.op.as_str()
    }

    /// Where the events went.
    pub fn sink(&self) -> &S {
        &self.sink
    }

    /// Where the journal records went.
    pub fn journal(&self) -> &J {
        &self.journal
    }

    fn journal_record(&mut self, step: &str, status: &str)
        ensures
            final(self).journaled() == old(self).journaled().push((step@, status@)),
            final(self).op_name() == old(self).op_name(),
            final(self).steps() == old(self).steps(),
            final(self).emitted() == old(self).emitted(),
    {
        self.journal.record(self.op.as_str(), step, status);
        self.journaled = Ghost(self.journaled@.push((step@, status@)));
    }

    fn emit(&mut self, e: PipelineEvent)
        ensures
            final(self).emitted() == old(self).emitted().push(e),
            final(self).op_name() == old(self).op_name(),
            final(self).steps() == old(self).steps(),
            final(self).journaled() == old(self).journaled(),
    {
        self.emitted = Ghost(self.emitted@.push(e));
        self.sink.emit(e);
    }

    /// A transcript line from the host itself.
    pub fn log(&mut self, level: Level, msg: String)
        ensures
            final(self).emitted().len() == old(self).emitted().len() + 1,
            final(self).emitted().drop_last() == old(self).emitted(),
            is_host_line(final(self).emitted().last(), level, msg@),
            final(self).op_name() == old(self).op_name(),
            final(self).steps() == old(self).steps(),
            final(self).journaled() == old(self).journaled(),
    {
        let ghost msg_v = msg@;
        let e = PipelineEvent::Line { level, source: String::from_str("HOST"), msg };
        proof {
            reveal_strlit("HOST");
        }
        self.emit(e);
        proof {
            assert(self.emitted().drop_last() =~= old(self).emitted());
        }
    }

    /// Before a step's body runs: the journal sees "running" first, so an
    /// interrupt leaves a visible record behind; then the step is announced.
    pub fn begin_step(&mut self, name: &str)
        ensures
            final(self).journaled() == old(self).journaled().push((name@, "running"@)),
            final(self).emitted().len() == old(self).emitted().len() + 1,
            final(self).emitted().drop_last() == old(self).emitted(),
            final(self).emitted().last() matches PipelineEvent::StepStarted { op, step } && op@
                == old(self).op_name() && step@ == name@,
            final(self).op_name() == old(self).op_name(),
            final(self).steps() == old(self).steps(),
    {
        self.journal_record(name, "running");
        let e = PipelineEvent::StepStarted { op: self.op.clone(), step: String::from_str(name) };
        self.emit(e);
        proof {
            assert(self.emitted().drop_last() =~= old(self).emitted());
        }
    }

    /// The body succeeded: the journal sees "done", the step is reported
    /// finished, and it joins the report.
    pub fn step_done(&mut self, name: &str, outcome: StepOutcome) -> (r: StepOutcome)
        ensures
            r == outcome,
            final(self).journaled() == old(self).journaled().push((name@, "done"@)),
            final(self).steps() == old(self).steps().push((name@, outcome is Changed)),
            final(self).emitted().len() == old(self).emitted().len() + 1,
            final(self).emitted().drop_last() == old(self).emitted(),
            final(self).emitted().last() matches PipelineEvent::StepFinished { op, step, changed }
                && op@ == old(self).op_name() && step@ == name@ && changed == (outcome is Changed),
            final(self).op_name() == old(self).op_name(),
    {
        self.journal_record(name, "done");
        let changed = match outcome {
            StepOutcome::Changed => true,
            StepOutcome::Unchanged => false,
        };
        let e = PipelineEvent::StepFinished {
            op: self.op.clone(),
            step: String::from_str(name),
            changed,
        };
        self.emit(e);
        let ghost before = self.steps@;
        self.steps.push(StepReport { name: String::from_str(name), changed });
        proof {
            assert(self.emitted().drop_last() =~= old(self).emitted());
            assert(reports_view(self.steps@) =~= reports_view(before).push((name@, changed)));
        }
        outcome
    }

    /// The body failed: the journal sees "failed", the error goes to the
    /// transcript, and it is handed back unchanged.
    pub fn step_failed(&mut self, name: &str, err: CoreError) -> (r: CoreError)
        ensures
            r == err,
            final(self).journaled() == old(self).journaled().push((name@, "failed"@)),
            final(self).emitted().len() == old(self).emitted().len() + 1,
            final(self).emitted().drop_last() == old(self).emitted(),
            is_host_line(
                final(self).emitted().last(),
                Level::Error,
                "["@ + name@ + "] "@ + display_of(&err),
            ),
            final(self).op_name() == old(self).op_name(),
            final(self).steps() == old(self).steps(),
    {
        self.journal_record(name, "failed");
        let mut line = String::from_str("[");
        line.append(name);
        line.append("] ");
        let m = err.message();
        line.append(m.as_str());
        self.log(Level::Error, line);
        err
    }

    /// Whether a step that checks its own work has anything to check:
    /// nothing changed means nothing to read back.
    pub fn needs_verify(outcome: StepOutcome) -> (r: bool)
        ensures
            r == (outcome is Changed),
    {
        match outcome {
            StepOutcome::Changed => true,
            StepOutcome::Unchanged => false,
        }
    }

    /// The read-back said the change is not there: the step fails, with
    /// wording that names the real problem.
    pub fn step_unverified(&mut self, name: &str, why: &str) -> (r: CoreError)
        ensures
            r matches CoreError::Command { rendered, detail } && rendered@ == "verify "@ + name@
                && detail@ == "the step reported success but the change is not there: "@ + why@,
            final(self).journaled() == old(self).journaled().push((name@, "unverified"@)),
            final(self).emitted().len() == old(self).emitted().len() + 1,
            final(self).emitted().drop_last() == old(self).emitted(),
            is_host_line(
                final(self).emitted().last(),
                Level::Error,
                "["@ + name@ + "] "@ + display_of(&r),
            ),
            final(self).op_name() == old(self).op_name(),
            final(self).steps() == old(self).steps(),
    {
        self.journal_record(name, "unverified");
        let mut rendered = String::from_str("verify ");
        rendered.append(name);
        let mut detail = String::from_str(
            "the step reported success but the change is not there: ",
        );
        detail.append(why);
        let err = CoreError::Command { rendered, detail };
        let mut line = String::from_str("[");
        line.append(name);
        line.append("] ");
        let m = err.message();
        line.append(m.as_str());
        self.log(Level::Error, line);
        err
    }

    /// The operation ran to the end. The journal gets one closing record,
    /// `complete`; the last part of the result is everything this runner
    /// journaled, that record last.
    pub fn finish_ok(self) -> (r: (OperationReport, S, J, Ghost<Seq<(Seq<char>, Seq<char>)>>))
        ensures
            r.0.op@ == self.op_name(),
            reports_view(r.0.steps@) == self.steps(),
            r.0.ok,
            r.0.error is None,
            r.0.deferred is None,
            r.3@ == self.journaled().push(("-"@, "complete"@)),
    {
        let mut me = self;
        me.journal_record("-", "complete");
        let ghost written = me.journaled();
        let Runner { op, sink, journal, steps, .. } = me;
        (OperationReport { op, steps, ok: true, error: None, deferred: None }, sink, journal, Ghost(written))
    }

    /// The operation stopped at `step` with `err`. A deferral is recorded
    /// as such, not as a failure: the journal gets one closing record,
    /// `deferred` or `failed`; the last part of the result is everything
    /// this runner journaled, that record last.
    pub fn finish_err(self, step: &str, err: &CoreError) -> (r: (OperationReport, S, J, Ghost<Seq<(Seq<char>, Seq<char>)>>))
        ensures
            r.3@ == self.journaled().push(("-"@, closing_status(*err))),
            r.0.op@ == self.op_name(),
            reports_view(r.0.steps@) == self.steps(),
            !r.0.ok,
            r.0.error matches Some(e) && e.what@ == "step '"@ + step@ + "' failed"@ && e.why@
                == why_of(err) && e.remedy@ == remedy_of(err),
            match err {
                CoreError::Deferred(why) => r.0.deferred matches Some(d) && d@ == why@,
                _ => r.0.deferred is None,
            },
    {
        let mut me = self;
        let status = match err {
            CoreError::Deferred(_) => "deferred",
            _ => "failed",
        };
        me.journal_record("-", status);
        let deferred = match err {
            CoreError::Deferred(why) => Some(why.clone()),
            _ => None,
        };
        let error = Some(OperatorError::from_core(step, err));
        let ghost written = me.journaled();
        let Runner { op, sink, journal, steps, .. } = me;
        (OperationReport { op, steps, ok: false, error, deferred }, sink, journal, Ghost(written))
    }
}

} // verus!
