//! An operation can stop and put a question to whoever is watching.

use vstd::prelude::*;
use vstd::string::*;

verus! {

/// What came back from the question.
#[derive(Debug, Clone, PartialEq, Eq)]
pub enum Answer {
    /// A person saw it and said go on.
    Allow,
    /// A person saw it and said stop.
    Stop,
    /// Nobody was listening, or nobody answered in time.
    Unattended(String),
}

impl Answer {
    /// Only a person saying yes lets an operation continue (fail-closed).
    pub fn may_continue(&self) -> (r: bool)
        ensures
            r <==> (*self is Allow),
    {
        match self {
            Answer::Allow => true,
            _ => false,
        }
    }
}

/// One question, with everything the operator needs to answer it without
/// scrolling back through the stream.
#[derive(Debug, Clone, PartialEq, Eq)]
pub struct Question {
    /// Which operation and step is waiting.
    pub op: String,
    pub step: String,
    /// What happened, in one sentence.
    pub what: String,
    /// What choosing "allow" sets in motion, and what choosing "stop" does.
    pub if_allowed: String,
    pub if_stopped: String,
}

/// How an operation reaches whoever is watching. Implemented by the host
/// over the live line; `Unattended` in every other context. An asker always
/// answers: when nobody is there it says so.
pub trait Asker {
    fn ask(&self, q: &Question) -> Answer;
}

/// The asker used when there is nobody to ask: the nightly scheduler, a
/// test, a headless run. It carries the reason, so the transcript says why
/// the operation went the way it did.
pub struct Unattended(pub String);

/// The reason `nobody` gives.
pub open spec fn nobody_reason() -> Seq<char> {
    "no operator is attached to this run"@
}

/// The asker every test and every headless path can use.
pub fn nobody() -> (r: Unattended)
    ensures
        r.0@ == nobody_reason(),
{
    Unattended(String::from_str("no operator is attached to this run"))
}

impl Asker for Unattended {
    /// Always the honest answer: nobody was there, and why.
    fn ask(&self, q: &Question) -> (r: Answer)
        ensures
            r matches Answer::Unattended(why) && why@ == self.0@,
    {
        Answer::Unattended(self.0.clone())
    }
}

} // verus!
