//! Do not restart a service while somebody is watching it. Fail closed: no
//! answer means no update. A skipped update costs a day; a restart in the
//! middle of an episode costs the evening.

use vstd::prelude::*;
use vstd::string::*;
use crate::ops::busy::{opt_or, NowPlaying, Session};
use crate::text::{dec, dec_string, join_strings, joined, string_views};

verus! {

/// What was read off the media server, so the decision stays pure.
#[derive(Debug, Clone, PartialEq, Eq, Default)]
pub struct StreamFact {
    /// Sessions with something loaded — playing or paused.
    pub playing: usize,
    /// Who and what, for the reason line. Never more than three.
    pub detail: Vec<String>,
    /// The question could not be asked or could not be understood.
    pub error: Option<String>,
}

/// Whether an automatic update may go ahead.
#[derive(Debug, Clone, PartialEq, Eq)]
pub enum Gate {
    Proceed,
    /// Skipped, with the sentence that travels into the notification.
    Skip(String),
}

pub open spec fn gate_view(g: Gate) -> Option<Seq<char>> {
    match g {
        Gate::Proceed => None,
        Gate::Skip(m) => Some(m@),
    }
}

/// The decision. Anything other than a clear "nobody is watching" is a skip.
pub open spec fn gate_of(playing: nat, detail: Seq<Seq<char>>, error: Option<Seq<char>>) -> Option<Seq<char>> {
    match error {
        Some(e) => Some(
            "the media server did not answer whether anybody is watching ("@ + e
                + ") — skipped rather than guessed, and the next round will ask again"@,
        ),
        None => if playing == 0 {
            None
        } else {
            Some(dec(playing) + " session(s) in progress: "@ + joined(detail, ", "@))
        },
    }
}

pub fn gate(fact: &StreamFact) -> (r: Gate)
    ensures
        gate_view(r) == gate_of(
            fact.playing as nat,
            string_views(fact.detail@),
            match fact.error {
                Some(e) => Some(e@),
                None => None,
            },
        ),
{
    if let Some(e) = &fact.error {
        let mut s = String::from_str("the media server did not answer whether anybody is watching (");
        s.append(e.as_str());
        s.append(") — skipped rather than guessed, and the next round will ask again");
        return Gate::Skip(s);
    }
    if fact.playing == 0 {
        return Gate::Proceed;
    }
    let mut s = dec_string(fact.playing as u64);
    s.append(" session(s) in progress: ");
    let d = join_strings(fact.detail.as_slice(), ", ");
    s.append(d.as_str());
    Gate::Skip(s)
}

/// A session counts when something is loaded in it (the key is there,
/// `null` included).
pub open spec fn counts(s: Session) -> bool {
    !(s.now_playing is Absent)
}

pub open spec fn session_detail(s: Session) -> Seq<char> {
    opt_or(s.user_name, "somebody"@) + " · "@ + match s.now_playing {
        NowPlaying::Item(name) => opt_or(name, "something"@),
        _ => "something"@,
    } + if s.paused == Some(true) {
        " (paused)"@
    } else {
        Seq::empty()
    }
}

/// The sessions read into a fact: how many count, and who and what for the
/// first three of them.
pub open spec fn fact_of(v: Seq<Session>) -> (nat, Seq<Seq<char>>)
    decreases v.len(),
{
    if v.len() == 0 {
        (0, Seq::empty())
    } else {
        let (n, d) = fact_of(v.drop_last());
        if counts(v.last()) {
            (n + 1, if d.len() < 3 {
                d.push(session_detail(v.last()))
            } else {
                d
            })
        } else {
            (n, d)
        }
    }
}

/// The media server's sessions read into a fact.
pub fn parse_sessions(sessions: &[Session]) -> (r: StreamFact)
    ensures
        (r.playing as nat, string_views(r.detail@)) == fact_of(sessions@),
        r.error is None,
{
    let mut detail: Vec<String> = Vec::new();
    let mut playing: usize = 0;
    let mut i: usize = 0;
    while i < sessions.len()
        invariant
            i <= sessions.len(),
            playing <= i,
            (playing as nat, string_views(detail@)) == fact_of(sessions@.take(i as int)),
        decreases sessions.len() - i,
    {
        proof {
            assert(sessions@.take(i + 1).drop_last() =~= sessions@.take(i as int));
        }
        let s = &sessions[i];
        let counted = match &s.now_playing {
            NowPlaying::Absent => false,
            _ => true,
        };
        if counted {
            playing += 1;
            if detail.len() < 3 {
                let mut line = opt_or_exec2(&s.user_name, "somebody");
                line.append(" · ");
                match &s.now_playing {
                    NowPlaying::Item(Some(n)) => line.append(n.as_str()),
                    _ => line.append("something"),
                }
                if s.paused == Some(true) {
                    line.append(" (paused)");
                }
                let ghost before = string_views(detail@);
                detail.push(line);
                proof {
                    assert(string_views(detail@) =~= before.push(session_detail(sessions@[i as int])));
                }
            }
        }
        i += 1;
    }
    proof {
        assert(sessions@.take(sessions.len() as int) =~= sessions@);
    }
    StreamFact { playing, detail, error: None }
}

fn opt_or_exec2(o: &Option<String>, d: &str) -> (r: String)
    ensures
        r@ == opt_or(*o, d@),
{
    match o {
        Some(s) => s.clone(),
        None => String::from_str(d),
    }
}

} // verus!
