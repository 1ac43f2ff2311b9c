//! Ask a service whether it is busy before updating or stopping it.
//!
//! It fails closed: the conditions under which you cannot tell whether
//! somebody is watching are exactly the conditions in which going ahead is
//! a guess. So `Unknown` is not `No`.

use vstd::prelude::*;
use vstd::string::*;
use crate::error::CoreError;
use crate::executor::{ended_on_failure, extends, pct_sh, pct_sh_args, CmdOutput, Executor, OutputView, Request};
use crate::text::{joined, join_strings, str_eq, string_views, trim, trimmed};

verus! {

/// What a busy-check concluded.
#[derive(Debug, Clone, PartialEq, Eq)]
pub enum Busy {
    /// Somebody is using it; skip.
    Yes(String),
    /// Nobody is; go ahead.
    No,
    /// Could not tell. Treated as busy, and says why.
    Unknown(String),
}

impl Busy {
    /// Fail closed: only a definite "no" allows an update.
    pub fn may_update(&self) -> (r: bool)
        ensures
            r <==> (*self is No),
    {
        match self {
            Busy::No => true,
            _ => false,
        }
    }
}

/// The sentence a caller shows when it stands aside, phrased once for every
/// path that asks.
pub open spec fn reason_of(b: Busy) -> Seq<char> {
    match b {
        Busy::Yes(who) => "in use — "@ + who@,
        Busy::Unknown(why) => "could not tell ("@ + why@ + "), so treating it as in use"@,
        Busy::No => "not in use"@,
    }
}

pub fn reason(verdict: &Busy) -> (r: String)
    ensures
        r@ == reason_of(*verdict),
{
    match verdict {
        Busy::Yes(who) => {
            let mut s = String::from_str("in use — ");
            s.append(who.as_str());
            s
        },
        Busy::Unknown(why) => {
            let mut s = String::from_str("could not tell (");
            s.append(why.as_str());
            s.append("), so treating it as in use");
            s
        },
        Busy::No => String::from_str("not in use"),
    }
}

/// What a session's `NowPlayingItem` held.
#[derive(Debug, Clone, PartialEq, Eq)]
pub enum NowPlaying {
    /// The key is not there.
    Absent,
    /// The key is there and `null`.
    Null,
    /// Something is loaded; its `Name`, when that is a string.
    Item(Option<String>),
}

/// One entry of the media server's `/Sessions` answer, as plain values.
#[derive(Debug, Clone, PartialEq, Eq)]
pub struct Session {
    /// `UserName`, when it is a string.
    pub user_name: Option<String>,
    pub now_playing: NowPlaying,
    /// `PlayState.IsPaused`, when it is a boolean.
    pub paused: Option<bool>,
}

/// What the `/Sessions` request gave back.
#[derive(Debug, Clone, PartialEq, Eq)]
pub enum SessionsAnswer {
    /// An empty body.
    Empty,
    /// A body that is not JSON, with the parser's message.
    Unparseable(String),
    /// JSON, but not a list.
    NotAList,
    Sessions(Vec<Session>),
}

pub open spec fn opt_or(o: Option<String>, d: Seq<char>) -> Seq<char> {
    match o {
        Some(s) => s@,
        None => d,
    }
}

/// A session with something loaded, paused or not: a paused film is still
/// somebody's evening.
pub open spec fn watching_line(s: Session) -> Seq<Seq<char>> {
    match s.now_playing {
        NowPlaying::Item(name) => seq![opt_or(s.user_name, "someone"@) + " is "@ + (if s.paused == Some(true) {
            "paused on"@
        } else {
            "watching"@
        }) + " "@ + opt_or(name, "something"@)],
        _ => Seq::empty(),
    }
}

pub open spec fn watching_lines(v: Seq<Session>) -> Seq<Seq<char>>
    decreases v.len(),
{
    if v.len() == 0 {
        Seq::empty()
    } else {
        watching_lines(v.drop_last()) + watching_line(v.last())
    }
}

/// The verdict as plain values: `None` for "nobody", `Some((true, who))` for
/// in use, `Some((false, why))` for could-not-tell.
pub open spec fn busy_view(b: Busy) -> Option<(bool, Seq<char>)> {
    match b {
        Busy::No => None,
        Busy::Yes(w) => Some((true, w@)),
        Busy::Unknown(w) => Some((false, w@)),
    }
}

pub open spec fn jellyfin_verdict(a: SessionsAnswer) -> Option<(bool, Seq<char>)> {
    match a {
        SessionsAnswer::Empty => Some((false, "Jellyfin returned nothing"@)),
        SessionsAnswer::Unparseable(e) => Some((false, "Jellyfin's answer did not parse: "@ + e@)),
        SessionsAnswer::NotAList => Some((false, "Jellyfin's answer was not a list of sessions"@)),
        SessionsAnswer::Sessions(v) => if watching_lines(v@).len() == 0 {
            None
        } else {
            Some((true, joined(watching_lines(v@), "; "@)))
        },
    }
}

/// What a session's `NowPlayingItem` held, as plain values: `None` for no
/// key, `Some(None)` for `null`, `Some(Some(name))` for an item.
pub open spec fn now_playing_view(n: NowPlaying) -> Option<Option<Option<Seq<char>>>> {
    match n {
        NowPlaying::Absent => None,
        NowPlaying::Null => Some(None),
        NowPlaying::Item(x) => Some(Some(match x {
            Some(s) => Some(s@),
            None => None,
        })),
    }
}

/// A session as plain values: user name, what is playing, paused.
pub open spec fn session_view(s: Session) -> (Option<Seq<char>>, Option<Option<Option<Seq<char>>>>, Option<bool>) {
    (
        match s.user_name {
            Some(u) => Some(u@),
            None => None,
        },
        now_playing_view(s.now_playing),
        s.paused,
    )
}

/// The answer as plain values: `None` for an empty body; `Err(Some(msg))`
/// for text that is not JSON, `Err(None)` for JSON that is not a list;
/// `Ok(sessions)` otherwise.
pub open spec fn answer_view(a: SessionsAnswer) -> Option<
    Result<Seq<(Option<Seq<char>>, Option<Option<Option<Seq<char>>>>, Option<bool>)>, Option<Seq<char>>>,
> {
    match a {
        SessionsAnswer::Empty => None,
        SessionsAnswer::Unparseable(e) => Some(Err(Some(e@))),
        SessionsAnswer::NotAList => Some(Err(None)),
        SessionsAnswer::Sessions(v) => Some(Ok(v@.map_values(|s: Session| session_view(s)))),
    }
}

/// The media server's `/Sessions` text, read by `serde_json`: a function of
/// the text alone.
pub uninterp spec fn jellyfin_sessions(body: Seq<char>) -> Option<
    Result<Seq<(Option<Seq<char>>, Option<Option<Option<Seq<char>>>>, Option<bool>)>, Option<Seq<char>>>,
>;

/// `serde_json::from_str::<serde_json::Value>` on the body, then each
/// entry's `UserName`, `NowPlayingItem` (its `Name`) and
/// `PlayState.IsPaused` read off as plain values. The result is a function
/// of the text alone; what it is for given text is not stated here.
#[verifier::external_body]
fn sessions_answer(body: &str) -> (r: SessionsAnswer)
    ensures
        answer_view(r) == jellyfin_sessions(body@),
{
    let v: serde_json::Value = match serde_json::from_str(body) {
        Ok(v) => v,
        Err(e) => return SessionsAnswer::Unparseable(e.to_string()),
    };
    let Some(list) = v.as_array() else { return SessionsAnswer::NotAList };
    SessionsAnswer::Sessions(list.iter().map(|s| Session {
        user_name: s["UserName"].as_str().map(str::to_string),
        now_playing: match s.get("NowPlayingItem") {
            None => NowPlaying::Absent,
            Some(serde_json::Value::Null) => NowPlaying::Null,
            Some(i) => NowPlaying::Item(i["Name"].as_str().map(str::to_string)),
        },
        paused: s["PlayState"]["IsPaused"].as_bool(),
    }).collect())
}

pub open spec fn opt_or_v(o: Option<Seq<char>>, d: Seq<char>) -> Seq<char> {
    match o {
        Some(s) => s,
        None => d,
    }
}

pub open spec fn watching_line_v(s: (Option<Seq<char>>, Option<Option<Option<Seq<char>>>>, Option<bool>)) -> Seq<Seq<char>> {
    match s.1 {
        Some(Some(name)) => seq![opt_or_v(s.0, "someone"@) + " is "@ + (if s.2 == Some(true) {
            "paused on"@
        } else {
            "watching"@
        }) + " "@ + opt_or_v(name, "something"@)],
        _ => Seq::empty(),
    }
}

pub open spec fn watching_lines_v(v: Seq<(Option<Seq<char>>, Option<Option<Option<Seq<char>>>>, Option<bool>)>) -> Seq<Seq<char>>
    decreases v.len(),
{
    if v.len() == 0 {
        Seq::empty()
    } else {
        watching_lines_v(v.drop_last()) + watching_line_v(v.last())
    }
}

/// The verdict on a read answer (see [`busy_view`]).
pub open spec fn verdict_of_sessions(
    a: Option<Result<Seq<(Option<Seq<char>>, Option<Option<Option<Seq<char>>>>, Option<bool>)>, Option<Seq<char>>>>,
) -> Option<(bool, Seq<char>)> {
    match a {
        None => Some((false, "Jellyfin returned nothing"@)),
        Some(Err(Some(e))) => Some((false, "Jellyfin's answer did not parse: "@ + e)),
        Some(Err(None)) => Some((false, "Jellyfin's answer was not a list of sessions"@)),
        Some(Ok(v)) => if watching_lines_v(v).len() == 0 {
            None
        } else {
            Some((true, joined(watching_lines_v(v), "; "@)))
        },
    }
}

proof fn lemma_watching_views(v: Seq<Session>)
    ensures
        watching_lines(v) == watching_lines_v(v.map_values(|s: Session| session_view(s))),
    decreases v.len(),
{
    if v.len() > 0 {
        lemma_watching_views(v.drop_last());
        assert(v.map_values(|s: Session| session_view(s)).drop_last() =~= v.drop_last().map_values(|s: Session| session_view(s)));
        assert(v.map_values(|s: Session| session_view(s)).last() == session_view(v.last()));
        let s = v.last();
        assert(watching_line(s) == watching_line_v(session_view(s)));
    }
}

proof fn lemma_verdict_views(a: SessionsAnswer)
    ensures
        jellyfin_verdict(a) == verdict_of_sessions(answer_view(a)),
{
    match a {
        SessionsAnswer::Sessions(v) => {
            lemma_watching_views(v@);
        },
        _ => {},
    }
}

/// Whether somebody is using the media server, from its `/Sessions` text:
/// an empty body says nothing, so could-not-tell; otherwise the verdict on
/// the answer as read (see [`verdict_of_sessions`]).
pub fn jellyfin_busy(sessions_json: &str) -> (r: Busy)
    ensures
        trimmed(sessions_json@).len() == 0 ==> busy_view(r) == Some((false, "Jellyfin returned nothing"@)),
        trimmed(sessions_json@).len() > 0 ==> busy_view(r) == verdict_of_sessions(jellyfin_sessions(trimmed(sessions_json@))),
{
    let body = trim(sessions_json);
    if body.unicode_len() == 0 {
        return Busy::Unknown(String::from_str("Jellyfin returned nothing"));
    }
    let answer = sessions_answer(body);
    proof {
        lemma_verdict_views(answer);
    }
    jellyfin_verdict_of(&answer)
}

fn opt_or_exec(o: &Option<String>, d: &str) -> (r: String)
    ensures
        r@ == opt_or(*o, d@),
{
    match o {
        Some(s) => s.clone(),
        None => String::from_str(d),
    }
}

/// Read the media server's answer. A session counts as in use when it has
/// a `NowPlayingItem`, paused or not.
pub fn jellyfin_verdict_of(answer: &SessionsAnswer) -> (r: Busy)
    ensures
        busy_view(r) == jellyfin_verdict(*answer),
{
    match answer {
        SessionsAnswer::Empty => Busy::Unknown(String::from_str("Jellyfin returned nothing")),
        SessionsAnswer::Unparseable(e) => {
            let mut s = String::from_str("Jellyfin's answer did not parse: ");
            s.append(e.as_str());
            Busy::Unknown(s)
        },
        SessionsAnswer::NotAList => Busy::Unknown(
            String::from_str("Jellyfin's answer was not a list of sessions"),
        ),
        SessionsAnswer::Sessions(v) => {
            let mut lines: Vec<String> = Vec::new();
            let mut i: usize = 0;
            while i < v.len()
                invariant
                    i <= v.len(),
                    string_views(lines@) == watching_lines(v@.take(i as int)),
                decreases v.len() - i,
            {
                proof {
                    assert(v@.take(i + 1).drop_last() =~= v@.take(i as int));
                }
                let s = &v[i];
                let ghost before = string_views(lines@);
                match &s.now_playing {
                    NowPlaying::Item(name) => {
                        let mut line = opt_or_exec(&s.user_name, "someone");
                        line.append(" is ");
                        if s.paused == Some(true) {
                            line.append("paused on");
                        } else {
                            line.append("watching");
                        }
                        line.append(" ");
                        let n = opt_or_exec(name, "something");
                        line.append(n.as_str());
                        lines.push(line);
                        proof {
                            assert(string_views(lines@) =~= before + watching_line(v@[i as int]));
                        }
                    },
                    _ => {
                        proof {
                            assert(watching_line(v@[i as int]) =~= Seq::<Seq<char>>::empty());
                            assert(before + watching_line(v@[i as int]) =~= before);
                        }
                    },
                }
                i += 1;
            }
            proof {
                assert(v@.take(v.len() as int) =~= v@);
            }
            if lines.len() == 0 {
                Busy::No
            } else {
                Busy::Yes(join_strings(lines.as_slice(), "; "))
            }
        },
    }
}


/// The busy-check a container asks for, read from the label
/// `com.homelab.update.busy-check` of the app's first container.
pub open spec fn busy_label_script(stack: Seq<char>, app: Seq<char>) -> Seq<char> {
    "cd '/opt/"@ + stack + "/"@ + app
        + "' && docker compose ps -q | head -1 | xargs -r docker inspect --format '{{index .Config.Labels \"com.homelab.update.busy-check\"}}'"@
}

/// The label's value as a check name: none when it is empty or docker
/// reports it absent.
pub open spec fn wanted_of(stdout: Seq<char>) -> Option<Seq<char>> {
    let v = trimmed(stdout);
    if v.len() == 0 || v == "<no value>"@ {
        None
    } else {
        Some(v)
    }
}

/// Which busy-check an app's container asks for. One request, the label
/// read; a read that could not run is an error.
pub fn wanted_check<E: Executor>(exec: &mut E, vmid: u16, stack: &str, app: &str) -> (r: Result<Option<String>, CoreError>)
    ensures
        final(exec).requests() == old(exec).requests().push(
            Request::Run("pct"@, pct_sh_args(vmid, busy_label_script(stack@, app@)), 60),
        ),
        final(exec).replies().len() == old(exec).replies().len() + 1,
        final(exec).replies().drop_last() == old(exec).replies(),
        match final(exec).replies().last() {
            Some(o) => match wanted_of(o.stdout) {
                Some(w) => r matches Ok(Some(x)) && x@ == w,
                None => r matches Ok(None),
            },
            None => r is Err,
        },
{
    let mut script = String::from_str("cd '/opt/");
    script.append(stack);
    script.append("/");
    script.append(app);
    script.append(
        "' && docker compose ps -q | head -1 | xargs -r docker inspect --format '{{index .Config.Labels \"com.homelab.update.busy-check\"}}'",
    );
    let out = pct_sh(exec, vmid, script.as_str(), 60)?;
    let v = trim(out.stdout.as_str());
    if v.unicode_len() == 0 || str_eq(v, "<no value>") {
        Ok(None)
    } else {
        Ok(Some(String::from_str(v)))
    }
}


/// Ask the media server for its sessions, with the API key read from the
/// application's own database rather than a copy that could go stale.
pub open spec fn sessions_script(stack: Seq<char>, app: Seq<char>) -> Seq<char> {
    "K=$(sqlite3 /appdata/"@ + stack + "/"@ + app
        + "-config/data/jellyfin.db 'select AccessToken from ApiKeys limit 1') && curl -sf -m 10 -H \"Authorization: MediaBrowser Token=$K\" http://127.0.0.1:8096/Sessions"@
}

/// The media server's `/Sessions` answer, read in the app's container: one
/// request; a read that could not run is an error.
pub fn read_sessions<E: Executor>(exec: &mut E, vmid: u16, stack: &str, app: &str) -> (r: Result<CmdOutput, CoreError>)
    ensures
        final(exec).requests() == old(exec).requests().push(Request::Run("pct"@, pct_sh_args(vmid, sessions_script(stack@, app@)), 30)),
        final(exec).replies() == old(exec).replies().push(crate::executor::reply_of(r)),
{
    let mut script = String::from_str("K=$(sqlite3 /appdata/");
    script.append(stack);
    script.append("/");
    script.append(app);
    script.append(
        "-config/data/jellyfin.db 'select AccessToken from ApiKeys limit 1') && curl -sf -m 10 -H \"Authorization: MediaBrowser Token=$K\" http://127.0.0.1:8096/Sessions",
    );
    proof {
        assert(script@ =~= sessions_script(stack@, app@));
    }
    pct_sh(exec, vmid, script.as_str(), 30)
}

/// The verdict for a busy-check nobody wrote: could not tell, so busy.
pub fn unknown_check(kind: &str) -> (r: Busy)
    ensures
        r matches Busy::Unknown(w) && w@ == "the container asks for a busy-check named `"@ + kind@ + "`, and no such check exists"@,
{
    let mut s = String::from_str("the container asks for a busy-check named `");
    s.append(kind);
    s.append("`, and no such check exists");
    Busy::Unknown(s)
}


/// The request at `j` cleared an app to be updated: it read the app's
/// busy-check label and found none, or it read the media server's sessions
/// and nobody is watching.
pub open spec fn cleared_at(
    q: Seq<Request>,
    h: Seq<Option<OutputView>>,
    d: int,
    j: int,
    vmid: u16,
    stack: Seq<char>,
    app: Seq<char>,
) -> bool {
    ||| q[j] == Request::Run("pct"@, pct_sh_args(vmid, busy_label_script(stack, app)), 60) && (h[j + d] matches Some(o)
        && wanted_of(o.stdout) is None)
    ||| q[j] == Request::Run("pct"@, pct_sh_args(vmid, sessions_script(stack, app)), 30) && (h[j + d] matches Some(o)
        && trimmed(o.stdout).len() > 0 && verdict_of_sessions(jellyfin_sessions(trimmed(o.stdout))) is None)
}

/// From `from` on, the record shows an app cleared to be updated.
pub open spec fn busy_cleared(
    q: Seq<Request>,
    h: Seq<Option<OutputView>>,
    d: int,
    from: int,
    vmid: u16,
    stack: Seq<char>,
    app: Seq<char>,
) -> bool {
    exists|j: int| from <= j < q.len() && #[trigger] cleared_at(q, h, d, j, vmid, stack, app)
}

/// `r` is one of the two readings of an app's use: its busy-check label,
/// or the media server's sessions.
pub open spec fn busy_reading(r: Request, vmid: u16, stack: Seq<char>, app: Seq<char>) -> bool {
    r == Request::Run("pct"@, pct_sh_args(vmid, busy_label_script(stack, app)), 60) || r == Request::Run(
        "pct"@,
        pct_sh_args(vmid, sessions_script(stack, app)),
        30,
    )
}

/// A clearance stays on the record as the record grows, and holds from any
/// earlier starting point.
pub proof fn lemma_busy_cleared_grows(
    q1: Seq<Request>,
    h1: Seq<Option<OutputView>>,
    q2: Seq<Request>,
    h2: Seq<Option<OutputView>>,
    d: int,
    from0: int,
    from1: int,
    vmid: u16,
    stack: Seq<char>,
    app: Seq<char>,
)
    requires
        busy_cleared(q1, h1, d, from1, vmid, stack, app),
        extends(q1, h1, q2, h2),
        h1.len() == q1.len() + d,
        0 <= from0 <= from1,
        0 <= d,
    ensures
        busy_cleared(q2, h2, d, from0, vmid, stack, app),
{
    let j = choose|j: int| from1 <= j < q1.len() && #[trigger] cleared_at(q1, h1, d, j, vmid, stack, app);
    assert(q2[j] == q2.take(q1.len() as int)[j]);
    assert(h2[j + d] == h2.take(h1.len() as int)[j + d]);
    assert(cleared_at(q2, h2, d, j, vmid, stack, app));
}

/// Ask one app whether it is in use: no busy-check label means no; a check
/// nobody wrote means could-not-tell; the media server is asked for its
/// sessions. A verdict of no is only ever reached the way [`busy_cleared`]
/// says.
pub fn app_busy<E: Executor>(exec: &mut E, vmid: u16, stack: &str, app: &str) -> (r: Result<Busy, CoreError>)
    ensures
        old(exec).replies().len() >= old(exec).requests().len() ==> (r matches Ok(Busy::No) ==> busy_cleared(
            final(exec).requests(),
            final(exec).replies(),
            old(exec).replies().len() - old(exec).requests().len(),
            old(exec).requests().len() as int,
            vmid,
            stack@,
            app@,
        )),
        final(exec).requests().len() >= old(exec).requests().len(),
        final(exec).requests().take(old(exec).requests().len() as int) == old(exec).requests(),
        final(exec).replies().take(old(exec).replies().len() as int) == old(exec).replies(),
        final(exec).replies().len() - old(exec).replies().len() == final(exec).requests().len() - old(exec).requests().len(),
        r is Err ==> ended_on_failure(final(exec).requests(), final(exec).replies()),
        r matches Ok(v) && !(v is No) ==> final(exec).requests().len() > old(exec).requests().len() && busy_reading(
            final(exec).requests().last(),
            vmid,
            stack@,
            app@,
        ) && !cleared_at(
            final(exec).requests(),
            final(exec).replies(),
            old(exec).replies().len() - old(exec).requests().len(),
            final(exec).requests().len() - 1,
            vmid,
            stack@,
            app@,
        ),
{
    let ghost q0 = exec.requests();
    let ghost h0 = exec.replies();
    let wanted = wanted_check(exec, vmid, stack, app);
    proof {
        assert(exec.requests().take(q0.len() as int) =~= q0);
        assert(exec.replies().take(h0.len() as int) =~= h0);
        assert(exec.requests()[q0.len() as int] == Request::Run("pct"@, pct_sh_args(vmid, busy_label_script(stack@, app@)), 60));
    }
    let kind = match wanted? {
        None => {
            proof {
                assert(cleared_at(exec.requests(), exec.replies(), h0.len() - q0.len(), q0.len() as int, vmid, stack@, app@));
            }
            return Ok(Busy::No);
        },
        Some(k) => k,
    };
    if !str_eq(kind.as_str(), "jellyfin") {
        return Ok(unknown_check(kind.as_str()));
    }
    let ghost q1 = exec.requests();
    let ghost h1 = exec.replies();
    let out = read_sessions(exec, vmid, stack, app)?;
    proof {
        assert(exec.requests().take(q0.len() as int) =~= q0);
        assert(exec.replies().take(h0.len() as int) =~= h0);
        assert(exec.requests()[q1.len() as int] == Request::Run("pct"@, pct_sh_args(vmid, sessions_script(stack@, app@)), 30));
        assert(exec.replies()[h1.len() as int] == Some(out@));
    }
    let verdict = jellyfin_busy(out.stdout.as_str());
    proof {
        if verdict is No {
            assert(cleared_at(exec.requests(), exec.replies(), h0.len() - q0.len(), q1.len() as int, vmid, stack@, app@));
        }
    }
    Ok(verdict)
}

} // verus!
