//! Incident bundles: every failed operation captures its full context. What
//! stands here is the recording tee and the replay script; writing the
//! bundle's files is the host's I/O.

use vstd::prelude::*;
use vstd::string::*;
use crate::sink::{clone_event, event_eq, PipelineEvent, Sink};
use crate::keyed::{ascending, entries_map, entry_views, keys_of, lemma_ascending_distinct, lemma_entries_map, upsert};
use crate::error::CoreError;
use crate::executor::{extends, lemma_extends_refl, lemma_extends_trans, lemma_pushed, Executor, Request};
use crate::runner::OperationReport;
use crate::text::{dec, dec_string, join_strs, lines, lines_of, str_eq, str_lt, strip_prefix, str_strip_prefix, trim, trimmed, views};

verus! {

/// Tee: forwards every event to an inner sink AND records it for a possible
/// incident bundle.
pub struct RecordingSink<S: Sink> {
    inner: S,
    events: Vec<PipelineEvent>,
}

impl<S: Sink> RecordingSink<S> {
    pub closed spec fn recorded(&self) -> Seq<PipelineEvent> {
        self.events@
    }

    pub fn new(inner: S) -> (r: Self)
        ensures
            r.recorded() == Seq::<PipelineEvent>::empty(),
    {
        RecordingSink { inner, events: Vec::new() }
    }

    pub fn events(&self) -> (r: Vec<PipelineEvent>)
        ensures
            r@.len() == self.recorded().len(),
            forall|i: int| 0 <= i < r@.len() ==> event_eq(#[trigger] r@[i], self.recorded()[i]),
    {
        crate::sink::clone_events(&self.events)
    }

    /// Record `event`, then hand it on.
    pub fn tee(&mut self, event: PipelineEvent)
        ensures
            final(self).recorded().len() == old(self).recorded().len() + 1,
            forall|i: int|
                0 <= i < old(self).recorded().len() ==> #[trigger] final(self).recorded()[i]
                    == old(self).recorded()[i],
            event_eq(final(self).recorded().last(), event),
    {
        self.events.push(clone_event(&event));
        self.inner.emit(event);
    }

    pub fn into_inner(self) -> S {
        self.inner
    }
}

impl<S: Sink> Sink for RecordingSink<S> {
    fn emit(&mut self, event: PipelineEvent) {
        self.tee(event);
    }
}

/// The header every replay script starts with.
pub open spec fn script_header() -> Seq<char> {
    "#!/bin/sh\n# Replay of the exact commands this operation ran (AR16).\n# Review before executing — this script mutates the host.\nset -x\n"@
}

/// The executed commands (`[run ] …` transcript lines), one per line.
pub open spec fn replay_lines(events: Seq<PipelineEvent>) -> Seq<char>
    decreases events.len(),
{
    if events.len() == 0 {
        Seq::empty()
    } else {
        let pre = replay_lines(events.drop_last());
        match events.last() {
            PipelineEvent::Line { msg, .. } => match strip_prefix(trimmed(msg@), "[run ] "@) {
                Some(cmd) => pre + cmd + "\n"@,
                None => pre,
            },
            _ => pre,
        }
    }
}

/// Extract the literal executed commands as a replayable shell script.
pub fn commands_script(events: &[PipelineEvent]) -> (r: String)
    ensures
        r@ == script_header() + replay_lines(events@),
{
    let mut out = String::from_str(
        "#!/bin/sh\n# Replay of the exact commands this operation ran (AR16).\n# Review before executing — this script mutates the host.\nset -x\n",
    );
    let mut i: usize = 0;
    while i < events.len()
        invariant
            i <= events.len(),
            out@ == script_header() + replay_lines(events@.take(i as int)),
        decreases events.len() - i,
    {
        proof {
            assert(events@.take(i + 1).drop_last() =~= events@.take(i as int));
            assert(events@.take(i + 1).last() == events@[i as int]);
        }
        match &events[i] {
            PipelineEvent::Line { msg, .. } => {
                if let Some(cmd) = str_strip_prefix(trim(msg.as_str()), "[run ] ") {
                    out.append(cmd);
                    out.append("\n");
                }
            },
            _ => {},
        }
        i += 1;
    }
    proof {
        assert(events@.take(events.len() as int) =~= events@);
    }
    out
}


// ── Interrupted operations ──────────────────────────────────────────────────

/// A journal line as `serde_json` reads it: its `op`, `step` and `status`,
/// when the line is a JSON object with all three as strings.
pub uninterp spec fn journal_fields(line: Seq<char>) -> Option<(Seq<char>, Seq<char>, Seq<char>)>;

/// `serde_json::from_str::<serde_json::Value>` on one line, then the
/// `op`, `step` and `status` fields read as strings. The result is a
/// function of the line alone; what it is for given text is not stated
/// here.
#[verifier::external_body]
fn journal_line(line: &str) -> (r: Option<(String, String, String)>)
    ensures
        match r {
            Some((op, step, status)) => journal_fields(line@) == Some((op@, step@, status@)),
            None => journal_fields(line@) is None,
        },
{
    let v = serde_json::from_str::<serde_json::Value>(line).ok()?;
    let op = v.get("op").and_then(|x| x.as_str())?;
    let step = v.get("step").and_then(|x| x.as_str())?;
    let status = v.get("status").and_then(|x| x.as_str())?;
    Some((op.to_string(), step.to_string(), status.to_string()))
}

/// Each operation's most recent `(step, status)` in the journal: a later
/// line wins; a line that is not a record is skipped.
pub open spec fn last_records(ls: Seq<Seq<char>>) -> Map<Seq<char>, (Seq<char>, Seq<char>)>
    decreases ls.len(),
{
    if ls.len() == 0 {
        Map::empty()
    } else {
        let m = last_records(ls.drop_last());
        match journal_fields(ls.last()) {
            Some((op, step, status)) => m.insert(op, (step, status)),
            None => m,
        }
    }
}

pub open spec fn pair_views(v: Seq<(String, String)>) -> Seq<(Seq<char>, Seq<char>)> {
    v.map_values(|p: (String, String)| (p.0@, p.1@))
}

/// The same records, one kept as strings and one as their views.
pub open spec fn same_records(a: Map<Seq<char>, (String, String)>, b: Map<Seq<char>, (Seq<char>, Seq<char>)>) -> bool {
    &&& a.dom() == b.dom()
    &&& forall|k: Seq<char>| #[trigger] a.contains_key(k) ==> (a[k].0@, a[k].1@) == b[k]
}

/// The operations whose most recent journal record is still `running` —
/// the daemon died or was stopped mid-step — with that step, in ascending
/// order of operation. Re-running such an operation is always safe.
pub fn interrupted_ops(journal_content: &str) -> (r: Vec<(String, String)>)
    ensures
        ({
            let m = last_records(lines_of(journal_content@));
            let out = pair_views(r@);
            &&& ascending(keys_of(out))
            &&& forall|i: int| 0 <= i < out.len() ==> m.contains_key(#[trigger] out[i].0) && m[out[i].0] == (out[i].1, "running"@)
            &&& forall|op: Seq<char>| #[trigger] m.contains_key(op) && m[op].1 == "running"@ ==> keys_of(out).contains(op)
        }),
{
    let ls = lines(journal_content);
    let ghost lv = views(ls@);
    let mut last: Vec<(String, (String, String))> = Vec::new();
    let mut i: usize = 0;
    proof {
        assert(entries_map(entry_views(last@)).dom() =~= last_records(lv.take(0)).dom());
    }
    while i < ls.len()
        invariant
            i <= ls.len(),
            lv == views(ls@),
            ascending(keys_of(entry_views(last@))),
            same_records(entries_map(entry_views(last@)), last_records(lv.take(i as int))),
        decreases ls.len() - i,
    {
        proof {
            assert(lv.take(i + 1).drop_last() =~= lv.take(i as int));
            assert(lv.take(i + 1).last() == ls@[i as int]@);
        }
        let ghost a0 = entries_map(entry_views(last@));
        let ghost b0 = last_records(lv.take(i as int));
        match journal_line(ls[i]) {
            Some((op, step, status)) => {
                let ghost k = op@;
                let ghost v = (step@, status@);
                upsert(&mut last, op, (step, status));
                proof {
                    let a = entries_map(entry_views(last@));
                    let b = last_records(lv.take(i + 1));
                    assert(b == b0.insert(k, v));
                    assert(a.dom() =~= b.dom());
                    assert forall|x: Seq<char>| #[trigger] a.contains_key(x) implies (a[x].0@, a[x].1@) == b[x] by {
                        if x != k {
                            assert(a0.contains_key(x));
                        }
                    }
                }
            },
            None => {
                proof {
                    assert(last_records(lv.take(i + 1)) == b0);
                }
            },
        }
        i += 1;
    }
    proof {
        assert(lv.take(ls.len() as int) =~= lv);
    }
    let ghost e = entry_views(last@);
    let ghost m = last_records(lv);
    proof {
        lemma_ascending_distinct(e);
        lemma_entries_map(e);
    }
    let mut out: Vec<(String, String)> = Vec::new();
    let mut j: usize = 0;
    let ghost mut src: Seq<int> = Seq::empty();
    while j < last.len()
        invariant
            j <= last.len(),
            e == entry_views(last@),
            src.len() == out@.len(),
            forall|x: int| 0 <= x < src.len() ==> 0 <= #[trigger] src[x] < j,
            forall|x: int, z: int| 0 <= x < z < src.len() ==> #[trigger] src[x] < #[trigger] src[z],
            forall|x: int| #![trigger pair_views(out@)[x]] 0 <= x < src.len() ==> e[src[x]].0 == pair_views(out@)[x].0
                && pair_views(out@)[x].1 == e[src[x]].1.0@ && e[src[x]].1.1@ == "running"@,
            forall|y: int| 0 <= y < j && #[trigger] e[y].1.1@ == "running"@ ==> exists|x: int| 0 <= x < src.len() && src[x] == y,
        decreases last.len() - j,
    {
        let ghost before = pair_views(out@);
        if str_eq(last[j].1.1.as_str(), "running") {
            out.push((last[j].0.clone(), last[j].1.0.clone()));
            proof {
                let after = pair_views(out@);
                assert(after =~= before.push((e[j as int].0, e[j as int].1.0@)));
                let old_src = src;
                src = src.push(j as int);
                assert forall|y: int| 0 <= y < j + 1 && #[trigger] e[y].1.1@ == "running"@ implies exists|x: int| 0 <= x < src.len() && src[x] == y by {
                    if y == j {
                        assert(src[src.len() - 1] == y);
                    } else {
                        let x = choose|x: int| 0 <= x < old_src.len() && old_src[x] == y;
                        assert(src[x] == y);
                    }
                }
            }
        }
        j += 1;
    }
    proof {
        let o = pair_views(out@);
        assert forall|x: int, z: int| 0 <= x < z < o.len() implies str_lt(keys_of(o)[x], keys_of(o)[z]) by {
            assert(src[x] < src[z]);
            assert(str_lt(keys_of(e)[src[x]], keys_of(e)[src[z]]));
            assert(o[x].0 == e[src[x]].0 && o[z].0 == e[src[z]].0);
        }
        assert forall|x: int| 0 <= x < o.len() implies m.contains_key(#[trigger] o[x].0) && m[o[x].0] == (o[x].1, "running"@) by {
            let y = src[x];
            assert(o[x].0 == e[y].0);
            assert(keys_of(e)[y] == e[y].0);
            assert(keys_of(e).contains(o[x].0));
            assert(entries_map(e).contains_key(o[x].0));
            assert(entries_map(e)[e[y].0] == e[y].1);
        }
        assert forall|op: Seq<char>| #[trigger] m.contains_key(op) && m[op].1 == "running"@ implies keys_of(o).contains(op) by {
            assert(entries_map(e).contains_key(op));
            let y = choose|y: int| 0 <= y < keys_of(e).len() && keys_of(e)[y] == op;
            assert(e[y].0 == op);
            assert(entries_map(e)[op] == e[y].1);
            assert(e[y].1.1@ == "running"@);
            let x = choose|x: int| 0 <= x < src.len() && src[x] == y;
            assert(keys_of(o)[x] == op);
        }
    }
    out
}

/// Where the bundle of a failed operation goes.
pub open spec fn bundle_dir(state_dir: Seq<char>, ts_unix: u64, op: Seq<char>) -> Seq<char> {
    state_dir + "/incidents/"@ + dec(ts_unix as nat) + "-"@ + op
}

/// The last `n` lines, or all of them when there are fewer.
pub open spec fn last_lines(ls: Seq<Seq<char>>, n: nat) -> Seq<Seq<char>> {
    if ls.len() <= n {
        ls
    } else {
        ls.skip(ls.len() - n)
    }
}

proof fn lemma_kept(q1: Seq<Request>, q2: Seq<Request>, i: int)
    requires
        0 <= i < q1.len() <= q2.len(),
        q2.take(q1.len() as int) == q1,
    ensures
        q2[i] == q1[i],
{
    assert(q2.take(q1.len() as int)[i] == q2[i]);
}

fn bundle_path(dir: &str, name: &str) -> (r: String)
    ensures
        r@ == dir@ + "/"@ + name@,
{
    let mut p = String::from_str(dir);
    p.append("/");
    p.append(name);
    p
}

/// Write the incident bundle of a failed operation under the state
/// directory: the report and the events as the caller serialised them,
/// the replayable commands, a copy of the state and the journal's last two
/// hundred lines where they can be read, and the versions. Answers the
/// bundle's directory. The first three files and the last are written as
/// given; a write that fails stops the bundle there.
pub fn write_bundle<E: Executor>(
    exec: &mut E,
    state_dir: &str,
    ts_unix: u64,
    report: &OperationReport,
    report_json: &str,
    events: &[PipelineEvent],
    events_jsonl: &str,
    versions: &str,
) -> (r: Result<String, CoreError>)
    ensures
        extends(old(exec).requests(), old(exec).replies(), final(exec).requests(), final(exec).replies()),
        ({
            let dir = bundle_dir(state_dir@, ts_unix, report.op@);
            let n0 = old(exec).requests().len() as int;
            let q = final(exec).requests();
            &&& q.len() > n0 && q[n0] == Request::WriteFile(dir + "/"@ + "report.json"@, report_json@, 0o644)
            &&& r is Ok ==> q.len() >= n0 + 6 && q[n0 + 1] == Request::WriteFile(dir + "/"@ + "events.jsonl"@, events_jsonl@, 0o644)
                && q[n0 + 2] == Request::WriteFile(dir + "/"@ + "commands.sh"@, script_header() + replay_lines(events@), 0o755)
                && q[n0 + 3] == Request::ReadFile(state_dir@ + "/"@ + "state.json"@)
                && q.last() == Request::WriteFile(dir + "/"@ + "versions.txt"@, versions@, 0o644)
            &&& r matches Ok(d) ==> d@ == dir
            &&& r is Err ==> q.last() is WriteFile
        }),
{
    let ghost q0 = exec.requests();
    let ghost h0 = exec.replies();
    let mut dir = String::from_str(state_dir);
    dir.append("/incidents/");
    let ts = dec_string(ts_unix);
    dir.append(ts.as_str());
    dir.append("-");
    dir.append(report.op.as_str());
    proof {
        lemma_extends_refl(q0, h0);
        assert(dir@ =~= bundle_dir(state_dir@, ts_unix, report.op@));
    }
    let p = bundle_path(dir.as_str(), "report.json");
    let w = exec.write_file(p.as_str(), report_json, 0o644);
    proof {
        lemma_pushed(q0, h0, exec.requests().last(), exec.replies().last());
        assert(exec.requests() == q0.push(exec.requests().last()));
    }
    w?;
    let ghost q1 = exec.requests();
    let ghost h1 = exec.replies();
    let p = bundle_path(dir.as_str(), "events.jsonl");
    let w = exec.write_file(p.as_str(), events_jsonl, 0o644);
    proof {
        lemma_pushed(q1, h1, exec.requests().last(), exec.replies().last());
        lemma_extends_trans(q0, h0, q1, h1, exec.requests(), exec.replies());
        lemma_kept(q1, exec.requests(), q0.len() as int);
    }
    w?;
    let ghost q2 = exec.requests();
    let ghost h2 = exec.replies();
    let script = commands_script(events);
    let p = bundle_path(dir.as_str(), "commands.sh");
    let w = exec.write_file(p.as_str(), script.as_str(), 0o755);
    proof {
        lemma_pushed(q2, h2, exec.requests().last(), exec.replies().last());
        lemma_extends_trans(q0, h0, q2, h2, exec.requests(), exec.replies());
        lemma_kept(q2, exec.requests(), q0.len() as int);
    }
    w?;
    let ghost q3 = exec.requests();
    let ghost h3 = exec.replies();
    let sp = bundle_path(state_dir, "state.json");
    let st = exec.read_file(sp.as_str());
    proof {
        lemma_pushed(q3, h3, exec.requests().last(), exec.replies().last());
        lemma_extends_trans(q0, h0, q3, h3, exec.requests(), exec.replies());
        lemma_kept(q3, exec.requests(), q0.len() as int);
    }
    let ghost q4 = exec.requests();
    match st {
        Ok(state) => {
            let ghost qa = exec.requests();
            let ghost ha = exec.replies();
            let p = bundle_path(dir.as_str(), "state-at-failure.json");
            let w = exec.write_file(p.as_str(), state.as_str(), 0o644);
            proof {
                lemma_pushed(qa, ha, exec.requests().last(), exec.replies().last());
                lemma_extends_trans(q0, h0, qa, ha, exec.requests(), exec.replies());
                lemma_kept(qa, exec.requests(), q0.len() as int);
            }
            w?;
        },
        Err(_) => {},
    }
    let ghost qa = exec.requests();
    let ghost ha = exec.replies();
    let jp = bundle_path(state_dir, "journal.jsonl");
    let jr = exec.read_file(jp.as_str());
    proof {
        lemma_pushed(qa, ha, exec.requests().last(), exec.replies().last());
        lemma_extends_trans(q0, h0, qa, ha, exec.requests(), exec.replies());
        lemma_kept(qa, exec.requests(), q0.len() as int);
    }
    match jr {
        Ok(journal) => {
            let ls = lines(journal.as_str());
            let start: usize = if ls.len() > 200 { ls.len() - 200 } else { 0 };
            let mut tail: Vec<&str> = Vec::new();
            let mut i: usize = start;
            while i < ls.len()
                invariant
                    start <= i <= ls.len(),
                decreases ls.len() - i,
            {
                tail.push(ls[i]);
                i += 1;
            }
            let text = join_strs(&tail, "\n");
            let ghost qb = exec.requests();
            let ghost hb = exec.replies();
            let p = bundle_path(dir.as_str(), "journal-tail.jsonl");
            let w = exec.write_file(p.as_str(), text.as_str(), 0o644);
            proof {
                lemma_pushed(qb, hb, exec.requests().last(), exec.replies().last());
                lemma_extends_trans(q0, h0, qb, hb, exec.requests(), exec.replies());
                lemma_kept(qb, exec.requests(), q0.len() as int);
            }
            w?;
        },
        Err(_) => {},
    }
    let ghost qv = exec.requests();
    let ghost hv = exec.replies();
    let p = bundle_path(dir.as_str(), "versions.txt");
    let w = exec.write_file(p.as_str(), versions, 0o644);
    proof {
        lemma_pushed(qv, hv, exec.requests().last(), exec.replies().last());
        lemma_extends_trans(q0, h0, qv, hv, exec.requests(), exec.replies());
        lemma_kept(qv, exec.requests(), q0.len() as int);
        assert(exec.requests()[q0.len() as int] == q1[q0.len() as int]) by {
            assert(exec.requests().take(q1.len() as int)[q0.len() as int] == exec.requests()[q0.len() as int]);
        }
        assert(exec.requests()[q0.len() + 1int] == q2[q0.len() + 1int]) by {
            assert(exec.requests().take(q2.len() as int)[q0.len() + 1int] == exec.requests()[q0.len() + 1int]);
        }
        assert(exec.requests()[q0.len() + 2int] == q3[q0.len() + 2int]) by {
            assert(exec.requests().take(q3.len() as int)[q0.len() + 2int] == exec.requests()[q0.len() + 2int]);
        }
        assert(exec.requests()[q0.len() + 3int] == q4[q0.len() + 3int]) by {
            assert(exec.requests().take(q4.len() as int)[q0.len() + 3int] == exec.requests()[q0.len() + 3int]);
        }
    }
    w?;
    Ok(dir)
}

} // verus!
