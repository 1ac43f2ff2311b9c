//! Per-service health checks, compared as a before/after pair.
//!
//! There are no thresholds here. A check measures the same thing twice —
//! once before the work, once after — and judges the PAIR. "May rise, never
//! fall" needs no tolerance when the two readings are minutes apart.

use vstd::prelude::*;
use vstd::string::*;
use crate::text::{
    dec_int, dec_string_i64, parse_i64, parse_signed, trim, trimmed, str_eq,
};

verus! {

/// How a measurement is allowed to change between the two readings.
#[derive(Debug, Clone, Copy, PartialEq, Eq)]
pub enum Expect {
    /// May grow, never shrink.
    NeverDecreases,
    /// Must be identical.
    MustMatch,
    /// Must be non-empty afterwards, whatever it was before.
    MustBePresent,
}

/// Which layer a measurement actually reaches, shallow to deep.
#[derive(Debug, Clone, Copy, PartialEq, Eq, PartialOrd, Ord)]
pub enum Layer {
    /// Something answered on a port.
    Network,
    /// A process is up, or a file exists.
    Process,
    /// The application answered a question only it can answer.
    Application,
    /// What a person would actually notice.
    UserVisible,
}

/// Depth of a layer: the order the enum declares.
pub open spec fn depth(l: Layer) -> nat {
    match l {
        Layer::Network => 0,
        Layer::Process => 1,
        Layer::Application => 2,
        Layer::UserVisible => 3,
    }
}

/// The layer's name as `{:?}` prints it.
pub open spec fn layer_name(l: Layer) -> Seq<char> {
    match l {
        Layer::Network => "Network"@,
        Layer::Process => "Process"@,
        Layer::Application => "Application"@,
        Layer::UserVisible => "UserVisible"@,
    }
}

fn layer_depth(l: Layer) -> (r: u8)
    ensures
        r == depth(l),
{
    match l {
        Layer::Network => 0,
        Layer::Process => 1,
        Layer::Application => 2,
        Layer::UserVisible => 3,
    }
}

fn layer_str(l: Layer) -> (r: &'static str)
    ensures
        r@ == layer_name(l),
{
    match l {
        Layer::Network => "Network",
        Layer::Process => "Process",
        Layer::Application => "Application",
        Layer::UserVisible => "UserVisible",
    }
}

/// One thing worth measuring about a service.
#[derive(Debug, Clone, PartialEq, Eq)]
pub struct Check {
    pub name: String,
    /// Run inside the container. Its stdout, trimmed, is the reading.
    pub command: String,
    pub expect: Expect,
    pub layer: Layer,
    /// What this check does NOT prove, in one line.
    pub blind_spot: Option<String>,
}

/// The whole file that sits beside a service.
#[derive(Debug, Clone, PartialEq, Eq)]
pub struct ServiceChecks {
    pub checks: Vec<Check>,
    /// Things no measurement can settle.
    pub manual: Vec<String>,
}

/// One measurement, taken twice.
#[derive(Debug, Clone, PartialEq, Eq)]
pub struct Reading {
    pub name: String,
    pub before: String,
    pub after: String,
    pub expect: Expect,
    pub blind_spot: Option<String>,
}

/// What the pair says.
#[derive(Debug, Clone, PartialEq, Eq)]
pub enum Verdict {
    /// Unchanged, or changed in the direction that is allowed.
    Pass,
    /// Changed in a way the service said it must not.
    Regressed(String),
    /// The reading could not be taken at all.
    Unreadable(String),
}

/// A verdict with its message as characters.
pub enum Judged {
    Pass,
    Regressed(Seq<char>),
    Unreadable(Seq<char>),
}

impl View for Verdict {
    type V = Judged;

    open spec fn view(&self) -> Judged {
        match self {
            Verdict::Pass => Judged::Pass,
            Verdict::Regressed(m) => Judged::Regressed(m@),
            Verdict::Unreadable(m) => Judged::Unreadable(m@),
        }
    }
}

pub open spec fn quoted(s: Seq<char>) -> Seq<char> {
    "'"@ + s + "'"@
}

/// The verdict on one pair of readings.
pub open spec fn judgement(name: Seq<char>, before: Seq<char>, after: Seq<char>, expect: Expect) -> Judged {
    let b = trimmed(before);
    let a = trimmed(after);
    if a.len() == 0 {
        Judged::Unreadable(
            quoted(name) + " could not be read after the work (it read "@ + quoted(before)
                + " before)"@,
        )
    } else {
        match expect {
            Expect::MustBePresent => Judged::Pass,
            Expect::MustMatch => if b == a {
                Judged::Pass
            } else {
                Judged::Regressed(quoted(name) + " was "@ + quoted(b) + " and is now "@ + quoted(a))
            },
            Expect::NeverDecreases => match parse_signed(b, i64::MAX as nat) {
                None => if b.len() == 0 {
                    Judged::Pass
                } else {
                    Judged::Unreadable(
                        quoted(name) + " expects a number and read "@ + quoted(b) + " before"@,
                    )
                },
                Some(x) => match parse_signed(a, i64::MAX as nat) {
                    None => Judged::Unreadable(
                        quoted(name) + " expects a number and read "@ + quoted(a) + " after"@,
                    ),
                    Some(y) => if y >= x {
                        Judged::Pass
                    } else {
                        Judged::Regressed(
                            quoted(name) + " fell from "@ + dec_int(x) + " to "@ + dec_int(y),
                        )
                    },
                },
            },
        }
    }
}

fn quote_into(out: &mut String, s: &str)
    ensures
        final(out)@ == old(out)@ + quoted(s@),
{
    out.append("'");
    out.append(s);
    out.append("'");
}

/// Judge one pair.
pub fn judge(r: &Reading) -> (v: Verdict)
    ensures
        v@ == judgement(r.name@, r.before@, r.after@, r.expect),
{
    let b = trim(r.before.as_str());
    let a = trim(r.after.as_str());
    if a.unicode_len() == 0 {
        let mut m = String::new();
        quote_into(&mut m, r.name.as_str());
        m.append(" could not be read after the work (it read ");
        quote_into(&mut m, r.before.as_str());
        m.append(" before)");
        return Verdict::Unreadable(m);
    }
    match r.expect {
        Expect::MustBePresent => Verdict::Pass,
        Expect::MustMatch => {
            if str_eq(b, a) {
                Verdict::Pass
            } else {
                let mut m = String::new();
                quote_into(&mut m, r.name.as_str());
                m.append(" was ");
                quote_into(&mut m, b);
                m.append(" and is now ");
                quote_into(&mut m, a);
                Verdict::Regressed(m)
            }
        },
        Expect::NeverDecreases => {
            let before = match parse_i64(b) {
                Some(v) => v,
                None => {
                    if b.unicode_len() == 0 {
                        return Verdict::Pass;
                    }
                    let mut m = String::new();
                    quote_into(&mut m, r.name.as_str());
                    m.append(" expects a number and read ");
                    quote_into(&mut m, b);
                    m.append(" before");
                    return Verdict::Unreadable(m);
                },
            };
            let after = match parse_i64(a) {
                Some(v) => v,
                None => {
                    let mut m = String::new();
                    quote_into(&mut m, r.name.as_str());
                    m.append(" expects a number and read ");
                    quote_into(&mut m, a);
                    m.append(" after");
                    return Verdict::Unreadable(m);
                },
            };
            if after >= before {
                Verdict::Pass
            } else {
                let mut m = String::new();
                quote_into(&mut m, r.name.as_str());
                m.append(" fell from ");
                let x = dec_string_i64(before);
                m.append(x.as_str());
                m.append(" to ");
                let y = dec_string_i64(after);
                m.append(y.as_str());
                Verdict::Regressed(m)
            }
        },
    }
}

pub open spec fn judged_all(rs: Seq<Reading>) -> Seq<Judged> {
    rs.map_values(|r: Reading| judgement(r.name@, r.before@, r.after@, r.expect))
}

/// The blind spots that readings declare, in order.
pub open spec fn blind_spots(rs: Seq<Reading>) -> Seq<Seq<char>>
    decreases rs.len(),
{
    if rs.len() == 0 {
        Seq::empty()
    } else {
        let pre = blind_spots(rs.drop_last());
        match rs.last().blind_spot {
            Some(b) => pre.push(b@),
            None => pre,
        }
    }
}

pub open spec fn strings(v: Seq<String>) -> Seq<Seq<char>> {
    v.map_values(|s: String| s@)
}

pub open spec fn verdict_views(v: Seq<Verdict>) -> Seq<Judged> {
    v.map_values(|x: Verdict| x@)
}

/// Judge the lot, and say what the passing ones do not prove.
pub fn judge_all(readings: &[Reading]) -> (r: (Vec<Verdict>, Vec<String>))
    ensures
        verdict_views(r.0@) == judged_all(readings@),
        strings(r.1@) == blind_spots(readings@),
{
    let mut verdicts: Vec<Verdict> = Vec::new();
    let mut blind: Vec<String> = Vec::new();
    let mut i: usize = 0;
    while i < readings.len()
        invariant
            i <= readings.len(),
            verdict_views(verdicts@) == judged_all(readings@.take(i as int)),
            strings(blind@) == blind_spots(readings@.take(i as int)),
        decreases readings.len() - i,
    {
        let v = judge(&readings[i]);
        proof {
            assert(readings@.take(i + 1).drop_last() =~= readings@.take(i as int));
            let r = readings@[i as int];
            assert(verdict_views(verdicts@.push(v)) =~= verdict_views(verdicts@).push(v@));
            assert(judged_all(readings@.take(i + 1)) =~= judged_all(readings@.take(i as int)).push(
                judgement(r.name@, r.before@, r.after@, r.expect),
            ));
        }
        verdicts.push(v);
        match &readings[i].blind_spot {
            Some(b) => {
                blind.push(b.clone());
                proof {
                    assert(strings(blind@) =~= blind_spots(readings@.take(i as int)).push(b@));
                }
            },
            None => {},
        }
        i += 1;
    }
    proof {
        assert(readings@.take(readings.len() as int) =~= readings@);
    }
    (verdicts, blind)
}

/// The sentence that says no check reaches the application.
pub open spec fn shallow_msg() -> Seq<char> {
    "no check reaches the application: every reading here would pass while the service does nothing useful"@
}

/// A check below the application layer that does not say what it misses.
pub open spec fn silent_shallow(c: Check) -> bool {
    depth(c.layer) < 2 && match c.blind_spot {
        Some(b) => trimmed(b@).len() == 0,
        None => true,
    }
}

pub open spec fn silent_msg(c: Check) -> Seq<char> {
    quoted(c.name@) + " only reaches "@ + layer_name(c.layer)
        + " and does not say what it fails to prove"@
}

/// One message per silent shallow check, in order.
pub open spec fn silent_msgs(cs: Seq<Check>) -> Seq<Seq<char>>
    decreases cs.len(),
{
    if cs.len() == 0 {
        Seq::empty()
    } else {
        let pre = silent_msgs(cs.drop_last());
        if silent_shallow(cs.last()) {
            pre.push(silent_msg(cs.last()))
        } else {
            pre
        }
    }
}

/// What a service's checks are missing, before they are ever run.
pub open spec fn shortcomings_of(cs: Seq<Check>) -> Seq<Seq<char>> {
    if cs.len() == 0 {
        Seq::empty()
    } else if !(exists|i: int| 0 <= i < cs.len() && depth((#[trigger] cs[i]).layer) >= 2) {
        seq![shallow_msg()] + silent_msgs(cs)
    } else {
        silent_msgs(cs)
    }
}

/// No checks, no shortcomings; with a check that reaches the application,
/// only the checks below it that do not say what they miss are named.
pub proof fn law_shortcomings_as_documented(cs: Seq<Check>)
    ensures
        cs.len() == 0 ==> shortcomings_of(cs).len() == 0,
        (exists|i: int| 0 <= i < cs.len() && depth((#[trigger] cs[i]).layer) >= 2) ==> shortcomings_of(cs)
            == silent_msgs(cs),
        (cs.len() > 0 && !(exists|i: int| 0 <= i < cs.len() && depth((#[trigger] cs[i]).layer) >= 2)) ==> shortcomings_of(
            cs,
        ) == seq![shallow_msg()] + silent_msgs(cs),
{
}

/// What a service's checks are missing, before they are ever run: at least
/// one check must reach the application, and a check below it must say what
/// it does not prove.
pub fn shortcomings(sc: &ServiceChecks) -> (r: Vec<String>)
    ensures
        strings(r@) == shortcomings_of(sc.checks@),
{
    let mut out: Vec<String> = Vec::new();
    if sc.checks.len() == 0 {
        return out;
    }
    let mut deep = false;
    let mut i: usize = 0;
    while i < sc.checks.len()
        invariant
            i <= sc.checks.len(),
            deep == exists|k: int| 0 <= k < i && depth((#[trigger] sc.checks@[k]).layer) >= 2,
        decreases sc.checks.len() - i,
    {
        if layer_depth(sc.checks[i].layer) >= 2 {
            deep = true;
        }
        i += 1;
    }
    if !deep {
        out.push(String::from_str(
            "no check reaches the application: every reading here would pass while the service does nothing useful",
        ));
    }
    let ghost head = strings(out@);
    let mut i: usize = 0;
    while i < sc.checks.len()
        invariant
            i <= sc.checks.len(),
            strings(out@) == head + silent_msgs(sc.checks@.take(i as int)),
        decreases sc.checks.len() - i,
    {
        let c = &sc.checks[i];
        proof {
            assert(sc.checks@.take(i + 1).drop_last() =~= sc.checks@.take(i as int));
            assert(sc.checks@.take(i + 1).last() == *c);
        }
        let silent = match &c.blind_spot {
            Some(b) => trim(b.as_str()).unicode_len() == 0,
            None => true,
        };
        if layer_depth(c.layer) < 2 && silent {
            let mut m = String::new();
            quote_into(&mut m, c.name.as_str());
            m.append(" only reaches ");
            m.append(layer_str(c.layer));
            m.append(" and does not say what it fails to prove");
            proof {
                assert(strings(out@.push(m)) =~= strings(out@).push(m@));
            }
            out.push(m);
        }
        i += 1;
    }
    proof {
        assert(sc.checks@.take(sc.checks.len() as int) =~= sc.checks@);
        if deep {
            assert(head =~= Seq::<Seq<char>>::empty());
        } else {
            assert(head =~= seq![shallow_msg()]);
        }
    }
    out
}

/// The regression messages, in order.
pub open spec fn regressed(vs: Seq<Judged>) -> Seq<Seq<char>>
    decreases vs.len(),
{
    if vs.len() == 0 {
        Seq::empty()
    } else {
        let pre = regressed(vs.drop_last());
        match vs.last() {
            Judged::Regressed(m) => pre.push(m),
            _ => pre,
        }
    }
}

/// Did anything actually go backwards? Unreadable is deliberately not a
/// failure here.
pub fn regressions(verdicts: &[Verdict]) -> (r: Vec<String>)
    ensures
        strings(r@) == regressed(verdict_views(verdicts@)),
{
    let mut out: Vec<String> = Vec::new();
    let mut i: usize = 0;
    while i < verdicts.len()
        invariant
            i <= verdicts.len(),
            strings(out@) == regressed(verdict_views(verdicts@.take(i as int))),
        decreases verdicts.len() - i,
    {
        proof {
            assert(verdict_views(verdicts@.take(i + 1)).drop_last() =~= verdict_views(
                verdicts@.take(i as int),
            ));
            assert(verdict_views(verdicts@.take(i + 1)).last() == verdicts@[i as int]@);
        }
        match &verdicts[i] {
            Verdict::Regressed(why) => {
                out.push(why.clone());
                proof {
                    assert(strings(out@) =~= regressed(verdict_views(verdicts@.take(i as int))).push(
                        why@,
                    ));
                }
            },
            _ => {},
        }
        i += 1;
    }
    proof {
        assert(verdicts@.take(verdicts.len() as int) =~= verdicts@);
    }
    out
}

/// A reading that did not change passes, whatever the service expects of
/// it — as long as it could be read, and, for a count, reads as a number.
pub proof fn law_unchanged_reading_passes(name: Seq<char>, reading: Seq<char>, expect: Expect)
    requires
        trimmed(reading).len() > 0,
        expect == Expect::NeverDecreases ==> parse_signed(trimmed(reading), i64::MAX as nat) is Some,
    ensures
        judgement(name, reading, reading, expect) == Judged::Pass,
{
}

/// "May rise, never fall": for two readable counts the pair passes exactly
/// when the second is not below the first, and otherwise is a regression.
pub proof fn law_counts_may_rise_never_fall(name: Seq<char>, before: Seq<char>, after: Seq<char>)
    requires
        parse_signed(trimmed(before), i64::MAX as nat) is Some,
        parse_signed(trimmed(after), i64::MAX as nat) is Some,
        trimmed(after).len() > 0,
    ensures
        (judgement(name, before, after, Expect::NeverDecreases) == Judged::Pass) == (parse_signed(
            trimmed(after),
            i64::MAX as nat,
        ).unwrap() >= parse_signed(trimmed(before), i64::MAX as nat).unwrap()),
        judgement(name, before, after, Expect::NeverDecreases) is Pass || judgement(
            name,
            before,
            after,
            Expect::NeverDecreases,
        ) is Regressed,
{
}

/// A reading that cannot be taken is never a regression: it says nothing
/// about the data.
pub proof fn law_unreadable_is_not_regression(name: Seq<char>, before: Seq<char>, after: Seq<char>, expect: Expect)
    requires
        trimmed(after).len() == 0,
    ensures
        judgement(name, before, after, expect) is Unreadable,
{
}

/// With nothing to compare against — no reading before, as for a container
/// that did not exist yet — a count that can be read passes.
pub proof fn law_no_baseline_passes(name: Seq<char>, after: Seq<char>)
    requires
        trimmed(after).len() > 0,
    ensures
        judgement(name, Seq::empty(), after, Expect::NeverDecreases) == Judged::Pass,
{
    assert(trimmed(Seq::<char>::empty()) =~= Seq::<char>::empty());
}

} // verus!
