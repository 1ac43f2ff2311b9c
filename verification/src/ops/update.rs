//! Managed updates with rollback. Per app: capture the running images,
//! pull, bring up, verify; on a failed verify tag the captured images back
//! and force-recreate, then verify the rollback. Scheduled runs only touch
//! apps labelled `com.homelab.update.policy=auto`. What the update decides
//! between those commands lives here.

use vstd::prelude::*;
use vstd::string::*;
use crate::error::CoreError;
use crate::executor::{ended_on_failure, extends, lemma_extends_refl, lemma_extends_trans, pct_sh, pct_sh_args, Executor, OutputView, Request};
use crate::manifest::{app_problems, validate_manifest};
use crate::ops::busy::{app_busy, busy_cleared, lemma_busy_cleared_grows, reason};
use crate::ops::{guard_target, no_touch_refusal};
use crate::runner::OperationReport;
use crate::safety::SafetyConfig;
use crate::text::dec;
use crate::runner::{Journal, Runner, StepOutcome};
use crate::sink::{Level, Sink};
use crate::manifest::StackManifest;
use crate::ops::backup::{compose, compose_script};
use crate::text::{
    contains_string, lines, lines_of, split_whitespace, str_eq, string_views, trim, trimmed, views,
    words,
};

verus! {

/// One captured container image: its id and the `repo:tag` it ran as.
#[derive(Debug, Clone)]
pub struct CapturedImage {
    pub image_id: String,
    pub repo_tag: String,
}

/// The apps an update covers: all of them, or just the one asked for.
pub open spec fn selected_apps(apps: Seq<Seq<char>>, only: Option<Seq<char>>) -> Seq<Seq<char>>
    decreases apps.len(),
{
    if apps.len() == 0 {
        Seq::empty()
    } else {
        let pre = selected_apps(apps.drop_last(), only);
        match only {
            Some(o) => if apps.last() == o {
                pre.push(apps.last())
            } else {
                pre
            },
            None => pre.push(apps.last()),
        }
    }
}

/// The message when the app asked for is not in the stack.
pub open spec fn not_in_stack(only: Option<Seq<char>>, stack: Seq<char>) -> Seq<char> {
    "app '"@ + (match only {
        Some(o) => o,
        None => "?"@,
    }) + "' is not part of stack "@ + stack
}

/// The apps to update, or an error when that leaves none.
pub fn select_apps(m: &StackManifest, only: Option<&str>) -> (r: Result<Vec<String>, CoreError>)
    ensures
        selected_apps(string_views(m.apps@), match only {
            Some(o) => Some(o@),
            None => None,
        }).len() > 0 ==> (r matches Ok(v) && string_views(v@) == selected_apps(
            string_views(m.apps@),
            match only {
                Some(o) => Some(o@),
                None => None,
            },
        )),
        selected_apps(string_views(m.apps@), match only {
            Some(o) => Some(o@),
            None => None,
        }).len() == 0 ==> (r matches Err(CoreError::Other(msg)) && msg@ == not_in_stack(
            match only {
                Some(o) => Some(o@),
                None => None,
            },
            m.stack_name@,
        )),
{
    let ghost o = match only {
        Some(o) => Some(o@),
        None => None,
    };
    let ghost av = string_views(m.apps@);
    let mut out: Vec<String> = Vec::new();
    let mut i: usize = 0;
    while i < m.apps.len()
        invariant
            i <= m.apps.len(),
            av == string_views(m.apps@),
            o == (match only {
                Some(o) => Some(o@),
                None => None,
            }),
            string_views(out@) == selected_apps(av.take(i as int), o),
        decreases m.apps.len() - i,
    {
        proof {
            assert(av.take(i + 1).drop_last() =~= av.take(i as int));
            assert(av.take(i + 1).last() == m.apps@[i as int]@);
        }
        let take = match only {
            Some(x) => str_eq(x, m.apps[i].as_str()),
            None => true,
        };
        let ghost before = string_views(out@);
        if take {
            out.push(m.apps[i].clone());
            proof {
                assert(string_views(out@) =~= before.push(m.apps@[i as int]@));
            }
        }
        i += 1;
    }
    proof {
        assert(av.take(m.apps.len() as int) =~= av);
    }
    if out.len() == 0 {
        let mut msg = String::from_str("app '");
        match only {
            Some(x) => msg.append(x),
            None => msg.append("?"),
        }
        msg.append("' is not part of stack ");
        msg.append(m.stack_name.as_str());
        return Err(CoreError::Other(msg));
    }
    Ok(out)
}

/// The images `docker inspect` printed, one `id repo:tag` per line; a line
/// with fewer than two words names none.
pub open spec fn captured_of(ls: Seq<Seq<char>>) -> Seq<(Seq<char>, Seq<char>)>
    decreases ls.len(),
{
    if ls.len() == 0 {
        Seq::empty()
    } else {
        let pre = captured_of(ls.drop_last());
        let w = words(ls.last());
        if w.len() >= 2 {
            pre.push((w[0], w[1]))
        } else {
            pre
        }
    }
}

pub open spec fn captured_view(v: Seq<CapturedImage>) -> Seq<(Seq<char>, Seq<char>)> {
    v.map_values(|c: CapturedImage| (c.image_id@, c.repo_tag@))
}

pub fn parse_captured(stdout: &str) -> (r: Vec<CapturedImage>)
    ensures
        captured_view(r@) == captured_of(lines_of(stdout@)),
{
    let ls = lines(stdout);
    let ghost lv = views(ls@);
    let mut out: Vec<CapturedImage> = Vec::new();
    let mut i: usize = 0;
    while i < ls.len()
        invariant
            i <= ls.len(),
            lv == views(ls@),
            lv == lines_of(stdout@),
            captured_view(out@) == captured_of(lv.take(i as int)),
        decreases ls.len() - i,
    {
        proof {
            assert(lv.take(i + 1).drop_last() =~= lv.take(i as int));
            assert(lv.take(i + 1).last() == ls@[i as int]@);
        }
        let w = split_whitespace(ls[i]);
        let ghost before = captured_view(out@);
        if w.len() >= 2 {
            let c = CapturedImage { image_id: String::from_str(w[0]), repo_tag: String::from_str(w[1]) };
            out.push(c);
            proof {
                assert(captured_view(out@) =~= before.push((w@[0]@, w@[1]@)));
            }
        }
        i += 1;
    }
    proof {
        assert(lv.take(ls.len() as int) =~= lv);
    }
    out
}

/// A scheduled run updates only an app whose policy label says `auto`; a
/// run somebody asked for updates every app.
pub fn policy_allows(scheduled: bool, policy_label: &str) -> (r: bool)
    ensures
        r == (!scheduled || trimmed(policy_label@) == "auto"@),
{
    !scheduled || str_eq(trim(policy_label), "auto")
}

/// `docker compose ps --status running --services` named at least one
/// running service.
pub fn app_running(stdout: &str) -> (r: bool)
    ensures
        r == (trimmed(stdout@).len() > 0),
{
    trim(stdout).unicode_len() > 0
}

/// The command that puts the captured images back and recreates the app.
pub open spec fn retags(c: Seq<(Seq<char>, Seq<char>)>) -> Seq<char>
    decreases c.len(),
{
    if c.len() == 0 {
        Seq::empty()
    } else {
        retags(c.drop_last()) + "docker tag "@ + c.last().0 + " "@ + c.last().1 + " && "@
    }
}

pub open spec fn rollback_script_of(stack: Seq<char>, app: Seq<char>, c: Seq<(Seq<char>, Seq<char>)>) -> Seq<char> {
    "cd '/opt/"@ + stack + "/"@ + app + "' && "@ + retags(c) + "docker compose up -d --force-recreate"@
}

pub fn rollback_script(stack: &str, app: &str, captured: &Vec<CapturedImage>) -> (r: String)
    ensures
        r@ == rollback_script_of(stack@, app@, captured_view(captured@)),
{
    let ghost cv = captured_view(captured@);
    let mut tags = String::new();
    let mut i: usize = 0;
    proof {
        reveal_strlit("");
        assert(tags@ =~= retags(cv.take(0)));
    }
    while i < captured.len()
        invariant
            i <= captured.len(),
            cv == captured_view(captured@),
            tags@ == retags(cv.take(i as int)),
        decreases captured.len() - i,
    {
        proof {
            assert(cv.take(i + 1).drop_last() =~= cv.take(i as int));
            assert(cv.take(i + 1).last() == cv[i as int]);
        }
        tags.append("docker tag ");
        tags.append(captured[i].image_id.as_str());
        tags.append(" ");
        tags.append(captured[i].repo_tag.as_str());
        tags.append(" && ");
        i += 1;
    }
    proof {
        assert(cv.take(captured.len() as int) =~= cv);
    }
    let mut s = String::from_str("cd '/opt/");
    s.append(stack);
    s.append("/");
    s.append(app);
    s.append("' && ");
    s.append(tags.as_str());
    s.append("docker compose up -d --force-recreate");
    s
}

/// How a failed verify ends: there was nothing to roll back to; the
/// rollback worked, so the new image is bad; or neither works.
pub open spec fn verify_failure(app: Seq<char>, had_images: bool, healthy_after_rollback: bool) -> Seq<char> {
    if !had_images {
        app + " unhealthy after update and no captured image to roll back to"@
    } else if healthy_after_rollback {
        app
            + " unhealthy after update — ROLLED BACK to previous image, now healthy. The new image is bad; check its release notes"@
    } else {
        app + " unhealthy after update AND after rollback — manual intervention needed"@
    }
}

pub fn verify_failed(app: &str, had_images: bool, healthy_after_rollback: bool) -> (r: CoreError)
    ensures
        r matches CoreError::Other(m) && m@ == verify_failure(app@, had_images, healthy_after_rollback),
{
    let mut m = String::from_str(app);
    if !had_images {
        m.append(" unhealthy after update and no captured image to roll back to");
    } else if healthy_after_rollback {
        m.append(
            " unhealthy after update — ROLLED BACK to previous image, now healthy. The new image is bad; check its release notes",
        );
    } else {
        m.append(" unhealthy after update AND after rollback — manual intervention needed");
    }
    CoreError::Other(m)
}


// ── What an update reads from the container ─────────────────────────────────

/// Print each running container's image id and the `repo:tag` it ran as.
pub open spec fn capture_tail() -> Seq<char> {
    "ps -q | xargs -r docker inspect --format '{{.Image}} {{.Config.Image}}'"@
}

/// Print the first container's `com.homelab.update.policy` label.
pub open spec fn policy_tail() -> Seq<char> {
    "ps -q | head -1 | xargs -r docker inspect --format '{{index .Config.Labels \"com.homelab.update.policy\"}}'"@
}

/// Print the app's running services.
pub open spec fn running_tail() -> Seq<char> {
    "ps --status running --services"@
}

/// The images an app runs, so a bad update can be undone: one request;
/// a read that could not run is an error.
pub fn capture_app<E: Executor>(exec: &mut E, vmid: u16, stack: &str, app: &str) -> (r: Result<Vec<CapturedImage>, CoreError>)
    ensures
        final(exec).requests() == old(exec).requests().push(
            Request::Run("pct"@, pct_sh_args(vmid, compose_script(stack@, app@, capture_tail())), 60),
        ),
        final(exec).replies().len() == old(exec).replies().len() + 1,
        final(exec).replies().drop_last() == old(exec).replies(),
        match final(exec).replies().last() {
            Some(o) => r matches Ok(v) && captured_view(v@) == captured_of(lines_of(o.stdout)),
            None => r is Err,
        },
{
    let s = compose(stack, app, "ps -q | xargs -r docker inspect --format '{{.Image}} {{.Config.Image}}'");
    let out = pct_sh(exec, vmid, s.as_str(), 60)?;
    Ok(parse_captured(out.stdout.as_str()))
}

/// An app's update policy label, trimmed: one request; a read that could
/// not run is an error.
pub fn app_policy<E: Executor>(exec: &mut E, vmid: u16, stack: &str, app: &str) -> (r: Result<String, CoreError>)
    ensures
        final(exec).requests() == old(exec).requests().push(
            Request::Run("pct"@, pct_sh_args(vmid, compose_script(stack@, app@, policy_tail())), 60),
        ),
        final(exec).replies().len() == old(exec).replies().len() + 1,
        final(exec).replies().drop_last() == old(exec).replies(),
        match final(exec).replies().last() {
            Some(o) => r matches Ok(p) && p@ == trimmed(o.stdout),
            None => r is Err,
        },
{
    let s = compose(
        stack,
        app,
        "ps -q | head -1 | xargs -r docker inspect --format '{{index .Config.Labels \"com.homelab.update.policy\"}}'",
    );
    let out = pct_sh(exec, vmid, s.as_str(), 60)?;
    Ok(String::from_str(trim(out.stdout.as_str())))
}

/// Whether an app runs at least one service: one request; a read that
/// could not run is an error.
pub fn verify_app<E: Executor>(exec: &mut E, vmid: u16, stack: &str, app: &str) -> (r: Result<bool, CoreError>)
    ensures
        final(exec).requests() == old(exec).requests().push(
            Request::Run("pct"@, pct_sh_args(vmid, compose_script(stack@, app@, running_tail())), 60),
        ),
        match final(exec).replies().last() {
            Some(o) => r == Ok::<bool, CoreError>(trimmed(o.stdout).len() > 0),
            None => r is Err,
        },
{
    let s = compose(stack, app, "ps --status running --services");
    let out = pct_sh(exec, vmid, s.as_str(), 60)?;
    Ok(app_running(out.stdout.as_str()))
}


// ── Applying an update to one app ───────────────────────────────────────────

/// Stop, cleanly, every container of the app labelled
/// `com.homelab.update.stop-first=true`, before the new image comes up.
pub open spec fn stop_first_script(stack: Seq<char>, app: Seq<char>) -> Seq<char> {
    "cd '/opt/"@ + stack + "/"@ + app
        + "' && for c in $(docker compose ps -q); do if [ \"$(docker inspect --format '{{index .Config.Labels \"com.homelab.update.stop-first\"}}' $c)\" = true ]; then docker stop -t 60 $c; fi; done; true"@
}

/// What applying an update to one app asks of the machine, in order, as
/// far as it goes: pull the new images while the old ones still run, stop
/// the stop-first containers, bring the app up, read its running services;
/// then, only after a failed read and with images captured, put the
/// captured images back and read again.
pub open spec fn update_plan(m: StackManifest, app: Seq<char>, captured: Seq<(Seq<char>, Seq<char>)>) -> Seq<Request> {
    let st = m.stack_name@;
    let sh = |s: Seq<char>, t: u64| Request::Run("pct"@, pct_sh_args(m.vmid, s), t);
    seq![
        sh(compose_script(st, app, "pull -q"@), 600),
        sh(stop_first_script(st, app), 180),
        sh(compose_script(st, app, "up -d --remove-orphans"@), 600),
        sh(compose_script(st, app, running_tail()), 60),
        sh(rollback_script_of(st, app, captured), 300),
        sh(compose_script(st, app, running_tail()), 60),
    ]
}

/// The reply at `j` read no running service.
pub open spec fn none_running(h: Seq<Option<OutputView>>, j: int) -> bool {
    h[j] matches Some(o) && trimmed(o.stdout).len() == 0
}

fn app_sh<E: Executor>(exec: &mut E, vmid: u16, script: &str, timeout_s: u64) -> (r: Result<crate::executor::CmdOutput, CoreError>)
    ensures
        final(exec).requests() == old(exec).requests().push(Request::Run("pct"@, pct_sh_args(vmid, script@), timeout_s)),
        final(exec).replies() == old(exec).replies().push(crate::executor::reply_of(r)),
{
    pct_sh(exec, vmid, script, timeout_s)
}

/// Apply an update to one app whose policy and busy check allowed it, with
/// `captured` the images it ran before. The app is rolled back only when,
/// once up, it runs no service and there are images to go back to; the
/// update succeeds only when the app runs after it.
pub fn update_app<E: Executor, S: Sink, J: Journal>(
    exec: &mut E,
    runner: &mut Runner<S, J>,
    m: &StackManifest,
    app: &str,
    captured: &Vec<CapturedImage>,
) -> (r: Result<(), (String, CoreError)>)
    ensures
        final(runner).op_name() == old(runner).op_name(),
        ({
            let q0 = old(exec).requests();
            let h0 = old(exec).replies().len() as int;
            let q = final(exec).requests();
            let h = final(exec).replies();
            let n = q.len() - q0.len();
            &&& 1 <= n <= 6
            &&& q == q0 + update_plan(*m, app@, captured_view(captured@)).take(n)
            &&& h.len() == h0 + n
            &&& h.take(h0) == old(exec).replies()
            &&& n >= 5 ==> none_running(h, h0 + 3) && captured@.len() > 0
            &&& r is Ok ==> n == 4 && (h[h0 + 3] matches Some(o) && trimmed(o.stdout).len() > 0)
            &&& (n == 4 && none_running(h, h0 + 3)) ==> r is Err && captured@.len() == 0
            &&& r is Err ==> ended_on_failure(q, h) || (n >= 4 && none_running(h, h0 + 3))
        }),
{
    let ghost q0 = exec.requests();
    let ghost h0 = exec.replies();
    let ghost plan = update_plan(*m, app@, captured_view(captured@));
    let vmid = m.vmid;
    let stack = m.stack_name.as_str();

    // Pull first, then stop, then start: the service is down only for the
    // swap, not for the download.
    let mut step = String::from_str(app);
    step.append(" :: pull");
    runner.begin_step(step.as_str());
    let s = compose(stack, app, "pull -q");
    let out = app_sh(exec, vmid, s.as_str(), 600);
    proof {
        assert(exec.requests() =~= q0 + plan.take(1));
    }
    match out {
        Ok(_) => {},
        Err(e) => return Err((step.clone(), runner.step_failed(step.as_str(), e))),
    }
    runner.step_done(step.as_str(), StepOutcome::Changed);

    let mut step = String::from_str(app);
    step.append(" :: stop-first");
    runner.begin_step(step.as_str());
    let mut s = String::from_str("cd '/opt/");
    s.append(stack);
    s.append("/");
    s.append(app);
    s.append(
        "' && for c in $(docker compose ps -q); do if [ \"$(docker inspect --format '{{index .Config.Labels \"com.homelab.update.stop-first\"}}' $c)\" = true ]; then docker stop -t 60 $c; fi; done; true",
    );
    let out = app_sh(exec, vmid, s.as_str(), 180);
    proof {
        assert(s@ == stop_first_script(stack@, app@));
        assert(exec.requests() =~= q0 + plan.take(2));
    }
    let out = match out {
        Ok(o) => o,
        Err(e) => return Err((step.clone(), runner.step_failed(step.as_str(), e))),
    };
    if trim(out.stdout.as_str()).unicode_len() == 0 {
        runner.step_done(step.as_str(), StepOutcome::Unchanged);
    } else {
        runner.step_done(step.as_str(), StepOutcome::Changed);
    }

    let mut step = String::from_str(app);
    step.append(" :: up");
    runner.begin_step(step.as_str());
    let s = compose(stack, app, "up -d --remove-orphans");
    let out = app_sh(exec, vmid, s.as_str(), 600);
    proof {
        assert(exec.requests() =~= q0 + plan.take(3));
    }
    match out {
        Ok(_) => {},
        Err(e) => return Err((step.clone(), runner.step_failed(step.as_str(), e))),
    }
    runner.step_done(step.as_str(), StepOutcome::Changed);

    let mut step = String::from_str(app);
    step.append(" :: verify");
    runner.begin_step(step.as_str());
    let s = compose(stack, app, "ps --status running --services");
    let ghost h3 = exec.replies();
    let out = app_sh(exec, vmid, s.as_str(), 60);
    proof {
        assert(exec.requests() =~= q0 + plan.take(4));
    }
    let out = match out {
        Ok(o) => o,
        Err(e) => return Err((step.clone(), runner.step_failed(step.as_str(), e))),
    };
    if app_running(out.stdout.as_str()) {
        runner.step_done(step.as_str(), StepOutcome::Unchanged);
        let mut line = String::from_str("[update] ");
        line.append(app);
        line.append(" updated + verified");
        runner.log(Level::Info, line);
        return Ok(());
    }
    if captured.len() == 0 {
        let e = verify_failed(app, false, false);
        return Err((step.clone(), runner.step_failed(step.as_str(), e)));
    }
    // Unhealthy: back to the captured images, and read again.
    let rb = rollback_script(stack, app, captured);
    let ghost h4 = exec.replies();
    let out = app_sh(exec, vmid, rb.as_str(), 300);
    proof {
        assert(exec.requests() =~= q0 + plan.take(5));
        assert(exec.replies()[h0.len() + 3int] == h4[h0.len() + 3int]);
    }
    match out {
        Ok(_) => {},
        Err(e) => return Err((step.clone(), runner.step_failed(step.as_str(), e))),
    }
    let ghost h5 = exec.replies();
    let again = app_sh(exec, vmid, s.as_str(), 60);
    proof {
        assert(exec.requests() =~= q0 + plan.take(6));
        assert(exec.replies()[h0.len() + 3int] == h5[h0.len() + 3int]);
    }
    let again = match again {
        Ok(o) => o,
        Err(e) => return Err((step.clone(), runner.step_failed(step.as_str(), e))),
    };
    let e = verify_failed(app, true, app_running(again.stdout.as_str()));
    Err((step.clone(), runner.step_failed(step.as_str(), e)))
}

/// The request that pulls an app's new images.
pub open spec fn pull_request(vmid: u16, stack: Seq<char>, app: Seq<char>) -> Request {
    Request::Run("pct"@, pct_sh_args(vmid, compose_script(stack, app, "pull -q"@)), 600)
}

/// The request that brings an app up on its new images.
pub open spec fn up_request(vmid: u16, stack: Seq<char>, app: Seq<char>) -> Request {
    Request::Run("pct"@, pct_sh_args(vmid, compose_script(stack, app, "up -d --remove-orphans"@)), 600)
}

/// Every pull or restart in `q` from `n0` on is of an app that the busy
/// record (`w`, `g`, from `w0` on) shows cleared.
#[verifier::opaque]
pub open spec fn restarts_only_cleared(
    q: Seq<Request>,
    n0: int,
    w: Seq<Request>,
    g: Seq<Option<OutputView>>,
    wd: int,
    w0: int,
    vmid: u16,
    stack: Seq<char>,
) -> bool {
    forall|i: int, a: Seq<char>|
        #![trigger q[i], pull_request(vmid, stack, a)]
        #![trigger q[i], up_request(vmid, stack, a)]
        n0 <= i < q.len() && (q[i] == pull_request(vmid, stack, a) || q[i] == up_request(vmid, stack, a))
            ==> busy_cleared(w, g, wd, w0, vmid, stack, a)
}

/// The request that reads which of an app's services run.
pub open spec fn running_request(vmid: u16, stack: Seq<char>, app: Seq<char>) -> Request {
    Request::Run("pct"@, pct_sh_args(vmid, compose_script(stack, app, running_tail())), 60)
}

/// The request that puts an app back on the images `c` it ran before.
pub open spec fn rollback_request(vmid: u16, stack: Seq<char>, app: Seq<char>, c: Seq<(Seq<char>, Seq<char>)>) -> Request {
    Request::Run("pct"@, pct_sh_args(vmid, rollback_script_of(stack, app, c)), 300)
}

/// Every pull in `q` from `n0` on was followed, three requests later, by
/// the read of the app's running services, and that read found some.
#[verifier::opaque]
pub open spec fn pulled_healthy(q: Seq<Request>, h: Seq<Option<OutputView>>, d: int, n0: int, vmid: u16, stack: Seq<char>) -> bool {
    forall|i: int, a: Seq<char>|
        #![trigger q[i], pull_request(vmid, stack, a)]
        n0 <= i < q.len() && q[i] == pull_request(vmid, stack, a) ==> i + 4 <= q.len() && q[i + 3] == running_request(
            vmid,
            stack,
            a,
        ) && !none_running(h, i + 3 + d)
}

/// Every pull in `q` from `n0` on was followed by the read of the app's
/// running services, and a read that found none by a rollback to images
/// captured before; or the run stopped, failed, before either.
#[verifier::opaque]
pub open spec fn unhealthy_rolled_back(
    q: Seq<Request>,
    h: Seq<Option<OutputView>>,
    d: int,
    n0: int,
    vmid: u16,
    stack: Seq<char>,
    ok: bool,
) -> bool {
    forall|i: int, a: Seq<char>|
        #![trigger q[i], pull_request(vmid, stack, a)]
        n0 <= i < q.len() && q[i] == pull_request(vmid, stack, a) ==> (i + 4 <= q.len() && q[i + 3] == running_request(
            vmid,
            stack,
            a,
        ) && (none_running(h, i + 3 + d) ==> i + 5 <= q.len() && exists|c: Seq<(Seq<char>, Seq<char>)>|
            #![trigger rollback_request(vmid, stack, a, c)]
            c.len() > 0 && q[i + 4] == rollback_request(vmid, stack, a, c))) || (!ok && q.len() <= i + 4)
}

proof fn lemma_healthy_rolled(q: Seq<Request>, h: Seq<Option<OutputView>>, d: int, n0: int, vmid: u16, stack: Seq<char>, ok: bool)
    requires
        pulled_healthy(q, h, d, n0, vmid, stack),
    ensures
        unhealthy_rolled_back(q, h, d, n0, vmid, stack, ok),
{
    reveal(restarts_only_cleared);
    reveal(pulled_healthy);
    reveal(unhealthy_rolled_back);
    reveal(pulls_by_policy);
}

proof fn lemma_healthy_grows(
    q1: Seq<Request>,
    h1: Seq<Option<OutputView>>,
    q2: Seq<Request>,
    h2: Seq<Option<OutputView>>,
    d: int,
    n0: int,
    vmid: u16,
    stack: Seq<char>,
)
    requires
        pulled_healthy(q1, h1, d, n0, vmid, stack),
        extends(q1, h1, q2, h2),
        h1.len() == q1.len() + d,
        0 <= n0,
        0 <= d,
        forall|i: int| q1.len() <= i < q2.len() ==> (#[trigger] q2[i] matches Request::Run(_, _, t) && t != 600),
    ensures
        pulled_healthy(q2, h2, d, n0, vmid, stack),
{
    reveal(restarts_only_cleared);
    reveal(pulled_healthy);
    reveal(unhealthy_rolled_back);
    reveal(pulls_by_policy);
    assert forall|i: int, a: Seq<char>|
        #![trigger q2[i], pull_request(vmid, stack, a)]
        n0 <= i < q2.len() && q2[i] == pull_request(vmid, stack, a) implies i + 4 <= q2.len() && q2[i + 3] == running_request(
        vmid,
        stack,
        a,
    ) && !none_running(h2, i + 3 + d) by {
        if i < q1.len() {
            assert(q2[i] == q2.take(q1.len() as int)[i]);
            assert(q1[i] == pull_request(vmid, stack, a));
            assert(q2[i + 3] == q2.take(q1.len() as int)[i + 3]);
            assert(h2[i + 3 + d] == h2.take(h1.len() as int)[i + 3 + d]);
        }
    }
}

proof fn lemma_after_update(
    q1: Seq<Request>,
    h1: Seq<Option<OutputView>>,
    q2: Seq<Request>,
    h2: Seq<Option<OutputView>>,
    d: int,
    n0: int,
    m: StackManifest,
    app: Seq<char>,
    c: Seq<(Seq<char>, Seq<char>)>,
    ok: bool,
)
    requires
        pulled_healthy(q1, h1, d, n0, m.vmid, m.stack_name@),
        extends(q1, h1, q2, h2),
        h1.len() == q1.len() + d,
        0 <= n0 <= q1.len(),
        0 <= d,
        ({
            let n = q2.len() - q1.len();
            &&& 1 <= n <= 6
            &&& q2 == q1 + update_plan(m, app, c).take(n)
            &&& n >= 5 ==> none_running(h2, h1.len() + 3int) && c.len() > 0
            &&& ok ==> n == 4 && (h2[h1.len() + 3int] matches Some(o) && trimmed(o.stdout).len() > 0)
        }),
    ensures
        ok ==> pulled_healthy(q2, h2, d, n0, m.vmid, m.stack_name@),
        !ok ==> unhealthy_rolled_back(q2, h2, d, n0, m.vmid, m.stack_name@, false),
{
    reveal(restarts_only_cleared);
    reveal(pulled_healthy);
    reveal(unhealthy_rolled_back);
    reveal(pulls_by_policy);
    let st = m.stack_name@;
    let vmid = m.vmid;
    let plan = update_plan(m, app, c);
    let base = q1.len() as int;
    assert forall|i: int, a: Seq<char>|
        #![trigger q2[i], pull_request(vmid, st, a)]
        n0 <= i < q2.len() && q2[i] == pull_request(vmid, st, a) implies (i + 4 <= q2.len() && q2[i + 3] == running_request(
        vmid,
        st,
        a,
    ) && (ok ==> !none_running(h2, i + 3 + d)) && (none_running(h2, i + 3 + d) ==> i + 5 <= q2.len() && exists|
        cc: Seq<(Seq<char>, Seq<char>)>,
    |
        #![trigger rollback_request(vmid, st, a, cc)]
        cc.len() > 0 && q2[i + 4] == rollback_request(vmid, st, a, cc))) || (!ok && q2.len() <= i + 4) by {
        if i < base {
            assert(q2[i] == q2.take(base)[i]);
            assert(q1[i] == pull_request(vmid, st, a));
            assert(q2[i + 3] == q2.take(base)[i + 3]);
            assert(h2[i + 3 + d] == h2.take(h1.len() as int)[i + 3 + d]);
        } else {
            let k = i - base;
            assert(q2[i] == plan[k]);
            lemma_plan_restarts(m, app, c, k, a);
            assert(k == 0);
            if q2.len() >= i + 4 {
                assert(q2[i + 3] == plan[3]);
                assert(i + 3 + d == h1.len() + 3);
                if q2.len() >= i + 5 {
                    assert(q2[i + 4] == plan[4]);
                    assert(plan[4] == rollback_request(vmid, st, a, c));
                }
            }
        }
    }
}

/// The request that reads an app's update policy label.
pub open spec fn policy_request(vmid: u16, stack: Seq<char>, app: Seq<char>) -> Request {
    Request::Run("pct"@, pct_sh_args(vmid, compose_script(stack, app, policy_tail())), 60)
}

/// Every pull in `q` from `n0` on was preceded by the read of that app's
/// policy label, and the label said `auto`.
#[verifier::opaque]
pub open spec fn pulls_by_policy(q: Seq<Request>, h: Seq<Option<OutputView>>, d: int, n0: int, vmid: u16, stack: Seq<char>) -> bool {
    forall|i: int, a: Seq<char>|
        #![trigger q[i], pull_request(vmid, stack, a)]
        n0 <= i < q.len() && q[i] == pull_request(vmid, stack, a) ==> exists|j: int|
            #![trigger q[j]]
            n0 <= j < i && q[j] == policy_request(vmid, stack, a) && (h[j + d] matches Some(o) && trimmed(o.stdout)
                == "auto"@)
}

proof fn lemma_policy_grows(
    q1: Seq<Request>,
    h1: Seq<Option<OutputView>>,
    q2: Seq<Request>,
    h2: Seq<Option<OutputView>>,
    d: int,
    n0: int,
    vmid: u16,
    stack: Seq<char>,
)
    requires
        pulls_by_policy(q1, h1, d, n0, vmid, stack),
        extends(q1, h1, q2, h2),
        h1.len() == q1.len() + d,
        0 <= n0,
        0 <= d,
        forall|i: int| q1.len() <= i < q2.len() ==> (#[trigger] q2[i] matches Request::Run(_, _, t) && t != 600),
    ensures
        pulls_by_policy(q2, h2, d, n0, vmid, stack),
{
    reveal(restarts_only_cleared);
    reveal(pulled_healthy);
    reveal(unhealthy_rolled_back);
    reveal(pulls_by_policy);
    assert forall|i: int, a: Seq<char>|
        #![trigger q2[i], pull_request(vmid, stack, a)]
        n0 <= i < q2.len() && q2[i] == pull_request(vmid, stack, a) implies exists|j: int|
        #![trigger q2[j]]
        n0 <= j < i && q2[j] == policy_request(vmid, stack, a) && (h2[j + d] matches Some(o) && trimmed(o.stdout)
            == "auto"@) by {
        if i < q1.len() {
            assert(q2[i] == q2.take(q1.len() as int)[i]);
            assert(q1[i] == pull_request(vmid, stack, a));
            let j = choose|j: int|
                #![trigger q1[j]]
                n0 <= j < i && q1[j] == policy_request(vmid, stack, a) && (h1[j + d] matches Some(o) && trimmed(o.stdout)
                    == "auto"@);
            assert(q2[j] == q2.take(q1.len() as int)[j]);
            assert(h2[j + d] == h2.take(h1.len() as int)[j + d]);
        }
    }
}

/// An update's requests keep every earlier pull's policy read, and its own
/// pull is of the app whose policy was read at `j`.
proof fn lemma_policy_after_update(
    q1: Seq<Request>,
    h1: Seq<Option<OutputView>>,
    q2: Seq<Request>,
    h2: Seq<Option<OutputView>>,
    d: int,
    n0: int,
    m: StackManifest,
    app: Seq<char>,
    c: Seq<(Seq<char>, Seq<char>)>,
    j: int,
)
    requires
        pulls_by_policy(q1, h1, d, n0, m.vmid, m.stack_name@),
        extends(q1, h1, q2, h2),
        h1.len() == q1.len() + d,
        0 <= n0 <= j < q1.len(),
        0 <= d,
        q1[j] == policy_request(m.vmid, m.stack_name@, app),
        h1[j + d] matches Some(o) && trimmed(o.stdout) == "auto"@,
        ({
            let n = q2.len() - q1.len();
            &&& 0 <= n <= 6
            &&& q2 == q1 + update_plan(m, app, c).take(n)
        }),
    ensures
        pulls_by_policy(q2, h2, d, n0, m.vmid, m.stack_name@),
{
    reveal(restarts_only_cleared);
    reveal(pulled_healthy);
    reveal(unhealthy_rolled_back);
    reveal(pulls_by_policy);
    let st = m.stack_name@;
    let vmid = m.vmid;
    let base = q1.len() as int;
    assert forall|i: int, a: Seq<char>|
        #![trigger q2[i], pull_request(vmid, st, a)]
        n0 <= i < q2.len() && q2[i] == pull_request(vmid, st, a) implies exists|k: int|
        #![trigger q2[k]]
        n0 <= k < i && q2[k] == policy_request(vmid, st, a) && (h2[k + d] matches Some(o) && trimmed(o.stdout)
            == "auto"@) by {
        assert(q2[j] == q2.take(base)[j]);
        assert(h2[j + d] == h2.take(h1.len() as int)[j + d]);
        if i < base {
            assert(q2[i] == q2.take(base)[i]);
            assert(q1[i] == pull_request(vmid, st, a));
            let k = choose|k: int|
                #![trigger q1[k]]
                n0 <= k < i && q1[k] == policy_request(vmid, st, a) && (h1[k + d] matches Some(o) && trimmed(o.stdout)
                    == "auto"@);
            assert(q2[k] == q2.take(base)[k]);
            assert(h2[k + d] == h2.take(h1.len() as int)[k + d]);
        } else {
            assert(q2[i] == update_plan(m, app, c)[i - base]);
            lemma_plan_restarts(m, app, c, i - base, a);
        }
    }
}

proof fn lemma_no_pull_yet(
    q: Seq<Request>,
    h: Seq<Option<OutputView>>,
    d: int,
    n0: int,
    w: Seq<Request>,
    g: Seq<Option<OutputView>>,
    wd: int,
    w0: int,
    vmid: u16,
    stack: Seq<char>,
    ok: bool,
)
    requires
        forall|i: int| n0 <= i < q.len() ==> (#[trigger] q[i] matches Request::Run(_, _, t) && t != 600),
    ensures
        restarts_only_cleared(q, n0, w, g, wd, w0, vmid, stack),
        pulled_healthy(q, h, d, n0, vmid, stack),
        unhealthy_rolled_back(q, h, d, n0, vmid, stack, ok),
        pulls_by_policy(q, h, d, n0, vmid, stack),
{
    reveal(restarts_only_cleared);
    reveal(pulled_healthy);
    reveal(unhealthy_rolled_back);
    reveal(pulls_by_policy);
}

/// An app's update ended in a read of its running services that found
/// none.
#[verifier::opaque]
pub open spec fn update_unhealthy(q: Seq<Request>, h: Seq<Option<OutputView>>, d: int, n0: int, vmid: u16, stack: Seq<char>) -> bool {
    exists|i: int, a: Seq<char>|
        #![trigger q[i], pull_request(vmid, stack, a)]
        n0 <= i && i + 3 < q.len() && q[i] == pull_request(vmid, stack, a) && q[i + 3] == running_request(vmid, stack, a)
            && none_running(h, i + 3 + d)
}

/// What became of app `a` in a run: a scheduled run read its policy and
/// the label did not say `auto`; or a reading of its use did not clear it;
/// or it was pulled and, brought up, found running.
#[verifier::opaque]
pub open spec fn app_handled(
    q: Seq<Request>,
    h: Seq<Option<OutputView>>,
    d: int,
    n0: int,
    w: Seq<Request>,
    g: Seq<Option<OutputView>>,
    wd: int,
    w0: int,
    vmid: u16,
    stack: Seq<char>,
    a: Seq<char>,
    auto: bool,
) -> bool {
    ||| auto && exists|j: int|
        #![trigger q[j]]
        n0 <= j < q.len() && q[j] == policy_request(vmid, stack, a) && (h[j + d] matches Some(o) && trimmed(o.stdout)
            != "auto"@)
    ||| exists|j: int|
        #![trigger w[j]]
        w0 <= j < w.len() && crate::ops::busy::busy_reading(w[j], vmid, stack, a) && !crate::ops::busy::cleared_at(
            w,
            g,
            wd,
            j,
            vmid,
            stack,
            a,
        )
    ||| exists|i: int|
        #![trigger q[i]]
        n0 <= i && i + 4 <= q.len() && q[i] == pull_request(vmid, stack, a) && q[i + 3] == running_request(vmid, stack, a)
            && !none_running(h, i + 3 + d)
}

/// Every one of the first `k` apps was handled.
#[verifier::opaque]
pub open spec fn all_handled(
    q: Seq<Request>,
    h: Seq<Option<OutputView>>,
    d: int,
    n0: int,
    w: Seq<Request>,
    g: Seq<Option<OutputView>>,
    wd: int,
    w0: int,
    vmid: u16,
    stack: Seq<char>,
    apps: Seq<Seq<char>>,
    k: int,
    auto: bool,
) -> bool {
    forall|x: int| 0 <= x < k ==> #[trigger] app_handled(q, h, d, n0, w, g, wd, w0, vmid, stack, apps[x], auto)
}

proof fn lemma_handled_grows(
    q1: Seq<Request>,
    h1: Seq<Option<OutputView>>,
    q2: Seq<Request>,
    h2: Seq<Option<OutputView>>,
    w1: Seq<Request>,
    g1: Seq<Option<OutputView>>,
    w2: Seq<Request>,
    g2: Seq<Option<OutputView>>,
    d: int,
    wd: int,
    n0: int,
    w0: int,
    vmid: u16,
    stack: Seq<char>,
    apps: Seq<Seq<char>>,
    k: int,
    auto: bool,
)
    requires
        all_handled(q1, h1, d, n0, w1, g1, wd, w0, vmid, stack, apps, k, auto),
        extends(q1, h1, q2, h2),
        extends(w1, g1, w2, g2),
        h1.len() == q1.len() + d,
        g1.len() == w1.len() + wd,
        0 <= d,
        0 <= wd,
        0 <= n0,
        0 <= w0,
    ensures
        all_handled(q2, h2, d, n0, w2, g2, wd, w0, vmid, stack, apps, k, auto),
{
    reveal(all_handled);
    assert forall|x: int| 0 <= x < k implies #[trigger] app_handled(q2, h2, d, n0, w2, g2, wd, w0, vmid, stack, apps[x], auto) by {
        let a = apps[x];
        assert(app_handled(q1, h1, d, n0, w1, g1, wd, w0, vmid, stack, a, auto));
        reveal(app_handled);
        if auto && exists|j: int|
            #![trigger q1[j]]
            n0 <= j < q1.len() && q1[j] == policy_request(vmid, stack, a) && (h1[j + d] matches Some(o) && trimmed(
                o.stdout,
            ) != "auto"@) {
            let j = choose|j: int|
                #![trigger q1[j]]
                n0 <= j < q1.len() && q1[j] == policy_request(vmid, stack, a) && (h1[j + d] matches Some(o) && trimmed(
                    o.stdout,
                ) != "auto"@);
            assert(q2[j] == q2.take(q1.len() as int)[j]);
            assert(h2[j + d] == h2.take(h1.len() as int)[j + d]);
        } else if exists|j: int|
            #![trigger w1[j]]
            w0 <= j < w1.len() && crate::ops::busy::busy_reading(w1[j], vmid, stack, a) && !crate::ops::busy::cleared_at(
                w1,
                g1,
                wd,
                j,
                vmid,
                stack,
                a,
            ) {
            let j = choose|j: int|
                #![trigger w1[j]]
                w0 <= j < w1.len() && crate::ops::busy::busy_reading(w1[j], vmid, stack, a) && !crate::ops::busy::cleared_at(
                    w1,
                    g1,
                    wd,
                    j,
                    vmid,
                    stack,
                    a,
                );
            assert(w2[j] == w2.take(w1.len() as int)[j]);
            assert(g2[j + wd] == g2.take(g1.len() as int)[j + wd]);
            assert(!crate::ops::busy::cleared_at(w2, g2, wd, j, vmid, stack, a));
        } else {
            let i = choose|i: int|
                #![trigger q1[i]]
                n0 <= i && i + 4 <= q1.len() && q1[i] == pull_request(vmid, stack, a) && q1[i + 3] == running_request(
                    vmid,
                    stack,
                    a,
                ) && !none_running(h1, i + 3 + d);
            assert(q2[i] == q2.take(q1.len() as int)[i]);
            assert(q2[i + 3] == q2.take(q1.len() as int)[i + 3]);
            assert(h2[i + 3 + d] == h2.take(h1.len() as int)[i + 3 + d]);
        }
    }
}

proof fn lemma_handled_one_more(
    q: Seq<Request>,
    h: Seq<Option<OutputView>>,
    d: int,
    n0: int,
    w: Seq<Request>,
    g: Seq<Option<OutputView>>,
    wd: int,
    w0: int,
    vmid: u16,
    stack: Seq<char>,
    apps: Seq<Seq<char>>,
    k: int,
    auto: bool,
)
    requires
        all_handled(q, h, d, n0, w, g, wd, w0, vmid, stack, apps, k, auto),
        app_handled(q, h, d, n0, w, g, wd, w0, vmid, stack, apps[k], auto),
    ensures
        all_handled(q, h, d, n0, w, g, wd, w0, vmid, stack, apps, k + 1, auto),
{
    reveal(all_handled);
}

/// The apps asked for, as plain text.
pub open spec fn only_view(only: Option<&str>) -> Option<Seq<char>> {
    match only {
        Some(o) => Some(o@),
        None => None,
    }
}

proof fn lemma_compose_last(st: Seq<char>, x: Seq<char>, t: Seq<char>)
    requires
        t.len() > 0,
    ensures
        compose_script(st, x, t).len() > 0,
        compose_script(st, x, t).last() == t.last(),
{
}

proof fn lemma_compose_app_injective(st: Seq<char>, x: Seq<char>, a: Seq<char>, t: Seq<char>)
    requires
        compose_script(st, x, t) == compose_script(st, a, t),
    ensures
        x == a,
{
    let p = "cd '/opt/"@ + st + "/"@;
    let e = "' && docker compose "@ + t;
    assert(compose_script(st, x, t) =~= p + x + e);
    assert(compose_script(st, a, t) =~= p + a + e);
    assert(x.len() == a.len());
    assert forall|i: int| 0 <= i < x.len() implies x[i] == a[i] by {
        assert((p + x + e)[p.len() + i] == x[i]);
        assert((p + a + e)[p.len() + i] == a[i]);
    }
    assert(x =~= a);
}

/// A pull or a restart in an app's update plan is of that app.
proof fn lemma_plan_restarts(m: StackManifest, x: Seq<char>, c: Seq<(Seq<char>, Seq<char>)>, k: int, a: Seq<char>)
    requires
        0 <= k < 6,
        update_plan(m, x, c)[k] == pull_request(m.vmid, m.stack_name@, a) || update_plan(m, x, c)[k] == up_request(
            m.vmid,
            m.stack_name@,
            a,
        ),
    ensures
        a == x,
        update_plan(m, x, c)[k] == pull_request(m.vmid, m.stack_name@, a) ==> k == 0,
{
    let st = m.stack_name@;
    reveal_strlit("pull -q");
    reveal_strlit("up -d --remove-orphans");
    let pl = "pull -q"@;
    let up = "up -d --remove-orphans"@;
    lemma_compose_last(st, x, pl);
    lemma_compose_last(st, a, pl);
    lemma_compose_last(st, x, up);
    lemma_compose_last(st, a, up);
    let plan = update_plan(m, x, c);
    if k == 0 {
        let s = compose_script(st, x, pl);
        assert(plan[0] == Request::Run("pct"@, pct_sh_args(m.vmid, s), 600));
        if plan[0] == pull_request(m.vmid, st, a) {
            assert(pct_sh_args(m.vmid, s)[5] == s);
            assert(pct_sh_args(m.vmid, compose_script(st, a, pl))[5] == compose_script(st, a, pl));
            lemma_compose_app_injective(st, x, a, pl);
        } else {
            assert(pct_sh_args(m.vmid, s)[5] == s);
            assert(pct_sh_args(m.vmid, compose_script(st, a, up))[5] == compose_script(st, a, up));
            assert(s.last() != compose_script(st, a, up).last());
        }
    } else if k == 2 {
        let s = compose_script(st, x, up);
        assert(plan[2] == Request::Run("pct"@, pct_sh_args(m.vmid, s), 600));
        if plan[2] == up_request(m.vmid, st, a) {
            assert(pct_sh_args(m.vmid, s)[5] == s);
            assert(pct_sh_args(m.vmid, compose_script(st, a, up))[5] == compose_script(st, a, up));
            lemma_compose_app_injective(st, x, a, up);
        } else {
            assert(pct_sh_args(m.vmid, s)[5] == s);
            assert(pct_sh_args(m.vmid, compose_script(st, a, pl))[5] == compose_script(st, a, pl));
            assert(s.last() != compose_script(st, a, pl).last());
        }
    } else {
        assert(plan[k] matches Request::Run(_, _, t) && t != 600);
    }
}

/// The record grows by requests none of which pulls or restarts an app.
proof fn lemma_restarts_quiet_growth(
    q1: Seq<Request>,
    q2: Seq<Request>,
    n0: int,
    w: Seq<Request>,
    g: Seq<Option<OutputView>>,
    wd: int,
    w0: int,
    vmid: u16,
    stack: Seq<char>,
)
    requires
        restarts_only_cleared(q1, n0, w, g, wd, w0, vmid, stack),
        0 <= n0,
        q1.len() <= q2.len(),
        q2.take(q1.len() as int) == q1,
        forall|i: int| q1.len() <= i < q2.len() ==> (#[trigger] q2[i] matches Request::Run(_, _, t) && t != 600),
    ensures
        restarts_only_cleared(q2, n0, w, g, wd, w0, vmid, stack),
{
    reveal(restarts_only_cleared);
    reveal(pulled_healthy);
    reveal(unhealthy_rolled_back);
    reveal(pulls_by_policy);
    assert forall|i: int, a: Seq<char>|
        n0 <= i < q2.len() && (q2[i] == pull_request(vmid, stack, a) || q2[i] == up_request(vmid, stack, a)) implies busy_cleared(
        w,
        g,
        wd,
        w0,
        vmid,
        stack,
        a,
    ) by {
        if i < q1.len() {
            assert(q2[i] == q2.take(q1.len() as int)[i]);
            assert(q1[i] == q2[i]);
        }
    }
}

/// The busy record grows: clearances already on it stay.
proof fn lemma_restarts_busy_growth(
    q: Seq<Request>,
    n0: int,
    w1: Seq<Request>,
    g1: Seq<Option<OutputView>>,
    w2: Seq<Request>,
    g2: Seq<Option<OutputView>>,
    wd: int,
    w0: int,
    vmid: u16,
    stack: Seq<char>,
)
    requires
        restarts_only_cleared(q, n0, w1, g1, wd, w0, vmid, stack),
        extends(w1, g1, w2, g2),
        g1.len() == w1.len() + wd,
        0 <= wd,
        0 <= w0,
    ensures
        restarts_only_cleared(q, n0, w2, g2, wd, w0, vmid, stack),
{
    reveal(restarts_only_cleared);
    reveal(pulled_healthy);
    reveal(unhealthy_rolled_back);
    reveal(pulls_by_policy);
    assert forall|i: int, a: Seq<char>|
        n0 <= i < q.len() && (q[i] == pull_request(vmid, stack, a) || q[i] == up_request(vmid, stack, a)) implies busy_cleared(
        w2,
        g2,
        wd,
        w0,
        vmid,
        stack,
        a,
    ) by {
        lemma_busy_cleared_grows(w1, g1, w2, g2, wd, w0, w0, vmid, stack, a);
    }
}

/// Why an update can fail: the app asked for is not in the stack, the
/// stack is refused, the target is not the container expected, a reading
/// or a command failed, or an app found nothing running after its update.
pub open spec fn update_failed_because(
    q: Seq<Request>,
    h: Seq<Option<OutputView>>,
    n0: int,
    w: Seq<Request>,
    g: Seq<Option<OutputView>>,
    safety: SafetyConfig,
    m: StackManifest,
    only: Option<&str>,
) -> bool {
    ||| selected_apps(string_views(m.apps@), only_view(only)).len() == 0
    ||| app_problems(string_views(m.apps@)).len() > 0 || no_touch_refusal(safety.no_touch@, m.vmid) is Some
    ||| crate::ops::backup::target_failed(q, h, n0, m.vmid, m.hostname@)
    ||| ended_on_failure(q, h)
    ||| ended_on_failure(w, g)
    ||| update_unhealthy(q, h, h.len() - q.len(), n0, m.vmid, m.stack_name@)
}

/// Update one app, or every app, of a stack; a scheduled run (`auto`)
/// touches only the apps whose policy label says `auto`. Each app's busy
/// check is asked through `quiet`, an executor whose requests stay out of
/// the transcript; an app found in use, or whose use could not be told, is
/// skipped. Nothing is asked of either machine when the app asked for is
/// not in the stack or the stack may not be touched, and no app is ever
/// pulled or restarted but one the busy check cleared. Every pull is
/// followed by the read of the app's running services; a read that finds
/// none is followed by the return to the images captured before, and with
/// none captured the run stops there, failed.
#[verifier::rlimit(100)]
#[verifier::spinoff_prover]
pub fn update<E: Executor, Q: Executor, S: Sink, J: Journal>(
    exec: &mut E,
    quiet: &mut Q,
    sink: S,
    journal: J,
    safety: &SafetyConfig,
    m: &StackManifest,
    only: Option<&str>,
    auto: bool,
) -> (r: OperationReport)
    ensures
        r.op@ == "update-"@ + m.stack_name@,
        extends(old(exec).requests(), old(exec).replies(), final(exec).requests(), final(exec).replies()),
        extends(old(quiet).requests(), old(quiet).replies(), final(quiet).requests(), final(quiet).replies()),
        (selected_apps(string_views(m.apps@), only_view(only)).len() == 0 || app_problems(string_views(m.apps@)).len() > 0
            || no_touch_refusal(safety.no_touch@, m.vmid) is Some) ==> !r.ok && final(exec).requests() == old(exec).requests() && final(quiet).requests() == old(quiet).requests(),
        (selected_apps(string_views(m.apps@), only_view(only)).len() > 0 && app_problems(string_views(m.apps@)).len() == 0
            && no_touch_refusal(safety.no_touch@, m.vmid) is None) ==> final(exec).requests().len() > old(exec).requests().len() && final(exec).requests()[old(exec).requests().len() as int] == Request::Run(
            "pct"@,
            seq!["config"@, dec(m.vmid as nat)],
            30,
        ),
        old(quiet).replies().len() >= old(quiet).requests().len() ==> restarts_only_cleared(
            final(exec).requests(),
            old(exec).requests().len() as int,
            final(quiet).requests(),
            final(quiet).replies(),
            old(quiet).replies().len() - old(quiet).requests().len(),
            old(quiet).requests().len() as int,
            m.vmid,
            m.stack_name@,
        ),
        old(exec).replies().len() >= old(exec).requests().len() ==> unhealthy_rolled_back(
            final(exec).requests(),
            final(exec).replies(),
            old(exec).replies().len() - old(exec).requests().len(),
            old(exec).requests().len() as int,
            m.vmid,
            m.stack_name@,
            r.ok,
        ),
        old(exec).replies().len() >= old(exec).requests().len() && !r.ok ==> update_failed_because(
            final(exec).requests(),
            final(exec).replies(),
            old(exec).requests().len() as int,
            final(quiet).requests(),
            final(quiet).replies(),
            *safety,
            *m,
            only,
        ),
        old(exec).replies().len() >= old(exec).requests().len() && old(quiet).replies().len() >= old(quiet).requests().len()
            && r.ok ==> all_handled(
            final(exec).requests(),
            final(exec).replies(),
            old(exec).replies().len() - old(exec).requests().len(),
            old(exec).requests().len() as int,
            final(quiet).requests(),
            final(quiet).replies(),
            old(quiet).replies().len() - old(quiet).requests().len(),
            old(quiet).requests().len() as int,
            m.vmid,
            m.stack_name@,
            selected_apps(string_views(m.apps@), only_view(only)),
            selected_apps(string_views(m.apps@), only_view(only)).len() as int,
            auto,
        ),
        auto && old(exec).replies().len() >= old(exec).requests().len() ==> pulls_by_policy(
            final(exec).requests(),
            final(exec).replies(),
            old(exec).replies().len() - old(exec).requests().len(),
            old(exec).requests().len() as int,
            m.vmid,
            m.stack_name@,
        ),
{
    let ghost q0 = exec.requests();
    let ghost h0 = exec.replies();
    let ghost n0 = q0.len() as int;
    let ghost d = h0.len() - n0;
    let ghost w0 = quiet.requests();
    let ghost g0 = quiet.replies();
    let ghost wd = g0.len() - w0.len();
    let ghost st = m.stack_name@;
    proof {
        lemma_extends_refl(q0, h0);
        lemma_extends_refl(w0, g0);
    }
    let mut op = String::from_str("update-");
    op.append(m.stack_name.as_str());
    let mut runner = Runner::new(op.as_str(), sink, journal);
    let apps = match select_apps(m, only) {
        Ok(a) => a,
        Err(e) => {
            proof {
                lemma_no_pull_yet(exec.requests(), exec.replies(), d, n0, quiet.requests(), quiet.replies(), wd, w0.len() as int, m.vmid, st, false);
            }
            return runner.finish_err("select apps", &e).0;
        },
    };

    runner.begin_step("safety gates");
    match validate_manifest(m) {
        Ok(()) => {},
        Err(e) => {
            proof {
                lemma_no_pull_yet(exec.requests(), exec.replies(), d, n0, quiet.requests(), quiet.replies(), wd, w0.len() as int, m.vmid, st, false);
            }
            let e2 = runner.step_failed("safety gates", e);
            return runner.finish_err("safety gates", &e2).0;
        },
    }
    let guarded = guard_target(exec, safety, m.vmid, m.hostname.as_str());
    proof {
        if no_touch_refusal(safety.no_touch@, m.vmid) is None {
            assert(exec.requests().take(n0) =~= q0);
            assert(exec.replies().take(h0.len() as int) =~= h0);
        }
    }
    match guarded {
        Ok(()) => {},
        Err(e) => {
            proof {
                lemma_no_pull_yet(exec.requests(), exec.replies(), d, n0, quiet.requests(), quiet.replies(), wd, w0.len() as int, m.vmid, st, false);
            }
            let e2 = runner.step_failed("safety gates", e);
            return runner.finish_err("safety gates", &e2).0;
        },
    }
    runner.step_done("safety gates", StepOutcome::Unchanged);
    let ghost q1 = exec.requests();
    proof {
        assert(q1[n0] == Request::Run("pct"@, seq!["config"@, dec(m.vmid as nat)], 30));
        assert(restarts_only_cleared(q1, n0, w0, g0, wd, w0.len() as int, m.vmid, st)) by {
            reveal(restarts_only_cleared);
        }
        lemma_no_pull_yet(q1, exec.replies(), d, n0, w0, g0, wd, w0.len() as int, m.vmid, st, false);
        assert(all_handled(q1, exec.replies(), d, n0, w0, g0, wd, w0.len() as int, m.vmid, st, string_views(apps@), 0, auto)) by {
            reveal(all_handled);
        }
    }

    let vmid = m.vmid;
    let stack = m.stack_name.as_str();
    let mut k: usize = 0;
    while k < apps.len()
        invariant
            k <= apps.len(),
            stack@ == st,
            vmid == m.vmid,
            st == m.stack_name@,
            q0 == old(exec).requests(),
            h0 == old(exec).replies(),
            n0 == q0.len(),
            d == h0.len() - n0,
            w0 == old(quiet).requests(),
            g0 == old(quiet).replies(),
            wd == g0.len() - w0.len(),
            q1.len() == n0 + 1,
            exec.requests().len() >= q1.len(),
            exec.requests().take(q1.len() as int) == q1,
            q1[n0] == Request::Run("pct"@, seq!["config"@, dec(m.vmid as nat)], 30),
            extends(q0, h0, exec.requests(), exec.replies()),
            extends(w0, g0, quiet.requests(), quiet.replies()),
            wd >= 0 ==> restarts_only_cleared(exec.requests(), n0, quiet.requests(), quiet.replies(), wd, w0.len() as int, vmid, st),
            runner.op_name() == "update-"@ + m.stack_name@,
            selected_apps(string_views(m.apps@), only_view(only)).len() > 0,
            app_problems(string_views(m.apps@)).len() == 0,
            no_touch_refusal(safety.no_touch@, m.vmid) is None,
            d >= 0 ==> pulled_healthy(exec.requests(), exec.replies(), d, n0, vmid, st),
            auto && d >= 0 ==> pulls_by_policy(exec.requests(), exec.replies(), d, n0, vmid, st),
            string_views(apps@) == selected_apps(string_views(m.apps@), only_view(only)),
            d >= 0 && wd >= 0 ==> all_handled(exec.requests(), exec.replies(), d, n0, quiet.requests(), quiet.replies(), wd, w0.len() as int, vmid, st, string_views(apps@), k as int, auto),
        decreases apps.len() - k,
    {
        let app = apps[k].as_str();
        let ghost qa = exec.requests();
        let ghost ha = exec.replies();

        let mut step = String::from_str(app);
        step.append(" :: policy");
        runner.begin_step(step.as_str());
        let mut allowed = true;
        if auto {
            let policy = app_policy(exec, vmid, stack, app);
            proof {
                assert(exec.replies() =~= ha.push(exec.replies().last()));
                crate::executor::lemma_pushed(qa, ha, exec.requests().last(), exec.replies().last());
                lemma_extends_trans(q0, h0, qa, ha, exec.requests(), exec.replies());
                assert(exec.requests().take(q1.len() as int) =~= q1);
                if wd >= 0 {
                    lemma_restarts_quiet_growth(qa, exec.requests(), n0, quiet.requests(), quiet.replies(), wd, w0.len() as int, vmid, st);
                }
                if d >= 0 {
                    lemma_healthy_grows(qa, ha, exec.requests(), exec.replies(), d, n0, vmid, st);
                    lemma_healthy_rolled(exec.requests(), exec.replies(), d, n0, vmid, st, false);
                    lemma_policy_grows(qa, ha, exec.requests(), exec.replies(), d, n0, vmid, st);
                    if wd >= 0 {
                        lemma_extends_refl(quiet.requests(), quiet.replies());
                        lemma_handled_grows(qa, ha, exec.requests(), exec.replies(), quiet.requests(), quiet.replies(), quiet.requests(), quiet.replies(), d, wd, n0, w0.len() as int, vmid, st, string_views(apps@), k as int, auto);
                    }
                }
            }
            let policy = match policy {
                Ok(p) => p,
                Err(e) => {
                    let e2 = runner.step_failed(step.as_str(), e);
                    return runner.finish_err(step.as_str(), &e2).0;
                },
            };
            allowed = policy_allows(auto, policy.as_str());
            proof {
                if !allowed && d >= 0 && wd >= 0 {
                    crate::text::lemma_trimmed_idempotent(exec.replies().last()->Some_0.stdout);
                    assert(exec.requests()[qa.len() as int] == policy_request(vmid, st, app@));
                    reveal(app_handled);
                    assert(app_handled(exec.requests(), exec.replies(), d, n0, quiet.requests(), quiet.replies(), wd, w0.len() as int, vmid, st, app@, auto));
                }
                if allowed {
                    crate::text::lemma_trimmed_idempotent(exec.replies().last()->Some_0.stdout);
                    assert(exec.requests()[qa.len() as int] == policy_request(vmid, st, app@));
                    assert(exec.replies()[qa.len() + d] matches Some(o) && trimmed(o.stdout) == "auto"@);
                }
            }
        }
        if !allowed {
            runner.step_done(step.as_str(), StepOutcome::Unchanged);
            let mut line = String::from_str("[update] ");
            line.append(app);
            line.append(" skipped (policy is not 'auto')");
            runner.log(Level::Info, line);
        } else {
            runner.step_done(step.as_str(), StepOutcome::Changed);

            let mut step = String::from_str(app);
            step.append(" :: capture");
            runner.begin_step(step.as_str());
            let ghost qb = exec.requests();
            let ghost hb = exec.replies();
            let captured = capture_app(exec, vmid, stack, app);
            proof {
                assert(exec.replies() =~= hb.push(exec.replies().last()));
                crate::executor::lemma_pushed(qb, hb, exec.requests().last(), exec.replies().last());
                lemma_extends_trans(q0, h0, qb, hb, exec.requests(), exec.replies());
                assert(exec.requests().take(q1.len() as int) =~= q1);
                if wd >= 0 {
                    lemma_restarts_quiet_growth(qb, exec.requests(), n0, quiet.requests(), quiet.replies(), wd, w0.len() as int, vmid, st);
                }
                if d >= 0 {
                    lemma_healthy_grows(qb, hb, exec.requests(), exec.replies(), d, n0, vmid, st);
                    lemma_healthy_rolled(exec.requests(), exec.replies(), d, n0, vmid, st, false);
                    if auto {
                        lemma_policy_grows(qb, hb, exec.requests(), exec.replies(), d, n0, vmid, st);
                    }
                    if wd >= 0 {
                        lemma_extends_refl(quiet.requests(), quiet.replies());
                        lemma_handled_grows(qb, hb, exec.requests(), exec.replies(), quiet.requests(), quiet.replies(), quiet.requests(), quiet.replies(), d, wd, n0, w0.len() as int, vmid, st, string_views(apps@), k as int, auto);
                    }
                }
            }
            let captured = match captured {
                Ok(c) => c,
                Err(e) => {
                    let e2 = runner.step_failed(step.as_str(), e);
                    return runner.finish_err(step.as_str(), &e2).0;
                },
            };
            runner.step_done(step.as_str(), StepOutcome::Unchanged);

            let mut step = String::from_str(app);
            step.append(" :: busy check");
            runner.begin_step(step.as_str());
            let ghost wa = quiet.requests();
            let ghost ga = quiet.replies();
            let verdict = app_busy(quiet, vmid, stack, app);
            proof {
                assert(extends(wa, ga, quiet.requests(), quiet.replies()));
                lemma_extends_trans(w0, g0, wa, ga, quiet.requests(), quiet.replies());
                if wd >= 0 {
                    lemma_restarts_busy_growth(exec.requests(), n0, wa, ga, quiet.requests(), quiet.replies(), wd, w0.len() as int, vmid, st);
                }
                if d >= 0 {
                    lemma_healthy_rolled(exec.requests(), exec.replies(), d, n0, vmid, st, false);
                    if wd >= 0 {
                        lemma_extends_refl(exec.requests(), exec.replies());
                        lemma_handled_grows(exec.requests(), exec.replies(), exec.requests(), exec.replies(), wa, ga, quiet.requests(), quiet.replies(), d, wd, n0, w0.len() as int, vmid, st, string_views(apps@), k as int, auto);
                    }
                }
            }
            let verdict = match verdict {
                Ok(v) => v,
                Err(e) => {
                    let e2 = runner.step_failed(step.as_str(), e);
                    return runner.finish_err(step.as_str(), &e2).0;
                },
            };
            runner.step_done(step.as_str(), StepOutcome::Unchanged);
            if !verdict.may_update() {
                proof {
                    if d >= 0 && wd >= 0 {
                        let j = quiet.requests().len() - 1;
                        assert(quiet.requests()[j] == quiet.requests().last());
                        reveal(app_handled);
                        assert(app_handled(exec.requests(), exec.replies(), d, n0, quiet.requests(), quiet.replies(), wd, w0.len() as int, vmid, st, app@, auto));
                    }
                }
                let mut line = String::from_str("[o10] ");
                line.append(app);
                line.append(" skipped: ");
                let why = reason(&verdict);
                line.append(why.as_str());
                runner.log(Level::Info, line);
            } else {
                let ghost qc = exec.requests();
                let ghost hc = exec.replies();
                proof {
                    if wd >= 0 {
                        lemma_extends_refl(quiet.requests(), quiet.replies());
                        lemma_busy_cleared_grows(
                            quiet.requests(), quiet.replies(), quiet.requests(), quiet.replies(), wd, w0.len() as int, wa.len() as int, vmid, st, app@,
                        );
                    }
                }
                let done = update_app(exec, &mut runner, m, app, &captured);
                proof {
                    let plan = update_plan(*m, app@, captured_view(captured@));
                    let nn = exec.requests().len() - qc.len();
                    assert(exec.requests().take(qc.len() as int) =~= qc);
                    assert(exec.requests().take(q1.len() as int) =~= q1);
                    assert(extends(qc, hc, exec.requests(), exec.replies()));
                    lemma_extends_trans(q0, h0, qc, hc, exec.requests(), exec.replies());
                    if wd >= 0 {
                        reveal(restarts_only_cleared);
                        assert forall|i: int, a: Seq<char>|
                            n0 <= i < exec.requests().len() && (exec.requests()[i] == pull_request(vmid, st, a)
                                || exec.requests()[i] == up_request(vmid, st, a)) implies busy_cleared(
                            quiet.requests(),
                            quiet.replies(),
                            wd,
                            w0.len() as int,
                            vmid,
                            st,
                            a,
                        ) by {
                            if i < qc.len() {
                                assert(exec.requests()[i] == qc[i]);
                            } else {
                                assert(exec.requests()[i] == plan[i - qc.len()]);
                                lemma_plan_restarts(*m, app@, captured_view(captured@), i - qc.len(), a);
                            }
                        }
                    }
                    if auto && d >= 0 {
                        assert(qc[qa.len() as int] == qc.take(qb.len() as int)[qa.len() as int]);
                        assert(hc[qa.len() + d] == hc.take(hb.len() as int)[qa.len() + d]);
                        lemma_policy_after_update(qc, hc, exec.requests(), exec.replies(), d, n0, *m, app@, captured_view(captured@), qa.len() as int);
                    }
                    if d >= 0 {
                        lemma_after_update(qc, hc, exec.requests(), exec.replies(), d, n0, *m, app@, captured_view(captured@), done is Ok);
                        let i = qc.len() as int;
                        if exec.requests().len() >= i + 4 {
                            assert(exec.requests()[i] == plan[0]);
                            assert(exec.requests()[i + 3] == plan[3]);
                        }
                        if wd >= 0 {
                            lemma_extends_refl(quiet.requests(), quiet.replies());
                            lemma_handled_grows(qc, hc, exec.requests(), exec.replies(), quiet.requests(), quiet.replies(), quiet.requests(), quiet.replies(), d, wd, n0, w0.len() as int, vmid, st, string_views(apps@), k as int, auto);
                            if done is Ok {
                                reveal(app_handled);
                                assert(app_handled(exec.requests(), exec.replies(), d, n0, quiet.requests(), quiet.replies(), wd, w0.len() as int, vmid, st, app@, auto));
                            }
                        }
                        if done is Err && !ended_on_failure(exec.requests(), exec.replies()) {
                            assert(exec.requests()[i] == pull_request(vmid, st, app@));
                            assert(exec.requests()[i + 3] == running_request(vmid, st, app@));
                            assert(hc.len() == qc.len() + d);
                            assert(none_running(exec.replies(), i + 3 + d));
                            reveal(update_unhealthy);
                            assert(update_unhealthy(exec.requests(), exec.replies(), d, n0, vmid, st));
                        }
                    }
                }
                match done {
                    Ok(()) => {},
                    Err((failed, e)) => return runner.finish_err(failed.as_str(), &e).0,
                }
            }
        }
        proof {
            if d >= 0 && wd >= 0 {
                assert(string_views(apps@)[k as int] == app@);
                lemma_handled_one_more(exec.requests(), exec.replies(), d, n0, quiet.requests(), quiet.replies(), wd, w0.len() as int, vmid, st, string_views(apps@), k as int, auto);
            }
        }
        k = k + 1;
    }
    proof {
        if d >= 0 {
            lemma_healthy_rolled(exec.requests(), exec.replies(), d, n0, vmid, st, true);
        }
    }
    runner.finish_ok().0
}

} // verus!
