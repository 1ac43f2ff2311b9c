//! Gated destroy: the operator types the stack's name, the vmid must not be
//! on the no-touch list, and the container must carry the hostname this
//! stack gives it. Only then is it stopped, unprotected and purged, its
//! gateway route removed and its record dropped. What destroy decides lives
//! here.

use vstd::prelude::*;
use vstd::string::*;
use crate::error::CoreError;
use crate::executor::{ended_on_failure, run_ok, run_request, Cmd, CmdOutput, Executor, OutputView, Request};
use crate::runner::{Journal, OperationReport, Runner, StepOutcome};
use crate::sink::{Level, Sink};
use crate::text::string_views;
use crate::keyed::{entries_map, entry_views, find_key, keys_of, lemma_remove_sorted};
use crate::ops::deploy::stacks_of;
use crate::safety::{config_hostname, contains_vmid, live_hostname, SafetyConfig};
use crate::state::{stack_names, HostState};
use crate::text::{dec, dec_string, str_eq};

verus! {

/// The hostname a managed container of this stack carries.
pub open spec fn hostname_of(vmid: u16, stack: Seq<char>) -> Seq<char> {
    dec(vmid as nat) + "-app-"@ + stack
}

pub fn expected_hostname(vmid: u16, stack: &str) -> (r: String)
    ensures
        r@ == hostname_of(vmid, stack@),
{
    let mut s = dec_string(vmid as u64);
    s.append("-app-");
    s.append(stack);
    s
}

/// Why destroy refuses, as text; `None` when it may go on.
pub open spec fn destroy_refusal(
    stack: Seq<char>,
    typed: Seq<char>,
    no_touch: Seq<u16>,
    vmid: u16,
) -> Option<Seq<char>> {
    if typed != stack {
        Some("typed name '"@ + typed + "' does not match stack '"@ + stack + "'"@)
    } else if no_touch.contains(vmid) {
        Some("vmid "@ + dec(vmid as nat) + " is on the no-touch list — never destroyed"@)
    } else {
        None
    }
}

/// The checks before any command: the typed name, then the no-touch list.
pub fn destroy_allowed(safety: &SafetyConfig, stack: &str, vmid: u16, typed: &str) -> (r: Result<(), CoreError>)
    ensures
        match destroy_refusal(stack@, typed@, safety.no_touch@, vmid) {
            None => r is Ok,
            Some(m) => r matches Err(CoreError::SafetyAbort(x)) && x@ == m,
        },
{
    if !str_eq(typed, stack) {
        let mut s = String::from_str("typed name '");
        s.append(typed);
        s.append("' does not match stack '");
        s.append(stack);
        s.append("'");
        return Err(CoreError::SafetyAbort(s));
    }
    if contains_vmid(&safety.no_touch, vmid) {
        let mut s = String::from_str("vmid ");
        let d = dec_string(vmid as u64);
        s.append(d.as_str());
        s.append(" is on the no-touch list — never destroyed");
        return Err(CoreError::SafetyAbort(s));
    }
    Ok(())
}

/// The hostname check, on the container's `pct config` output.
pub open spec fn hostname_refusal(vmid: u16, expected: Seq<char>, cfg: OutputView) -> Option<Seq<char>> {
    if cfg.code != 0 {
        Some("vmid "@ + dec(vmid as nat) + " does not exist — nothing to destroy"@)
    } else if live_hostname(cfg.stdout) != expected {
        Some(
            "vmid "@ + dec(vmid as nat) + " has hostname '"@ + live_hostname(cfg.stdout) + "', expected '"@
                + expected + "' — refusing to destroy"@,
        )
    } else {
        None
    }
}

pub fn hostname_guard(vmid: u16, expected: &str, cfg: &CmdOutput) -> (r: Result<(), CoreError>)
    ensures
        match hostname_refusal(vmid, expected@, cfg@) {
            None => r is Ok,
            Some(m) => r matches Err(CoreError::SafetyAbort(x)) && x@ == m,
        },
{
    let d = dec_string(vmid as u64);
    if !cfg.success() {
        let mut s = String::from_str("vmid ");
        s.append(d.as_str());
        s.append(" does not exist — nothing to destroy");
        return Err(CoreError::SafetyAbort(s));
    }
    let live = config_hostname(cfg.stdout.as_str());
    if !str_eq(live.as_str(), expected) {
        let mut s = String::from_str("vmid ");
        s.append(d.as_str());
        s.append(" has hostname '");
        s.append(live.as_str());
        s.append("', expected '");
        s.append(expected);
        s.append("' — refusing to destroy");
        return Err(CoreError::SafetyAbort(s));
    }
    Ok(())
}

/// Where the stack's gateway route lives.
pub fn route_path(routes_dir: &str, vmid: u16, stack: &str) -> (r: String)
    ensures
        r@ == routes_dir@ + "/"@ + hostname_of(vmid, stack@) + ".yml"@,
{
    let mut s = String::from_str(routes_dir);
    s.append("/");
    let h = expected_hostname(vmid, stack);
    s.append(h.as_str());
    s.append(".yml");
    s
}

/// Drop the stack's record.
pub fn forget_stack(state: &mut HostState, stack: &str)
    requires
        old(state).wf(),
    ensures
        final(state).wf(),
        stacks_of(*final(state)) == stacks_of(*old(state)).remove(stack@),
        *final(state) == (HostState { stacks: final(state).stacks, ..*old(state) }),
{
    proof {
        assert(stack_names(state.stacks@) =~= keys_of(entry_views(state.stacks@)));
    }
    let ghost e = entry_views(state.stacks@);
    match find_key(&state.stacks, stack) {
        None => {
            proof {
                assert(entries_map(e).remove(stack@) =~= entries_map(e));
            }
        },
        Some(i) => {
            state.stacks.remove(i);
            proof {
                assert(entry_views(state.stacks@) =~= e.remove(i as int));
                lemma_remove_sorted(e, i as int);
                assert(stack_names(state.stacks@) =~= keys_of(entry_views(state.stacks@)));
            }
        },
    }
}

/// What a destroy asks of the machine once the typed name and the no-touch
/// list have passed, in order: read the container's config (the hostname
/// check), stop it, lift its protection, purge it, and remove its gateway
/// route.
pub open spec fn destroy_plan(safety: SafetyConfig, stack: Seq<char>, vmid: u16) -> Seq<Request> {
    let vm = dec(vmid as nat);
    seq![
        Request::Run("pct"@, seq!["config"@, vm], 30),
        Request::Run("pct"@, seq!["stop"@, vm], 120),
        Request::Run("pct"@, seq!["set"@, vm, "--protection"@, "0"@], 30),
        Request::Run("pct"@, seq!["destroy"@, vm, "--purge"@], 120),
        Request::Run(
            "pct"@,
            seq![
                "exec"@,
                dec(safety.gateway_vmid as nat),
                "--"@,
                "rm"@,
                "-f"@,
                safety.gateway_routes_dir@ + "/"@ + hostname_of(vmid, stack) + ".yml"@
            ],
            30,
        ),
    ]
}

/// Run one command of the plan as a step: ask, and fail the step when the
/// executor cannot run it (or, where `must`, when it exits non-zero).
fn plan_step<E: Executor, S: Sink, J: Journal>(
    exec: &mut E,
    runner: &mut Runner<S, J>,
    name: &str,
    cmd: &Cmd,
    must: bool,
) -> (r: Result<(), CoreError>)
    ensures
        final(exec).requests() == old(exec).requests().push(run_request(*cmd)),
        final(exec).replies().len() == old(exec).replies().len() + 1,
        final(exec).replies().take(old(exec).replies().len() as int) == old(exec).replies(),
        final(runner).op_name() == old(runner).op_name(),
        r is Err ==> ended_on_failure(final(exec).requests(), final(exec).replies()),
        r is Ok ==> (final(exec).replies().last() matches Some(o) && (must ==> o.code == 0)),
{
    runner.begin_step(name);
    let ghost h0 = exec.replies();
    let res = if must {
        match run_ok(exec, cmd) {
            Ok(_) => Ok(()),
            Err(e) => Err(e),
        }
    } else {
        match exec.run(cmd) {
            Ok(_) => Ok(()),
            Err(e) => Err(e),
        }
    };
    proof {
        assert(exec.replies().take(h0.len() as int) =~= exec.replies().drop_last());
    }
    match res {
        Ok(()) => {
            runner.step_done(name, StepOutcome::Changed);
            Ok(())
        },
        Err(e) => Err(runner.step_failed(name, e)),
    }
}

/// The gated part of destroy, up to the point where only the record is
/// left to drop: the typed name, the no-touch list and the live hostname
/// are checked in that order, and nothing is stopped, unprotected or
/// purged unless all three passed. `Ok` hands the runner back for the
/// record; `Err` is the finished report of a refused or failed destroy.
pub fn destroy_container<E: Executor, S: Sink, J: Journal>(
    exec: &mut E,
    runner: Runner<S, J>,
    safety: &SafetyConfig,
    stack: &str,
    vmid: u16,
    typed: &str,
) -> (r: Result<Runner<S, J>, OperationReport>)
    ensures
        ({
            let n = final(exec).requests().len() - old(exec).requests().len();
            let plan = destroy_plan(*safety, stack@, vmid);
            &&& 0 <= n <= 5
            &&& final(exec).requests() == old(exec).requests() + plan.take(n)
            &&& destroy_refusal(stack@, typed@, safety.no_touch@, vmid) is Some ==> n == 0
            &&& destroy_refusal(stack@, typed@, safety.no_touch@, vmid) is None ==> n >= 1
            &&& n >= 2 ==> (final(exec).replies()[old(exec).replies().len() as int] matches Some(cfg)
                && hostname_refusal(vmid, hostname_of(vmid, stack@), cfg) is None)
            &&& r is Ok ==> n == 5
            &&& r is Err ==> destroy_refusal(stack@, typed@, safety.no_touch@, vmid) is Some
                || (n == 1 && (final(exec).replies().last() matches Some(cfg)
                    && hostname_refusal(vmid, hostname_of(vmid, stack@), cfg) is Some))
                || ended_on_failure(final(exec).requests(), final(exec).replies())
        }),
        match r {
            Ok(run) => run.op_name() == runner.op_name(),
            Err(rep) => !rep.ok && rep.op@ == runner.op_name(),
        },
{
    let mut runner = runner;
    let ghost opn = runner.op_name();
    let ghost q0 = exec.requests();
    let ghost h0 = exec.replies();
    let ghost plan = destroy_plan(*safety, stack@, vmid);
    let expected = expected_hostname(vmid, stack);
    let mut line = String::from_str("[destroy] requested for ");
    line.append(expected.as_str());
    line.append(" (vmid ");
    let vm = dec_string(vmid as u64);
    line.append(vm.as_str());
    line.append(")");
    runner.log(Level::Warn, line);
    proof {
        assert(exec.requests() =~= q0 + plan.take(0));
    }

    // The typed name, then the no-touch list: no command before both pass.
    runner.begin_step("confirm");
    if !str_eq(typed, stack) {
        let mut m = String::from_str("typed name '");
        m.append(typed);
        m.append("' does not match stack '");
        m.append(stack);
        m.append("'");
        let e = runner.step_failed("confirm", CoreError::SafetyAbort(m));
        return Err(runner.finish_err("confirm", &e).0);
    }
    runner.step_done("confirm", StepOutcome::Unchanged);
    runner.begin_step("no-touch check");
    if contains_vmid(&safety.no_touch, vmid) {
        let mut m = String::from_str("vmid ");
        m.append(vm.as_str());
        m.append(" is on the no-touch list — never destroyed");
        let e = runner.step_failed("no-touch check", CoreError::SafetyAbort(m));
        return Err(runner.finish_err("no-touch check", &e).0);
    }
    runner.step_done("no-touch check", StepOutcome::Unchanged);

    // The live hostname: the container must actually be this stack's.
    runner.begin_step("hostname guard");
    let probe = Cmd::new("pct", &["config", vm.as_str()], 30);
    proof {
        assert(string_views(probe.args@) =~= seq!["config"@, dec(vmid as nat)]);
    }
    let cfg = match exec.run(&probe) {
        Ok(c) => c,
        Err(e) => {
            proof {
                assert(exec.requests() =~= q0 + plan.take(1));
            }
            let e2 = runner.step_failed("hostname guard", e);
            return Err(runner.finish_err("hostname guard", &e2).0);
        },
    };
    proof {
        assert(exec.requests() =~= q0 + plan.take(1));
        assert(exec.replies()[h0.len() as int] == Some(cfg@));
    }
    match hostname_guard(vmid, expected.as_str(), &cfg) {
        Ok(()) => {},
        Err(e) => {
            let e2 = runner.step_failed("hostname guard", e);
            return Err(runner.finish_err("hostname guard", &e2).0);
        },
    }
    runner.step_done("hostname guard", StepOutcome::Unchanged);
    let ghost h1 = exec.replies();

    // Stop (an already stopped container is fine), lift the protection
    // flag deliberately, purge. Data under /appdata is kept.
    let stop = Cmd::new("pct", &["stop", vm.as_str()], 120);
    let unprotect = Cmd::new("pct", &["set", vm.as_str(), "--protection", "0"], 30);
    let purge = Cmd::new("pct", &["destroy", vm.as_str(), "--purge"], 120);
    let route = route_path(safety.gateway_routes_dir.as_str(), vmid, stack);
    let gw = dec_string(safety.gateway_vmid as u64);
    let unroute = Cmd::new("pct", &["exec", gw.as_str(), "--", "rm", "-f", route.as_str()], 30);
    proof {
        assert(run_request(stop) == plan[1]) by {
            assert(string_views(stop.args@) =~= seq!["stop"@, dec(vmid as nat)]);
        }
        assert(run_request(unprotect) == plan[2]) by {
            assert(string_views(unprotect.args@) =~= seq!["set"@, dec(vmid as nat), "--protection"@, "0"@]);
        }
        assert(run_request(purge) == plan[3]) by {
            assert(string_views(purge.args@) =~= seq!["destroy"@, dec(vmid as nat), "--purge"@]);
        }
        assert(run_request(unroute) == plan[4]) by {
            assert(string_views(unroute.args@) =~= seq![
                "exec"@,
                dec(safety.gateway_vmid as nat),
                "--"@,
                "rm"@,
                "-f"@,
                safety.gateway_routes_dir@ + "/"@ + hostname_of(vmid, stack@) + ".yml"@
            ]);
        }
    }
    let steps: [(&str, &Cmd, bool); 4] = [
        ("stop container", &stop, false),
        ("lift protection", &unprotect, false),
        ("destroy container", &purge, true),
        ("remove gateway route", &unroute, false),
    ];
    let mut k: usize = 0;
    let mut failure: Option<(&str, CoreError)> = None;
    while k < 4 && failure.is_none()
        invariant
            k <= 4,
            steps@ == seq![
                ("stop container", &stop, false),
                ("lift protection", &unprotect, false),
                ("destroy container", &purge, true),
                ("remove gateway route", &unroute, false),
            ],
            run_request(stop) == plan[1],
            run_request(unprotect) == plan[2],
            run_request(purge) == plan[3],
            run_request(unroute) == plan[4],
            plan.len() == 5,
            exec.requests() == q0 + plan.take(k + 1),
            exec.replies().len() >= h1.len(),
            exec.replies().take(h1.len() as int) == h1,
            h1.len() > h0.len(),
            h1[h0.len() as int] == Some(cfg@),
            hostname_refusal(vmid, hostname_of(vmid, stack@), cfg@) is None,
            runner.op_name() == opn,
            failure is Some ==> k >= 1,
            failure is Some ==> ended_on_failure(exec.requests(), exec.replies()),
        decreases 4 - k,
    {
        let (name, cmd, must) = steps[k];
        let ghost hk = exec.replies();
        let res = plan_step(exec, &mut runner, name, cmd, must);
        proof {
            assert(plan.take(k + 2) =~= plan.take(k + 1).push(plan[k + 1]));
            assert(exec.requests() =~= q0 + plan.take(k + 2));
            assert(exec.replies().take(h1.len() as int) =~= h1) by {
                assert(exec.replies().take(hk.len() as int).take(h1.len() as int) =~= exec.replies().take(h1.len() as int));
            }
        }
        match res {
            Ok(()) => {},
            Err(e) => {
                failure = Some((name, e));
            },
        }
        k += 1;
    }
    proof {
        assert(exec.replies()[h0.len() as int] == exec.replies().take(h1.len() as int)[h0.len() as int]);
    }
    match failure {
        Some((name, e)) => Err(runner.finish_err(name, &e).0),
        None => {
            proof {
                assert(plan.take(5) =~= plan);
            }
            Ok(runner)
        },
    }
}

} // verus!
