//! Parking a stack: a per-stack enabled flag. Disabling makes the nightly
//! round skip the stack and clears onboot, so a parked service stays parked
//! across a host reboot; enabling puts onboot back to what the manifest
//! wants. The flag never starts or stops a container.

use vstd::prelude::*;
use vstd::string::*;
use crate::error::CoreError;
use crate::executor::{run_ok, run_request, Cmd, Executor, Request};
use crate::ops::{config_refusal, guard_target, no_touch_refusal};
use crate::runner::{Journal, OperationReport, Runner, StepOutcome};
use crate::safety::SafetyConfig;
use crate::sink::Sink;
use crate::text::{dec, dec_string, string_views};
use crate::keyed::{entries_map, entry_views, find_key, keys_of, lemma_update_sorted};
use crate::ops::deploy::stacks_of;
use crate::state::{stack_names, HostState, StackState};

verus! {

/// The operation's name: `enable-<stack>` or `disable-<stack>`.
pub open spec fn op_name_of(stack: Seq<char>, enabled: bool) -> Seq<char> {
    (if enabled {
        "enable-"@
    } else {
        "disable-"@
    }) + stack
}

pub fn op_name(stack: &str, enabled: bool) -> (r: String)
    ensures
        r@ == op_name_of(stack@, enabled),
{
    let mut s = if enabled {
        String::from_str("enable-")
    } else {
        String::from_str("disable-")
    };
    s.append(stack);
    s
}

/// What onboot a stack wants when it runs: what its manifest says, and on
/// when there is no manifest on record.
pub open spec fn wanted_onboot(r: StackState) -> bool {
    match r.manifest {
        Some(m) => m.boot.onboot,
        None => true,
    }
}

pub fn onboot_wanted(r: &StackState) -> (b: bool)
    ensures
        b == wanted_onboot(*r),
{
    match &r.manifest {
        Some(m) => m.boot.onboot,
        None => true,
    }
}

/// The onboot value to set: on only when enabling a stack that wants it.
pub fn onboot_value(enabled: bool, wanted: bool) -> (r: String)
    ensures
        r@ == (if enabled && wanted {
            "1"@
        } else {
            "0"@
        }),
{
    if enabled && wanted {
        String::from_str("1")
    } else {
        String::from_str("0")
    }
}

/// Store the flag. `Ok(true)` when it changed, `Ok(false)` when it already
/// was so; an error when the stack is not in the state.
pub fn persist_enabled(state: &mut HostState, stack: &str, enabled: bool) -> (r: Result<bool, CoreError>)
    requires
        old(state).wf(),
    ensures
        final(state).wf(),
        !stacks_of(*old(state)).contains_key(stack@) ==> (r matches Err(CoreError::Other(m)) && m@ == "stack '"@
            + stack@ + "' vanished from host state"@ && *final(state) == *old(state)),
        stacks_of(*old(state)).contains_key(stack@) ==> {
            let before = stacks_of(*old(state))[stack@];
            &&& r == Ok::<bool, CoreError>(before.enabled != enabled)
            &&& stacks_of(*final(state)) == stacks_of(*old(state)).insert(
                stack@,
                StackState { enabled, ..before },
            )
        },
        *final(state) == (HostState { stacks: final(state).stacks, ..*old(state) }),
{
    proof {
        assert(stack_names(state.stacks@) =~= keys_of(entry_views(state.stacks@)));
    }
    let ghost e = entry_views(state.stacks@);
    match find_key(&state.stacks, stack) {
        None => {
            let mut m = String::from_str("stack '");
            m.append(stack);
            m.append("' vanished from host state");
            Err(CoreError::Other(m))
        },
        Some(i) => {
            if state.stacks[i].1.enabled == enabled {
                proof {
                    assert(StackState { enabled, ..e[i as int].1 } == e[i as int].1);
                    assert(entries_map(e).insert(stack@, e[i as int].1) =~= entries_map(e));
                }
                return Ok(false);
            }
            let (k, prior) = state.stacks.remove(i);
            let rec = StackState { enabled, ..prior };
            state.stacks.insert(i, (k, rec));
            proof {
                assert(entry_views(state.stacks@) =~= e.update(i as int, (e[i as int].0, rec)));
                lemma_update_sorted(e, i as int, rec);
                assert(stack_names(state.stacks@) =~= keys_of(entry_views(state.stacks@)));
            }
            Ok(true)
        },
    }
}

/// What parking or unparking asks of the machine, in order: read the
/// container's config (the target guard), then set onboot. Nothing else:
/// the flag never starts or stops a container.
pub open spec fn onboot_plan(vmid: u16, enabled: bool, wanted: bool) -> Seq<Request> {
    seq![
        Request::Run("pct"@, seq!["config"@, dec(vmid as nat)], 30),
        Request::Run(
            "pct"@,
            seq![
                "set"@,
                dec(vmid as nat),
                "--onboot"@,
                if enabled && wanted {
                    "1"@
                } else {
                    "0"@
                }
            ],
            30,
        ),
    ]
}

/// The machine's part of parking or unparking: the target guard, then
/// onboot. `Ok` hands the runner back to persist the flag; `Err` is the
/// finished report. Onboot is set only on the container the guard found
/// with the expected hostname, and nothing at all is asked for a vmid on
/// the no-touch list.
pub fn guard_and_set_onboot<E: Executor, S: Sink, J: Journal>(
    exec: &mut E,
    runner: Runner<S, J>,
    safety: &SafetyConfig,
    vmid: u16,
    hostname: &str,
    enabled: bool,
    wanted: bool,
) -> (r: Result<Runner<S, J>, OperationReport>)
    ensures
        ({
            let n = final(exec).requests().len() - old(exec).requests().len();
            &&& 0 <= n <= 2
            &&& final(exec).requests() == old(exec).requests() + onboot_plan(vmid, enabled, wanted).take(n)
            &&& no_touch_refusal(safety.no_touch@, vmid) is Some ==> n == 0
            &&& no_touch_refusal(safety.no_touch@, vmid) is None ==> n >= 1
            &&& n == 2 ==> (final(exec).replies()[old(exec).replies().len() as int] matches Some(cfg)
                && config_refusal(vmid, hostname@, cfg) is None)
            &&& r is Ok ==> n == 2
        }),
        match r {
            Ok(run) => run.op_name() == runner.op_name(),
            Err(rep) => !rep.ok && rep.op@ == runner.op_name(),
        },
{
    let mut runner = runner;
    let ghost q0 = exec.requests();
    let ghost h0 = exec.replies();
    let ghost plan = onboot_plan(vmid, enabled, wanted);
    runner.begin_step("guard target");
    match guard_target(exec, safety, vmid, hostname) {
        Ok(()) => {},
        Err(e) => {
            proof {
                if no_touch_refusal(safety.no_touch@, vmid) is None {
                    assert(exec.requests() =~= q0 + plan.take(1));
                } else {
                    assert(exec.requests() =~= q0 + plan.take(0));
                }
            }
            let e2 = runner.step_failed("guard target", e);
            return Err(runner.finish_err("guard target", &e2).0);
        },
    }
    runner.step_done("guard target", StepOutcome::Unchanged);
    let ghost h1 = exec.replies();
    let vm = dec_string(vmid as u64);
    let onboot = onboot_value(enabled, wanted);
    let set = Cmd::new("pct", &["set", vm.as_str(), "--onboot", onboot.as_str()], 30);
    proof {
        assert(run_request(set) == plan[1]) by {
            assert(string_views(set.args@) =~= seq![
                "set"@,
                dec(vmid as nat),
                "--onboot"@,
                if enabled && wanted {
                    "1"@
                } else {
                    "0"@
                }
            ]);
        }
    }
    runner.begin_step("set onboot");
    let res = run_ok(exec, &set);
    proof {
        assert(exec.requests() =~= q0 + plan.take(2));
        assert(exec.replies()[h0.len() as int] == h1[h0.len() as int]);
    }
    match res {
        Ok(_) => {
            runner.step_done("set onboot", StepOutcome::Changed);
            Ok(runner)
        },
        Err(e) => {
            let e2 = runner.step_failed("set onboot", e);
            Err(runner.finish_err("set onboot", &e2).0)
        },
    }
}

} // verus!
