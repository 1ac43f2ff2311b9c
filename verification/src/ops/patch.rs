//! Patching the fleet: every managed container gets its distribution's
//! updates, one at a time; the no-touch list is skipped, never patched.

use vstd::prelude::*;
use vstd::string::*;
use crate::error::CoreError;
use crate::executor::{ended_on_failure, pct_sh, pct_sh_args, replies_succeeded, CmdOutput, Executor, Request};
use crate::runner::{Journal, OperationReport, Runner, StepOutcome, reports_view};
use crate::safety::{contains_vmid, SafetyConfig};
use crate::sink::{Level, Sink};
use crate::text::{dec, dec_string, trim, trimmed};

verus! {

/// What runs inside each container.
pub const PATCH_SCRIPT: &'static str = "export DEBIAN_FRONTEND=noninteractive; apt-get update -qq && apt-get dist-upgrade -y -qq -o Dpkg::Options::=--force-confold && apt-get autoremove -y -qq && apt-get clean";

/// The transcript line for a container skipped because it is on the
/// no-touch list.
pub fn skipped_line(name: &str, vmid: u16) -> (r: String)
    ensures
        r@ == "[patch] "@ + name@ + " (vmid "@ + dec(vmid as nat) + ") is on the no-touch list — skipped"@,
{
    let mut s = String::from_str("[patch] ");
    s.append(name);
    s.append(" (vmid ");
    let d = dec_string(vmid as u64);
    s.append(d.as_str());
    s.append(") is on the no-touch list — skipped");
    s
}

/// What a failed apt run in one container is reported as.
pub fn patch_failed(name: &str, vmid: u16, out: &CmdOutput) -> (r: CoreError)
    ensures
        r matches CoreError::Other(m) && m@ == "apt failed in "@ + name@ + " (vmid "@ + dec(vmid as nat) + "): "@
            + trimmed(out.stderr@),
{
    let mut s = String::from_str("apt failed in ");
    s.append(name);
    s.append(" (vmid ");
    let d = dec_string(vmid as u64);
    s.append(d.as_str());
    s.append("): ");
    s.append(trim(out.stderr.as_str()));
    CoreError::Other(s)
}

/// The targets a sweep patches, in order: every `(name, vmid)` whose vmid
/// is not on the no-touch list.
pub open spec fn patch_targets(no_touch: Seq<u16>, targets: Seq<(String, u16)>) -> Seq<(Seq<char>, u16)>
    decreases targets.len(),
{
    if targets.len() == 0 {
        Seq::empty()
    } else {
        let rest = patch_targets(no_touch, targets.drop_last());
        let (name, vmid) = targets.last();
        if no_touch.contains(vmid) {
            rest
        } else {
            rest.push((name@, vmid))
        }
    }
}

/// What patching these targets asks of the machine: the patch script in
/// each container, in turn.
pub open spec fn patch_requests(ts: Seq<(Seq<char>, u16)>) -> Seq<Request> {
    ts.map_values(|t: (Seq<char>, u16)| Request::Run("pct"@, pct_sh_args(t.1, PATCH_SCRIPT@), 1800))
}

/// The report's steps for these targets, each one patched.
pub open spec fn patch_steps(ts: Seq<(Seq<char>, u16)>) -> Seq<(Seq<char>, bool)> {
    ts.map_values(|t: (Seq<char>, u16)| ("patch "@ + t.0, true))
}

proof fn lemma_patch_prefix(no_touch: Seq<u16>, t: Seq<(String, u16)>, j: int)
    requires
        0 <= j <= t.len(),
    ensures
        patch_targets(no_touch, t.take(j)).len() <= patch_targets(no_touch, t).len(),
        patch_targets(no_touch, t).take(patch_targets(no_touch, t.take(j)).len() as int) == patch_targets(
            no_touch,
            t.take(j),
        ),
    decreases t.len(),
{
    if j == t.len() {
        assert(t.take(j) =~= t);
    } else {
        let dl = t.drop_last();
        assert(t.take(j) =~= dl.take(j));
        lemma_patch_prefix(no_touch, dl, j);
        let m = patch_targets(no_touch, t.take(j)).len() as int;
        assert(patch_targets(no_touch, t).take(m) =~= patch_targets(no_touch, dl).take(m));
    }
}

/// Patch the targets one at a time — a broken mirror or a hung dpkg stops
/// the sweep instead of breaking every container at once. A target on the
/// no-touch list is skipped, never patched. The sweep asks for exactly the
/// patch script in each patched container, in order, and stops after the
/// first one that fails.
pub fn patch_fleet<E: Executor, S: Sink, J: Journal>(
    exec: &mut E,
    sink: S,
    journal: J,
    safety: &SafetyConfig,
    targets: &[(String, u16)],
) -> (r: OperationReport)
    ensures
        ({
            let all = patch_targets(safety.no_touch@, targets@);
            let n = final(exec).requests().len() - old(exec).requests().len();
            &&& 0 <= n <= all.len()
            &&& final(exec).requests() == old(exec).requests() + patch_requests(all.take(n))
            &&& r.ok ==> n == all.len() && reports_view(r.steps@) == patch_steps(all)
            &&& !r.ok ==> n > 0 && reports_view(r.steps@) == patch_steps(all.take(n - 1))
            &&& final(exec).replies().len() == old(exec).replies().len() + n
            &&& r.ok ==> replies_succeeded(final(exec).replies(), old(exec).replies().len() as int, final(exec).replies().len() as int)
            &&& !r.ok ==> replies_succeeded(final(exec).replies(), old(exec).replies().len() as int, final(exec).replies().len() - 1)
                && ended_on_failure(final(exec).requests(), final(exec).replies())
        }),
        r.op@ == "patch-fleet"@,
{
    let ghost q0 = exec.requests();
    let ghost h0 = exec.replies();
    let ghost nt = safety.no_touch@;
    let mut runner = Runner::new("patch-fleet", sink, journal);
    if targets.len() == 0 {
        runner.log(Level::Warn, String::from_str("[patch] no managed stacks in state — nothing to do"));
        proof {
            assert(exec.requests() =~= q0 + patch_requests(patch_targets(nt, targets@).take(0)));
            assert(patch_steps(patch_targets(nt, targets@)) =~= Seq::<(Seq<char>, bool)>::empty());
        }
        return runner.finish_ok().0;
    }
    let mut i: usize = 0;
    let mut failure: Option<(String, CoreError)> = None;
    while i < targets.len() && failure.is_none()
        invariant
            i <= targets.len(),
            nt == safety.no_touch@,
            exec.requests() == q0 + patch_requests(patch_targets(nt, targets@.take(i as int))),
            exec.replies().len() == h0.len() + patch_targets(nt, targets@.take(i as int)).len(),
            failure is None ==> replies_succeeded(exec.replies(), h0.len() as int, exec.replies().len() as int),
            failure is Some ==> replies_succeeded(exec.replies(), h0.len() as int, exec.replies().len() - 1)
                && ended_on_failure(exec.requests(), exec.replies()),
            runner.op_name() == "patch-fleet"@,
            failure is None ==> runner.steps() == patch_steps(patch_targets(nt, targets@.take(i as int))),
            failure matches Some(f) ==> ({
                let p = patch_targets(nt, targets@.take(i as int));
                &&& p.len() > 0
                &&& runner.steps() == patch_steps(p.drop_last())
                &&& f.0@ == "patch "@ + p.last().0
            }),
        decreases targets.len() - i,
    {
        let ghost done = patch_targets(nt, targets@.take(i as int));
        proof {
            assert(targets@.take(i + 1).drop_last() =~= targets@.take(i as int));
            assert(targets@.take(i + 1).last() == targets@[i as int]);
        }
        let name = &targets[i].0;
        let vmid = targets[i].1;
        if contains_vmid(&safety.no_touch, vmid) {
            runner.log(Level::Warn, skipped_line(name.as_str(), vmid));
        } else {
            let ghost next = patch_targets(nt, targets@.take(i + 1));
            proof {
                assert(next == done.push((name@, vmid)));
                assert(patch_requests(next) =~= patch_requests(done).push(
                    Request::Run("pct"@, pct_sh_args(vmid, PATCH_SCRIPT@), 1800)));
                assert(patch_steps(next) =~= patch_steps(done).push(("patch "@ + name@, true)));
                assert(next.drop_last() =~= done);
            }
            let mut step_name = String::from_str("patch ");
            step_name.append(name.as_str());
            runner.begin_step(step_name.as_str());
            let res = match pct_sh(exec, vmid, PATCH_SCRIPT, 1800) {
                Ok(out) => {
                    if out.success() {
                        Ok(())
                    } else {
                        Err(patch_failed(name.as_str(), vmid, &out))
                    }
                },
                Err(e) => Err(e),
            };
            proof {
                assert(exec.requests() =~= q0 + patch_requests(next));
            }
            match res {
                Ok(()) => {
                    runner.step_done(step_name.as_str(), StepOutcome::Changed);
                    let mut line = String::from_str("[patch] ");
                    line.append(name.as_str());
                    line.append(" up to date");
                    runner.log(Level::Info, line);
                },
                Err(e) => {
                    let e2 = runner.step_failed(step_name.as_str(), e);
                    failure = Some((step_name, e2));
                },
            }
        }
        i += 1;
    }
    let ghost done = patch_targets(nt, targets@.take(i as int));
    let ghost all = patch_targets(nt, targets@);
    proof {
        lemma_patch_prefix(nt, targets@, i as int);
        assert(exec.requests().len() - q0.len() == done.len());
        assert(patch_requests(all.take(done.len() as int)) == patch_requests(done));
    }
    match failure {
        Some((step_name, e)) => {
            proof {
                assert(all.take(done.len() - 1) =~= done.drop_last()) by {
                    assert(all.take(done.len() as int).take(done.len() - 1) =~= all.take(done.len() - 1));
                }
            }
            runner.finish_err(step_name.as_str(), &e).0
        },
        None => {
            proof {
                assert(targets@.take(i as int) =~= targets@);
                assert(all.take(all.len() as int) =~= all);
            }
            runner.finish_ok().0
        },
    }
}

/// A sweep never patches a container on the no-touch list: no target it
/// patches has a no-touch vmid, and every one it patches was asked for.
pub proof fn law_no_touch_is_never_patched(no_touch: Seq<u16>, targets: Seq<(String, u16)>, k: int)
    requires
        0 <= k < patch_targets(no_touch, targets).len(),
    ensures
        !no_touch.contains(patch_targets(no_touch, targets)[k].1),
        exists|j: int| 0 <= j < targets.len() && (#[trigger] targets[j]).1 == patch_targets(no_touch, targets)[k].1
            && targets[j].0@ == patch_targets(no_touch, targets)[k].0,
    decreases targets.len(),
{
    let dl = targets.drop_last();
    let rest = patch_targets(no_touch, dl);
    if k < rest.len() {
        law_no_touch_is_never_patched(no_touch, dl, k);
        let j = choose|j: int| 0 <= j < dl.len() && (#[trigger] dl[j]).1 == rest[k].1 && dl[j].0@ == rest[k].0;
        assert(targets[j] == dl[j]);
    } else {
        assert(targets[targets.len() - 1] == targets.last());
    }
}

} // verus!
