//! The host binary's self-update: the uploaded candidate proves it runs,
//! the running binary is kept, the candidate installed, a rollback marker
//! armed, and a restart scheduled. The rollback itself lives in systemd:
//! while the marker is there, a failed start restores the kept binary.

use vstd::prelude::*;
use vstd::string::*;
use crate::error::CoreError;
use crate::executor::{ended_on_failure, run_ok, run_request, Cmd, CmdOutput, Executor, Request};
use crate::runner::{Journal, OperationReport, Runner, StepOutcome};
use crate::sink::{Level, Sink};
use crate::text::string_views;
use crate::text::{dec, dec_int, dec_string, dec_string_i64, trim, trimmed};

verus! {

pub struct SelfUpdateCfg {
    /// Where the uploaded candidate binary was staged.
    pub staged: String,
    /// The live binary path systemd starts.
    pub current: String,
    /// Backup of the previous binary, used by the rollback unit.
    pub prev: String,
    /// Marker whose presence at failure time means "roll back"; cleared by
    /// the new binary once it serves.
    pub marker: String,
    /// The systemd service to restart.
    pub service: String,
}

impl Default for SelfUpdateCfg {
    fn default() -> (r: Self)
        ensures
            r.staged@ == "/var/lib/homelab/staged-host"@,
            r.current@ == "/usr/local/bin/homelab-host"@,
            r.prev@ == "/usr/local/bin/homelab-host.prev"@,
            r.marker@ == "/var/lib/homelab/selfupdate.pending"@,
            r.service@ == "homelab-host"@,
    {
        SelfUpdateCfg {
            staged: String::from_str("/var/lib/homelab/staged-host"),
            current: String::from_str("/usr/local/bin/homelab-host"),
            prev: String::from_str("/usr/local/bin/homelab-host.prev"),
            marker: String::from_str("/var/lib/homelab/selfupdate.pending"),
            service: String::from_str("homelab-host"),
        }
    }
}

/// The staged binary's self-check: its version when it passed, otherwise
/// why not — nothing is installed after a failed check.
pub fn selfcheck_result(out: &CmdOutput) -> (r: Result<String, CoreError>)
    ensures
        out.code == 0 ==> (r matches Ok(v) && v@ == trimmed(out.stdout@)),
        out.code != 0 ==> (r matches Err(CoreError::Other(m)) && m@ == "staged binary failed selfcheck (exit "@
            + dec_int(out.code as int) + "): "@ + trimmed(out.stderr@)),
{
    if !out.success() {
        let mut m = String::from_str("staged binary failed selfcheck (exit ");
        let c = dec_string_i64(out.code as i64);
        m.append(c.as_str());
        m.append("): ");
        m.append(trim(out.stderr.as_str()));
        return Err(CoreError::Other(m));
    }
    Ok(String::from_str(trim(out.stdout.as_str())))
}

/// The marker that arms the rollback until the new binary reports healthy.
pub fn rollback_marker(version: &str, now: u64) -> (r: String)
    ensures
        r@ == "{\"to_version\":\""@ + version@ + "\",\"armed_at\":"@ + dec(now as nat) + "}\n"@,
{
    let mut s = String::from_str("{\"to_version\":\"");
    s.append(version);
    s.append("\",\"armed_at\":");
    let n = dec_string(now);
    s.append(n.as_str());
    s.append("}\n");
    s
}

/// The transient unit that restarts the service two seconds later.
pub fn restart_unit(now: u64) -> (r: String)
    ensures
        r@ == "homelab-restart-"@ + dec(now as nat),
{
    let mut s = String::from_str("homelab-restart-");
    let n = dec_string(now);
    s.append(n.as_str());
    s
}

/// What a self-update asks of the machine, in order, once the candidate
/// answered its self-check with `version`: the check itself, keeping the
/// running binary, installing the candidate, arming the rollback marker,
/// and scheduling the restart.
pub open spec fn update_plan(cfg: SelfUpdateCfg, version: Seq<char>, now: u64) -> Seq<Request> {
    seq![
        Request::Run(cfg.staged@, seq!["--selfcheck"@], 30),
        Request::Run("cp"@, seq!["-a"@, cfg.current@, cfg.prev@], 30),
        Request::Run("install"@, seq!["-m"@, "755"@, cfg.staged@, cfg.current@], 30),
        Request::WriteFile(
            cfg.marker@,
            "{\"to_version\":\""@ + version + "\",\"armed_at\":"@ + dec(now as nat) + "}\n"@,
            0o644,
        ),
        Request::Run(
            "systemd-run"@,
            seq!["--unit"@, "homelab-restart-"@ + dec(now as nat), "--on-active=2"@, "systemctl"@, "restart"@, cfg.service@],
            30,
        ),
    ]
}

fn plan_cmd<E: Executor, S: Sink, J: Journal>(
    exec: &mut E,
    runner: &mut Runner<S, J>,
    name: &str,
    cmd: &Cmd,
) -> (r: Result<(), CoreError>)
    ensures
        final(exec).requests() == old(exec).requests().push(run_request(*cmd)),
        final(exec).replies().len() == old(exec).replies().len() + 1,
        final(exec).replies().drop_last() == old(exec).replies(),
        final(runner).op_name() == old(runner).op_name(),
        r is Ok <==> (final(exec).replies().last() matches Some(o) && o.code == 0),
{
    runner.begin_step(name);
    match run_ok(exec, cmd) {
        Ok(_) => {
            runner.step_done(name, StepOutcome::Changed);
            Ok(())
        },
        Err(e) => Err(runner.step_failed(name, e)),
    }
}

/// Replace the running host binary with the staged candidate. The
/// candidate must pass its self-check before anything is touched; the
/// running binary is kept before the candidate is installed, and the
/// rollback marker is armed before the restart is scheduled. The restart
/// goes through a transient unit two seconds later, so the reply to the
/// client still goes out.
pub fn self_update<E: Executor, S: Sink, J: Journal>(
    exec: &mut E,
    sink: S,
    journal: J,
    now_unix: u64,
    cfg: &SelfUpdateCfg,
) -> (r: OperationReport)
    ensures
        r.op@ == "self-update"@,
        ({
            let q0 = old(exec).requests();
            let h0 = old(exec).replies().len() as int;
            let n = final(exec).requests().len() - q0.len();
            &&& 1 <= n <= 5
            &&& final(exec).requests()[q0.len() as int] == Request::Run(cfg.staged@, seq!["--selfcheck"@], 30)
            &&& n == 1 ==> final(exec).requests().len() == q0.len() + 1
            &&& n >= 2 ==> (final(exec).replies()[h0] matches Some(o) && o.code == 0 && final(exec).requests() == q0
                + update_plan(*cfg, trimmed(o.stdout), now_unix).take(n))
            &&& r.ok ==> n == 5
            &&& r.ok <==> (n == 5 && (final(exec).replies().last() matches Some(o) && o.code == 0))
            &&& !r.ok ==> ended_on_failure(final(exec).requests(), final(exec).replies())
        }),
{
    let ghost q0 = exec.requests();
    let ghost h0 = exec.replies();
    let mut runner = Runner::new("self-update", sink, journal);

    // The candidate proves it runs before it replaces anything.
    runner.begin_step("selfcheck candidate");
    let check = Cmd::new(cfg.staged.as_str(), &["--selfcheck"], 30);
    proof {
        assert(string_views(check.args@) =~= seq!["--selfcheck"@]);
    }
    let out = match exec.run(&check) {
        Ok(o) => o,
        Err(e) => {
            let e2 = runner.step_failed("selfcheck candidate", e);
            return runner.finish_err("selfcheck candidate", &e2).0;
        },
    };
    let version = match selfcheck_result(&out) {
        Ok(v) => v,
        Err(e) => {
            let e2 = runner.step_failed("selfcheck candidate", e);
            return runner.finish_err("selfcheck candidate", &e2).0;
        },
    };
    runner.step_done("selfcheck candidate", StepOutcome::Unchanged);
    let ghost plan = update_plan(*cfg, version@, now_unix);
    let ghost h1 = exec.replies();
    proof {
        assert(exec.requests() =~= q0 + plan.take(1));
        assert(h1[h0.len() as int] == Some(out@));
    }

    let keep = Cmd::new("cp", &["-a", cfg.current.as_str(), cfg.prev.as_str()], 30);
    proof {
        assert(string_views(keep.args@) =~= seq!["-a"@, cfg.current@, cfg.prev@]);
    }
    let res = plan_cmd(exec, &mut runner, "backup current", &keep);
    proof {
        assert(exec.requests() =~= q0 + plan.take(2));
        assert(exec.replies()[h0.len() as int] == h1[h0.len() as int]);
    }
    match res {
        Ok(()) => {},
        Err(e) => return runner.finish_err("backup current", &e).0,
    }
    let ghost h2 = exec.replies();
    let install = Cmd::new("install", &["-m", "755", cfg.staged.as_str(), cfg.current.as_str()], 30);
    proof {
        assert(string_views(install.args@) =~= seq!["-m"@, "755"@, cfg.staged@, cfg.current@]);
    }
    let res = plan_cmd(exec, &mut runner, "install candidate", &install);
    proof {
        assert(exec.requests() =~= q0 + plan.take(3));
        assert(exec.replies()[h0.len() as int] == h2[h0.len() as int]);
    }
    match res {
        Ok(()) => {},
        Err(e) => return runner.finish_err("install candidate", &e).0,
    }

    // Armed before the restart: a binary that never comes up is rolled back.
    let ghost h3 = exec.replies();
    runner.begin_step("arm rollback marker");
    let marker = rollback_marker(version.as_str(), now_unix);
    let res = exec.write_file(cfg.marker.as_str(), marker.as_str(), 0o644);
    proof {
        assert(exec.requests() =~= q0 + plan.take(4));
        assert(exec.replies()[h0.len() as int] == h3[h0.len() as int]);
    }
    match res {
        Ok(()) => {
            runner.step_done("arm rollback marker", StepOutcome::Changed);
        },
        Err(e) => {
            let e2 = runner.step_failed("arm rollback marker", e);
            return runner.finish_err("arm rollback marker", &e2).0;
        },
    }

    let ghost h4 = exec.replies();
    let unit = restart_unit(now_unix);
    let restart = Cmd::new(
        "systemd-run",
        &["--unit", unit.as_str(), "--on-active=2", "systemctl", "restart", cfg.service.as_str()],
        30,
    );
    proof {
        assert(string_views(restart.args@) =~= seq![
            "--unit"@,
            "homelab-restart-"@ + dec(now_unix as nat),
            "--on-active=2"@,
            "systemctl"@,
            "restart"@,
            cfg.service@
        ]);
    }
    let res = plan_cmd(exec, &mut runner, "schedule restart", &restart);
    proof {
        assert(exec.requests() =~= q0 + plan.take(5));
        assert(exec.replies()[h0.len() as int] == h4[h0.len() as int]);
    }
    match res {
        Ok(()) => {},
        Err(e) => return runner.finish_err("schedule restart", &e).0,
    }
    let mut line = String::from_str("[self-update] installing '");
    line.append(version.as_str());
    line.append("' — restarting in 2s; rollback armed until the new binary reports healthy");
    runner.log(Level::Warn, line);
    runner.finish_ok().0
}

} // verus!
