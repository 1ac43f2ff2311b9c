//! Operations: the decisions each operation makes, apart from the I/O that
//! carries them out.

pub mod kea;
pub mod reconcile;
pub mod fleetcheck;
pub mod manualchecks;
pub mod busy;
pub mod streamguard;
pub mod restoredrill;
pub mod registry_cache;
pub mod zfs;
pub mod discovery;
pub mod hardware;
pub mod dashboard;
pub mod homepage;
pub mod backup;
pub mod facts;
pub mod template;
pub mod selfupdate;
pub mod devicebackup;
pub mod deploy;
pub mod update;
pub mod enable;
pub mod destroy;
pub mod resize;
pub mod util;
pub mod native;
pub mod mirror;
pub mod patch;
pub mod guards;

use vstd::prelude::*;
use vstd::string::*;
use crate::error::CoreError;
use crate::executor::{ended_on_failure, run_request, Cmd, CmdOutput, Executor, Request};
use crate::safety::{config_hostname, contains_vmid, live_hostname};
use crate::text::{dec, dec_string, string_views};
use crate::runner::Journal;
use crate::safety::SafetyConfig;
use crate::sink::Sink;

verus! {

/// Everything an operation needs from the outside world. Built by the host
/// per request; built from test doubles in tests.
pub struct OpCtx<E: Executor, S: Sink, J: Journal> {
    pub executor: E,
    pub sink: S,
    pub journal: J,
    pub safety: SafetyConfig,
    /// e.g. /var/lib/homelab
    pub state_dir: String,
    /// Unix time supplied by the caller — this library never reads a clock.
    pub now_unix: u64,
    /// The DHCP reservation config; None = feature off.
    pub kea: Option<kea::KeaCfg>,
    /// Where per-stack Prometheus discovery files go on the host; None =
    /// feature off.
    pub metrics_targets_dir: Option<String>,
    /// Grafana's provisioning directory inside the gateway; None = feature
    /// off.
    pub grafana_dashboards_dir: Option<String>,
    /// Homepage's `services.yaml` on the host; None = feature off.
    pub homepage_services_file: Option<String>,
    /// Where restic lives, for the operations that read the repository
    /// without being a backup themselves. Not optional: the caller says
    /// which repository it means.
    pub backup: backup::BackupCfg,
    /// The pull-through registry cache, when there is one.
    pub registry_cache: Option<registry_cache::CacheCfg>,
}

/// A request that, if it is a `pct` command, names container `vmid` (its
/// first argument after the subcommand).
pub open spec fn pct_only_on(vmid: u16, r: Request) -> bool {
    match r {
        Request::Run(p, a, _) => p == "pct"@ ==> (a.len() >= 2 && a[1] == dec(vmid as nat)),
        _ => true,
    }
}

/// Why the shared target guard refuses, as plain text: `Abort` for a safety
/// refusal, `Missing` for a container that is not there.
pub enum GuardRefusal {
    Abort(Seq<char>),
    Missing(Seq<char>),
}

/// The error a guard refusal is.
pub open spec fn refusal_of(e: CoreError) -> Option<GuardRefusal> {
    match e {
        CoreError::SafetyAbort(m) => Some(GuardRefusal::Abort(m@)),
        CoreError::Other(m) => Some(GuardRefusal::Missing(m@)),
        _ => None,
    }
}

/// The guard every mutating operation on an existing container passes
/// before it runs anything: the vmid must not be on the no-touch list.
pub open spec fn no_touch_refusal(no_touch: Seq<u16>, vmid: u16) -> Option<GuardRefusal> {
    if no_touch.contains(vmid) {
        Some(GuardRefusal::Abort("vmid "@ + dec(vmid as nat) + " is on the no-touch list"@))
    } else {
        None
    }
}

pub fn guard_no_touch(safety: &SafetyConfig, vmid: u16) -> (r: Result<(), CoreError>)
    ensures
        match no_touch_refusal(safety.no_touch@, vmid) {
            None => r is Ok,
            Some(g) => r matches Err(e) && refusal_of(e) == Some(g),
        },
{
    if contains_vmid(&safety.no_touch, vmid) {
        let mut s = String::from_str("vmid ");
        let d = dec_string(vmid as u64);
        s.append(d.as_str());
        s.append(" is on the no-touch list");
        return Err(CoreError::SafetyAbort(s));
    }
    Ok(())
}

/// The command whose output the guard reads next.
pub fn guard_probe(vmid: u16) -> (c: Cmd)
    ensures
        c.program@ == "pct"@,
        string_views(c.args@) == seq!["config"@, dec(vmid as nat)],
        c.timeout_s == 30,
{
    let vm = dec_string(vmid as u64);
    let c = Cmd::new("pct", &["config", vm.as_str()], 30);
    proof {
        assert(string_views(c.args@) =~= seq!["config"@, dec(vmid as nat)]);
    }
    c
}

/// The guard's second half, on the container's config: it must exist, and
/// it must carry the hostname the operation expects.
pub open spec fn config_refusal(vmid: u16, expected: Seq<char>, cfg: crate::executor::OutputView) -> Option<GuardRefusal> {
    if cfg.code != 0 {
        Some(GuardRefusal::Missing("vmid "@ + dec(vmid as nat) + " does not exist"@))
    } else if live_hostname(cfg.stdout) != expected {
        Some(
            GuardRefusal::Abort(
                "vmid "@ + dec(vmid as nat) + " is '"@ + live_hostname(cfg.stdout) + "', expected '"@
                    + expected + "' — refusing"@,
            ),
        )
    } else {
        None
    }
}

pub fn guard_config(vmid: u16, expected_hostname: &str, cfg: &CmdOutput) -> (r: Result<(), CoreError>)
    ensures
        match config_refusal(vmid, expected_hostname@, cfg@) {
            None => r is Ok,
            Some(g) => r matches Err(e) && refusal_of(e) == Some(g),
        },
{
    if !cfg.success() {
        let mut s = String::from_str("vmid ");
        let d = dec_string(vmid as u64);
        s.append(d.as_str());
        s.append(" does not exist");
        return Err(CoreError::Other(s));
    }
    let live = config_hostname(cfg.stdout.as_str());
    if !crate::text::str_eq(live.as_str(), expected_hostname) {
        let mut s = String::from_str("vmid ");
        let d = dec_string(vmid as u64);
        s.append(d.as_str());
        s.append(" is '");
        s.append(live.as_str());
        s.append("', expected '");
        s.append(expected_hostname);
        s.append("' — refusing");
        return Err(CoreError::SafetyAbort(s));
    }
    Ok(())
}

/// The whole guard, run through an executor: the no-touch list first, so a
/// refused vmid runs no command at all; then the container's config.
pub fn guard_target<E: Executor>(
    exec: &mut E,
    safety: &SafetyConfig,
    vmid: u16,
    expected_hostname: &str,
) -> (r: Result<(), CoreError>)
    ensures
        no_touch_refusal(safety.no_touch@, vmid) matches Some(g) ==> (r matches Err(e) && refusal_of(e)
            == Some(g) && *final(exec) == *old(exec)),
        no_touch_refusal(safety.no_touch@, vmid) is None ==> final(exec).requests() == old(exec).requests().push(
            Request::Run("pct"@, seq!["config"@, dec(vmid as nat)], 30),
        ),
        no_touch_refusal(safety.no_touch@, vmid) is None ==> final(exec).replies().len() == old(exec).replies().len() + 1
            && final(exec).replies().drop_last() == old(exec).replies(),
        r is Ok ==> (final(exec).replies().last() matches Some(cfg) && config_refusal(vmid, expected_hostname@, cfg) is None),
        no_touch_refusal(safety.no_touch@, vmid) is None && r is Err ==> ended_on_failure(final(exec).requests(), final(exec).replies())
            || (final(exec).replies().last() matches Some(cfg) && config_refusal(vmid, expected_hostname@, cfg) is Some),
{
    guard_no_touch(safety, vmid)?;
    let ghost h0 = exec.replies();
    let cfg = exec.run(&guard_probe(vmid));
    proof {
        assert(exec.replies().drop_last() =~= h0);
    }
    let cfg = cfg?;
    guard_config(vmid, expected_hostname, &cfg)
}

} // verus!
