//! Safety gates: whitelist-only management, the no-touch list, and the
//! hostname guard. These run before any mutating command, always.

use vstd::prelude::*;
use vstd::string::*;
use crate::error::CoreError;
use crate::executor::{Cmd, CmdOutput, OutputView};
use crate::manifest::{canonical, StackManifest};
use crate::text::{
    contains, dec, dec_string, ends_with, lines, lines_of, starts_with, str_contains, str_ends_with,
    str_eq, str_starts_with, str_trim_start_str, string_views, trim, trim_start_str, trimmed, views,
};

verus! {

/// Guests that must never be managed regardless of what a manifest claims:
/// the firewall and home-automation VMs, the infrastructure containers, the
/// legacy stacks and the cluster nodes.
pub open spec fn default_no_touch_list() -> Seq<u16> {
    seq![100u16, 101, 102, 103, 104, 105, 106, 107, 111, 201, 202, 203]
}

pub fn default_no_touch() -> (r: Vec<u16>)
    ensures
        r@ == default_no_touch_list(),
{
    let r = vec![100u16, 101, 102, 103, 104, 105, 106, 107, 111, 201, 202, 203];
    proof {
        assert(r@ =~= default_no_touch_list());
    }
    r
}

pub struct SafetyConfig {
    pub no_touch: Vec<u16>,
    pub gateway_vmid: u16,
    pub gateway_routes_dir: String,
}

impl Default for SafetyConfig {
    fn default() -> (r: Self)
        ensures
            r.no_touch@ == default_no_touch_list(),
            r.gateway_vmid == 104,
            r.gateway_routes_dir@ == "/opt/traefik-config/routes"@,
    {
        SafetyConfig {
            no_touch: default_no_touch(),
            gateway_vmid: 104,
            gateway_routes_dir: String::from_str("/opt/traefik-config/routes"),
        }
    }
}

pub fn contains_vmid(v: &Vec<u16>, id: u16) -> (r: bool)
    ensures
        r == v@.contains(id),
{
    let mut i: usize = 0;
    while i < v.len()
        invariant
            i <= v.len(),
            forall|k: int| 0 <= k < i ==> v@[k] != id,
        decreases v.len() - i,
    {
        if v[i] == id {
            proof {
                assert(v@[i as int] == id);
            }
            return true;
        }
        i += 1;
    }
    false
}

pub open spec fn abort(msg: Seq<char>) -> Result<Seq<char>, Seq<char>> {
    Err(msg)
}

/// An error as plain values: the message of a safety abort, or `None` for
/// any other kind.
pub open spec fn abort_msg(e: CoreError) -> Option<Seq<char>> {
    match e {
        CoreError::SafetyAbort(m) => Some(m@),
        _ => None,
    }
}

/// Where a route file for the gateway may be written, or why not.
pub open spec fn gateway_route(
    cfg_vmid: u16,
    routes_dir: Seq<char>,
    gateway_vmid: u16,
    filename: Seq<char>,
) -> Result<Seq<char>, Seq<char>> {
    if gateway_vmid != cfg_vmid {
        Err("gateway routes may only target vmid "@ + dec(cfg_vmid as nat))
    } else if contains(filename, "/"@) || contains(filename, ".."@) || !ends_with(
        filename,
        ".yml"@,
    ) {
        Err("bad route filename '"@ + filename + "'"@)
    } else {
        Ok(routes_dir + "/"@ + filename)
    }
}

/// Gate for the single allowed cross-stack write.
pub fn check_gateway_route(cfg: &SafetyConfig, gateway_vmid: u16, filename: &str) -> (r: Result<
    String,
    CoreError,
>)
    ensures
        match gateway_route(cfg.gateway_vmid, cfg.gateway_routes_dir@, gateway_vmid, filename@) {
            Ok(p) => r matches Ok(s) && s@ == p,
            Err(m) => r matches Err(e) && abort_msg(e) == Some(m),
        },
{
    if gateway_vmid != cfg.gateway_vmid {
        let mut s = String::from_str("gateway routes may only target vmid ");
        let d = dec_string(cfg.gateway_vmid as u64);
        s.append(d.as_str());
        return Err(CoreError::SafetyAbort(s));
    }
    if str_contains(filename, "/") || str_contains(filename, "..") || !str_ends_with(
        filename,
        ".yml",
    ) {
        let mut s = String::from_str("bad route filename '");
        s.append(filename);
        s.append("'");
        return Err(CoreError::SafetyAbort(s));
    }
    let mut p = cfg.gateway_routes_dir.clone();
    p.append("/");
    p.append(filename);
    Ok(p)
}

/// The remote-exec gate, deny-by-default: the flag must be on, and the
/// no-touch list wins regardless of it.
pub open spec fn exec_gate(enabled: bool, no_touch: Seq<u16>, vmid: u16) -> Option<Seq<char>> {
    if !enabled {
        Some("remote exec is disabled (set exec_enabled = true in host.toml to allow it)"@)
    } else if no_touch.contains(vmid) {
        Some(
            "vmid "@ + dec(vmid as nat)
                + " is on the no-touch list — exec refused regardless of config"@,
        )
    } else {
        None
    }
}

/// Gate for the remote-exec endpoint.
pub fn exec_guard(enabled: bool, cfg: &SafetyConfig, vmid: u16) -> (r: Result<(), CoreError>)
    ensures
        match exec_gate(enabled, cfg.no_touch@, vmid) {
            None => r is Ok,
            Some(m) => r matches Err(e) && abort_msg(e) == Some(m),
        },
{
    if !enabled {
        return Err(
            CoreError::SafetyAbort(
                String::from_str(
                    "remote exec is disabled (set exec_enabled = true in host.toml to allow it)",
                ),
            ),
        );
    }
    if contains_vmid(&cfg.no_touch, vmid) {
        let mut s = String::from_str("vmid ");
        let d = dec_string(vmid as u64);
        s.append(d.as_str());
        s.append(" is on the no-touch list — exec refused regardless of config");
        return Err(CoreError::SafetyAbort(s));
    }
    Ok(())
}

/// The first line that starts with `p`.
pub open spec fn first_starting(ls: Seq<Seq<char>>, p: Seq<char>) -> Option<Seq<char>>
    decreases ls.len(),
{
    if ls.len() == 0 {
        None
    } else if starts_with(ls[0], p) {
        Some(ls[0])
    } else {
        first_starting(ls.drop_first(), p)
    }
}

/// The hostname a container's `pct config` output names (empty when none).
pub open spec fn live_hostname(stdout: Seq<char>) -> Seq<char> {
    match first_starting(lines_of(stdout), "hostname:"@) {
        Some(l) => trimmed(trim_start_str(l, "hostname:"@)),
        None => Seq::empty(),
    }
}

/// The hostname line of a `pct config` output, read.
pub fn config_hostname(stdout: &str) -> (r: String)
    ensures
        r@ == live_hostname(stdout@),
{
    let ls = lines(stdout);
    let ghost lv = views(ls@);
    let mut i: usize = 0;
    proof {
        assert(lv.subrange(0, lv.len() as int) =~= lv);
    }
    while i < ls.len()
        invariant
            i <= ls.len(),
            lv == views(ls@),
            lv == lines_of(stdout@),
            first_starting(lv, "hostname:"@) == first_starting(
                lv.subrange(i as int, lv.len() as int),
                "hostname:"@,
            ),
        decreases ls.len() - i,
    {
        let l = ls[i];
        proof {
            assert(lv.subrange(i as int, lv.len() as int).drop_first() =~= lv.subrange(
                i + 1,
                lv.len() as int,
            ));
            assert(lv.subrange(i as int, lv.len() as int)[0] == l@);
        }
        if str_starts_with(l, "hostname:") {
            proof {
                assert(first_starting(lv.subrange(i as int, lv.len() as int), "hostname:"@) == Some(
                    l@,
                ));
            }
            let rest = str_trim_start_str(l, "hostname:");
            return String::from_str(trim(rest));
        }
        i += 1;
    }
    proof {
        assert(lv.subrange(i as int, lv.len() as int) =~= Seq::<Seq<char>>::empty());
    }
    String::new()
}

/// Where checking a deploy target stands: a read-only probe to run next, or
/// the verdict — whether the container already exists and is ours.
pub enum TargetStep {
    Probe(Cmd),
    Done(Result<bool, CoreError>),
}

/// A probe as plain values: program, arguments, timeout.
pub open spec fn probe_cmd(c: Cmd) -> (Seq<char>, Seq<Seq<char>>, u64) {
    (c.program@, string_views(c.args@), c.timeout_s)
}

/// The deploy-target check as plain values. `qm` and `pct` are the outputs
/// of the probes run so far (`qm status` first, then `pct config`).
pub enum TargetView {
    Probe(Seq<char>, Seq<Seq<char>>, u64),
    Exists(bool),
    Abort(Seq<char>),
    Other,
}

pub open spec fn target_view(s: TargetStep) -> TargetView {
    match s {
        TargetStep::Probe(c) => TargetView::Probe(c.program@, string_views(c.args@), c.timeout_s),
        TargetStep::Done(Ok(b)) => TargetView::Exists(b),
        TargetStep::Done(Err(CoreError::SafetyAbort(m))) => TargetView::Abort(m@),
        TargetStep::Done(Err(_)) => TargetView::Other,
    }
}

pub open spec fn target_step(
    no_touch: Seq<u16>,
    vmid: u16,
    hostname: Seq<char>,
    stack_name: Seq<char>,
    qm: Option<OutputView>,
    pct: Option<OutputView>,
) -> TargetView {
    let expected = canonical(vmid, stack_name);
    let vm = dec(vmid as nat);
    if no_touch.contains(vmid) {
        TargetView::Abort("vmid "@ + vm + " is on the no-touch list"@)
    } else if hostname != expected {
        TargetView::Abort(
            "hostname '"@ + hostname + "' does not match canonical '"@ + expected + "'"@,
        )
    } else {
        match qm {
            None => TargetView::Probe("qm"@, seq!["status"@, vm], 30),
            Some(q) => if q.code == 0 {
                TargetView::Abort("vmid "@ + vm + " is a QEMU VM"@)
            } else {
                match pct {
                    None => TargetView::Probe("pct"@, seq!["config"@, vm], 30),
                    Some(p) => if p.code != 0 {
                        TargetView::Exists(false)
                    } else if live_hostname(p.stdout) == expected {
                        TargetView::Exists(true)
                    } else {
                        TargetView::Abort(
                            "vmid "@ + vm + " exists with hostname '"@ + live_hostname(p.stdout)
                                + "', expected '"@ + expected + "' — refusing"@,
                        )
                    },
                }
            },
        }
    }
}

pub open spec fn out_view(o: Option<&CmdOutput>) -> Option<OutputView> {
    match o {
        Some(c) => Some(c@),
        None => None,
    }
}

/// The deploy-target gate, one probe at a time: the static checks (no-touch
/// list, canonical hostname) first; a QEMU VM on the id is always fatal; a
/// container that does not exist is free to create; one that exists must
/// carry the expected hostname.
pub fn check_deploy_target(
    cfg: &SafetyConfig,
    manifest: &StackManifest,
    qm: Option<&CmdOutput>,
    pct: Option<&CmdOutput>,
) -> (r: TargetStep)
    ensures
        target_view(r) == target_step(
            cfg.no_touch@,
            manifest.vmid,
            manifest.hostname@,
            manifest.stack_name@,
            out_view(qm),
            out_view(pct),
        ),
{
    let vm = dec_string(manifest.vmid as u64);
    if contains_vmid(&cfg.no_touch, manifest.vmid) {
        let mut s = String::from_str("vmid ");
        s.append(vm.as_str());
        s.append(" is on the no-touch list");
        return TargetStep::Done(Err(CoreError::SafetyAbort(s)));
    }
    let expected = manifest.canonical_hostname();
    if !str_eq(manifest.hostname.as_str(), expected.as_str()) {
        let mut s = String::from_str("hostname '");
        s.append(manifest.hostname.as_str());
        s.append("' does not match canonical '");
        s.append(expected.as_str());
        s.append("'");
        return TargetStep::Done(Err(CoreError::SafetyAbort(s)));
    }
    match qm {
        None => {
            let c = Cmd::new("qm", &["status", vm.as_str()], 30);
            proof {
                reveal_strlit("status");
                assert(string_views(c.args@) =~= seq!["status"@, vm@]);
            }
            TargetStep::Probe(c)
        },
        Some(q) => {
            if q.success() {
                let mut s = String::from_str("vmid ");
                s.append(vm.as_str());
                s.append(" is a QEMU VM");
                return TargetStep::Done(Err(CoreError::SafetyAbort(s)));
            }
            match pct {
                None => {
                    let c = Cmd::new("pct", &["config", vm.as_str()], 30);
                    proof {
                        reveal_strlit("config");
                        assert(string_views(c.args@) =~= seq!["config"@, vm@]);
                    }
                    TargetStep::Probe(c)
                },
                Some(p) => {
                    if !p.success() {
                        return TargetStep::Done(Ok(false));
                    }
                    let live = config_hostname(p.stdout.as_str());
                    if str_eq(live.as_str(), expected.as_str()) {
                        TargetStep::Done(Ok(true))
                    } else {
                        let mut s = String::from_str("vmid ");
                        s.append(vm.as_str());
                        s.append(" exists with hostname '");
                        s.append(live.as_str());
                        s.append("', expected '");
                        s.append(expected.as_str());
                        s.append("' — refusing");
                        TargetStep::Done(Err(CoreError::SafetyAbort(s)))
                    }
                },
            }
        },
    }
}

} // verus!
