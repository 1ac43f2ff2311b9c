//! The golden-template builder: its configuration, and what it decides
//! before it creates anything.

use vstd::prelude::*;
use vstd::string::*;
use crate::error::CoreError;
use crate::executor::{
    ended_on_failure, extends, lemma_extends_refl, lemma_extends_trans, lemma_one_more, pct_sh, pct_sh_args, run_ok, run_request, Cmd,
    CmdOutput, Executor, OutputView, Request,
};
use crate::ops::guards::{all_guard, daemon_json_of, guard_file, law_guards_touch_only_their_container, probed, sh, APT_CLEAN};
use crate::ops::pct_only_on;
use crate::runner::{Journal, OperationReport, Runner, StepOutcome};
use crate::sink::{Level, Sink, VecSink};
use crate::safety::{contains_vmid, SafetyConfig};
use crate::text::{contains, dec, dec_string, str_contains, string_views, trim};

verus! {

pub struct TemplateCfg {
    /// The vmid the builder may create and destroy. Nothing else, ever.
    pub temp_vmid: u16,
    /// Base OS template to build from (a vztmpl path).
    pub base_template: String,
    /// Version tag: the result is named `debian-12-homelab-v{version}`.
    pub version: u32,
    pub storage: String,
    /// Build-time network (needs the internet for packages).
    pub bridge: String,
    pub ip: String,
    pub gateway: String,
    pub vlan: Option<u16>,
    pub features: String,
    /// A clone cannot change its privilege level, so a privileged container
    /// needs a privileged template; the name says which is which.
    pub unprivileged: bool,
}

impl Default for TemplateCfg {
    fn default() -> (r: Self)
        ensures
            r.temp_vmid == 999,
            r.base_template@ == "local:vztmpl/debian-12-standard_12.12-1_amd64.tar.zst"@,
            r.version == 1,
            r.storage@ == "local-lvm"@,
            r.bridge@ == "vmbr0"@,
            r.ip@ == "10.10.10.99/24"@,
            r.gateway@ == "10.10.10.1"@,
            r.vlan == Some(10u16),
            r.features@ == "nesting=1,keyctl=1"@,
            r.unprivileged,
    {
        TemplateCfg {
            temp_vmid: 999,
            base_template: String::from_str("local:vztmpl/debian-12-standard_12.12-1_amd64.tar.zst"),
            version: 1,
            storage: String::from_str("local-lvm"),
            bridge: String::from_str("vmbr0"),
            ip: String::from_str("10.10.10.99/24"),
            gateway: String::from_str("10.10.10.1"),
            vlan: Some(10),
            features: String::from_str("nesting=1,keyctl=1"),
            unprivileged: true,
        }
    }
}

/// The template's name: version, and `-priv` for a privileged one.
pub open spec fn template_name_of(version: u32, unprivileged: bool) -> Seq<char> {
    "debian-12-homelab-v"@ + dec(version as nat) + if unprivileged {
        Seq::<char>::empty()
    } else {
        "-priv"@
    }
}

pub fn template_name(cfg: &TemplateCfg) -> (r: String)
    ensures
        r@ == template_name_of(cfg.version, cfg.unprivileged),
{
    let mut s = String::from_str("debian-12-homelab-v");
    let v = dec_string(cfg.version as u64);
    s.append(v.as_str());
    if !cfg.unprivileged {
        s.append("-priv");
    }
    proof {
        if cfg.unprivileged {
            assert(s@ =~= template_name_of(cfg.version, cfg.unprivileged));
        }
    }
    s
}

/// Why the builder may not claim its temporary vmid: it is on the no-touch
/// list, or something already lives there.
pub open spec fn claim_refusal(no_touch: Seq<u16>, temp_vmid: u16, existing: Option<OutputView>) -> Option<Seq<char>> {
    if no_touch.contains(temp_vmid) {
        Some("temp vmid "@ + dec(temp_vmid as nat) + " is on the no-touch list"@)
    } else {
        match existing {
            Some(o) => if o.code == 0 {
                Some("vmid "@ + dec(temp_vmid as nat) + " already exists — refusing to build over it"@)
            } else {
                None
            },
            None => None,
        }
    }
}

/// The claim, checked before the probe (`existing` is `None`) and again
/// with the `pct config` output of the temporary vmid.
pub fn claim_temp_vmid(safety: &SafetyConfig, temp_vmid: u16, existing: Option<&CmdOutput>) -> (r: Result<(), CoreError>)
    ensures
        match claim_refusal(safety.no_touch@, temp_vmid, match existing {
            Some(o) => Some(o@),
            None => None,
        }) {
            None => r is Ok,
            Some(m) => r matches Err(CoreError::SafetyAbort(x)) && x@ == m,
        },
{
    if contains_vmid(&safety.no_touch, temp_vmid) {
        let mut s = String::from_str("temp vmid ");
        let d = dec_string(temp_vmid as u64);
        s.append(d.as_str());
        s.append(" is on the no-touch list");
        return Err(CoreError::SafetyAbort(s));
    }
    match existing {
        Some(o) => {
            if o.success() {
                let mut s = String::from_str("vmid ");
                let d = dec_string(temp_vmid as u64);
                s.append(d.as_str());
                s.append(" already exists — refusing to build over it");
                return Err(CoreError::SafetyAbort(s));
            }
            Ok(())
        },
        None => Ok(()),
    }
}

/// What stops a clone from booting clean, or only costs: two hardware
/// services an LXC can never satisfy, postfix, and docker plugins nobody
/// uses.
pub const TRIM_SCRIPT: &'static str = "systemctl mask nvmf-autoconnect.service openipmi.service >/dev/null 2>&1; export DEBIAN_FRONTEND=noninteractive; apt-get purge -y -qq postfix >/dev/null 2>&1; apt-get purge -y -qq docker-buildx-plugin docker-model-plugin docker-ce-rootless-extras >/dev/null 2>&1; apt-get autoremove -y -qq >/dev/null 2>&1; true";

/// Generalizing: each clone generates its own ssh host keys on first boot,
/// and carries no machine id or apt debris.
pub const GENERALIZE_SCRIPT: &'static str = "cat > /etc/systemd/system/ssh-host-keys.service <<'UNIT'\n[Unit]\n             Description=Generate ssh host keys on first boot\n             ConditionPathExists=!/etc/ssh/ssh_host_ed25519_key\n             Before=ssh.service\n             [Service]\n             Type=oneshot\n             ExecStart=/usr/bin/ssh-keygen -A\n             RemainAfterExit=yes\n             [Install]\n             WantedBy=multi-user.target\nUNIT\n             systemctl enable ssh-host-keys.service >/dev/null 2>&1; apt-get clean && rm -f /etc/machine-id /var/lib/dbus/machine-id && touch /etc/machine-id && rm -f /etc/ssh/ssh_host_*";

/// The look that asks whether the build container's systemd is up.
pub const POLL_SCRIPT: &'static str = "systemctl is-system-running 2>/dev/null || true";

/// Docker, from its own installer.
pub const DOCKER_SCRIPT: &'static str = "export DEBIAN_FRONTEND=noninteractive; apt-get update -qq && apt-get install -y -qq curl ca-certificates && curl -fsSL https://get.docker.com | sh";

/// The host metrics agent, enabled at boot.
pub const NODE_EXPORTER_SCRIPT: &'static str = "export DEBIAN_FRONTEND=noninteractive; apt-get install -y -qq prometheus-node-exporter && systemctl enable prometheus-node-exporter";

/// The container metrics and log agents' images, pulled ahead.
pub const AGENT_IMAGES_SCRIPT: &'static str = "mkdir -p /opt/cadvisor && docker pull gcr.io/cadvisor/cadvisor:latest && docker pull grafana/promtail:3.0.0";

/// The build container's network line.
pub open spec fn net_of(cfg: TemplateCfg) -> Seq<char> {
    "name=eth0,bridge="@ + cfg.bridge@ + ",firewall=0,ip="@ + cfg.ip@ + ",gw="@ + cfg.gateway@ + match cfg.vlan {
        Some(tag) => ",tag="@ + dec(tag as nat),
        None => Seq::<char>::empty(),
    }
}

/// The request that creates the build container.
pub open spec fn create_request(cfg: TemplateCfg, name: Seq<char>) -> Request {
    Request::Run(
        "pct"@,
        seq![
            "create"@,
            dec(cfg.temp_vmid as nat),
            cfg.base_template@,
            "--hostname"@,
            name,
            "--rootfs"@,
            cfg.storage@ + ":4"@,
            "--net0"@,
            net_of(cfg),
            "--memory"@,
            "1024"@,
            "--cores"@,
            "2"@,
            "--unprivileged"@,
            if cfg.unprivileged { "1"@ } else { "0"@ },
            "--features"@,
            cfg.features@,
            "--description"@,
            "homelab golden template build (B8) — temporary"@,
        ],
        300,
    )
}

/// The request that describes the finished template.
pub open spec fn describe_request(vmid: u16, name: Seq<char>) -> Request {
    let vm = dec(vmid as nat);
    Request::Run(
        "pct"@,
        seq!["set"@, vm, "--description"@, name + " — golden template (B8), clone with template: \"clone:"@ + vm + "\""@],
        30,
    )
}

/// A look at systemd, or the pause between two looks.
pub open spec fn waits(r: Request, vmid: u16) -> bool {
    r == sh(vmid, POLL_SCRIPT@, 20) || r == Request::Sleep(4000)
}

/// The whole bake, from `from` to the end of `q`, with the looks at
/// systemd ending before `p` and the guards between `p + 3` and `g`: create
/// and start the build container, wait for systemd, install docker, the
/// metrics agent and the agents' images, put every guard in place (each
/// guard file's hash probed, apt's cache cleaned last), trim, generalize,
/// stop, turn into the template, describe it.
pub open spec fn baked_at(q: Seq<Request>, from: int, cfg: TemplateCfg, name: Seq<char>, p: int, g: int) -> bool {
    let vmid = cfg.temp_vmid;
    let vm = dec(vmid as nat);
    let dj = daemon_json_of(None);
    &&& 0 <= from
    &&& from + 2 <= p
    &&& p + 3 <= g
    &&& g + 5 == q.len()
    &&& q[from] == create_request(cfg, name)
    &&& q[from + 1] == Request::Run("pct"@, seq!["start"@, vm], 120)
    &&& forall|i: int| from + 2 <= i < p ==> waits(#[trigger] q[i], vmid)
    &&& q[p] == sh(vmid, DOCKER_SCRIPT@, 900)
    &&& q[p + 1] == sh(vmid, NODE_EXPORTER_SCRIPT@, 600)
    &&& q[p + 2] == sh(vmid, AGENT_IMAGES_SCRIPT@, 900)
    &&& all_guard(q.take(g), p + 3, vmid, true, dj)
    &&& q[g - 1] == sh(vmid, APT_CLEAN@, 60)
    &&& forall|d: Seq<char>, c: Seq<char>| #[trigger] guard_file(true, dj, d, c) ==> probed(q.take(g), p + 3, vmid, d)
    &&& q[g] == sh(vmid, TRIM_SCRIPT@, 600)
    &&& q[g + 1] == sh(vmid, GENERALIZE_SCRIPT@, 120)
    &&& q[g + 2] == Request::Run("pct"@, seq!["stop"@, vm], 120)
    &&& q[g + 3] == Request::Run("pct"@, seq!["template"@, vm], 300)
    &&& q[g + 4] == describe_request(vmid, name)
}

/// systemd never came up: after creating and starting the build container,
/// thirty looks, each followed by a pause, and nothing after them.
pub open spec fn timed_out(q: Seq<Request>, from: int) -> bool {
    q.len() == from + 62 && q.last() == Request::Sleep(4000)
}

/// The requests from `from` on are a whole bake (see [`baked_at`]).
pub open spec fn baked(q: Seq<Request>, from: int, cfg: TemplateCfg, name: Seq<char>) -> bool {
    exists|p: int, g: int| #[trigger] baked_at(q, from, cfg, name, p, g)
}

/// Every `pct` request from `from` on names container `vmid`.
pub open spec fn all_on(q: Seq<Request>, from: int, vmid: u16) -> bool {
    forall|i: int| from <= i < q.len() ==> pct_only_on(vmid, #[trigger] q[i])
}

proof fn lemma_all_on_extend(q1: Seq<Request>, q2: Seq<Request>, from: int, vmid: u16)
    requires
        0 <= from,
        all_on(q1, from, vmid),
        q1.len() <= q2.len(),
        q2.take(q1.len() as int) == q1,
        all_on(q2, q1.len() as int, vmid),
    ensures
        all_on(q2, from, vmid),
{
    assert forall|i: int| from <= i < q2.len() implies pct_only_on(vmid, #[trigger] q2[i]) by {
        if i < q1.len() {
            assert(q2.take(q1.len() as int)[i] == q2[i]);
        }
    }
}

/// A script run in the build container: one request, on that container.
fn build_sh<E: Executor>(exec: &mut E, vmid: u16, script: &str, timeout_s: u64) -> (r: Result<CmdOutput, CoreError>)
    ensures
        extends(old(exec).requests(), old(exec).replies(), final(exec).requests(), final(exec).replies()),
        final(exec).requests() == old(exec).requests().push(sh(vmid, script@, timeout_s)),
        final(exec).replies() == old(exec).replies().push(crate::executor::reply_of(r)),
        all_on(final(exec).requests(), old(exec).requests().len() as int, vmid),
        r is Err ==> ended_on_failure(final(exec).requests(), final(exec).replies()),
{
    let ghost q0 = exec.requests();
    let ghost h0 = exec.replies();
    let r = pct_sh(exec, vmid, script, timeout_s);
    proof {
        lemma_one_more(q0, h0, exec.requests(), exec.replies());
        assert(pct_sh_args(vmid, script@)[1] == dec(vmid as nat));
        assert(pct_only_on(vmid, exec.requests()[q0.len() as int]));
    }
    r
}

/// A `pct` command on the build container that must succeed.
fn build_pct<E: Executor>(exec: &mut E, vmid: u16, cmd: &Cmd) -> (r: Result<(), CoreError>)
    requires
        pct_only_on(vmid, run_request(*cmd)),
    ensures
        extends(old(exec).requests(), old(exec).replies(), final(exec).requests(), final(exec).replies()),
        final(exec).requests() == old(exec).requests().push(run_request(*cmd)),
        all_on(final(exec).requests(), old(exec).requests().len() as int, vmid),
        r is Err ==> ended_on_failure(final(exec).requests(), final(exec).replies()),
{
    let ghost q0 = exec.requests();
    let ghost h0 = exec.replies();
    let r = run_ok(exec, cmd);
    proof {
        lemma_one_more(q0, h0, exec.requests(), exec.replies());
    }
    match r {
        Ok(_) => Ok(()),
        Err(e) => Err(e),
    }
}

/// What a failed bake is reported as.
fn bake_failed(what: &str, out: CmdOutput) -> (r: CoreError)
    ensures
        r matches CoreError::Command { rendered, detail } && rendered@ == what@ && detail == out.stderr,
{
    CoreError::Command { rendered: String::from_str(what), detail: out.stderr }
}

proof fn lemma_bake_done(
    q4: Seq<Request>,
    q7: Seq<Request>,
    qa: Seq<Request>,
    q: Seq<Request>,
    cfg: TemplateCfg,
    name: Seq<char>,
    ns: int,
)
    requires
        0 <= ns,
        q4.len() >= ns + 2,
        q4[ns] == create_request(cfg, name),
        q4[ns + 1] == Request::Run("pct"@, seq!["start"@, dec(cfg.temp_vmid as nat)], 120),
        forall|i: int| ns + 2 <= i < q4.len() ==> waits(#[trigger] q4[i], cfg.temp_vmid),
        q7 == q4.push(sh(cfg.temp_vmid, DOCKER_SCRIPT@, 900)).push(sh(cfg.temp_vmid, NODE_EXPORTER_SCRIPT@, 600)).push(
            sh(cfg.temp_vmid, AGENT_IMAGES_SCRIPT@, 900),
        ),
        crate::ops::guards::phase_ok(q7, qa, cfg.temp_vmid, true, daemon_json_of(None)),
        qa.len() > 0,
        qa.last() == sh(cfg.temp_vmid, APT_CLEAN@, 60),
        forall|d: Seq<char>, c: Seq<char>|
            #[trigger] guard_file(true, daemon_json_of(None), d, c) ==> probed(qa, q7.len() as int, cfg.temp_vmid, d),
        q == qa.push(sh(cfg.temp_vmid, TRIM_SCRIPT@, 600)).push(sh(cfg.temp_vmid, GENERALIZE_SCRIPT@, 120)).push(
            Request::Run("pct"@, seq!["stop"@, dec(cfg.temp_vmid as nat)], 120),
        ).push(Request::Run("pct"@, seq!["template"@, dec(cfg.temp_vmid as nat)], 300)).push(
            describe_request(cfg.temp_vmid, name),
        ),
    ensures
        baked(q, ns, cfg, name),
{
    let p = q4.len() as int;
    let g = qa.len() as int;
    assert(q.take(g) =~= qa);
    assert(qa.take(q7.len() as int) == q7);
    assert forall|i: int| 0 <= i < q7.len() implies #[trigger] q[i] == q7[i] by {
        assert(qa.take(q7.len() as int)[i] == qa[i]);
    }
    assert(q[ns] == q4[ns]);
    assert(q[ns + 1] == q4[ns + 1]);
    assert forall|i: int| ns + 2 <= i < p implies waits(#[trigger] q[i], cfg.temp_vmid) by {
        assert(q[i] == q7[i]);
        assert(q7[i] == q4[i]);
    }
    assert(q[p] == q7[p]);
    assert(q[p + 1] == q7[p + 1]);
    assert(q[p + 2] == q7[p + 2]);
    assert(q[g - 1] == qa[g - 1]);
    assert(baked_at(q, ns, cfg, name, p, g));
}

/// The body of the build, from creating the build container on.
fn bake<E: Executor, S: Sink, J: Journal>(
    exec: &mut E,
    runner: &mut Runner<S, J>,
    cfg: &TemplateCfg,
    name: &str,
) -> (r: Result<(), (&'static str, CoreError)>)
    ensures
        extends(old(exec).requests(), old(exec).replies(), final(exec).requests(), final(exec).replies()),
        all_on(final(exec).requests(), old(exec).requests().len() as int, cfg.temp_vmid),
        r is Ok ==> final(exec).requests().len() >= old(exec).requests().len() + 3 && ({
            let q = final(exec).requests();
            let vm = dec(cfg.temp_vmid as nat);
            &&& q[q.len() - 3] == Request::Run("pct"@, seq!["stop"@, vm], 120)
            &&& q[q.len() - 2] == Request::Run("pct"@, seq!["template"@, vm], 300)
        }),
        r is Ok ==> baked(final(exec).requests(), old(exec).requests().len() as int, *cfg, name@),
        r is Err ==> ended_on_failure(final(exec).requests(), final(exec).replies()) || timed_out(
            final(exec).requests(),
            old(exec).requests().len() as int,
        ),
        final(exec).requests().len() > old(exec).requests().len(),
        final(exec).requests()[old(exec).requests().len() as int] == create_request(*cfg, name@),
        final(runner).op_name() == old(runner).op_name(),
{
    let ghost q0 = exec.requests();
    let ghost ns = q0.len() as int;
    let ghost h0 = exec.replies();
    proof {
        lemma_extends_refl(q0, h0);
    }
    let vmid = cfg.temp_vmid;
    let vm = dec_string(vmid as u64);

    runner.begin_step("create build container");
    let mut net = String::from_str("name=eth0,bridge=");
    net.append(cfg.bridge.as_str());
    net.append(",firewall=0,ip=");
    net.append(cfg.ip.as_str());
    net.append(",gw=");
    net.append(cfg.gateway.as_str());
    match cfg.vlan {
        Some(tag) => {
            net.append(",tag=");
            let t = dec_string(tag as u64);
            net.append(t.as_str());
        },
        None => {},
    }
    let mut rootfs = String::from_str(cfg.storage.as_str());
    rootfs.append(":4");
    let unpriv = if cfg.unprivileged {
        "1"
    } else {
        "0"
    };
    let create = Cmd::new(
        "pct",
        &[
            "create",
            vm.as_str(),
            cfg.base_template.as_str(),
            "--hostname",
            name,
            "--rootfs",
            rootfs.as_str(),
            "--net0",
            net.as_str(),
            "--memory",
            "1024",
            "--cores",
            "2",
            "--unprivileged",
            unpriv,
            "--features",
            cfg.features.as_str(),
            "--description",
            "homelab golden template build (B8) — temporary",
        ],
        300,
    );
    proof {
        assert(net@ =~= net_of(*cfg));
        assert(string_views(create.args@) =~= match create_request(*cfg, name@) {
            Request::Run(_, a, _) => a,
            _ => Seq::empty(),
        });
        assert(run_request(create) == create_request(*cfg, name@));
    }
    let res = build_pct(exec, vmid, &create);
    match res {
        Ok(()) => {},
        Err(e) => return Err(("create build container", runner.step_failed("create build container", e))),
    }
    let ghost q1 = exec.requests();
    let ghost h1 = exec.replies();
    let start = Cmd::new("pct", &["start", vm.as_str()], 120);
    proof {
        assert(string_views(start.args@) =~= seq!["start"@, dec(vmid as nat)]);
    }
    let res = build_pct(exec, vmid, &start);
    proof {
        lemma_extends_trans(q0, h0, q1, h1, exec.requests(), exec.replies());
        lemma_all_on_extend(q1, exec.requests(), q0.len() as int, vmid);
        assert(exec.requests()[ns] == create_request(*cfg, name@));
    }
    match res {
        Ok(()) => {},
        Err(e) => return Err(("create build container", runner.step_failed("create build container", e))),
    }
    runner.step_done("create build container", StepOutcome::Changed);

    // Wait for systemd: up to thirty looks, four seconds apart.
    runner.begin_step("wait for systemd");
    let mut tries: u32 = 0;
    let mut up = false;
    let mut failure: Option<CoreError> = None;
    while tries < 30 && !up && failure.is_none()
        invariant
            tries <= 30,
            extends(q0, h0, exec.requests(), exec.replies()),
            all_on(exec.requests(), q0.len() as int, vmid),
            vmid == cfg.temp_vmid,
            runner.op_name() == old(runner).op_name(),
            ns == q0.len(),
            exec.requests().len() >= ns + 2,
            exec.requests()[ns] == create_request(*cfg, name@),
            exec.requests()[ns + 1] == Request::Run("pct"@, seq!["start"@, dec(vmid as nat)], 120),
            forall|i: int| ns + 2 <= i < exec.requests().len() ==> waits(#[trigger] exec.requests()[i], vmid),
            failure is Some ==> ended_on_failure(exec.requests(), exec.replies()),
            failure is Some ==> !up,
            !up && failure is None ==> exec.requests().len() == ns + 2 + 2 * tries,
            !up && failure is None && tries > 0 ==> exec.requests().last() == Request::Sleep(4000),
        decreases 30 - tries,
    {
        let ghost q2 = exec.requests();
        let ghost h2 = exec.replies();
        let out = build_sh(exec, vmid, POLL_SCRIPT, 20);
        proof {
            lemma_extends_trans(q0, h0, q2, h2, exec.requests(), exec.replies());
            lemma_all_on_extend(q2, exec.requests(), q0.len() as int, vmid);
        }
        match out {
            Ok(o) => {
                let st = trim(o.stdout.as_str());
                if str_contains(st, "running") || str_contains(st, "degraded") {
                    up = true;
                } else {
                    let ghost q3 = exec.requests();
                    let ghost h3 = exec.replies();
                    exec.sleep_ms(4000);
                    proof {
                        lemma_one_more(q3, h3, exec.requests(), exec.replies());
                        lemma_extends_trans(q0, h0, q3, h3, exec.requests(), exec.replies());
                        lemma_all_on_extend(q3, exec.requests(), q0.len() as int, vmid);
                    }
                }
            },
            Err(e) => {
                failure = Some(e);
            },
        }
        tries += 1;
    }
    match failure {
        Some(e) => return Err(("wait for systemd", runner.step_failed("wait for systemd", e))),
        None => {},
    }
    if !up {
        let e = CoreError::Other(String::from_str("build container never came up"));
        return Err(("wait for systemd", runner.step_failed("wait for systemd", e)));
    }
    runner.step_done("wait for systemd", StepOutcome::Unchanged);

    // Docker, then the observability agents.
    runner.begin_step("bake docker");
    let ghost q4 = exec.requests();
    let ghost h4 = exec.replies();
    let out = build_sh(exec, vmid, DOCKER_SCRIPT, 900);
    proof {
        lemma_extends_trans(q0, h0, q4, h4, exec.requests(), exec.replies());
        lemma_all_on_extend(q4, exec.requests(), q0.len() as int, vmid);
    }
    match out {
        Ok(o) => {
            if !o.success() {
                return Err(("bake docker", runner.step_failed("bake docker", bake_failed("bake docker", o))));
            }
        },
        Err(e) => return Err(("bake docker", runner.step_failed("bake docker", e))),
    }
    runner.step_done("bake docker", StepOutcome::Changed);

    runner.begin_step("bake observability agents");
    let ghost q5 = exec.requests();
    let ghost h5 = exec.replies();
    let out = build_sh(exec, vmid, NODE_EXPORTER_SCRIPT, 600);
    proof {
        lemma_extends_trans(q0, h0, q5, h5, exec.requests(), exec.replies());
        lemma_all_on_extend(q5, exec.requests(), q0.len() as int, vmid);
    }
    match out {
        Ok(o) => {
            if !o.success() {
                let e = bake_failed("bake node_exporter", o);
                return Err(("bake observability agents", runner.step_failed("bake observability agents", e)));
            }
        },
        Err(e) => return Err(("bake observability agents", runner.step_failed("bake observability agents", e))),
    }
    let ghost q6 = exec.requests();
    let ghost h6 = exec.replies();
    let out = build_sh(exec, vmid, AGENT_IMAGES_SCRIPT, 900);
    proof {
        lemma_extends_trans(q0, h0, q6, h6, exec.requests(), exec.replies());
        lemma_all_on_extend(q6, exec.requests(), q0.len() as int, vmid);
    }
    match out {
        Ok(o) => {
            if !o.success() {
                let e = bake_failed("pre-pull agent images", o);
                return Err(("bake observability agents", runner.step_failed("bake observability agents", e)));
            }
        },
        Err(e) => return Err(("bake observability agents", runner.step_failed("bake observability agents", e))),
    }
    runner.step_done("bake observability agents", StepOutcome::Changed);

    // The runaway guards, docker's included; their lines join the transcript.
    runner.begin_step("bake guards");
    let ghost q7 = exec.requests();
    let ghost h7 = exec.replies();
    let mut lines = VecSink::new();
    let res = crate::ops::guards::apply(exec, &mut lines, vmid, true, None);
    proof {
        lemma_extends_trans(q0, h0, q7, h7, exec.requests(), exec.replies());
        let q = exec.requests();
        assert forall|i: int| q7.len() <= i < q.len() implies pct_only_on(vmid, #[trigger] q[i]) by {
            law_guards_touch_only_their_container(vmid, true, crate::ops::guards::daemon_json_of(None), q[i]);
        }
        lemma_all_on_extend(q7, q, q0.len() as int, vmid);
    }
    let said = lines.lines();
    let mut k: usize = 0;
    while k < said.len()
        invariant
            k <= said.len(),
            runner.op_name() == old(runner).op_name(),
        decreases said.len() - k,
    {
        runner.log(Level::Info, said[k].clone());
        k += 1;
    }
    match res {
        Ok(()) => {},
        Err(e) => return Err(("bake guards", runner.step_failed("bake guards", e))),
    }
    runner.step_done("bake guards", StepOutcome::Changed);

    runner.begin_step("trim what cannot work in a container");
    let ghost q8 = exec.requests();
    let ghost h8 = exec.replies();
    let out = build_sh(exec, vmid, TRIM_SCRIPT, 600);
    proof {
        lemma_extends_trans(q0, h0, q8, h8, exec.requests(), exec.replies());
        lemma_all_on_extend(q8, exec.requests(), q0.len() as int, vmid);
    }
    match out {
        Ok(_) => {},
        Err(e) => return Err(("trim what cannot work in a container", runner.step_failed("trim what cannot work in a container", e))),
    }
    runner.step_done("trim what cannot work in a container", StepOutcome::Changed);

    runner.begin_step("generalize");
    let ghost q9 = exec.requests();
    let ghost h9 = exec.replies();
    let out = build_sh(exec, vmid, GENERALIZE_SCRIPT, 120);
    proof {
        lemma_extends_trans(q0, h0, q9, h9, exec.requests(), exec.replies());
        lemma_all_on_extend(q9, exec.requests(), q0.len() as int, vmid);
    }
    match out {
        Ok(_) => {},
        Err(e) => return Err(("generalize", runner.step_failed("generalize", e))),
    }
    runner.step_done("generalize", StepOutcome::Changed);

    runner.begin_step("convert to template");
    let ghost q10 = exec.requests();
    let ghost h10 = exec.replies();
    let stop = Cmd::new("pct", &["stop", vm.as_str()], 120);
    proof {
        assert(string_views(stop.args@) =~= seq!["stop"@, dec(vmid as nat)]);
    }
    let res = build_pct(exec, vmid, &stop);
    proof {
        lemma_extends_trans(q0, h0, q10, h10, exec.requests(), exec.replies());
        lemma_all_on_extend(q10, exec.requests(), q0.len() as int, vmid);
    }
    match res {
        Ok(()) => {},
        Err(e) => return Err(("convert to template", runner.step_failed("convert to template", e))),
    }
    let ghost q11 = exec.requests();
    let ghost h11 = exec.replies();
    let freeze = Cmd::new("pct", &["template", vm.as_str()], 300);
    proof {
        assert(string_views(freeze.args@) =~= seq!["template"@, dec(vmid as nat)]);
    }
    let res = build_pct(exec, vmid, &freeze);
    proof {
        lemma_extends_trans(q0, h0, q11, h11, exec.requests(), exec.replies());
        lemma_all_on_extend(q11, exec.requests(), q0.len() as int, vmid);
    }
    match res {
        Ok(()) => {},
        Err(e) => return Err(("convert to template", runner.step_failed("convert to template", e))),
    }
    let ghost q12 = exec.requests();
    let ghost h12 = exec.replies();
    let mut desc = String::from_str(name);
    desc.append(" — golden template (B8), clone with template: \"clone:");
    desc.append(vm.as_str());
    desc.append("\"");
    let describe = Cmd::new("pct", &["set", vm.as_str(), "--description", desc.as_str()], 30);
    proof {
        assert(string_views(describe.args@) =~= seq!["set"@, dec(vmid as nat), "--description"@, desc@]);
    }
    let res = build_pct(exec, vmid, &describe);
    proof {
        lemma_extends_trans(q0, h0, q12, h12, exec.requests(), exec.replies());
        lemma_all_on_extend(q12, exec.requests(), q0.len() as int, vmid);
        let q = exec.requests();
        assert(q[q.len() - 3] == run_request(stop));
        assert(q[q.len() - 2] == run_request(freeze));
        assert(run_request(describe) == describe_request(vmid, name@));
        lemma_bake_done(q4, q7, q8, q, *cfg, name@, ns);
    }
    match res {
        Ok(()) => {},
        Err(e) => return Err(("convert to template", runner.step_failed("convert to template", e))),
    }
    runner.step_done("convert to template", StepOutcome::Changed);
    Ok(())
}

/// Bake docker, the observability agents, the runaway guards and
/// unattended upgrades into a template container to clone stacks from.
/// The builder owns exactly one vmid: every `pct` request names it, and
/// nothing is created unless it is off the no-touch list and does not
/// exist yet (the build container is destroyed at the end only by being
/// turned into the template). Once the probe finds the vmid free, the
/// create request follows; from there a build stops only on a command that
/// failed, or because systemd never came up (see [`timed_out`]). A build
/// that succeeds made every request of the bake, in order (see [`baked`]).
pub fn build_template<E: Executor, S: Sink, J: Journal>(
    exec: &mut E,
    sink: S,
    journal: J,
    safety: &SafetyConfig,
    cfg: &TemplateCfg,
) -> (r: OperationReport)
    ensures
        r.op@ == "template-build"@,
        extends(old(exec).requests(), old(exec).replies(), final(exec).requests(), final(exec).replies()),
        safety.no_touch@.contains(cfg.temp_vmid) ==> final(exec).requests() == old(exec).requests() && !r.ok,
        !safety.no_touch@.contains(cfg.temp_vmid) ==> final(exec).requests().len() > old(exec).requests().len(),
        all_on(final(exec).requests(), old(exec).requests().len() as int, cfg.temp_vmid),
        final(exec).requests().len() > old(exec).requests().len() ==> final(exec).requests()[old(exec).requests().len() as int]
            == Request::Run("pct"@, seq!["config"@, dec(cfg.temp_vmid as nat)], 30),
        final(exec).requests().len() > old(exec).requests().len() + 1 ==> (final(exec).replies()[old(exec).replies().len() as int] matches Some(o)
            && o.code != 0),
        r.ok ==> final(exec).requests().len() >= old(exec).requests().len() + 4 && ({
            let q = final(exec).requests();
            let vm = dec(cfg.temp_vmid as nat);
            &&& q[q.len() - 3] == Request::Run("pct"@, seq!["stop"@, vm], 120)
            &&& q[q.len() - 2] == Request::Run("pct"@, seq!["template"@, vm], 300)
        }),
        !safety.no_touch@.contains(cfg.temp_vmid) && (final(exec).replies()[old(exec).replies().len() as int] matches Some(o)
            && o.code != 0) ==> final(exec).requests().len() >= old(exec).requests().len() + 2
            && final(exec).requests()[old(exec).requests().len() + 1int] == create_request(
            *cfg,
            template_name_of(cfg.version, cfg.unprivileged),
        ),
        !r.ok && !safety.no_touch@.contains(cfg.temp_vmid) ==> !(final(exec).replies()[old(exec).replies().len() as int] matches Some(o)
            && o.code != 0) || ended_on_failure(final(exec).requests(), final(exec).replies()) || timed_out(
            final(exec).requests(),
            old(exec).requests().len() + 1int,
        ),
        r.ok ==> baked(
            final(exec).requests(),
            old(exec).requests().len() + 1int,
            *cfg,
            template_name_of(cfg.version, cfg.unprivileged),
        ),
{
    let ghost q0 = exec.requests();
    let ghost h0 = exec.replies();
    proof {
        lemma_extends_refl(q0, h0);
    }
    let name = template_name(cfg);
    let mut runner = Runner::new("template-build", sink, journal);
    let vm = dec_string(cfg.temp_vmid as u64);
    let mut line = String::from_str("[template] building ");
    line.append(name.as_str());
    line.append(" on temp vmid ");
    line.append(vm.as_str());
    runner.log(Level::Info, line);

    // The temp vmid must be safe to own: never on the no-touch list, and
    // not an existing guest.
    runner.begin_step("claim temp vmid");
    match claim_temp_vmid(safety, cfg.temp_vmid, None) {
        Ok(()) => {},
        Err(e) => {
            let e2 = runner.step_failed("claim temp vmid", e);
            return runner.finish_err("claim temp vmid", &e2).0;
        },
    }
    let probe = Cmd::new("pct", &["config", vm.as_str()], 30);
    proof {
        assert(string_views(probe.args@) =~= seq!["config"@, dec(cfg.temp_vmid as nat)]);
    }
    let existing = exec.run(&probe);
    proof {
        lemma_one_more(q0, h0, exec.requests(), exec.replies());
        assert(pct_only_on(cfg.temp_vmid, exec.requests()[q0.len() as int]));
    }
    let existing = match existing {
        Ok(o) => o,
        Err(e) => {
            let e2 = runner.step_failed("claim temp vmid", e);
            return runner.finish_err("claim temp vmid", &e2).0;
        },
    };
    match claim_temp_vmid(safety, cfg.temp_vmid, Some(&existing)) {
        Ok(()) => {},
        Err(e) => {
            let e2 = runner.step_failed("claim temp vmid", e);
            return runner.finish_err("claim temp vmid", &e2).0;
        },
    }
    runner.step_done("claim temp vmid", StepOutcome::Unchanged);
    let ghost q1 = exec.requests();
    let ghost h1 = exec.replies();
    proof {
        assert(h1[h0.len() as int] == Some(existing@));
    }

    let res = bake(exec, &mut runner, cfg, name.as_str());
    proof {
        lemma_extends_trans(q0, h0, q1, h1, exec.requests(), exec.replies());
        lemma_all_on_extend(q1, exec.requests(), q0.len() as int, cfg.temp_vmid);
        let q = exec.requests();
        let h = exec.replies();
        assert(h.take(h1.len() as int)[h0.len() as int] == h[h0.len() as int]);
        assert(q.take(q1.len() as int)[q0.len() as int] == q[q0.len() as int]);
    }
    match res {
        Ok(()) => {},
        Err((step, e)) => return runner.finish_err(step, &e).0,
    }
    let mut line = String::from_str("[template] ");
    line.append(name.as_str());
    line.append(" ready — set template: \"clone:");
    line.append(vm.as_str());
    line.append("\" in StackDefaults/manifests for fast provisioning");
    runner.log(Level::Info, line);
    runner.finish_ok().0
}

} // verus!
