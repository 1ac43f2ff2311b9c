//! Runaway guards and unattended security updates: every managed container
//! gets hard caps on what grows unattended. A config is pushed, and the
//! service behind it restarted, only when its content changed.

use vstd::prelude::*;
use vstd::string::*;
use crate::error::CoreError;
use crate::executor::{
    ended_on_failure, extends, lemma_extends_refl, lemma_extends_trans, lemma_one_more, pct_sh, pct_sh_args, CmdOutput, Executor, Request,
};
use crate::ops::pct_only_on;
use crate::ops::registry_cache::{CacheCfg, CacheUpstream};
use crate::ops::util::{hash_probe_of, path_parent, push_content, push_step, pushed_through, staging_path_of};
use crate::sink::{Level, PipelineEvent, Sink};
use crate::text::{dec, dec_string, join_strings, joined, str_trim_end_char, string_views, trim_end, trim_end_char, trimmed_end};

verus! {

/// Docker's log settings on every managed container: at most three files
/// of ten megabytes per container, and each line tagged with the
/// container's name (read when a container is created).
pub const DOCKER_DAEMON_JSON: &'static str = "{\n  \"log-driver\": \"json-file\",\n  \"log-opts\": {\n    \"max-size\": \"10m\",\n    \"max-file\": \"3\",\n    \"tag\": \"{{.Name}}\"\n  }\n}\n";

/// cAdvisor on every managed docker host, published on 8081 so one scrape
/// pattern fits every host.
pub const CADVISOR_COMPOSE: &'static str = "services:\n  cadvisor:\n    image: gcr.io/cadvisor/cadvisor:latest\n    container_name: cadvisor\n    restart: unless-stopped\n    command:\n      # Docker containers only. Without this cadvisor also emits a series per\n      # cgroup, which in an LXC means thousands of metrics nobody reads.\n      - --docker_only=true\n      # Container labels become Prometheus labels; the *arr stacks carry\n      # enough of them to blow up cardinality for no analytical gain.\n      - --store_container_labels=false\n      # Matches the 30s scrape interval: sampling faster only burns CPU.\n      - --housekeeping_interval=30s\n    volumes:\n      - /:/rootfs:ro\n      - /var/run:/var/run:ro\n      - /sys:/sys:ro\n      - /var/lib/docker/:/var/lib/docker:ro\n    ports:\n      # 8081 rather than cadvisor's own 8080: on the downloader stack that\n      # port is already published by gluetun, and one uniform port everywhere\n      # keeps the scrape config to a single pattern.\n      - \"8081:8080\"\n    labels:\n      - com.homelab.update.policy=manual\n# No custom network on purpose: cadvisor has to run on EVERY docker host to\n# see that host's containers, and a stack network exists only on its own\n# stack. Prometheus scrapes the published port over the LAN, identically\n# everywhere.\n";

/// The systemd journal's caps.
pub const JOURNALD_LIMITS: &'static str = "[Journal]\nSystemMaxUse=100M\nRuntimeMaxUse=50M\nMaxRetentionSec=1month\n";

/// Rotation for the classic syslog files.
pub const LOGROTATE_POLICY: &'static str = "/var/log/syslog /var/log/messages /var/log/auth.log {\n    daily\n    rotate 7\n    maxsize 50M\n    missingok\n    notifempty\n    compress\n    delaycompress\n    sharedscripts\n    postrotate\n        /usr/lib/rsyslog/rsyslog-rotate 2>/dev/null || true\n    endscript\n}\n";

/// apt's cache hygiene.
pub const APT_AUTOCLEAN: &'static str = "APT::Periodic::AutocleanInterval \"7\";\nAPT::Periodic::CleanInterval \"7\";\n";

/// Security updates only, never a reboot.
pub const UNATTENDED_UPGRADES: &'static str = "Unattended-Upgrade::Allowed-Origins {\n    \"${distro_id}:${distro_codename}-security\";\n};\nUnattended-Upgrade::Automatic-Reboot \"false\";\nUnattended-Upgrade::Remove-Unused-Dependencies \"true\";\n";

/// The weekly docker prune: the service ...
pub const PRUNE_SERVICE: &'static str = "[Unit]\nDescription=Prune stale Docker data (homelab runaway guard)\n\n[Service]\nType=oneshot\nExecStart=/usr/bin/docker system prune -f --filter until=168h\n";

/// ... and its timer.
pub const PRUNE_TIMER: &'static str = "[Unit]\nDescription=Weekly Docker prune (homelab runaway guard)\n\n[Timer]\nOnCalendar=weekly\nRandomizedDelaySec=1h\nPersistent=true\n\n[Install]\nWantedBy=timers.target\n";

/// Where each guard file goes.
pub const DAEMON_JSON_PATH: &'static str = "/etc/docker/daemon.json";
pub const JOURNALD_PATH: &'static str = "/etc/systemd/journald.conf.d/homelab-limits.conf";
pub const LOGROTATE_PATH: &'static str = "/etc/logrotate.d/homelab";
pub const PRUNE_SERVICE_PATH: &'static str = "/etc/systemd/system/docker-prune.service";
pub const PRUNE_TIMER_PATH: &'static str = "/etc/systemd/system/docker-prune.timer";
pub const CADVISOR_PATH: &'static str = "/opt/cadvisor/docker-compose.yml";
pub const APT_CLEAN_PATH: &'static str = "/etc/apt/apt.conf.d/60homelab-clean";
pub const UNATTENDED_PATH: &'static str = "/etc/apt/apt.conf.d/50unattended-upgrades";

/// The commands the guards run inside the container.
pub const RESTART_DOCKER: &'static str = "systemctl restart docker";
pub const RESTART_JOURNALD: &'static str = "systemctl restart systemd-journald";
pub const INSTALL_LOGROTATE: &'static str = "command -v logrotate >/dev/null || (export DEBIAN_FRONTEND=noninteractive; apt-get install -y -qq logrotate)";
pub const INSTALL_SQLITE: &'static str = "command -v sqlite3 >/dev/null || (export DEBIAN_FRONTEND=noninteractive; apt-get install -y -qq sqlite3)";
pub const ARM_PRUNE: &'static str = "systemctl daemon-reload && systemctl enable --now docker-prune.timer";
pub const CADVISOR_UP: &'static str = "cd /opt/cadvisor && docker compose up -d";
pub const INSTALL_UNATTENDED: &'static str = "command -v unattended-upgrade >/dev/null || (export DEBIAN_FRONTEND=noninteractive; apt-get install -y -qq unattended-upgrades)";
pub const ENABLE_UNATTENDED: &'static str = "systemctl enable --now unattended-upgrades 2>/dev/null || true";
pub const APT_CLEAN: &'static str = "apt-get clean";

/// The registries the cache serves, as docker's `insecure-registries`
/// entries: `"host:port"`, one per upstream.
pub open spec fn insecure_entries(c: CacheCfg) -> Seq<Seq<char>> {
    c.upstreams@.map_values(|u: CacheUpstream| "\""@ + c.host@ + ":"@ + dec(u.port as nat) + "\""@)
}

/// docker's `daemon.json`: the log settings, and with a cache the cache's
/// registries declared as plain HTTP (without that every cached pull fails
/// with "server gave HTTP response to HTTPS client").
pub open spec fn daemon_json_of(cache: Option<CacheCfg>) -> Seq<char> {
    match cache {
        None => DOCKER_DAEMON_JSON@,
        Some(c) => trimmed_end(trim_end_char(trimmed_end(DOCKER_DAEMON_JSON@), '}')) + ",\n  \"insecure-registries\": ["@
            + joined(insecure_entries(c), ", "@) + "]\n}\n"@,
    }
}

pub fn daemon_json(cache: Option<&CacheCfg>) -> (r: String)
    ensures
        r@ == daemon_json_of(match cache {
            Some(c) => Some(*c),
            None => None,
        }),
{
    match cache {
        None => String::from_str(DOCKER_DAEMON_JSON),
        Some(c) => {
            let mut hosts: Vec<String> = Vec::new();
            let mut i: usize = 0;
            while i < c.upstreams.len()
                invariant
                    i <= c.upstreams.len(),
                    string_views(hosts@) == insecure_entries(*c).take(i as int),
                decreases c.upstreams.len() - i,
            {
                let mut h = String::from_str("\"");
                h.append(c.host.as_str());
                h.append(":");
                let p = dec_string(c.upstreams[i].port as u64);
                h.append(p.as_str());
                h.append("\"");
                proof {
                    assert(h@ =~= insecure_entries(*c)[i as int]);
                }
                let ghost before = hosts@;
                assert(insecure_entries(*c).len() == c.upstreams@.len());
                hosts.push(h);
                proof {
                    assert(hosts@ == before.push(h));
                    assert(string_views(before).len() == before.len());
                    assert(before.len() == i);
                    assert(string_views(hosts@).len() == i + 1);
                    assert(string_views(hosts@)[i as int] == h@);
                    assert forall|j: int| 0 <= j <= i implies #[trigger] string_views(hosts@)[j] == insecure_entries(*c).take(i + 1)[j] by {
                        if j < i {
                            assert(string_views(before)[j] == insecure_entries(*c).take(i as int)[j]);
                        }
                    }
                    assert(string_views(hosts@) =~= insecure_entries(*c).take(i + 1));
                }
                i += 1;
            }
            proof {
                assert(insecure_entries(*c).take(i as int) =~= insecure_entries(*c));
            }
            let base = trim_end(str_trim_end_char(trim_end(DOCKER_DAEMON_JSON), '}'));
            let mut s = String::from_str(base);
            s.append(",\n  \"insecure-registries\": [");
            let joined_hosts = join_strings(hosts.as_slice(), ", ");
            s.append(joined_hosts.as_str());
            s.append("]\n}\n");
            s
        },
    }
}

/// A script run inside container `vmid` with the given timeout.
pub open spec fn sh(vmid: u16, script: Seq<char>, timeout_s: u64) -> Request {
    Request::Run("pct"@, pct_sh_args(vmid, script), timeout_s)
}

/// One of the requests putting a guard file in place.
pub open spec fn file_step(vmid: u16, dest: Seq<char>, content: Seq<char>, r: Request) -> bool {
    push_step(vmid, dest, content, "644"@, staging_path_of(vmid, dest), r)
}

/// The guard files every container gets.
pub open spec fn common_file(dest: Seq<char>, content: Seq<char>) -> bool {
    ||| (dest == JOURNALD_PATH@ && content == JOURNALD_LIMITS@)
    ||| (dest == LOGROTATE_PATH@ && content == LOGROTATE_POLICY@)
    ||| (dest == APT_CLEAN_PATH@ && content == APT_AUTOCLEAN@)
    ||| (dest == UNATTENDED_PATH@ && content == UNATTENDED_UPGRADES@)
}

/// The guard files only a docker host gets.
pub open spec fn docker_file(daemon: Seq<char>, dest: Seq<char>, content: Seq<char>) -> bool {
    ||| (dest == DAEMON_JSON_PATH@ && content == daemon)
    ||| (dest == PRUNE_SERVICE_PATH@ && content == PRUNE_SERVICE@)
    ||| (dest == PRUNE_TIMER_PATH@ && content == PRUNE_TIMER@)
    ||| (dest == CADVISOR_PATH@ && content == CADVISOR_COMPOSE@)
}

/// The scripts, with their timeouts, every container gets.
pub open spec fn common_script(script: Seq<char>, timeout_s: u64) -> bool {
    ||| (script == RESTART_JOURNALD@ && timeout_s == 60)
    ||| (script == INSTALL_LOGROTATE@ && timeout_s == 300)
    ||| (script == INSTALL_SQLITE@ && timeout_s == 300)
    ||| (script == INSTALL_UNATTENDED@ && timeout_s == 300)
    ||| (script == ENABLE_UNATTENDED@ && timeout_s == 60)
    ||| (script == APT_CLEAN@ && timeout_s == 60)
}

/// The scripts only a docker host gets.
pub open spec fn docker_script(script: Seq<char>, timeout_s: u64) -> bool {
    ||| (script == RESTART_DOCKER@ && timeout_s == 120)
    ||| (script == ARM_PRUNE@ && timeout_s == 60)
    ||| (script == CADVISOR_UP@ && timeout_s == 300)
}

pub open spec fn guard_file(docker: bool, daemon: Seq<char>, dest: Seq<char>, content: Seq<char>) -> bool {
    common_file(dest, content) || (docker && docker_file(daemon, dest, content))
}

pub open spec fn guard_script(docker: bool, script: Seq<char>, timeout_s: u64) -> bool {
    common_script(script, timeout_s) || (docker && docker_script(script, timeout_s))
}

/// A request the guards make: a step of putting a guard file in place, or
/// a guard script.
pub open spec fn guard_request(vmid: u16, docker: bool, daemon: Seq<char>, r: Request) -> bool {
    ||| exists|d: Seq<char>, c: Seq<char>| #[trigger] guard_file(docker, daemon, d, c) && file_step(vmid, d, c, r)
    ||| exists|s: Seq<char>, t: u64| #[trigger] guard_script(docker, s, t) && r == sh(vmid, s, t)
}

/// Every request from `from` on is a guard request.
pub open spec fn all_guard(q: Seq<Request>, from: int, vmid: u16, docker: bool, daemon: Seq<char>) -> bool {
    &&& from <= q.len()
    &&& forall|i: int| from <= i < q.len() ==> guard_request(vmid, docker, daemon, #[trigger] q[i])
}

/// `q` holds the probe of `dest`'s hash somewhere from `from` on.
pub open spec fn probed(q: Seq<Request>, from: int, vmid: u16, dest: Seq<char>) -> bool {
    exists|i: int| from <= i < q.len() && #[trigger] q[i] == sh(vmid, hash_probe_of(dest), 30)
}

/// `q2` is `q1` with more requests after it.
pub open spec fn grown(q1: Seq<Request>, q2: Seq<Request>) -> bool {
    q1.len() <= q2.len() && q2.take(q1.len() as int) == q1
}

proof fn lemma_step(q0: Seq<Request>, q1: Seq<Request>, q2: Seq<Request>, vmid: u16, docker: bool, daemon: Seq<char>)
    requires
        grown(q0, q1),
        all_guard(q1, q0.len() as int, vmid, docker, daemon),
        grown(q1, q2),
        all_guard(q2, q1.len() as int, vmid, docker, daemon),
    ensures
        grown(q0, q2),
        all_guard(q2, q0.len() as int, vmid, docker, daemon),
        forall|d: Seq<char>| probed(q1, q0.len() as int, vmid, d) ==> #[trigger] probed(q2, q0.len() as int, vmid, d),
{
    assert forall|i: int| 0 <= i < q1.len() implies q2[i] == q1[i] by {
        assert(q2.take(q1.len() as int)[i] == q2[i]);
    }
    assert(q2.take(q0.len() as int) =~= q0) by {
        assert forall|i: int| 0 <= i < q0.len() implies q2.take(q0.len() as int)[i] == q0[i] by {
            assert(q1.take(q0.len() as int)[i] == q1[i]);
        }
    }
    assert forall|i: int| q0.len() <= i < q2.len() implies guard_request(vmid, docker, daemon, #[trigger] q2[i]) by {
        if i < q1.len() {
            assert(q2[i] == q1[i]);
        }
    }
    assert forall|d: Seq<char>| probed(q1, q0.len() as int, vmid, d) implies #[trigger] probed(q2, q0.len() as int, vmid, d) by {
        let i = choose|i: int| q0.len() <= i < q1.len() && #[trigger] q1[i] == sh(vmid, hash_probe_of(d), 30);
        assert(q2[i] == q1[i]);
    }
}

/// Put one guard file in place.
fn guard_push<E: Executor>(exec: &mut E, vmid: u16, docker: bool, daemon: &str, dest: &str, content: &str) -> (r: Result<bool, CoreError>)
    requires
        guard_file(docker, daemon@, dest@, content@),
    ensures
        grown(old(exec).requests(), final(exec).requests()),
        all_guard(final(exec).requests(), old(exec).requests().len() as int, vmid, docker, daemon@),
        probed(final(exec).requests(), old(exec).requests().len() as int, vmid, dest@),
        r == Ok::<bool, CoreError>(true) ==> pushed_through(
            final(exec).requests(),
            vmid,
            dest@,
            content@,
            "644"@,
            staging_path_of(vmid, dest@),
        ),
        extends(old(exec).requests(), old(exec).replies(), final(exec).requests(), final(exec).replies()),
        r is Err ==> ended_on_failure(final(exec).requests(), final(exec).replies()),
{
    let ghost q0 = exec.requests();
    let ghost h0 = exec.replies();
    proof { lemma_extends_refl(q0, h0); }
    let r = push_content(exec, vmid, dest, content, "644");
    proof {
        let q = exec.requests();
        assert(q.take(q0.len() + 1int)[q0.len() as int] == q[q0.len() as int]);
        assert(q.take(q0.len() as int) =~= q0) by {
            assert forall|i: int| 0 <= i < q0.len() implies q.take(q0.len() as int)[i] == q0[i] by {
                assert(q.take(q0.len() + 1int)[i] == q[i]);
            }
        }
        assert forall|i: int| q0.len() <= i < q.len() implies guard_request(vmid, docker, daemon@, #[trigger] q[i]) by {
            assert(file_step(vmid, dest@, content@, q[i]));
            assert(guard_file(docker, daemon@, dest@, content@));
        }
    }
    r
}

/// Run one guard script.
fn guard_sh<E: Executor>(exec: &mut E, vmid: u16, docker: bool, daemon: &str, script: &str, timeout_s: u64) -> (r: Result<CmdOutput, CoreError>)
    requires
        guard_script(docker, script@, timeout_s),
    ensures
        final(exec).requests() == old(exec).requests().push(sh(vmid, script@, timeout_s)),
        grown(old(exec).requests(), final(exec).requests()),
        all_guard(final(exec).requests(), old(exec).requests().len() as int, vmid, docker, daemon@),
        extends(old(exec).requests(), old(exec).replies(), final(exec).requests(), final(exec).replies()),
        r is Err ==> ended_on_failure(final(exec).requests(), final(exec).replies()),
{
    let ghost q0 = exec.requests();
    let ghost h0 = exec.replies();
    let r = pct_sh(exec, vmid, script, timeout_s);
    proof {
        lemma_one_more(q0, h0, exec.requests(), exec.replies());
        let q = exec.requests();
        assert(q.take(q0.len() as int) =~= q0);
        assert(guard_script(docker, script@, timeout_s));
        assert forall|i: int| q0.len() <= i < q.len() implies guard_request(vmid, docker, daemon@, #[trigger] q[i]) by {
            assert(q[i] == sh(vmid, script@, timeout_s));
        }
    }
    r
}

fn guard_log<S: Sink>(sink: &mut S, msg: &str) {
    sink.emit(PipelineEvent::Line { level: Level::Info, source: String::from_str("HOST"), msg: String::from_str(msg) });
}

pub open spec fn cache_view(cache: Option<&CacheCfg>) -> Option<CacheCfg> {
    match cache {
        Some(c) => Some(*c),
        None => None,
    }
}

/// What a phase of [`apply`] promises: the requests only grew, and every
/// new one is a guard request.
pub open spec fn phase_ok(q0: Seq<Request>, q: Seq<Request>, vmid: u16, docker: bool, daemon: Seq<char>) -> bool {
    grown(q0, q) && all_guard(q, q0.len() as int, vmid, docker, daemon)
}

proof fn lemma_start(q0: Seq<Request>, vmid: u16, docker: bool, daemon: Seq<char>)
    ensures
        phase_ok(q0, q0, vmid, docker, daemon),
{
    assert(q0.take(q0.len() as int) =~= q0);
}

/// docker's log caps, before any app container (re)starts; docker is
/// restarted only when they changed.
fn phase_docker_logs<E: Executor, S: Sink>(exec: &mut E, sink: &mut S, vmid: u16, daemon: &str) -> (r: Result<(), CoreError>)
    ensures
        phase_ok(old(exec).requests(), final(exec).requests(), vmid, true, daemon@),
        extends(old(exec).requests(), old(exec).replies(), final(exec).requests(), final(exec).replies()),
        r is Ok ==> probed(final(exec).requests(), old(exec).requests().len() as int, vmid, DAEMON_JSON_PATH@),
        r is Err ==> ended_on_failure(final(exec).requests(), final(exec).replies()),
{
    let ghost q0 = exec.requests();
    let ghost h0 = exec.replies();
    proof { lemma_extends_refl(q0, h0); }
    proof { lemma_start(q0, vmid, true, daemon@); }
    let changed = guard_push(exec, vmid, true, daemon, DAEMON_JSON_PATH, daemon);
    if changed? {
        let ghost q1 = exec.requests();
        let ghost h1 = exec.replies();
        let x = guard_sh(exec, vmid, true, daemon, RESTART_DOCKER, 120);
        proof { lemma_step(q0, q1, exec.requests(), vmid, true, daemon@); lemma_extends_trans(q0, h0, q1, h1, exec.requests(), exec.replies()); }
        x?;
        guard_log(sink, "[guard] docker log caps applied (10m x 3)");
    }
    Ok(())
}

/// The journal's caps; journald is restarted only when they changed.
fn phase_journal<E: Executor, S: Sink>(exec: &mut E, sink: &mut S, vmid: u16, docker: bool, daemon: &str) -> (r: Result<(), CoreError>)
    ensures
        phase_ok(old(exec).requests(), final(exec).requests(), vmid, docker, daemon@),
        extends(old(exec).requests(), old(exec).replies(), final(exec).requests(), final(exec).replies()),
        r is Ok ==> probed(final(exec).requests(), old(exec).requests().len() as int, vmid, JOURNALD_PATH@),
        r is Err ==> ended_on_failure(final(exec).requests(), final(exec).replies()),
{
    let ghost q0 = exec.requests();
    let ghost h0 = exec.replies();
    proof { lemma_extends_refl(q0, h0); }
    let changed = guard_push(exec, vmid, docker, daemon, JOURNALD_PATH, JOURNALD_LIMITS);
    if changed? {
        let ghost q1 = exec.requests();
        let ghost h1 = exec.replies();
        let x = guard_sh(exec, vmid, docker, daemon, RESTART_JOURNALD, 60);
        proof { lemma_step(q0, q1, exec.requests(), vmid, docker, daemon@); lemma_extends_trans(q0, h0, q1, h1, exec.requests(), exec.replies()); }
        x?;
        guard_log(sink, "[guard] journald capped at 100M / 1 month");
    }
    Ok(())
}

/// Classic syslog rotation, and sqlite3 for the services' own checks.
fn phase_rotation<E: Executor>(exec: &mut E, vmid: u16, docker: bool, daemon: &str) -> (r: Result<(), CoreError>)
    ensures
        phase_ok(old(exec).requests(), final(exec).requests(), vmid, docker, daemon@),
        extends(old(exec).requests(), old(exec).replies(), final(exec).requests(), final(exec).replies()),
        r is Ok ==> probed(final(exec).requests(), old(exec).requests().len() as int, vmid, LOGROTATE_PATH@),
        r is Err ==> ended_on_failure(final(exec).requests(), final(exec).replies()),
{
    let ghost q0 = exec.requests();
    let ghost h0 = exec.replies();
    proof { lemma_extends_refl(q0, h0); }
    guard_sh(exec, vmid, docker, daemon, INSTALL_LOGROTATE, 300)?;
    let ghost q1 = exec.requests();
    let ghost h1 = exec.replies();
    let x = guard_sh(exec, vmid, docker, daemon, INSTALL_SQLITE, 300);
    proof { lemma_step(q0, q1, exec.requests(), vmid, docker, daemon@); lemma_extends_trans(q0, h0, q1, h1, exec.requests(), exec.replies()); }
    x?;
    let ghost q2 = exec.requests();
    let ghost h2 = exec.replies();
    let x = guard_push(exec, vmid, docker, daemon, LOGROTATE_PATH, LOGROTATE_POLICY);
    proof { lemma_step(q0, q2, exec.requests(), vmid, docker, daemon@); lemma_extends_trans(q0, h0, q2, h2, exec.requests(), exec.replies()); }
    x?;
    Ok(())
}

/// The weekly docker prune (armed only when its timer changed) and
/// cAdvisor, started every time so a stopped one is repaired.
fn phase_prune<E: Executor, S: Sink>(exec: &mut E, sink: &mut S, vmid: u16, daemon: &str) -> (r: Result<(), CoreError>)
    ensures
        phase_ok(old(exec).requests(), final(exec).requests(), vmid, true, daemon@),
        extends(old(exec).requests(), old(exec).replies(), final(exec).requests(), final(exec).replies()),
        r is Ok ==> probed(final(exec).requests(), old(exec).requests().len() as int, vmid, PRUNE_SERVICE_PATH@),
        r is Ok ==> probed(final(exec).requests(), old(exec).requests().len() as int, vmid, PRUNE_TIMER_PATH@),
        r is Ok ==> probed(final(exec).requests(), old(exec).requests().len() as int, vmid, CADVISOR_PATH@),
        r is Err ==> ended_on_failure(final(exec).requests(), final(exec).replies()),
{
    let ghost q0 = exec.requests();
    let ghost h0 = exec.replies();
    proof { lemma_extends_refl(q0, h0); }
    guard_push(exec, vmid, true, daemon, PRUNE_SERVICE_PATH, PRUNE_SERVICE)?;
    let ghost q1 = exec.requests();
    let ghost h1 = exec.replies();
    let changed = guard_push(exec, vmid, true, daemon, PRUNE_TIMER_PATH, PRUNE_TIMER);
    proof { lemma_step(q0, q1, exec.requests(), vmid, true, daemon@); lemma_extends_trans(q0, h0, q1, h1, exec.requests(), exec.replies()); }
    if changed? {
        let ghost q2 = exec.requests();
        let ghost h2 = exec.replies();
        let x = guard_sh(exec, vmid, true, daemon, ARM_PRUNE, 60);
        proof { lemma_step(q0, q2, exec.requests(), vmid, true, daemon@); lemma_extends_trans(q0, h0, q2, h2, exec.requests(), exec.replies()); }
        x?;
        guard_log(sink, "[guard] weekly docker prune timer armed");
    }
    let ghost q3 = exec.requests();
    let ghost h3 = exec.replies();
    let x = guard_push(exec, vmid, true, daemon, CADVISOR_PATH, CADVISOR_COMPOSE);
    proof { lemma_step(q0, q3, exec.requests(), vmid, true, daemon@); lemma_extends_trans(q0, h0, q3, h3, exec.requests(), exec.replies()); }
    x?;
    let ghost q4 = exec.requests();
    let ghost h4 = exec.replies();
    let x = guard_sh(exec, vmid, true, daemon, CADVISOR_UP, 300);
    proof { lemma_step(q0, q4, exec.requests(), vmid, true, daemon@); lemma_extends_trans(q0, h0, q4, h4, exec.requests(), exec.replies()); }
    x?;
    guard_log(sink, "[guard] cadvisor up — this host reports its containers");
    Ok(())
}

/// apt's cache hygiene and unattended security updates; ends with
/// `apt-get clean`.
fn phase_patching<E: Executor>(exec: &mut E, vmid: u16, docker: bool, daemon: &str) -> (r: Result<(), CoreError>)
    ensures
        phase_ok(old(exec).requests(), final(exec).requests(), vmid, docker, daemon@),
        extends(old(exec).requests(), old(exec).replies(), final(exec).requests(), final(exec).replies()),
        r is Ok ==> probed(final(exec).requests(), old(exec).requests().len() as int, vmid, APT_CLEAN_PATH@),
        r is Ok ==> probed(final(exec).requests(), old(exec).requests().len() as int, vmid, UNATTENDED_PATH@),
        r is Ok ==> final(exec).requests().len() > 0 && final(exec).requests().last() == sh(vmid, APT_CLEAN@, 60),
        r is Err ==> ended_on_failure(final(exec).requests(), final(exec).replies()),
{
    let ghost q0 = exec.requests();
    let ghost h0 = exec.replies();
    proof { lemma_extends_refl(q0, h0); }
    guard_push(exec, vmid, docker, daemon, APT_CLEAN_PATH, APT_AUTOCLEAN)?;
    let ghost q1 = exec.requests();
    let ghost h1 = exec.replies();
    let x = guard_sh(exec, vmid, docker, daemon, INSTALL_UNATTENDED, 300);
    proof { lemma_step(q0, q1, exec.requests(), vmid, docker, daemon@); lemma_extends_trans(q0, h0, q1, h1, exec.requests(), exec.replies()); }
    x?;
    let ghost q2 = exec.requests();
    let ghost h2 = exec.replies();
    let x = guard_push(exec, vmid, docker, daemon, UNATTENDED_PATH, UNATTENDED_UPGRADES);
    proof { lemma_step(q0, q2, exec.requests(), vmid, docker, daemon@); lemma_extends_trans(q0, h0, q2, h2, exec.requests(), exec.replies()); }
    x?;
    let ghost q3 = exec.requests();
    let ghost h3 = exec.replies();
    let x = guard_sh(exec, vmid, docker, daemon, ENABLE_UNATTENDED, 60);
    proof { lemma_step(q0, q3, exec.requests(), vmid, docker, daemon@); lemma_extends_trans(q0, h0, q3, h3, exec.requests(), exec.replies()); }
    x?;
    let ghost q4 = exec.requests();
    let ghost h4 = exec.replies();
    let x = guard_sh(exec, vmid, docker, daemon, APT_CLEAN, 60);
    proof { lemma_step(q0, q4, exec.requests(), vmid, docker, daemon@); lemma_extends_trans(q0, h0, q4, h4, exec.requests(), exec.replies()); }
    x?;
    Ok(())
}

/// A phase that only a docker host runs keeps within a docker host's
/// guard requests.
proof fn lemma_docker_phase(q0: Seq<Request>, q: Seq<Request>, vmid: u16, docker: bool, daemon: Seq<char>)
    requires
        docker,
        phase_ok(q0, q, vmid, true, daemon),
    ensures
        phase_ok(q0, q, vmid, docker, daemon),
{
}

/// Put the runaway guards and security patching in place in container
/// `vmid`: docker's log caps (with the cache's registries when there is a
/// cache), the journal's caps, log rotation, the weekly docker prune,
/// cAdvisor, apt's cache hygiene and unattended security updates. A
/// container that runs no docker (`docker` false) gets none of docker's
/// guards. Every guard file's hash is probed; a file is written only where
/// it differs.
pub fn apply<E: Executor, S: Sink>(
    exec: &mut E,
    sink: &mut S,
    vmid: u16,
    docker: bool,
    cache: Option<&CacheCfg>,
) -> (r: Result<(), CoreError>)
    ensures
        phase_ok(old(exec).requests(), final(exec).requests(), vmid, docker, daemon_json_of(cache_view(cache))),
        extends(old(exec).requests(), old(exec).replies(), final(exec).requests(), final(exec).replies()),
        r is Ok ==> final(exec).requests().len() > 0 && final(exec).requests().last() == sh(vmid, APT_CLEAN@, 60),
        r is Ok ==> forall|d: Seq<char>, c: Seq<char>|
            #[trigger] guard_file(docker, daemon_json_of(cache_view(cache)), d, c) ==> probed(
                final(exec).requests(),
                old(exec).requests().len() as int,
                vmid,
                d,
            ),
        r is Err ==> ended_on_failure(final(exec).requests(), final(exec).replies()),
{
    let ghost q0 = exec.requests();
    let ghost h0 = exec.replies();
    proof { lemma_extends_refl(q0, h0); }
    let daemon = daemon_json(cache);
    let ghost dj = daemon@;
    proof { lemma_start(q0, vmid, docker, dj); }
    let ghost q1 = exec.requests();
    let ghost h1 = exec.replies();
    if docker {
        let x = phase_docker_logs(exec, sink, vmid, daemon.as_str());
        proof { lemma_docker_phase(q1, exec.requests(), vmid, docker, dj); lemma_step(q0, q1, exec.requests(), vmid, docker, dj); lemma_extends_trans(q0, h0, q1, h1, exec.requests(), exec.replies()); }
        x?;
    }
    let ghost q2 = exec.requests();
    let ghost h2 = exec.replies();
    let x = phase_journal(exec, sink, vmid, docker, daemon.as_str());
    proof { lemma_step(q0, q2, exec.requests(), vmid, docker, dj); lemma_extends_trans(q0, h0, q2, h2, exec.requests(), exec.replies()); }
    x?;
    let ghost q3 = exec.requests();
    let ghost h3 = exec.replies();
    let x = phase_rotation(exec, vmid, docker, daemon.as_str());
    proof { lemma_step(q0, q3, exec.requests(), vmid, docker, dj); lemma_extends_trans(q0, h0, q3, h3, exec.requests(), exec.replies()); }
    x?;
    let ghost q4 = exec.requests();
    let ghost h4 = exec.replies();
    if docker {
        let x = phase_prune(exec, sink, vmid, daemon.as_str());
        proof { lemma_docker_phase(q4, exec.requests(), vmid, docker, dj); lemma_step(q0, q4, exec.requests(), vmid, docker, dj); lemma_extends_trans(q0, h0, q4, h4, exec.requests(), exec.replies()); }
        x?;
    }
    let ghost q5 = exec.requests();
    let ghost h5 = exec.replies();
    let x = phase_patching(exec, vmid, docker, daemon.as_str());
    proof { lemma_step(q0, q5, exec.requests(), vmid, docker, dj); lemma_extends_trans(q0, h0, q5, h5, exec.requests(), exec.replies()); }
    x?;
    guard_log(sink, "[guard] runaway guards + security patching in place");
    Ok(())
}


/// One of the files only a docker host gets.
pub open spec fn docker_dest(d: Seq<char>) -> bool {
    d == DAEMON_JSON_PATH@ || d == PRUNE_SERVICE_PATH@ || d == PRUNE_TIMER_PATH@ || d == CADVISOR_PATH@
}

/// One of the scripts only a docker host runs.
pub open spec fn docker_command(s: Seq<char>) -> bool {
    s == RESTART_DOCKER@ || s == ARM_PRUNE@ || s == CADVISOR_UP@
}

/// A request that touches one of docker's guards: probing or pushing one of
/// docker's guard files, or running one of docker's guard scripts.
pub open spec fn touches_docker(vmid: u16, r: Request) -> bool {
    ||| exists|d: Seq<char>| #[trigger] docker_dest(d) && r == sh(vmid, hash_probe_of(d), 30)
    ||| (r matches Request::Run(p, a, _) && p == "pct"@ && a.len() == 6 && a[0] == "push"@ && docker_dest(a[3]))
    ||| (r matches Request::Run(p, a, _) && p == "pct"@ && a == pct_sh_args(vmid, a[5]) && docker_command(a[5]))
}

proof fn lemma_probe_injective(d1: Seq<char>, d2: Seq<char>)
    requires
        hash_probe_of(d1) == hash_probe_of(d2),
    ensures
        d1 == d2,
{
    reveal_strlit("sha256sum '");
    reveal_strlit("' 2>/dev/null | cut -d' ' -f1 || true");
    let a = hash_probe_of(d1);
    assert("sha256sum '"@.len() == 11);
    assert(a.len() == 11 + d1.len() + "' 2>/dev/null | cut -d' ' -f1 || true"@.len());
    assert(hash_probe_of(d2).len() == 11 + d2.len() + "' 2>/dev/null | cut -d' ' -f1 || true"@.len());
    assert(d1.len() == d2.len());
    assert(d1 =~= a.subrange(11, 11 + d1.len() as int));
    assert(d2 =~= a.subrange(11, 11 + d2.len() as int));
}

proof fn lemma_probe_starts(d: Seq<char>)
    ensures
        hash_probe_of(d)[0] == 's',
        hash_probe_of(d)[1] == 'h',
        hash_probe_of(d).len() > 11,
{
    reveal_strlit("sha256sum '");
    reveal_strlit("' 2>/dev/null | cut -d' ' -f1 || true");
}

proof fn lemma_guard_literals()
    ensures
        !docker_dest(JOURNALD_PATH@),
        !docker_dest(LOGROTATE_PATH@),
        !docker_dest(APT_CLEAN_PATH@),
        !docker_dest(UNATTENDED_PATH@),
        !docker_command(RESTART_JOURNALD@),
        !docker_command(INSTALL_LOGROTATE@),
        !docker_command(INSTALL_SQLITE@),
        !docker_command(INSTALL_UNATTENDED@),
        !docker_command(ENABLE_UNATTENDED@),
        !docker_command(APT_CLEAN@),
        RESTART_DOCKER@[1] == 'y' && ARM_PRUNE@[1] == 'y' && CADVISOR_UP@[0] == 'c',
        RESTART_JOURNALD@[1] == 'y' && ENABLE_UNATTENDED@[1] == 'y' && APT_CLEAN@[0] == 'a',
        INSTALL_LOGROTATE@[0] == 'c' && INSTALL_SQLITE@[0] == 'c' && INSTALL_UNATTENDED@[0] == 'c',
        "mkdir"@ != "sh"@,
        "push"@ != "exec"@,
        "rm"@ != "pct"@,
{
    reveal_strlit("/etc/docker/daemon.json");
    reveal_strlit("/etc/systemd/journald.conf.d/homelab-limits.conf");
    reveal_strlit("/etc/logrotate.d/homelab");
    reveal_strlit("/etc/systemd/system/docker-prune.service");
    reveal_strlit("/etc/systemd/system/docker-prune.timer");
    reveal_strlit("/opt/cadvisor/docker-compose.yml");
    reveal_strlit("/etc/apt/apt.conf.d/60homelab-clean");
    reveal_strlit("/etc/apt/apt.conf.d/50unattended-upgrades");
    reveal_strlit("systemctl restart docker");
    reveal_strlit("systemctl restart systemd-journald");
    reveal_strlit("command -v logrotate >/dev/null || (export DEBIAN_FRONTEND=noninteractive; apt-get install -y -qq logrotate)");
    reveal_strlit("command -v sqlite3 >/dev/null || (export DEBIAN_FRONTEND=noninteractive; apt-get install -y -qq sqlite3)");
    reveal_strlit("systemctl daemon-reload && systemctl enable --now docker-prune.timer");
    reveal_strlit("cd /opt/cadvisor && docker compose up -d");
    reveal_strlit("command -v unattended-upgrade >/dev/null || (export DEBIAN_FRONTEND=noninteractive; apt-get install -y -qq unattended-upgrades)");
    reveal_strlit("systemctl enable --now unattended-upgrades 2>/dev/null || true");
    reveal_strlit("apt-get clean");
    reveal_strlit("mkdir");
    reveal_strlit("sh");
    reveal_strlit("push");
    reveal_strlit("exec");
    reveal_strlit("rm");
    reveal_strlit("pct");
    assert(DAEMON_JSON_PATH@.len() == 23);
    assert(JOURNALD_PATH@.len() == 48);
    assert(LOGROTATE_PATH@.len() == 24);
    assert(PRUNE_SERVICE_PATH@.len() == 40);
    assert(PRUNE_TIMER_PATH@.len() == 38);
    assert(CADVISOR_PATH@.len() == 32);
    assert(APT_CLEAN_PATH@.len() == 35);
    assert(UNATTENDED_PATH@.len() == 41);
    assert(RESTART_DOCKER@.len() == 24);
    assert(RESTART_JOURNALD@.len() == 34);
    assert(INSTALL_LOGROTATE@.len() == 108);
    assert(INSTALL_SQLITE@.len() == 104);
    assert(ARM_PRUNE@.len() == 68);
    assert(CADVISOR_UP@.len() == 40);
    assert(INSTALL_UNATTENDED@.len() == 127);
    assert(ENABLE_UNATTENDED@.len() == 62);
    assert(APT_CLEAN@.len() == 13);
    assert("mkdir"@.len() == 5 && "sh"@.len() == 2);
    assert("push"@[0] == 'p' && "exec"@[0] == 'e');
    assert("rm"@.len() == 2 && "pct"@.len() == 3);
}

proof fn lemma_file_step_not_docker(vmid: u16, d: Seq<char>, c: Seq<char>, r: Request)
    requires
        common_file(d, c),
        file_step(vmid, d, c, r),
    ensures
        !touches_docker(vmid, r),
{
    lemma_guard_literals();
    lemma_probe_starts(d);
    let staging = staging_path_of(vmid, d);
    let push = Request::Run("pct"@, seq!["push"@, dec(vmid as nat), staging, d, "--perms"@, "644"@], 60);
    assert(!docker_dest(d));
    assert forall|d2: Seq<char>| #[trigger] docker_dest(d2) implies r != sh(vmid, hash_probe_of(d2), 30) by {
        if r == sh(vmid, hash_probe_of(d2), 30) {
            if r == sh(vmid, hash_probe_of(d), 30) {
                assert(pct_sh_args(vmid, hash_probe_of(d))[5] == pct_sh_args(vmid, hash_probe_of(d2))[5]);
                lemma_probe_injective(d, d2);
            } else if r == push {
                assert(seq!["push"@, dec(vmid as nat), staging, d, "--perms"@, "644"@][0] == pct_sh_args(vmid, hash_probe_of(d2))[0]);
            } else if r == Request::Run("rm"@, seq!["-f"@, staging], 30) {
            } else if r == Request::WriteFile(staging, c, 0o600) {
            } else {
                let p = choose|p: Seq<char>| path_parent(d) == Some(p) && r == Request::Run(
                    "pct"@, seq!["exec"@, dec(vmid as nat), "--"@, "mkdir"@, "-p"@, p], 30);
                assert(seq!["exec"@, dec(vmid as nat), "--"@, "mkdir"@, "-p"@, p][3] == pct_sh_args(vmid, hash_probe_of(d2))[3]);
            }
        }
    }
    match r {
        Request::Run(_, a, _) => {
        if r == sh(vmid, hash_probe_of(d), 30) {
            assert(a[0] == "exec"@ && a[3] == "sh"@);
            if a == pct_sh_args(vmid, a[5]) && docker_command(a[5]) {
                assert(a[5][1] == 'h' || a[5][0] == 's');
            }
        } else if r == push {
            assert(a[3] == d);
            assert(a[0] != "exec"@);
        } else if r == Request::Run("rm"@, seq!["-f"@, staging], 30) {
        } else if r == Request::WriteFile(staging, c, 0o600) {
        } else {
            let pp = choose|pp: Seq<char>| path_parent(d) == Some(pp) && r == Request::Run(
                "pct"@, seq!["exec"@, dec(vmid as nat), "--"@, "mkdir"@, "-p"@, pp], 30);
            assert(a[0] == "exec"@ && a[3] == "mkdir"@);
        }
        },
        _ => {},
    }
}

proof fn lemma_script_not_docker(vmid: u16, s: Seq<char>, t: u64, r: Request)
    requires
        common_script(s, t),
        r == sh(vmid, s, t),
    ensures
        !touches_docker(vmid, r),
{
    lemma_guard_literals();
    assert forall|d2: Seq<char>| #[trigger] docker_dest(d2) implies r != sh(vmid, hash_probe_of(d2), 30) by {
        lemma_probe_starts(d2);
        if r == sh(vmid, hash_probe_of(d2), 30) {
            assert(pct_sh_args(vmid, s)[5] == pct_sh_args(vmid, hash_probe_of(d2))[5]);
        }
    }
    assert(pct_sh_args(vmid, s)[0] == "exec"@);
    assert(pct_sh_args(vmid, s)[5] == s);
}

/// A container that runs no docker gets none of docker's guards: no
/// request the guards make for it (see [`apply`]) probes or pushes one of
/// docker's guard files or runs one of docker's guard scripts.
pub proof fn law_no_docker_guards_without_docker(vmid: u16, daemon: Seq<char>, r: Request)
    requires
        guard_request(vmid, false, daemon, r),
    ensures
        !touches_docker(vmid, r),
{
    if exists|d: Seq<char>, c: Seq<char>| #[trigger] guard_file(false, daemon, d, c) && file_step(vmid, d, c, r) {
        let (d, c) = choose|d: Seq<char>, c: Seq<char>| #[trigger] guard_file(false, daemon, d, c) && file_step(vmid, d, c, r);
        lemma_file_step_not_docker(vmid, d, c, r);
    } else {
        let (s, t) = choose|s: Seq<char>, t: u64| #[trigger] guard_script(false, s, t) && r == sh(vmid, s, t);
        lemma_script_not_docker(vmid, s, t, r);
    }
}

/// Every request the guards make for container `vmid` that is a `pct`
/// command names `vmid`: the guards touch no other container.
pub proof fn law_guards_touch_only_their_container(vmid: u16, docker: bool, daemon: Seq<char>, r: Request)
    requires
        guard_request(vmid, docker, daemon, r),
    ensures
        pct_only_on(vmid, r),
{
    lemma_guard_literals();
    if exists|d: Seq<char>, c: Seq<char>| #[trigger] guard_file(docker, daemon, d, c) && file_step(vmid, d, c, r) {
        let (d, c) = choose|d: Seq<char>, c: Seq<char>| #[trigger] guard_file(docker, daemon, d, c) && file_step(vmid, d, c, r);
        let staging = staging_path_of(vmid, d);
        if r == Request::Run("rm"@, seq!["-f"@, staging], 30) {
        } else if r == Request::WriteFile(staging, c, 0o600) {
        } else if r == sh(vmid, hash_probe_of(d), 30) {
            assert(pct_sh_args(vmid, hash_probe_of(d))[1] == dec(vmid as nat));
        } else if r == Request::Run("pct"@, seq!["push"@, dec(vmid as nat), staging, d, "--perms"@, "644"@], 60) {
            assert(seq!["push"@, dec(vmid as nat), staging, d, "--perms"@, "644"@][1] == dec(vmid as nat));
        } else {
            let p = choose|p: Seq<char>| path_parent(d) == Some(p) && r == Request::Run(
                "pct"@, seq!["exec"@, dec(vmid as nat), "--"@, "mkdir"@, "-p"@, p], 30);
            assert(seq!["exec"@, dec(vmid as nat), "--"@, "mkdir"@, "-p"@, p][1] == dec(vmid as nat));
        }
    } else {
        let (s, t) = choose|s: Seq<char>, t: u64| #[trigger] guard_script(docker, s, t) && r == sh(vmid, s, t);
        assert(pct_sh_args(vmid, s)[1] == dec(vmid as nat));
    }
}

} // verus!
