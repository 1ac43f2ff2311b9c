//! Hold the repository against reality and report every difference.
//!
//! Everything worth finding here looks healthy: a stack record describing a
//! renamed container, a route pointing at nothing, a monitor watching one
//! target of nine. This module makes the looking a function. The comparison
//! is pure so it can be exercised without a fleet; gathering the facts is
//! the caller's job.

use vstd::prelude::*;
use vstd::string::*;
use crate::ops::reconcile::{divergences, divergences_of, LiveConfig};
use crate::manifest::MountSpec;
use crate::ops::manualchecks::{evaluate_manual, manual_findings, DEFAULT_ANSWER_MAX_AGE_S};
use crate::state::{HostState, StackState};
use crate::text::{
    before_first, dec, dec_string, first_occurrence_from, rsplit_once, split_once_str,
    starts_with, str_before_first, str_eq, str_rsplit_once, str_split_once_str, str_starts_with,
    string_views, all_digits, is_digit, parse_uint, parse_unsigned, str_strip_prefix,
    str_trim_end_char, str_trim_start_char, strip_prefix, trim, trim_end_char, trim_start_char,
    trimmed,
};

verus! {

#[derive(Debug, Clone, Copy, PartialEq, Eq)]
pub enum Severity {
    /// Something is not doing its job right now.
    Broken,
    /// Working, but drifting — it will bite on the next deploy or outage.
    Drift,
    /// Not a problem: something deliberately arranged, printed so it stays
    /// visible (silence would make a deliberate gap look like a forgotten
    /// one).
    Noted,
}

#[derive(Debug, Clone, PartialEq, Eq)]
pub struct Finding {
    pub severity: Severity,
    /// Which stack, container or file this is about.
    pub subject: String,
    /// What is wrong, in one sentence.
    pub what: String,
    /// What to do about it. Every finding carries one.
    pub remedy: String,
}

/// A finding as plain values.
pub struct FindingView {
    pub severity: Severity,
    pub subject: Seq<char>,
    pub what: Seq<char>,
    pub remedy: Seq<char>,
}

impl View for Finding {
    type V = FindingView;

    open spec fn view(&self) -> FindingView {
        FindingView {
            severity: self.severity,
            subject: self.subject@,
            what: self.what@,
            remedy: self.remedy@,
        }
    }
}

pub open spec fn fv(severity: Severity, subject: Seq<char>, what: Seq<char>, remedy: Seq<char>) -> FindingView {
    FindingView { severity, subject, what, remedy }
}

pub open spec fn findings_view(v: Seq<Finding>) -> Seq<FindingView> {
    v.map_values(|f: Finding| f@)
}

/// One finding more.
pub fn push_finding(out: &mut Vec<Finding>, severity: Severity, subject: String, what: String, remedy: String)
    ensures
        findings_view(final(out)@) == findings_view(old(out)@).push(
            fv(severity, subject@, what@, remedy@),
        ),
{
    out.push(Finding { severity, subject, what, remedy });
    proof {
        assert(findings_view(out@) =~= findings_view(old(out)@).push(
            fv(severity, subject@, what@, remedy@),
        ));
    }
}

/// Several findings more, in order.
pub fn append_findings(out: &mut Vec<Finding>, more: Vec<Finding>)
    ensures
        findings_view(final(out)@) == findings_view(old(out)@) + findings_view(more@),
{
    let ghost o0 = findings_view(out@);
    let mut i: usize = 0;
    while i < more.len()
        invariant
            i <= more.len(),
            findings_view(out@) == o0 + findings_view(more@.take(i as int)),
        decreases more.len() - i,
    {
        let ghost before = out@;
        out.push(clone_finding(&more[i]));
        proof {
            assert(findings_view(out@) =~= findings_view(before).push(more@[i as int]@));
            assert(findings_view(more@.take(i + 1)) =~= findings_view(more@.take(i as int)).push(
                more@[i as int]@,
            ));
            assert(findings_view(out@) =~= o0 + findings_view(more@.take(i + 1)));
        }
        i += 1;
    }
    proof {
        assert(more@.take(more.len() as int) =~= more@);
    }
}

pub fn clone_finding(f: &Finding) -> (r: Finding)
    ensures
        r@ == f@,
{
    Finding {
        severity: f.severity,
        subject: f.subject.clone(),
        what: f.what.clone(),
        remedy: f.remedy.clone(),
    }
}

/// The findings worth waking somebody for: all but the `Noted` ones, in
/// order.
pub open spec fn alarms(v: Seq<FindingView>) -> Seq<FindingView>
    decreases v.len(),
{
    if v.len() == 0 {
        Seq::empty()
    } else {
        alarms(v.drop_last()) + if v.last().severity == Severity::Noted {
            Seq::empty()
        } else {
            seq![v.last()]
        }
    }
}

/// Which findings are worth waking somebody for: a `Noted` finding is a
/// decision, not a fault, and letting one raise the alarm trains the reader
/// to ignore the notification.
pub fn alarming(findings: &[Finding]) -> (r: Vec<Finding>)
    ensures
        findings_view(r@) == alarms(findings_view(findings@)),
{
    let mut out: Vec<Finding> = Vec::new();
    let mut i: usize = 0;
    while i < findings.len()
        invariant
            i <= findings.len(),
            findings_view(out@) == alarms(findings_view(findings@.take(i as int))),
        decreases findings.len() - i,
    {
        proof {
            assert(findings_view(findings@.take(i + 1)).drop_last() =~= findings_view(
                findings@.take(i as int),
            ));
            assert(findings_view(findings@.take(i + 1)).last() == findings@[i as int]@);
        }
        let noted = match findings[i].severity {
            Severity::Noted => true,
            _ => false,
        };
        if !noted {
            let ghost before = findings_view(out@);
            out.push(clone_finding(&findings[i]));
            proof {
                assert(findings_view(out@) =~= before.push(findings@[i as int]@));
            }
        } else {
            proof {
                assert(alarms(findings_view(findings@.take(i + 1))) =~= alarms(
                    findings_view(findings@.take(i as int)),
                ));
            }
        }
        i += 1;
    }
    proof {
        assert(findings@.take(findings.len() as int) =~= findings@);
    }
    out
}

/// Where "growing" turns into "worth telling somebody about". Defaults far
/// below the point of failure: the idea is to see the trend, not the wall.
#[derive(Debug, Clone, Copy, PartialEq, Eq)]
pub struct GrowthLimits {
    /// Rootfs full enough that the next update can fail.
    pub disk_broken_pct: u8,
    /// Rootfs trending toward that.
    pub disk_drift_pct: u8,
    /// Memory this close to the allocation will start swapping.
    pub mem_drift_pct: u8,
    /// Any swap beyond this means pressure is being hidden rather than felt.
    pub swap_drift_mb: u32,
    /// A journal past this is not being capped effectively.
    pub journal_mb: u32,
    /// Docker logs past this are not being rotated effectively.
    pub docker_logs_mb: u32,
}

impl Default for GrowthLimits {
    fn default() -> (r: Self)
        ensures
            r.disk_broken_pct == 85,
            r.disk_drift_pct == 70,
            r.mem_drift_pct == 90,
            r.swap_drift_mb == 64,
            r.journal_mb == 150,
            r.docker_logs_mb == 250,
    {
        GrowthLimits {
            disk_broken_pct: 85,
            disk_drift_pct: 70,
            mem_drift_pct: 90,
            swap_drift_mb: 64,
            journal_mb: 150,
            docker_logs_mb: 250,
        }
    }
}

/// One container's resource picture, as read off the machine.
#[derive(Debug, Clone, PartialEq, Eq, Default)]
pub struct GrowthFact {
    pub vmid: u16,
    pub hostname: String,
    /// Percentage of the container's rootfs in use.
    pub disk_used_pct: u8,
    /// Percentage of the container's memory allocation in use.
    pub mem_used_pct: u8,
    /// Swap actually in use, in MB.
    pub swap_used_mb: u32,
    /// Size of the systemd journal, in MB.
    pub journal_mb: u32,
    /// Size of docker's container log directory, in MB.
    pub docker_logs_mb: u32,
    /// Whether the runaway guards (a journald cap and a docker log cap) are
    /// on disk now.
    pub guards: bool,
}

/// Is this stack actually being measured and shipping logs? `None` means
/// the question was not asked, and an unasked question never becomes a
/// finding.
#[derive(Debug, Clone, PartialEq, Eq, Default)]
pub struct CoverageFact {
    pub stack: String,
    /// A Prometheus target for this stack answered `up == 1`.
    pub scraped: Option<bool>,
    /// Loki holds at least one labelled line from this stack, recently.
    pub logs_recent: Option<bool>,
    /// Grafana holds the dashboard this stack's deploy generated.
    pub dashboard_provisioned: Option<bool>,
}

/// The configured shape of a container that exists, next to the stack file
/// that is supposed to describe it.
#[derive(Debug, Clone, PartialEq, Eq, Default)]
pub struct BootFact {
    pub vmid: u16,
    pub hostname: String,
    pub live: LiveConfig,
}

#[derive(Debug, Clone, PartialEq, Eq)]
pub struct RouteFact {
    pub file: String,
    pub target: String,
    pub answered: bool,
}

/// A backup this orchestrator does not make but does watch.
#[derive(Debug, Clone, PartialEq, Eq, Default)]
pub struct WatchedBackupFact {
    /// What to call it in the report.
    pub name: String,
    /// Age of the newest file found, in seconds. None = nothing was found.
    pub newest_age_s: Option<u64>,
    /// Older than this and it is a finding.
    pub max_age_s: u64,
    /// The listing itself failed — no answer is not a healthy answer.
    pub error: Option<String>,
}

/// The monitor seeder's verdict, read from its file beside the monitor
/// list.
#[derive(Debug, Clone, Default)]
pub struct SeedFact {
    /// Monitors the seeder found stale.
    pub stale: Vec<String>,
    /// How long ago the seeder ran, in seconds; None when the file says not.
    pub age_s: Option<u64>,
    /// Whether the seeder reached a verdict at all.
    pub judged: bool,
    /// The file could not be read or was not JSON.
    pub error: Option<String>,
}

/// What the caller reads off the machine so the comparison can stay pure.
#[derive(Debug, Clone, Default)]
pub struct LiveFacts {
    /// The monitor seeder's verdict.
    pub seed: SeedFact,
    /// vmid and hostname of every container on the hypervisor.
    pub containers: Vec<(u16, String)>,
    /// Route files, where they forward to, and whether anything answered.
    pub routes: Vec<RouteFact>,
    /// Stack directories found in the repository, with the vmid they claim.
    pub stack_files: Vec<(String, u16)>,
    /// What every managed container's resources look like right now.
    pub growth: Vec<GrowthFact>,
    /// Whether each managed stack's safety nets are attached.
    pub coverage: Vec<CoverageFact>,
    /// What `pct config` says about boot policy and resources.
    pub boot: Vec<BootFact>,
    /// What the host itself has: `(total_mb, committed_mb, swap_used_mb,
    /// swap_total_mb)`, or None when it could not be read.
    pub host_memory: Option<(u32, u32, u32, u32)>,
    /// Backups made outside this suite that it watches.
    pub watched_backups: Vec<WatchedBackupFact>,
}

/// How stale a backup may be before it counts as a finding.
pub const DEFAULT_BACKUP_MAX_AGE_S: u64 = 172800;

// ── Growth ──────────────────────────────────────────────────────────────────

pub open spec fn who(g: GrowthFact) -> Seq<char> {
    g.hostname@ + " (CT "@ + dec(g.vmid as nat) + ")"@
}

pub open spec fn swap_remedy(host_short: Option<Seq<char>>) -> Seq<char> {
    match host_short {
        Some(why) => "the container is not the problem: "@ + why
            + " — reduce what is promised to guests, or give the host more RAM. Raising this container's memory takes it from another one"@,
        None => "swap turns memory pressure into slow degradation instead of a loud failure — give the container more memory rather than more swap"@,
    }
}

/// The disk and memory half of one container's growth findings.
pub open spec fn growth_pressure(g: GrowthFact, lim: GrowthLimits, host_short: Option<Seq<char>>) -> Seq<FindingView> {
    (if g.disk_used_pct >= lim.disk_broken_pct {
        seq![fv(Severity::Broken, who(g), "rootfs is "@ + dec(g.disk_used_pct as nat) + "% full"@,
            "an image pull or an apt upgrade can fail halfway from here — free space or grow the disk with `pct resize`"@)]
    } else if g.disk_used_pct >= lim.disk_drift_pct {
        seq![fv(Severity::Drift, who(g), "rootfs is "@ + dec(g.disk_used_pct as nat) + "% full"@,
            "still fine, but find out what is growing before it is urgent — `du -xh --max-depth=2 /` inside the container"@)]
    } else {
        Seq::empty()
    }) + (if g.mem_used_pct >= lim.mem_drift_pct {
        seq![fv(Severity::Drift, who(g), "using "@ + dec(g.mem_used_pct as nat) + "% of its memory allocation"@,
            "raise memory_mb in the stack manifest and redeploy; the alternative is swapping, which hides the pressure instead of reporting it"@)]
    } else {
        Seq::empty()
    }) + (if g.swap_used_mb >= lim.swap_drift_mb {
        seq![fv(Severity::Drift, who(g), dec(g.swap_used_mb as nat) + " MB of swap in use"@, swap_remedy(host_short))]
    } else {
        Seq::empty()
    })
}

/// The log half of one container's growth findings.
pub open spec fn growth_logs(g: GrowthFact, lim: GrowthLimits) -> Seq<FindingView> {
    (if g.journal_mb >= lim.journal_mb {
        seq![fv(Severity::Drift, who(g), "journal is "@ + dec(g.journal_mb as nat) + " MB"@,
            "the guards cap it well below this — run `homelab guards "@ + dec(g.vmid as nat) + "` and check the cap took effect"@)]
    } else {
        Seq::empty()
    }) + (if g.docker_logs_mb >= lim.docker_logs_mb {
        seq![fv(Severity::Drift, who(g), "docker container logs total "@ + dec(g.docker_logs_mb as nat) + " MB"@,
            "the cap only applies to containers created after it was set — run `homelab guards "@ + dec(g.vmid as nat) + "`, then recreate the noisiest container so it picks the cap up"@)]
    } else {
        Seq::empty()
    }) + (if !g.guards {
        seq![fv(Severity::Drift, who(g), "has no runaway guards: no journald cap, no docker log cap, or both"@,
            "`homelab guards "@ + dec(g.vmid as nat) + "` — without them nothing bounds log growth, which is how one service reached 923 MB unnoticed"@)]
    } else {
        Seq::empty()
    })
}

/// One container's growth findings all name it; only a full disk is
/// broken, everything else is drift; and a container under every limit,
/// with its guards in place, has none.
pub proof fn law_growth_findings_of_one_container(g: GrowthFact, lim: GrowthLimits, host_short: Option<Seq<char>>)
    ensures
        forall|i: int|
            0 <= i < (growth_pressure(g, lim, host_short) + growth_logs(g, lim)).len() ==> (#[trigger] (growth_pressure(
                g,
                lim,
                host_short,
            ) + growth_logs(g, lim))[i]).subject == who(g) && ((growth_pressure(g, lim, host_short) + growth_logs(
                g,
                lim,
            ))[i].severity == Severity::Broken ==> i == 0 && g.disk_used_pct >= lim.disk_broken_pct),
        (g.disk_used_pct < lim.disk_drift_pct && g.disk_used_pct < lim.disk_broken_pct && g.mem_used_pct < lim.mem_drift_pct
            && g.swap_used_mb < lim.swap_drift_mb && g.journal_mb < lim.journal_mb && g.docker_logs_mb < lim.docker_logs_mb
            && g.guards) ==> (growth_pressure(g, lim, host_short) + growth_logs(g, lim)).len() == 0,
{
    let p = growth_pressure(g, lim, host_short);
    let l = growth_logs(g, lim);
    assert forall|i: int| 0 <= i < (p + l).len() implies (#[trigger] (p + l)[i]).subject == who(g) && ((p + l)[i].severity
        == Severity::Broken ==> i == 0 && g.disk_used_pct >= lim.disk_broken_pct) by {
        if i < p.len() {
            assert((p + l)[i] == p[i]);
        } else {
            assert((p + l)[i] == l[i - p.len()]);
        }
    }
}

pub open spec fn growth_findings(facts: Seq<GrowthFact>, lim: GrowthLimits, host_short: Option<Seq<char>>) -> Seq<FindingView>
    decreases facts.len(),
{
    if facts.len() == 0 {
        Seq::empty()
    } else {
        growth_findings(facts.drop_last(), lim, host_short) + growth_pressure(facts.last(), lim, host_short)
            + growth_logs(facts.last(), lim)
    }
}

pub open spec fn opt_str(o: Option<&str>) -> Option<Seq<char>> {
    match o {
        Some(s) => Some(s@),
        None => None,
    }
}

fn who_of(g: &GrowthFact) -> (r: String)
    ensures
        r@ == who(*g),
{
    let mut s = g.hostname.clone();
    s.append(" (CT ");
    let d = dec_string(g.vmid as u64);
    s.append(d.as_str());
    s.append(")");
    s
}

fn growth_pressure_exec(g: &GrowthFact, lim: GrowthLimits, host_short: Option<&str>, out: &mut Vec<Finding>)
    ensures
        findings_view(final(out)@) == findings_view(old(out)@) + growth_pressure(*g, lim, opt_str(host_short)),
{
    let ghost o0 = findings_view(out@);
    if g.disk_used_pct >= lim.disk_broken_pct || g.disk_used_pct >= lim.disk_drift_pct {
        let mut what = String::from_str("rootfs is ");
        let d = dec_string(g.disk_used_pct as u64);
        what.append(d.as_str());
        what.append("% full");
        if g.disk_used_pct >= lim.disk_broken_pct {
            push_finding(out, Severity::Broken, who_of(g), what, String::from_str(
                "an image pull or an apt upgrade can fail halfway from here — free space or grow the disk with `pct resize`",
            ));
        } else {
            push_finding(out, Severity::Drift, who_of(g), what, String::from_str(
                "still fine, but find out what is growing before it is urgent — `du -xh --max-depth=2 /` inside the container",
            ));
        }
    }
    let ghost o1 = findings_view(out@);
    if g.mem_used_pct >= lim.mem_drift_pct {
        let mut what = String::from_str("using ");
        let d = dec_string(g.mem_used_pct as u64);
        what.append(d.as_str());
        what.append("% of its memory allocation");
        push_finding(out, Severity::Drift, who_of(g), what, String::from_str(
            "raise memory_mb in the stack manifest and redeploy; the alternative is swapping, which hides the pressure instead of reporting it",
        ));
    }
    let ghost o2 = findings_view(out@);
    if g.swap_used_mb >= lim.swap_drift_mb {
        let mut what = dec_string(g.swap_used_mb as u64);
        what.append(" MB of swap in use");
        let remedy = match host_short {
            Some(why) => {
                let mut r = String::from_str("the container is not the problem: ");
                r.append(why);
                r.append(
                    " — reduce what is promised to guests, or give the host more RAM. Raising this container's memory takes it from another one",
                );
                r
            },
            None => String::from_str(
                "swap turns memory pressure into slow degradation instead of a loud failure — give the container more memory rather than more swap",
            ),
        };
        push_finding(out, Severity::Drift, who_of(g), what, remedy);
    }
    proof {
        assert(findings_view(out@) =~= o0 + growth_pressure(*g, lim, opt_str(host_short)));
    }
}

fn growth_logs_exec(g: &GrowthFact, lim: GrowthLimits, out: &mut Vec<Finding>)
    ensures
        findings_view(final(out)@) == findings_view(old(out)@) + growth_logs(*g, lim),
{
    let ghost o0 = findings_view(out@);
    let vm = dec_string(g.vmid as u64);
    if g.journal_mb >= lim.journal_mb {
        let mut what = String::from_str("journal is ");
        let d = dec_string(g.journal_mb as u64);
        what.append(d.as_str());
        what.append(" MB");
        let mut remedy = String::from_str("the guards cap it well below this — run `homelab guards ");
        remedy.append(vm.as_str());
        remedy.append("` and check the cap took effect");
        push_finding(out, Severity::Drift, who_of(g), what, remedy);
    }
    let ghost o1 = findings_view(out@);
    if g.docker_logs_mb >= lim.docker_logs_mb {
        let mut what = String::from_str("docker container logs total ");
        let d = dec_string(g.docker_logs_mb as u64);
        what.append(d.as_str());
        what.append(" MB");
        let mut remedy = String::from_str(
            "the cap only applies to containers created after it was set — run `homelab guards ",
        );
        remedy.append(vm.as_str());
        remedy.append("`, then recreate the noisiest container so it picks the cap up");
        push_finding(out, Severity::Drift, who_of(g), what, remedy);
    }
    let ghost o2 = findings_view(out@);
    if !g.guards {
        let mut remedy = String::from_str("`homelab guards ");
        remedy.append(vm.as_str());
        remedy.append(
            "` — without them nothing bounds log growth, which is how one service reached 923 MB unnoticed",
        );
        push_finding(out, Severity::Drift, who_of(g), String::from_str(
            "has no runaway guards: no journald cap, no docker log cap, or both",
        ), remedy);
    }
    proof {
        assert(findings_view(out@) =~= o0 + growth_logs(*g, lim));
    }
}

/// The growth half of the check. Everything here is Drift except a nearly
/// full disk: nothing is failing yet, and the point is to see it while it
/// is still cheap. `host_short` says why the host itself cannot help, when
/// it cannot, so the swap remedy never advises what the machine cannot give.
pub fn evaluate_growth(facts: &[GrowthFact], lim: GrowthLimits, host_short: Option<&str>) -> (r: Vec<Finding>)
    ensures
        findings_view(r@) == growth_findings(facts@, lim, opt_str(host_short)),
{
    let mut out: Vec<Finding> = Vec::new();
    let mut i: usize = 0;
    while i < facts.len()
        invariant
            i <= facts.len(),
            findings_view(out@) == growth_findings(facts@.take(i as int), lim, opt_str(host_short)),
        decreases facts.len() - i,
    {
        proof {
            assert(facts@.take(i + 1).drop_last() =~= facts@.take(i as int));
        }
        growth_pressure_exec(&facts[i], lim, host_short, &mut out);
        growth_logs_exec(&facts[i], lim, &mut out);
        proof {
            assert(findings_view(out@) =~= growth_findings(facts@.take(i + 1), lim, opt_str(host_short)));
        }
        i += 1;
    }
    proof {
        assert(facts@.take(facts.len() as int) =~= facts@);
    }
    out
}

// ── Coverage ────────────────────────────────────────────────────────────────

pub open spec fn coverage_one(c: CoverageFact) -> Seq<FindingView> {
    (if c.scraped == Some(false) {
        seq![fv(Severity::Drift, c.stack@, "no Prometheus target answers for this stack — it is not being measured"@,
            "check /appdata/metrics/prometheus-config/targets/<stack>.json exists and that Prometheus reads that directory; a deploy writes the file, and for weeks nothing read it"@)]
    } else {
        Seq::empty()
    }) + (if c.dashboard_provisioned == Some(false) {
        seq![fv(Severity::Drift, c.stack@, "Grafana does not have this stack's generated dashboard — the deploy wrote it somewhere Grafana never reads"@,
            "check that `grafana_dashboards_dir` in host.toml is a directory the Grafana container actually mounts; the deploy's own report cannot tell you, because writing the file is all it checks (F149)"@)]
    } else {
        Seq::empty()
    }) + (if c.logs_recent == Some(false) {
        seq![fv(Severity::Drift, c.stack@, "no LABELLED log line reached Loki from this stack recently — either nothing is shipping, or it ships without the container name (F79)"@,
            "check promtail is running there and that its pipeline matches what docker writes; the container name came from a field docker does not produce for the life of this fleet"@)]
    } else {
        Seq::empty()
    })
}

pub open spec fn coverage_findings(facts: Seq<CoverageFact>) -> Seq<FindingView>
    decreases facts.len(),
{
    if facts.len() == 0 {
        Seq::empty()
    } else {
        coverage_findings(facts.drop_last()) + coverage_one(facts.last())
    }
}

fn is_false(o: Option<bool>) -> (r: bool)
    ensures
        r == (o == Some(false)),
{
    match o {
        Some(b) => !b,
        None => false,
    }
}

/// Is each stack's safety net attached? Drift throughout: the stack runs
/// fine; what is missing is the ability to find out when it stops.
pub fn evaluate_coverage(facts: &[CoverageFact]) -> (r: Vec<Finding>)
    ensures
        findings_view(r@) == coverage_findings(facts@),
{
    let mut out: Vec<Finding> = Vec::new();
    let mut i: usize = 0;
    while i < facts.len()
        invariant
            i <= facts.len(),
            findings_view(out@) == coverage_findings(facts@.take(i as int)),
        decreases facts.len() - i,
    {
        proof {
            assert(facts@.take(i + 1).drop_last() =~= facts@.take(i as int));
        }
        let c = &facts[i];
        let ghost o0 = findings_view(out@);
        if is_false(c.scraped) {
            push_finding(&mut out, Severity::Drift, c.stack.clone(), String::from_str(
                "no Prometheus target answers for this stack — it is not being measured",
            ), String::from_str(
                "check /appdata/metrics/prometheus-config/targets/<stack>.json exists and that Prometheus reads that directory; a deploy writes the file, and for weeks nothing read it",
            ));
        }
        if is_false(c.dashboard_provisioned) {
            push_finding(&mut out, Severity::Drift, c.stack.clone(), String::from_str(
                "Grafana does not have this stack's generated dashboard — the deploy wrote it somewhere Grafana never reads",
            ), String::from_str(
                "check that `grafana_dashboards_dir` in host.toml is a directory the Grafana container actually mounts; the deploy's own report cannot tell you, because writing the file is all it checks (F149)",
            ));
        }
        if is_false(c.logs_recent) {
            push_finding(&mut out, Severity::Drift, c.stack.clone(), String::from_str(
                "no LABELLED log line reached Loki from this stack recently — either nothing is shipping, or it ships without the container name (F79)",
            ), String::from_str(
                "check promtail is running there and that its pipeline matches what docker writes; the container name came from a field docker does not produce for the life of this fleet",
            ));
        }
        proof {
            assert(findings_view(out@) =~= o0 + coverage_one(facts@[i as int]));
        }
        i += 1;
    }
    proof {
        assert(facts@.take(facts.len() as int) =~= facts@);
    }
    out
}

/// How many of a stack's coverage questions were answered "no".
pub open spec fn answered_no(c: CoverageFact) -> int {
    (if c.scraped == Some(false) { 1int } else { 0int }) + (if c.dashboard_provisioned == Some(false) { 1int } else { 0int })
        + (if c.logs_recent == Some(false) { 1int } else { 0int })
}

pub open spec fn answered_no_total(facts: Seq<CoverageFact>) -> int
    decreases facts.len(),
{
    if facts.len() == 0 {
        0
    } else {
        answered_no_total(facts.drop_last()) + answered_no(facts.last())
    }
}

/// One Drift finding per coverage question answered "no", about the stack
/// that answered it, and nothing else: a question left unasked or answered
/// "yes" never becomes a finding.
pub proof fn law_coverage_counts_each_no(facts: Seq<CoverageFact>)
    ensures
        coverage_findings(facts).len() == answered_no_total(facts),
        forall|k: int| 0 <= k < coverage_findings(facts).len() ==> (#[trigger] coverage_findings(facts)[k]).severity
            == Severity::Drift && exists|j: int| 0 <= j < facts.len() && coverage_findings(facts)[k].subject == facts[j].stack@,
    decreases facts.len(),
{
    if facts.len() > 0 {
        let init = facts.drop_last();
        law_coverage_counts_each_no(init);
        let a = coverage_findings(init);
        let b = coverage_one(facts.last());
        assert(coverage_findings(facts) == a + b);
        assert forall|k: int| 0 <= k < coverage_findings(facts).len() implies (#[trigger] coverage_findings(facts)[k]).severity
            == Severity::Drift && exists|j: int| 0 <= j < facts.len() && coverage_findings(facts)[k].subject == facts[j].stack@ by {
            if k < a.len() {
                assert(coverage_findings(facts)[k] == a[k]);
                let j = choose|j: int| 0 <= j < init.len() && a[k].subject == init[j].stack@;
                assert(init[j] == facts[j]);
            } else {
                assert(coverage_findings(facts)[k] == b[k - a.len()]);
                assert(facts[facts.len() - 1] == facts.last());
            }
        }
    }
}

// ── Watched backups ─────────────────────────────────────────────────────────

pub open spec fn watched_one(f: WatchedBackupFact) -> Seq<FindingView> {
    match f.error {
        Some(e) => seq![fv(Severity::Broken, f.name@, "could not be listed ("@ + e@ + ")"@,
            "check the rclone remote and the path in host.toml — a listing that does not answer says nothing about the backup either way"@)],
        None => match f.newest_age_s {
            None => seq![fv(Severity::Broken, f.name@, "holds no files at all"@,
                "the device that writes here has never succeeded, or writes somewhere else than host.toml says"@)],
            Some(age) => if age > f.max_age_s {
                seq![fv(Severity::Broken, f.name@, "newest file is "@ + dec((age / 3600) as nat) + " hours old, expected one within "@ + dec((f.max_age_s / 3600) as nat),
                    "the device stopped uploading — check its backup settings and its credentials before the next config change is the one you need back"@)]
            } else {
                Seq::empty()
            },
        },
    }
}

pub open spec fn watched_findings(facts: Seq<WatchedBackupFact>) -> Seq<FindingView>
    decreases facts.len(),
{
    if facts.len() == 0 {
        Seq::empty()
    } else {
        watched_findings(facts.drop_last()) + watched_one(facts.last())
    }
}

/// Backups made elsewhere that this check watches. Broken throughout: a
/// backup that stopped is not a slower kind of wrong, it is the thing.
pub fn evaluate_watched_backups(facts: &[WatchedBackupFact]) -> (r: Vec<Finding>)
    ensures
        findings_view(r@) == watched_findings(facts@),
{
    let mut out: Vec<Finding> = Vec::new();
    let mut i: usize = 0;
    while i < facts.len()
        invariant
            i <= facts.len(),
            findings_view(out@) == watched_findings(facts@.take(i as int)),
        decreases facts.len() - i,
    {
        proof {
            assert(facts@.take(i + 1).drop_last() =~= facts@.take(i as int));
        }
        let f = &facts[i];
        let ghost o0 = findings_view(out@);
        match &f.error {
            Some(e) => {
                let mut what = String::from_str("could not be listed (");
                what.append(e.as_str());
                what.append(")");
                push_finding(&mut out, Severity::Broken, f.name.clone(), what, String::from_str(
                    "check the rclone remote and the path in host.toml — a listing that does not answer says nothing about the backup either way",
                ));
            },
            None => match f.newest_age_s {
                None => {
                    push_finding(&mut out, Severity::Broken, f.name.clone(), String::from_str(
                        "holds no files at all",
                    ), String::from_str(
                        "the device that writes here has never succeeded, or writes somewhere else than host.toml says",
                    ));
                },
                Some(age) => {
                    if age > f.max_age_s {
                        let mut what = String::from_str("newest file is ");
                        let d = dec_string(age / 3600);
                        what.append(d.as_str());
                        what.append(" hours old, expected one within ");
                        let d = dec_string(f.max_age_s / 3600);
                        what.append(d.as_str());
                        push_finding(&mut out, Severity::Broken, f.name.clone(), what, String::from_str(
                            "the device stopped uploading — check its backup settings and its credentials before the next config change is the one you need back",
                        ));
                    }
                },
            },
        }
        proof {
            assert(findings_view(out@) =~= o0 + watched_one(facts@[i as int]));
        }
        i += 1;
    }
    proof {
        assert(facts@.take(facts.len() as int) =~= facts@);
    }
    out
}

// ── Notifications ───────────────────────────────────────────────────────────

pub open spec fn notify_findings(
    last_ok: u64,
    last_failed: u64,
    last_error: Option<Seq<char>>,
    now: u64,
) -> Seq<FindingView> {
    if last_failed <= last_ok {
        Seq::empty()
    } else {
        let ago = (if now >= last_failed { now - last_failed } else { 0 }) / 60;
        let ok_part = if last_ok == 0 {
            "and none has ever arrived"@
        } else {
            "the last one that arrived was "@ + dec(((last_failed - last_ok) / 3600) as nat) + " h earlier"@
        };
        let err_part = match last_error {
            Some(e) => ": "@ + e,
            None => Seq::empty(),
        };
        seq![fv(Severity::Broken, "notifications"@,
            "no route accepted the last notification ("@ + dec(ago as nat) + " min ago"@ + err_part + ")"@ + " — "@ + ok_part,
            "check kyu on 10.10.10.9 and `notify_fallback_webhook` in host.toml — while this stands, every warning this host produces is going nowhere, including this one"@)]
    }
}

pub open spec fn opt_string(o: Option<String>) -> Option<Seq<char>> {
    match o {
        Some(s) => Some(s@),
        None => None,
    }
}

/// Is the path by which anybody learns anything still working? If every
/// route is down this cannot arrive by notification either; it stands in
/// the report so "why has it been so quiet" has an answer.
pub fn evaluate_notify(state: &HostState, now: u64) -> (r: Vec<Finding>)
    ensures
        findings_view(r@) == notify_findings(
            state.last_notify_ok,
            state.last_notify_failed,
            opt_string(state.last_notify_error),
            now,
        ),
{
    let mut out: Vec<Finding> = Vec::new();
    if state.last_notify_failed <= state.last_notify_ok {
        proof {
            assert(findings_view(out@) =~= Seq::<FindingView>::empty());
        }
        return out;
    }
    let since = if now >= state.last_notify_failed {
        now - state.last_notify_failed
    } else {
        0
    };
    let ago = since / 60;
    let ok_part = if state.last_notify_ok == 0 {
        String::from_str("and none has ever arrived")
    } else {
        let mut s = String::from_str("the last one that arrived was ");
        let d = dec_string((state.last_notify_failed - state.last_notify_ok) / 3600);
        s.append(d.as_str());
        s.append(" h earlier");
        s
    };
    let mut what = String::from_str("no route accepted the last notification (");
    let d = dec_string(ago);
    what.append(d.as_str());
    what.append(" min ago");
    match &state.last_notify_error {
        Some(e) => {
            what.append(": ");
            what.append(e.as_str());
        },
        None => {},
    }
    what.append(")");
    what.append(" — ");
    what.append(ok_part.as_str());
    proof {
        let ok_spec = if state.last_notify_ok == 0 {
            "and none has ever arrived"@
        } else {
            "the last one that arrived was "@ + dec(((state.last_notify_failed - state.last_notify_ok) / 3600) as nat) + " h earlier"@
        };
        assert(ok_part@ == ok_spec);
        assert(ago == (if now >= state.last_notify_failed { now - state.last_notify_failed } else { 0 }) / 60);
        assert(findings_view(out@) =~= Seq::<FindingView>::empty());
        let err_part = match opt_string(state.last_notify_error) {
            Some(e) => ": "@ + e,
            None => Seq::<char>::empty(),
        };
        assert(what@ =~= "no route accepted the last notification ("@ + dec(ago as nat) + " min ago"@ + err_part + ")"@ + " — "@ + ok_spec);
    }
    push_finding(&mut out, Severity::Broken, String::from_str("notifications"), what, String::from_str(
        "check kyu on 10.10.10.9 and `notify_fallback_webhook` in host.toml — while this stands, every warning this host produces is going nowhere, including this one",
    ));
    proof {
        assert(findings_view(out@) =~= notify_findings(
            state.last_notify_ok,
            state.last_notify_failed,
            opt_string(state.last_notify_error),
            now,
        ));
    }
    out
}

// ── Half-applied stacks ─────────────────────────────────────────────────────

pub open spec fn incomplete_findings(stacks: Seq<(String, crate::state::StackState)>) -> Seq<FindingView>
    decreases stacks.len(),
{
    if stacks.len() == 0 {
        Seq::empty()
    } else {
        incomplete_findings(stacks.drop_last()) + match stacks.last().1.incomplete_step {
            Some(step) => seq![fv(Severity::Broken, stacks.last().0@,
                "its last deploy stopped at \""@ + step@ + "\" and never finished"@,
                "run the deploy again and watch that step — until it completes, what runs on the container and what the orchestrator has on record are two different things, and only the record drives drift detection and retention"@)],
            None => Seq::empty(),
        }
    }
}

proof fn lemma_incomplete_subjects(stacks: Seq<(String, StackState)>)
    requires
        crate::keyed::ascending(crate::state::stack_names(stacks)),
    ensures
        forall|i: int|
            0 <= i < incomplete_findings(stacks).len() ==> exists|k: int|
                0 <= k < stacks.len() && #[trigger] incomplete_findings(stacks)[i].subject == stacks[k].0@,
        forall|i: int, j: int|
            0 <= i < j < incomplete_findings(stacks).len() ==> crate::text::str_lt(
                #[trigger] incomplete_findings(stacks)[i].subject,
                #[trigger] incomplete_findings(stacks)[j].subject,
            ),
    decreases stacks.len(),
{
    if stacks.len() > 0 {
        let d = stacks.drop_last();
        assert(crate::keyed::ascending(crate::state::stack_names(d))) by {
            assert forall|i: int, j: int| 0 <= i < j < crate::state::stack_names(d).len() implies crate::text::str_lt(
                crate::state::stack_names(d)[i],
                crate::state::stack_names(d)[j],
            ) by {
                assert(crate::state::stack_names(d)[i] == crate::state::stack_names(stacks)[i]);
                assert(crate::state::stack_names(d)[j] == crate::state::stack_names(stacks)[j]);
            }
        }
        lemma_incomplete_subjects(d);
        let pre = incomplete_findings(d);
        let f = incomplete_findings(stacks);
        assert forall|i: int| 0 <= i < f.len() implies exists|k: int|
            0 <= k < stacks.len() && #[trigger] f[i].subject == stacks[k].0@ by {
            if i < pre.len() {
                assert(f[i] == pre[i]);
                let k = choose|k: int| 0 <= k < d.len() && pre[i].subject == d[k].0@;
                assert(d[k] == stacks[k]);
            } else {
                assert(f[i].subject == stacks[stacks.len() - 1].0@);
            }
        }
        assert forall|i: int, j: int| 0 <= i < j < f.len() implies crate::text::str_lt(
            #[trigger] f[i].subject,
            #[trigger] f[j].subject,
        ) by {
            if j < pre.len() {
                assert(f[i] == pre[i] && f[j] == pre[j]);
            } else {
                assert(f[i] == pre[i]);
                let k = choose|k: int| 0 <= k < d.len() && pre[i].subject == d[k].0@;
                assert(crate::state::stack_names(stacks)[k] == stacks[k].0@);
                assert(crate::state::stack_names(stacks)[stacks.len() - 1] == stacks[stacks.len() - 1].0@);
            }
        }
    }
}

/// The unfinished-deploy findings of a well-formed state come in strictly
/// ascending subject order, each naming a stack of the state.
pub proof fn law_incomplete_findings_in_subject_order(state: HostState)
    requires
        state.wf(),
    ensures
        forall|i: int, j: int|
            0 <= i < j < incomplete_findings(state.stacks@).len() ==> crate::text::str_lt(
                #[trigger] incomplete_findings(state.stacks@)[i].subject,
                #[trigger] incomplete_findings(state.stacks@)[j].subject,
            ),
{
    lemma_incomplete_subjects(state.stacks@);
}

/// A stack whose last deploy stopped halfway, reported out loud, naming the
/// step. In subject order: the stacks are kept in name order.
pub fn evaluate_incomplete(state: &HostState) -> (r: Vec<Finding>)
    ensures
        findings_view(r@) == incomplete_findings(state.stacks@),
{
    let mut out: Vec<Finding> = Vec::new();
    let mut i: usize = 0;
    while i < state.stacks.len()
        invariant
            i <= state.stacks.len(),
            findings_view(out@) == incomplete_findings(state.stacks@.take(i as int)),
        decreases state.stacks.len() - i,
    {
        proof {
            assert(state.stacks@.take(i + 1).drop_last() =~= state.stacks@.take(i as int));
        }
        let (name, st) = &state.stacks[i];
        let ghost o0 = findings_view(out@);
        if let Some(step) = &st.incomplete_step {
            let mut what = String::from_str("its last deploy stopped at \"");
            what.append(step.as_str());
            what.append("\" and never finished");
            push_finding(&mut out, Severity::Broken, name.clone(), what, String::from_str(
                "run the deploy again and watch that step — until it completes, what runs on the container and what the orchestrator has on record are two different things, and only the record drives drift detection and retention",
            ));
        }
        proof {
            assert(findings_view(out@) =~= incomplete_findings(state.stacks@.take(i + 1)));
        }
        i += 1;
    }
    proof {
        assert(state.stacks@.take(state.stacks.len() as int) =~= state.stacks@);
    }
    out
}

// ── Route probes ────────────────────────────────────────────────────────────

pub open spec fn all_digit_chars(s: Seq<char>) -> bool {
    forall|i: int| 0 <= i < s.len() ==> is_digit(#[trigger] s[i])
}

/// The address a route forwards to, as `host/port` for a TCP probe. A
/// target without a port gets the scheme's default; only a numeric tail is
/// a port, because an IPv6 literal has colons of its own.
pub open spec fn hostport(target: Seq<char>) -> Seq<char> {
    let (scheme, rest) = match split_once_str(target, "://"@) {
        Some((s, r)) => (s, r),
        None => (Seq::empty(), target),
    };
    let authority = before_first(rest, '/');
    match rsplit_once(authority, ':') {
        Some((host, port)) => if port.len() > 0 && all_digit_chars(port) {
            host + "/"@ + port
        } else {
            authority + "/"@ + if scheme == "https"@ {
                "443"@
            } else {
                "80"@
            }
        },
        None => authority + "/"@ + if scheme == "https"@ {
            "443"@
        } else {
            "80"@
        },
    }
}

fn all_digits_str(s: &str) -> (r: bool)
    ensures
        r == all_digit_chars(s@),
{
    let n = s.unicode_len();
    let mut i: usize = 0;
    while i < n
        invariant
            i <= n,
            n == s@.len(),
            forall|k: int| 0 <= k < i ==> is_digit(#[trigger] s@[k]),
        decreases n - i,
    {
        let c = s.get_char(i);
        if !('0' <= c && c <= '9') {
            return false;
        }
        i += 1;
    }
    true
}

pub fn probe_hostport(target: &str) -> (r: String)
    ensures
        r@ == hostport(target@),
{
    let (scheme, rest) = match str_split_once_str(target, "://") {
        Some((s, r)) => (s, r),
        None => ("", target),
    };
    proof {
        reveal_strlit("");
    }
    let authority = str_before_first(rest, '/');
    let https = str_eq(scheme, "https");
    if let Some((host, port)) = str_rsplit_once(authority, ':') {
        if port.unicode_len() > 0 && all_digits_str(port) {
            let mut s = String::from_str(host);
            s.append("/");
            s.append(port);
            return s;
        }
    }
    proof {
        let sp = match split_once_str(target@, "://"@) {
            Some((a, b)) => (a, b),
            None => (Seq::<char>::empty(), target@),
        };
        assert(sp.0 == scheme@);
        assert(sp.1 == rest@);
        assert(before_first(sp.1, '/') == authority@);
    }
    let mut s = String::from_str(authority);
    s.append("/");
    if https {
        s.append("443");
    } else {
        s.append("80");
    }
    s
}

// ── Boot policy ─────────────────────────────────────────────────────────────

/// The first boot fact for `vmid`.
pub open spec fn boot_fact_for(facts: Seq<BootFact>, vmid: u16) -> Option<BootFact>
    decreases facts.len(),
{
    if facts.len() == 0 {
        None
    } else if facts[0].vmid == vmid {
        Some(facts[0])
    } else {
        boot_fact_for(facts.drop_first(), vmid)
    }
}

pub open spec fn boot_one(name: Seq<char>, d: Seq<char>) -> FindingView {
    fv(Severity::Drift, name, d,
        if starts_with(d, "starts on boot"@) || starts_with(d, "boot order"@) {
            "a deploy puts the boot policy back; until then a reboot starts the fleet in the wrong order"@
        } else {
            "raise it with `homelab resize`, or lower it by rebuilding the container — a deploy deliberately does not change resources under a running service"@
        })
}

pub open spec fn boot_all(name: Seq<char>, ds: Seq<Seq<char>>) -> Seq<FindingView> {
    ds.map_values(|d: Seq<char>| boot_one(name, d))
}

pub open spec fn boot_findings(stacks: Seq<(String, crate::state::StackState)>, facts: Seq<BootFact>) -> Seq<FindingView>
    decreases stacks.len(),
{
    if stacks.len() == 0 {
        Seq::empty()
    } else {
        let (name, st) = stacks.last();
        boot_findings(stacks.drop_last(), facts) + match st.manifest {
            Some(m) => match boot_fact_for(facts, st.vmid) {
                Some(fact) => boot_all(name@, divergences_of(
                    m.boot.onboot,
                    m.boot.order,
                    m.resources.memory_mb,
                    m.resources.cores,
                    fact.live,
                )),
                None => Seq::empty(),
            },
            None => Seq::empty(),
        }
    }
}

fn find_boot_fact(facts: &[BootFact], vmid: u16) -> (r: Option<&BootFact>)
    ensures
        match r {
            Some(f) => boot_fact_for(facts@, vmid) == Some(*f),
            None => boot_fact_for(facts@, vmid) is None,
        },
{
    let mut i: usize = 0;
    proof {
        assert(facts@.subrange(0, facts@.len() as int) =~= facts@);
    }
    while i < facts.len()
        invariant
            i <= facts.len(),
            boot_fact_for(facts@, vmid) == boot_fact_for(facts@.subrange(i as int, facts@.len() as int), vmid),
        decreases facts.len() - i,
    {
        proof {
            assert(facts@.subrange(i as int, facts@.len() as int).drop_first() =~= facts@.subrange(
                i + 1,
                facts@.len() as int,
            ));
        }
        if facts[i].vmid == vmid {
            return Some(&facts[i]);
        }
        i += 1;
    }
    None
}

fn boot_push_all(name: &String, ds: Vec<String>, out: &mut Vec<Finding>)
    ensures
        findings_view(final(out)@) == findings_view(old(out)@) + boot_all(name@, string_views(ds@)),
{
    let ghost o0 = findings_view(out@);
    let mut i: usize = 0;
    while i < ds.len()
        invariant
            i <= ds.len(),
            findings_view(out@) == o0 + boot_all(name@, string_views(ds@.take(i as int))),
        decreases ds.len() - i,
    {
        let d = &ds[i];
        let boot_related = str_starts_with(d.as_str(), "starts on boot") || str_starts_with(
            d.as_str(),
            "boot order",
        );
        let remedy = if boot_related {
            String::from_str(
                "a deploy puts the boot policy back; until then a reboot starts the fleet in the wrong order",
            )
        } else {
            String::from_str(
                "raise it with `homelab resize`, or lower it by rebuilding the container — a deploy deliberately does not change resources under a running service",
            )
        };
        push_finding(out, Severity::Drift, name.clone(), d.clone(), remedy);
        proof {
            assert(boot_all(name@, string_views(ds@.take(i + 1))) =~= boot_all(
                name@,
                string_views(ds@.take(i as int)),
            ).push(boot_one(name@, ds@[i as int]@)));
        }
        i += 1;
    }
    proof {
        assert(ds@.take(ds.len() as int) =~= ds@);
    }
}

/// A container whose boot policy or resources no longer match its stack
/// file. A stack whose record carries no manifest is skipped rather than
/// guessed at.
pub fn evaluate_boot(state: &HostState, facts: &[BootFact]) -> (r: Vec<Finding>)
    ensures
        findings_view(r@) == boot_findings(state.stacks@, facts@),
{
    let mut out: Vec<Finding> = Vec::new();
    let mut i: usize = 0;
    while i < state.stacks.len()
        invariant
            i <= state.stacks.len(),
            findings_view(out@) == boot_findings(state.stacks@.take(i as int), facts@),
        decreases state.stacks.len() - i,
    {
        proof {
            assert(state.stacks@.take(i + 1).drop_last() =~= state.stacks@.take(i as int));
        }
        let (name, st) = &state.stacks[i];
        let ghost o0 = findings_view(out@);
        if let Some(m) = &st.manifest {
            if let Some(fact) = find_boot_fact(facts, st.vmid) {
                let ds = divergences(m, &fact.live);
                boot_push_all(name, ds, &mut out);
            }
        }
        proof {
            assert(findings_view(out@) =~= boot_findings(state.stacks@.take(i + 1), facts@));
        }
        i += 1;
    }
    proof {
        assert(state.stacks@.take(state.stacks.len() as int) =~= state.stacks@);
    }
    out
}

// ── The whole comparison ────────────────────────────────────────────────────

/// Why the host itself cannot help, when it cannot: more memory promised to
/// guests than it has, or half its swap or more in use.
pub open spec fn host_shortage(m: Option<(u32, u32, u32, u32)>) -> Option<Seq<char>> {
    match m {
        Some((total, committed, su, st)) => {
            let oversubscribed = committed > total;
            let swap_pressed = st > 0 && (su as int) * 100 / (if st >= 1 { st as int } else { 1 }) >= 50;
            if oversubscribed || swap_pressed {
                Some("the host has "@ + dec(total as nat) + " MB of RAM with "@ + dec(committed as nat)
                    + " MB promised to guests, and "@ + dec(su as nat) + " of its "@ + dec(st as nat)
                    + " MB of swap in use"@)
            } else {
                None
            }
        },
        None => None,
    }
}

fn host_short_of(m: Option<(u32, u32, u32, u32)>) -> (r: Option<String>)
    ensures
        opt_string(r) == host_shortage(m),
{
    match m {
        Some((total, committed, su, st)) => {
            let oversubscribed = committed > total;
            let denom: u64 = if st >= 1 { st as u64 } else { 1 };
            let swap_pressed = st > 0 && (su as u64) * 100 / denom >= 50;
            if oversubscribed || swap_pressed {
                let mut s = String::from_str("the host has ");
                let d = dec_string(total as u64);
                s.append(d.as_str());
                s.append(" MB of RAM with ");
                let d = dec_string(committed as u64);
                s.append(d.as_str());
                s.append(" MB promised to guests, and ");
                let d = dec_string(su as u64);
                s.append(d.as_str());
                s.append(" of its ");
                let d = dec_string(st as u64);
                s.append(d.as_str());
                s.append(" MB of swap in use");
                Some(s)
            } else {
                None
            }
        },
        None => None,
    }
}

pub open spec fn has_container(cs: Seq<(u16, String)>, vmid: u16) -> bool {
    exists|k: int| 0 <= k < cs.len() && cs[k].0 == vmid
}

/// The hostname of the first container with `vmid`.
pub open spec fn container_host(cs: Seq<(u16, String)>, vmid: u16) -> Option<Seq<char>>
    decreases cs.len(),
{
    if cs.len() == 0 {
        None
    } else if cs[0].0 == vmid {
        Some(cs[0].1@)
    } else {
        container_host(cs.drop_first(), vmid)
    }
}

proof fn lemma_container_host(cs: Seq<(u16, String)>, vmid: u16)
    ensures
        container_host(cs, vmid) is Some <==> has_container(cs, vmid),
    decreases cs.len(),
{
    if cs.len() > 0 {
        lemma_container_host(cs.drop_first(), vmid);
        if has_container(cs, vmid) && cs[0].0 != vmid {
            let k = choose|k: int| 0 <= k < cs.len() && cs[k].0 == vmid;
            assert(cs.drop_first()[k - 1].0 == vmid);
        }
        if has_container(cs.drop_first(), vmid) {
            let k = choose|k: int| 0 <= k < cs.len() - 1 && cs.drop_first()[k].0 == vmid;
            assert(cs[k + 1].0 == vmid);
        }
    }
}

fn find_container(cs: &Vec<(u16, String)>, vmid: u16) -> (r: Option<&String>)
    ensures
        match r {
            Some(h) => container_host(cs@, vmid) == Some(h@),
            None => container_host(cs@, vmid) is None,
        },
{
    let mut i: usize = 0;
    proof {
        assert(cs@.subrange(0, cs@.len() as int) =~= cs@);
    }
    while i < cs.len()
        invariant
            i <= cs.len(),
            container_host(cs@, vmid) == container_host(cs@.subrange(i as int, cs@.len() as int), vmid),
        decreases cs.len() - i,
    {
        proof {
            assert(cs@.subrange(i as int, cs@.len() as int).drop_first() =~= cs@.subrange(i + 1, cs@.len() as int));
        }
        if cs[i].0 == vmid {
            return Some(&cs[i].1);
        }
        i += 1;
    }
    None
}

fn container_exists(cs: &Vec<(u16, String)>, vmid: u16) -> (r: bool)
    ensures
        r == has_container(cs@, vmid),
{
    proof {
        lemma_container_host(cs@, vmid);
    }
    find_container(cs, vmid).is_some()
}

/// The vmid of the template a stack clones, when its template names one.
pub open spec fn cloned_template(template: Seq<char>) -> Option<u16> {
    match strip_prefix(trim_end_char(trim_start_char(template, '"'), '"'), "clone:"@) {
        Some(rest) => match parse_unsigned(trimmed(rest), 65535) {
            Some(v) => Some(v as u16),
            None => None,
        },
        None => None,
    }
}

pub open spec fn template_one(name: Seq<char>, st: StackState, cs: Seq<(u16, String)>) -> Seq<FindingView> {
    match st.manifest {
        Some(m) => match cloned_template(m.lxc.template@) {
            Some(tv) => if !has_container(cs, tv) {
                seq![fv(Severity::Broken, name, "clones template "@ + dec(tv as nat) + ", which does not exist on the hypervisor"@,
                    "point "@ + name + "'s lxc.template at a golden template that is there, or rebuild "@ + dec(tv as nat) + " with `homelab template-build`"@)]
            } else {
                Seq::empty()
            },
            None => Seq::empty(),
        },
        None => Seq::empty(),
    }
}

pub open spec fn mounts_unkept(name: Seq<char>, ms: Seq<MountSpec>) -> Seq<FindingView>
    decreases ms.len(),
{
    if ms.len() == 0 {
        Seq::empty()
    } else {
        mounts_unkept(name, ms.drop_last()) + match ms.last().no_backup {
            Some(why) => seq![fv(Severity::Noted, name, ms.last().host_path@ + " is deliberately not backed up — "@ + why@,
                "nothing to do; listed so a deliberate gap never looks like a forgotten one"@)],
            None => Seq::empty(),
        }
    }
}

/// Every mount holds nothing or is declared reproducible.
pub open spec fn keeps_nothing(st: StackState) -> bool {
    match st.manifest {
        Some(m) => m.storage@.len() > 0 && forall|k: int| 0 <= k < m.storage@.len() ==> (#[trigger] m.storage@[k]).no_data || m.storage@[k].no_backup is Some,
        None => false,
    }
}

pub open spec fn record_one(name: Seq<char>, st: StackState, cs: Seq<(u16, String)>) -> Seq<FindingView> {
    (match container_host(cs, st.vmid) {
        None => seq![fv(Severity::Broken, name, "recorded on vmid "@ + dec(st.vmid as nat) + ", which does not exist"@,
            "the container was removed outside the orchestrator — redeploy it, or remove the stack from host state"@)],
        Some(h) => if h != st.hostname@ {
            seq![fv(Severity::Broken, name, "recorded as '"@ + st.hostname@ + "' but vmid "@ + dec(st.vmid as nat) + " is really '"@ + h
                + "' — every operation on this stack fails the hostname guard"@,
                "re-adopt or redeploy the stack so its record matches the container; this is how kyu's backup stopped for eight weeks"@)]
        } else {
            Seq::empty()
        },
    }) + if !st.enabled {
        seq![fv(Severity::Broken, name, "disabled — the nightly run skips it entirely"@,
            "a failed nightly run auto-disables a stack (H8); fix the cause, then `homelab enable "@ + name + "`"@)]
    } else {
        Seq::empty()
    }
}

pub open spec fn backup_one(name: Seq<char>, st: StackState, now: u64, max_age: u64) -> Seq<FindingView> {
    let age = if now >= st.last_backup { now - st.last_backup } else { 0 };
    (match st.manifest {
        Some(m) => mounts_unkept(name, m.storage@),
        None => Seq::empty(),
    }) + if keeps_nothing(st) {
        Seq::empty()
    } else if st.last_backup == 0 {
        seq![fv(Severity::Broken, name, "has never been backed up"@, "run a backup now and check why the nightly one never did"@)]
    } else if age > max_age {
        seq![fv(Severity::Broken, name, "last backup was "@ + dec((age / 3600) as nat) + " hours ago"@, "check the nightly run and the backup target"@)]
    } else {
        Seq::empty()
    }
}

pub open spec fn template_findings(stacks: Seq<(String, StackState)>, cs: Seq<(u16, String)>) -> Seq<FindingView>
    decreases stacks.len(),
{
    if stacks.len() == 0 {
        Seq::empty()
    } else {
        template_findings(stacks.drop_last(), cs) + template_one(stacks.last().0@, stacks.last().1, cs)
    }
}

pub open spec fn stack_findings(stacks: Seq<(String, StackState)>, cs: Seq<(u16, String)>, now: u64, max_age: u64) -> Seq<FindingView>
    decreases stacks.len(),
{
    if stacks.len() == 0 {
        Seq::empty()
    } else {
        stack_findings(stacks.drop_last(), cs, now, max_age) + record_one(stacks.last().0@, stacks.last().1, cs)
            + backup_one(stacks.last().0@, stacks.last().1, now, max_age)
    }
}

pub open spec fn owned_by_state(stacks: Seq<(String, StackState)>, vmid: u16) -> bool {
    exists|k: int| 0 <= k < stacks.len() && stacks[k].1.vmid == vmid
}

pub open spec fn stray_files(files: Seq<(String, u16)>, stacks: Seq<(String, StackState)>, cs: Seq<(u16, String)>) -> Seq<FindingView>
    decreases files.len(),
{
    if files.len() == 0 {
        Seq::empty()
    } else {
        let (dir, vmid) = files.last();
        stray_files(files.drop_last(), stacks, cs) + if has_container(cs, vmid) && !owned_by_state(stacks, vmid) {
            seq![fv(Severity::Drift, dir@, "claims vmid "@ + dec(vmid as nat) + ", which is a live container this orchestrator does not manage"@,
                "only the hostname guard stands between this file and a deploy onto that container — delete the file or point it at a free vmid"@)]
        } else {
            Seq::empty()
        }
    }
}

pub open spec fn dead_routes(routes: Seq<RouteFact>) -> Seq<FindingView>
    decreases routes.len(),
{
    if routes.len() == 0 {
        Seq::empty()
    } else {
        dead_routes(routes.drop_last()) + if !routes.last().answered {
            seq![fv(Severity::Broken, routes.last().file@, "routes to "@ + routes.last().target@ + ", where nothing answers"@,
                "fix the address or delete the route; a dead route is only found when someone needs it"@)]
        } else {
            Seq::empty()
        }
    }
}

/// The whole comparison.
pub open spec fn fleet_findings(state: HostState, live: LiveFacts, now: u64, max_age: u64, lim: GrowthLimits) -> Seq<FindingView> {
    template_findings(state.stacks@, live.containers@)
        + stack_findings(state.stacks@, live.containers@, now, max_age)
        + stray_files(live.stack_files@, state.stacks@, live.containers@)
        + growth_findings(live.growth@, lim, host_shortage(live.host_memory))
        + coverage_findings(live.coverage@)
        + boot_findings(state.stacks@, live.boot@)
        + watched_findings(live.watched_backups@)
        + incomplete_findings(state.stacks@)
        + notify_findings(state.last_notify_ok, state.last_notify_failed, opt_string(state.last_notify_error), now)
        + manual_findings(state, now, DEFAULT_ANSWER_MAX_AGE_S)
        + dead_routes(live.routes@)
}

fn template_check(name: &String, st: &StackState, cs: &Vec<(u16, String)>, out: &mut Vec<Finding>)
    ensures
        findings_view(final(out)@) == findings_view(old(out)@) + template_one(name@, *st, cs@),
{
    let ghost o0 = findings_view(out@);
    if let Some(m) = &st.manifest {
        let t = str_trim_end_char(str_trim_start_char(m.lxc.template.as_str(), '"'), '"');
        if let Some(rest) = str_strip_prefix(t, "clone:") {
            if let Some(v) = parse_uint(trim(rest), 65535) {
                let tv = v as u16;
                if !container_exists(cs, tv) {
                    let mut what = String::from_str("clones template ");
                    let d = dec_string(tv as u64);
                    what.append(d.as_str());
                    what.append(", which does not exist on the hypervisor");
                    let mut remedy = String::from_str("point ");
                    remedy.append(name.as_str());
                    remedy.append("'s lxc.template at a golden template that is there, or rebuild ");
                    remedy.append(d.as_str());
                    remedy.append(" with `homelab template-build`");
                    push_finding(out, Severity::Broken, name.clone(), what, remedy);
                }
            }
        }
    }
    proof {
        assert(findings_view(out@) =~= o0 + template_one(name@, *st, cs@));
    }
}

fn record_check(name: &String, st: &StackState, cs: &Vec<(u16, String)>, out: &mut Vec<Finding>)
    ensures
        findings_view(final(out)@) == findings_view(old(out)@) + record_one(name@, *st, cs@),
{
    let ghost o0 = findings_view(out@);
    match find_container(cs, st.vmid) {
        None => {
            let mut what = String::from_str("recorded on vmid ");
            let d = dec_string(st.vmid as u64);
            what.append(d.as_str());
            what.append(", which does not exist");
            push_finding(out, Severity::Broken, name.clone(), what, String::from_str(
                "the container was removed outside the orchestrator — redeploy it, or remove the stack from host state",
            ));
        },
        Some(h) => {
            if !str_eq(h.as_str(), st.hostname.as_str()) {
                let mut what = String::from_str("recorded as '");
                what.append(st.hostname.as_str());
                what.append("' but vmid ");
                let d = dec_string(st.vmid as u64);
                what.append(d.as_str());
                what.append(" is really '");
                what.append(h.as_str());
                what.append("' — every operation on this stack fails the hostname guard");
                push_finding(out, Severity::Broken, name.clone(), what, String::from_str(
                    "re-adopt or redeploy the stack so its record matches the container; this is how kyu's backup stopped for eight weeks",
                ));
            }
        },
    }
    let ghost o1 = findings_view(out@);
    if !st.enabled {
        let mut remedy = String::from_str("a failed nightly run auto-disables a stack (H8); fix the cause, then `homelab enable ");
        remedy.append(name.as_str());
        remedy.append("`");
        push_finding(out, Severity::Broken, name.clone(), String::from_str(
            "disabled — the nightly run skips it entirely",
        ), remedy);
    }
    proof {
        assert(findings_view(out@) =~= o0 + record_one(name@, *st, cs@));
    }
}

fn unkept_check(name: &String, ms: &Vec<MountSpec>, out: &mut Vec<Finding>)
    ensures
        findings_view(final(out)@) == findings_view(old(out)@) + mounts_unkept(name@, ms@),
{
    let ghost o0 = findings_view(out@);
    let mut i: usize = 0;
    while i < ms.len()
        invariant
            i <= ms.len(),
            findings_view(out@) == o0 + mounts_unkept(name@, ms@.take(i as int)),
        decreases ms.len() - i,
    {
        proof {
            assert(ms@.take(i + 1).drop_last() =~= ms@.take(i as int));
        }
        let ghost o1 = findings_view(out@);
        if let Some(why) = &ms[i].no_backup {
            let mut what = ms[i].host_path.clone();
            what.append(" is deliberately not backed up — ");
            what.append(why.as_str());
            push_finding(out, Severity::Noted, name.clone(), what, String::from_str(
                "nothing to do; listed so a deliberate gap never looks like a forgotten one",
            ));
        }
        proof {
            assert(findings_view(out@) =~= o0 + mounts_unkept(name@, ms@.take(i + 1)));
        }
        i += 1;
    }
    proof {
        assert(ms@.take(ms.len() as int) =~= ms@);
    }
}

fn keeps_nothing_exec(st: &StackState) -> (r: bool)
    ensures
        r == keeps_nothing(*st),
{
    match &st.manifest {
        Some(m) => {
            if m.storage.len() == 0 {
                return false;
            }
            let mut i: usize = 0;
            while i < m.storage.len()
                invariant
                    i <= m.storage.len(),
                    st.manifest == Some(*m),
                    forall|k: int| 0 <= k < i ==> (#[trigger] m.storage@[k]).no_data || m.storage@[k].no_backup is Some,
                decreases m.storage.len() - i,
            {
                if !(m.storage[i].no_data || m.storage[i].no_backup.is_some()) {
                    proof {
                        assert(!(m.storage@[i as int].no_data || m.storage@[i as int].no_backup is Some));
                    }
                    return false;
                }
                i += 1;
            }
            true
        },
        None => false,
    }
}

fn backup_check(name: &String, st: &StackState, now: u64, max_age: u64, out: &mut Vec<Finding>)
    ensures
        findings_view(final(out)@) == findings_view(old(out)@) + backup_one(name@, *st, now, max_age),
{
    let ghost o0 = findings_view(out@);
    let age = if now >= st.last_backup { now - st.last_backup } else { 0 };
    if let Some(m) = &st.manifest {
        unkept_check(name, &m.storage, out);
    }
    let ghost o1 = findings_view(out@);
    if keeps_nothing_exec(st) {
    } else if st.last_backup == 0 {
        push_finding(out, Severity::Broken, name.clone(), String::from_str("has never been backed up"), String::from_str(
            "run a backup now and check why the nightly one never did",
        ));
    } else if age > max_age {
        let mut what = String::from_str("last backup was ");
        let d = dec_string(age / 3600);
        what.append(d.as_str());
        what.append(" hours ago");
        push_finding(out, Severity::Broken, name.clone(), what, String::from_str(
            "check the nightly run and the backup target",
        ));
    }
    proof {
        assert(findings_view(out@) =~= o0 + backup_one(name@, *st, now, max_age));
    }
}

fn stacks_check(stacks: &Vec<(String, StackState)>, cs: &Vec<(u16, String)>, now: u64, max_age: u64, out: &mut Vec<Finding>)
    ensures
        findings_view(final(out)@) == findings_view(old(out)@) + template_findings(stacks@, cs@) + stack_findings(stacks@, cs@, now, max_age),
{
    let ghost o0 = findings_view(out@);
    let mut i: usize = 0;
    while i < stacks.len()
        invariant
            i <= stacks.len(),
            findings_view(out@) == o0 + template_findings(stacks@.take(i as int), cs@),
        decreases stacks.len() - i,
    {
        proof {
            assert(stacks@.take(i + 1).drop_last() =~= stacks@.take(i as int));
        }
        template_check(&stacks[i].0, &stacks[i].1, cs, out);
        proof {
            assert(findings_view(out@) =~= o0 + template_findings(stacks@.take(i + 1), cs@));
        }
        i += 1;
    }
    proof {
        assert(stacks@.take(stacks.len() as int) =~= stacks@);
    }
    let ghost o1 = findings_view(out@);
    let mut i: usize = 0;
    while i < stacks.len()
        invariant
            i <= stacks.len(),
            findings_view(out@) == o1 + stack_findings(stacks@.take(i as int), cs@, now, max_age),
        decreases stacks.len() - i,
    {
        proof {
            assert(stacks@.take(i + 1).drop_last() =~= stacks@.take(i as int));
        }
        record_check(&stacks[i].0, &stacks[i].1, cs, out);
        backup_check(&stacks[i].0, &stacks[i].1, now, max_age, out);
        proof {
            assert(findings_view(out@) =~= o1 + stack_findings(stacks@.take(i + 1), cs@, now, max_age));
        }
        i += 1;
    }
    proof {
        assert(stacks@.take(stacks.len() as int) =~= stacks@);
    }
}

fn owned_exec(stacks: &Vec<(String, StackState)>, vmid: u16) -> (r: bool)
    ensures
        r == owned_by_state(stacks@, vmid),
{
    let mut i: usize = 0;
    while i < stacks.len()
        invariant
            i <= stacks.len(),
            forall|k: int| 0 <= k < i ==> stacks@[k].1.vmid != vmid,
        decreases stacks.len() - i,
    {
        if stacks[i].1.vmid == vmid {
            return true;
        }
        i += 1;
    }
    false
}

fn stray_check(files: &Vec<(String, u16)>, stacks: &Vec<(String, StackState)>, cs: &Vec<(u16, String)>, out: &mut Vec<Finding>)
    ensures
        findings_view(final(out)@) == findings_view(old(out)@) + stray_files(files@, stacks@, cs@),
{
    let ghost o0 = findings_view(out@);
    let mut i: usize = 0;
    while i < files.len()
        invariant
            i <= files.len(),
            findings_view(out@) == o0 + stray_files(files@.take(i as int), stacks@, cs@),
        decreases files.len() - i,
    {
        proof {
            assert(files@.take(i + 1).drop_last() =~= files@.take(i as int));
        }
        let (dir, vmid) = &files[i];
        let ghost o1 = findings_view(out@);
        if container_exists(cs, *vmid) && !owned_exec(stacks, *vmid) {
            let mut what = String::from_str("claims vmid ");
            let d = dec_string(*vmid as u64);
            what.append(d.as_str());
            what.append(", which is a live container this orchestrator does not manage");
            push_finding(out, Severity::Drift, dir.clone(), what, String::from_str(
                "only the hostname guard stands between this file and a deploy onto that container — delete the file or point it at a free vmid",
            ));
        }
        proof {
            assert(findings_view(out@) =~= o0 + stray_files(files@.take(i + 1), stacks@, cs@));
        }
        i += 1;
    }
    proof {
        assert(files@.take(files.len() as int) =~= files@);
    }
}

fn routes_check(routes: &Vec<RouteFact>, out: &mut Vec<Finding>)
    ensures
        findings_view(final(out)@) == findings_view(old(out)@) + dead_routes(routes@),
{
    let ghost o0 = findings_view(out@);
    let mut i: usize = 0;
    while i < routes.len()
        invariant
            i <= routes.len(),
            findings_view(out@) == o0 + dead_routes(routes@.take(i as int)),
        decreases routes.len() - i,
    {
        proof {
            assert(routes@.take(i + 1).drop_last() =~= routes@.take(i as int));
        }
        let r = &routes[i];
        if !r.answered {
            let mut what = String::from_str("routes to ");
            what.append(r.target.as_str());
            what.append(", where nothing answers");
            push_finding(out, Severity::Broken, r.file.clone(), what, String::from_str(
                "fix the address or delete the route; a dead route is only found when someone needs it",
            ));
        }
        proof {
            assert(findings_view(out@) =~= o0 + dead_routes(routes@.take(i + 1)));
        }
        i += 1;
    }
    proof {
        assert(routes@.take(routes.len() as int) =~= routes@);
    }
}

/// The whole comparison, as one pure function: recorded stacks against the
/// containers that exist, stack files against what they claim, and every
/// per-container and per-stack check after that.
pub fn evaluate(
    state: &HostState,
    live: &LiveFacts,
    now_unix: u64,
    backup_max_age_s: u64,
    growth_limits: GrowthLimits,
) -> (r: Vec<Finding>)
    ensures
        findings_view(r@) == fleet_findings(*state, *live, now_unix, backup_max_age_s, growth_limits),
{
    let mut out: Vec<Finding> = Vec::new();
    let host_short = host_short_of(live.host_memory);
    proof {
        assert(findings_view(out@) =~= Seq::<FindingView>::empty());
    }
    stacks_check(&state.stacks, &live.containers, now_unix, backup_max_age_s, &mut out);
    stray_check(&live.stack_files, &state.stacks, &live.containers, &mut out);
    let hs: Option<&str> = match &host_short {
        Some(h) => Some(h.as_str()),
        None => None,
    };
    append_findings(&mut out, evaluate_growth(live.growth.as_slice(), growth_limits, hs));
    append_findings(&mut out, evaluate_coverage(live.coverage.as_slice()));
    append_findings(&mut out, evaluate_boot(state, live.boot.as_slice()));
    append_findings(&mut out, evaluate_watched_backups(live.watched_backups.as_slice()));
    append_findings(&mut out, evaluate_incomplete(state));
    append_findings(&mut out, evaluate_notify(state, now_unix));
    append_findings(&mut out, evaluate_manual(state, now_unix, DEFAULT_ANSWER_MAX_AGE_S));
    routes_check(&live.routes, &mut out);
    proof {
        assert(opt_str(hs) == host_shortage(live.host_memory));
        assert(findings_view(out@) =~= fleet_findings(*state, *live, now_unix, backup_max_age_s, growth_limits));
    }
    out
}

} // verus!

verus! {

/// A watched backup needs attention: its listing failed, it holds nothing,
/// or its newest file is older than allowed.
pub open spec fn watched_failing(f: WatchedBackupFact) -> bool {
    f.error is Some || f.newest_age_s is None || (f.newest_age_s matches Some(a) && a > f.max_age_s)
}

pub open spec fn watched_failing_count(facts: Seq<WatchedBackupFact>) -> int
    decreases facts.len(),
{
    if facts.len() == 0 {
        0
    } else {
        watched_failing_count(facts.drop_last()) + if watched_failing(facts.last()) { 1int } else { 0int }
    }
}

/// One Broken finding per watched backup that needs attention, naming it,
/// and none for one that is fresh.
pub proof fn law_one_finding_per_failing_backup(facts: Seq<WatchedBackupFact>)
    ensures
        watched_findings(facts).len() == watched_failing_count(facts),
        forall|k: int| 0 <= k < watched_findings(facts).len() ==> (#[trigger] watched_findings(facts)[k]).severity
            == Severity::Broken && exists|j: int| 0 <= j < facts.len() && watched_findings(facts)[k].subject == facts[j].name@,
    decreases facts.len(),
{
    if facts.len() > 0 {
        let init = facts.drop_last();
        law_one_finding_per_failing_backup(init);
        let a = watched_findings(init);
        let b = watched_one(facts.last());
        assert(watched_findings(facts) == a + b);
        assert forall|k: int| 0 <= k < watched_findings(facts).len() implies (#[trigger] watched_findings(facts)[k]).severity
            == Severity::Broken && exists|j: int| 0 <= j < facts.len() && watched_findings(facts)[k].subject == facts[j].name@ by {
            if k < a.len() {
                assert(watched_findings(facts)[k] == a[k]);
                let j = choose|j: int| 0 <= j < init.len() && a[k].subject == init[j].name@;
                assert(init[j] == facts[j]);
            } else {
                assert(watched_findings(facts)[k] == b[k - a.len()]);
                assert(facts[facts.len() - 1] == facts.last());
            }
        }
    }
}

} // verus!

verus! {

/// The stale-backup finding for a stack, as the report words it.
pub open spec fn stale_backup_finding(name: Seq<char>, age_s: int) -> FindingView {
    fv(Severity::Broken, name, "last backup was "@ + dec((age_s / 3600) as nat) + " hours ago"@,
        "check the nightly run and the backup target"@)
}

proof fn lemma_stack_findings_keep_backup(stacks: Seq<(String, StackState)>, cs: Seq<(u16, String)>, now: u64, max_age: u64, k: int, j: int)
    requires
        0 <= k < stacks.len(),
        0 <= j < backup_one(stacks[k].0@, stacks[k].1, now, max_age).len(),
    ensures
        stack_findings(stacks, cs, now, max_age).contains(backup_one(stacks[k].0@, stacks[k].1, now, max_age)[j]),
    decreases stacks.len(),
{
    let pre = stacks.drop_last();
    let a = stack_findings(pre, cs, now, max_age);
    let r = record_one(stacks.last().0@, stacks.last().1, cs);
    let b = backup_one(stacks.last().0@, stacks.last().1, now, max_age);
    assert(stack_findings(stacks, cs, now, max_age) == a + r + b);
    if k == stacks.len() - 1 {
        assert((a + r + b)[a.len() + r.len() + j] == b[j]);
    } else {
        assert(pre[k] == stacks[k]);
        lemma_stack_findings_keep_backup(pre, cs, now, max_age, k, j);
        let i = choose|i: int| 0 <= i < a.len() && a[i] == backup_one(stacks[k].0@, stacks[k].1, now, max_age)[j];
        assert((a + r + b)[i] == a[i]);
    }
}

/// A stack that keeps data and was backed up before is reported stale
/// exactly when its last backup is more than `max_age` seconds old, both
/// measured in seconds (a backup time ahead of `now` counts as age zero): the fleet check then holds the Broken finding
/// "last backup was <hours> hours ago" about it, and the stack's own
/// backup findings hold no such line otherwise.
pub proof fn law_stale_backup_reported_in_seconds(
    state: HostState,
    live: LiveFacts,
    now: u64,
    max_age: u64,
    lim: GrowthLimits,
    k: int,
)
    requires
        0 <= k < state.stacks@.len(),
        !keeps_nothing(state.stacks@[k].1),
        state.stacks@[k].1.last_backup != 0,
    ensures
        ({
            let name = state.stacks@[k].0@;
            let st = state.stacks@[k].1;
            let age: int = if now >= st.last_backup { now - st.last_backup } else { 0 };
            &&& age > max_age ==> fleet_findings(state, live, now, max_age, lim).contains(stale_backup_finding(name, age))
            &&& age <= max_age ==> !exists|i: int| 0 <= i < backup_one(name, st, now, max_age).len()
                && (#[trigger] backup_one(name, st, now, max_age)[i]).severity == Severity::Broken
                && starts_with(backup_one(name, st, now, max_age)[i].what, "last backup was "@)
        }),
{
    let name = state.stacks@[k].0@;
    let st = state.stacks@[k].1;
    let age: int = if now >= st.last_backup { now - st.last_backup } else { 0 };
    let pre = match st.manifest {
        Some(m) => mounts_unkept(name, m.storage@),
        None => Seq::empty(),
    };
    let b = backup_one(name, st, now, max_age);
    assert(b == pre + if keeps_nothing(st) {
        Seq::empty()
    } else if st.last_backup == 0 {
        seq![fv(Severity::Broken, name, "has never been backed up"@, "run a backup now and check why the nightly one never did"@)]
    } else if age > max_age {
        seq![stale_backup_finding(name, age)]
    } else {
        Seq::empty()
    });
    if age > max_age {
        assert(b[pre.len() as int] == stale_backup_finding(name, age));
        lemma_stack_findings_keep_backup(state.stacks@, live.containers@, now, max_age, k, pre.len() as int);
        let sf = stack_findings(state.stacks@, live.containers@, now, max_age);
        let i = choose|i: int| 0 <= i < sf.len() && sf[i] == stale_backup_finding(name, age);
        let t = template_findings(state.stacks@, live.containers@);
        assert(fleet_findings(state, live, now, max_age, lim)[t.len() + i] == sf[i]);
    } else {
        assert(b =~= pre);
        lemma_unkept_noted(name, match st.manifest { Some(m) => m.storage@, None => Seq::empty() });
    }
}

proof fn lemma_unkept_noted(name: Seq<char>, ms: Seq<MountSpec>)
    ensures
        forall|i: int| 0 <= i < mounts_unkept(name, ms).len() ==> (#[trigger] mounts_unkept(name, ms)[i]).severity == Severity::Noted,
    decreases ms.len(),
{
    if ms.len() > 0 {
        lemma_unkept_noted(name, ms.drop_last());
    }
}

} // verus!
