//! Live resize: RAM and cores change on a running container; disk only
//! grows. Shrinking RAM or cores is refused while the container runs, and
//! shrinking a disk is refused always. What the resize reads from the
//! container's config, and what it decides to apply, lives here.

use vstd::prelude::*;
use vstd::string::*;
use crate::error::CoreError;
use crate::executor::{ended_on_failure, run_ok, run_request, Cmd, CmdOutput, Executor, OutputView, Request};
use crate::manifest::{app_problems, validate_manifest, StackManifest};
use crate::runner::{Journal, OperationReport, Runner, StepOutcome};
use crate::safety::{config_hostname, contains_vmid, first_starting, live_hostname, SafetyConfig};
use crate::sink::{Level, Sink};
use crate::text::{
    contains, str_contains, str_eq, string_views,
    before_first, dec, dec_string, lines, lines_of, parse_uint, parse_unsigned, split_once,
    split_once_str, str_before_first, str_split_once, str_split_once_str, str_starts_with, trim,
    trimmed, views,
};

verus! {

fn first_with_prefix<'a>(ls: &Vec<&'a str>, p: &str) -> (r: Option<&'a str>)
    ensures
        match r {
            Some(l) => first_starting(views(ls@), p@) == Some(l@),
            None => first_starting(views(ls@), p@) is None,
        },
{
    let ghost lv = views(ls@);
    let mut i: usize = 0;
    proof {
        assert(lv.subrange(0, lv.len() as int) =~= lv);
    }
    while i < ls.len()
        invariant
            i <= ls.len(),
            lv == views(ls@),
            first_starting(lv, p@) == first_starting(lv.subrange(i as int, lv.len() as int), p@),
        decreases ls.len() - i,
    {
        proof {
            assert(lv.subrange(i as int, lv.len() as int).drop_first() =~= lv.subrange(i + 1, lv.len() as int));
            assert(lv.subrange(i as int, lv.len() as int)[0] == ls@[i as int]@);
        }
        if str_starts_with(ls[i], p) {
            return Some(ls[i]);
        }
        i += 1;
    }
    proof {
        assert(lv.subrange(i as int, lv.len() as int) =~= Seq::<Seq<char>>::empty());
    }
    None
}

/// The number a `key: value` line of a container config gives, read as
/// `u32`: the first line starting with `key:`, the text between its first
/// and second colon, trimmed.
pub open spec fn conf_value(conf: Seq<char>, key: Seq<char>) -> Option<nat> {
    match first_starting(lines_of(conf), key + ":"@) {
        Some(l) => match split_once(l, ':') {
            Some((_, rest)) => parse_unsigned(trimmed(before_first(rest, ':')), u32::MAX as nat),
            None => None,
        },
        None => None,
    }
}

pub fn conf_u32(conf: &str, key: &str) -> (r: Option<u32>)
    ensures
        match r {
            Some(v) => conf_value(conf@, key@) == Some(v as nat),
            None => conf_value(conf@, key@) is None,
        },
{
    let ls = lines(conf);
    let mut p = String::from_str(key);
    p.append(":");
    match first_with_prefix(&ls, p.as_str()) {
        Some(l) => match str_split_once(l, ':') {
            Some((_, rest)) => {
                let v = trim(str_before_first(rest, ':'));
                match parse_uint(v, 4294967295) {
                    Some(n) => Some(n as u32),
                    None => None,
                }
            },
            None => None,
        },
        None => None,
    }
}

/// `s` without the `G`s and newlines at its end.
pub open spec fn trim_end_size(s: Seq<char>) -> Seq<char>
    decreases s.len(),
{
    if s.len() > 0 && (s.last() == 'G' || s.last() == '\n') {
        trim_end_size(s.drop_last())
    } else {
        s
    }
}

fn str_trim_end_size(s: &str) -> (r: &str)
    ensures
        r@ == trim_end_size(s@),
{
    let mut j = s.unicode_len();
    proof {
        assert(s@.take(j as int) =~= s@);
    }
    while j > 0 && (s.get_char(j - 1) == 'G' || s.get_char(j - 1) == '\n')
        invariant
            j <= s@.len(),
            trim_end_size(s@) == trim_end_size(s@.take(j as int)),
        decreases j,
    {
        proof {
            assert(s@.take(j as int).drop_last() =~= s@.take(j - 1));
        }
        j -= 1;
    }
    s.substring_char(0, j)
}

/// The root disk's size in GB, from the `rootfs:` line's `size=` field.
pub open spec fn conf_disk(conf: Seq<char>) -> Option<nat> {
    match first_starting(lines_of(conf), "rootfs:"@) {
        Some(l) => match split_once_str(l, "size="@) {
            Some((_, rest)) => {
                let piece = match split_once_str(rest, "size="@) {
                    Some((a, _)) => a,
                    None => rest,
                };
                parse_unsigned(trim_end_size(piece), u32::MAX as nat)
            },
            None => None,
        },
        None => None,
    }
}

pub fn conf_disk_gb(conf: &str) -> (r: Option<u32>)
    ensures
        match r {
            Some(v) => conf_disk(conf@) == Some(v as nat),
            None => conf_disk(conf@) is None,
        },
{
    let ls = lines(conf);
    match first_with_prefix(&ls, "rootfs:") {
        Some(l) => match str_split_once_str(l, "size=") {
            Some((_, rest)) => {
                let piece = match str_split_once_str(rest, "size=") {
                    Some((a, _)) => a,
                    None => rest,
                };
                match parse_uint(str_trim_end_size(piece), 4294967295) {
                    Some(n) => Some(n as u32),
                    None => None,
                }
            },
            None => None,
        },
        None => None,
    }
}

/// What to do with RAM and cores: refuse a shrink while the container
/// runs, leave them when nothing changes, otherwise set them (`Ok(true)`).
pub open spec fn ram_cores_refusal(running: bool, cur_mem: u32, cur_cores: u32, want_mem: u32, want_cores: u32) -> Option<Seq<char>> {
    if running && (want_mem < cur_mem || want_cores < cur_cores) {
        Some(
            "shrink refused while running ("@ + dec(cur_mem as nat) + "→"@ + dec(want_mem as nat)
                + " MiB, "@ + dec(cur_cores as nat) + "→"@ + dec(want_cores as nat)
                + " cores) — stop the container first or redeploy"@,
        )
    } else {
        None
    }
}

pub fn ram_cores_plan(running: bool, cur_mem: u32, cur_cores: u32, want_mem: u32, want_cores: u32) -> (r: Result<bool, CoreError>)
    ensures
        match ram_cores_refusal(running, cur_mem, cur_cores, want_mem, want_cores) {
            Some(m) => r matches Err(CoreError::SafetyAbort(x)) && x@ == m,
            None => r == Ok::<bool, CoreError>(!(want_mem == cur_mem && want_cores == cur_cores)),
        },
{
    if running && (want_mem < cur_mem || want_cores < cur_cores) {
        let mut s = String::from_str("shrink refused while running (");
        let a = dec_string(cur_mem as u64);
        s.append(a.as_str());
        s.append("→");
        let b = dec_string(want_mem as u64);
        s.append(b.as_str());
        s.append(" MiB, ");
        let c = dec_string(cur_cores as u64);
        s.append(c.as_str());
        s.append("→");
        let d = dec_string(want_cores as u64);
        s.append(d.as_str());
        s.append(" cores) — stop the container first or redeploy");
        return Err(CoreError::SafetyAbort(s));
    }
    Ok(!(want_mem == cur_mem && want_cores == cur_cores))
}

/// What to do with the disk: a shrink is refused, no change (or an
/// unreadable current size) leaves it, otherwise it grows (`Ok(true)`).
pub open spec fn disk_refusal(cur: u32, want: u32) -> Option<Seq<char>> {
    if want < cur {
        Some(
            "disk shrink refused ("@ + dec(cur as nat) + "G → "@ + dec(want as nat)
                + "G) — never safe on a live filesystem"@,
        )
    } else {
        None
    }
}

pub fn disk_plan(cur: u32, want: u32) -> (r: Result<bool, CoreError>)
    ensures
        match disk_refusal(cur, want) {
            Some(m) => r matches Err(CoreError::SafetyAbort(x)) && x@ == m,
            None => r == Ok::<bool, CoreError>(!(want == cur || cur == 0)),
        },
{
    if want < cur {
        let mut s = String::from_str("disk shrink refused (");
        let a = dec_string(cur as u64);
        s.append(a.as_str());
        s.append("G → ");
        let b = dec_string(want as u64);
        s.append(b.as_str());
        s.append("G) — never safe on a live filesystem");
        return Err(CoreError::SafetyAbort(s));
    }
    Ok(!(want == cur || cur == 0))
}

/// Why the live config stops a resize, as text: the container is missing,
/// or it is not the one the manifest names. `None` when it may go on.
pub open spec fn live_refusal(vmid: u16, expected: Seq<char>, cfg: OutputView) -> Option<Seq<char>> {
    if cfg.code != 0 {
        Some("vmid "@ + dec(vmid as nat) + " does not exist"@)
    } else if live_hostname(cfg.stdout) != expected {
        Some("vmid "@ + dec(vmid as nat) + " is '"@ + live_hostname(cfg.stdout) + "', expected '"@ + expected + "'"@)
    } else {
        None
    }
}

/// A missing container is `Other`; a container with another hostname is a
/// safety abort.
fn live_check(vmid: u16, expected: &str, cfg: &CmdOutput) -> (r: Result<(), CoreError>)
    ensures
        match live_refusal(vmid, expected@, cfg@) {
            None => r is Ok,
            Some(msg) => if cfg.code != 0 {
                r matches Err(CoreError::Other(m)) && m@ == msg
            } else {
                r matches Err(CoreError::SafetyAbort(m)) && m@ == msg
            },
        },
{
    let d = dec_string(vmid as u64);
    if !cfg.success() {
        let mut s = String::from_str("vmid ");
        s.append(d.as_str());
        s.append(" does not exist");
        return Err(CoreError::Other(s));
    }
    let live = config_hostname(cfg.stdout.as_str());
    if !str_eq(live.as_str(), expected) {
        let mut s = String::from_str("vmid ");
        s.append(d.as_str());
        s.append(" is '");
        s.append(live.as_str());
        s.append("', expected '");
        s.append(expected);
        s.append("'");
        return Err(CoreError::SafetyAbort(s));
    }
    Ok(())
}

pub open spec fn or_zero(v: Option<nat>) -> u32 {
    match v {
        Some(n) => n as u32,
        None => 0,
    }
}

/// RAM and cores change: the read values allow it and differ from the
/// manifest's.
pub open spec fn ram_cores_change(m: StackManifest, cfg: OutputView, st: OutputView) -> bool {
    let cur_mem = or_zero(conf_value(cfg.stdout, "memory"@));
    let cur_cores = or_zero(conf_value(cfg.stdout, "cores"@));
    let running = contains(st.stdout, "running"@);
    &&& ram_cores_refusal(running, cur_mem, cur_cores, m.resources.memory_mb, m.resources.cores as u32) is None
    &&& !(m.resources.memory_mb == cur_mem && m.resources.cores as u32 == cur_cores)
}

/// The disk grows: the manifest asks for more than the readable size.
pub open spec fn disk_grows(m: StackManifest, cfg: OutputView) -> bool {
    let cur = or_zero(conf_disk(cfg.stdout));
    disk_refusal(cur, m.resources.disk_gb) is None && !(m.resources.disk_gb == cur || cur == 0)
}

/// The manifest asks for what a resize refuses: RAM or cores shrunk while
/// the container runs, or a smaller disk.
pub open spec fn resize_refused(m: StackManifest, cfg: OutputView, st: OutputView) -> bool {
    let cur_mem = or_zero(conf_value(cfg.stdout, "memory"@));
    let cur_cores = or_zero(conf_value(cfg.stdout, "cores"@));
    let running = contains(st.stdout, "running"@);
    ||| ram_cores_refusal(running, cur_mem, cur_cores, m.resources.memory_mb, m.resources.cores as u32) is Some
    ||| disk_refusal(or_zero(conf_disk(cfg.stdout)), m.resources.disk_gb) is Some
}

/// What a resize asks of the machine, given what the container's config
/// and status said: read both, set RAM and cores where they change, grow
/// the disk where it grows.
pub open spec fn resize_plan(m: StackManifest, cfg: OutputView, st: OutputView) -> Seq<Request> {
    let vm = dec(m.vmid as nat);
    seq![
        Request::Run("pct"@, seq!["config"@, vm], 30),
        Request::Run("pct"@, seq!["status"@, vm], 30),
    ] + (if ram_cores_change(m, cfg, st) {
        seq![
            Request::Run(
                "pct"@,
                seq![
                    "set"@,
                    vm,
                    "--memory"@,
                    dec(m.resources.memory_mb as nat),
                    "--cores"@,
                    dec(m.resources.cores as nat),
                    "--swap"@,
                    dec(m.resources.swap_mb as nat)
                ],
                60,
            )
        ]
    } else {
        Seq::empty()
    }) + (if disk_grows(m, cfg) {
        seq![Request::Run("pct"@, seq!["resize"@, vm, "rootfs"@, dec(m.resources.disk_gb as nat) + "G"@], 120)]
    } else {
        Seq::empty()
    })
}

/// Raise RAM, cores and disk on a running container straight from the
/// manifest. Nothing is asked of the machine for an invalid manifest or a
/// container on the no-touch list; nothing is changed on a container that
/// is missing or carries another hostname; RAM and cores are never shrunk
/// while it runs, and the disk never shrinks.
pub fn hot_apply<E: Executor, S: Sink, J: Journal>(
    exec: &mut E,
    sink: S,
    journal: J,
    safety: &SafetyConfig,
    m: &StackManifest,
) -> (r: OperationReport)
    ensures
        r.op@ == "resize-"@ + m.stack_name@,
        ({
            let q0 = old(exec).requests();
            let h0 = old(exec).replies().len() as int;
            let n = final(exec).requests().len() - q0.len();
            let vm = dec(m.vmid as nat);
            &&& n >= 0
            &&& (n == 0 <==> (app_problems(string_views(m.apps@)).len() > 0 || safety.no_touch@.contains(m.vmid)))
            &&& n >= 1 ==> final(exec).requests()[q0.len() as int] == Request::Run("pct"@, seq!["config"@, vm], 30)
            &&& n == 1 ==> final(exec).requests().len() == q0.len() + 1 && !r.ok
            &&& n >= 2 ==> (final(exec).replies()[h0] matches Some(cfg) && live_refusal(m.vmid, m.hostname@, cfg) is None
                && (final(exec).replies()[h0 + 1] matches Some(st) ==> final(exec).requests() == q0 + resize_plan(*m, cfg, st).take(n))
                && (final(exec).replies()[h0 + 1] is None ==> n == 2 && !r.ok))
            &&& r.ok ==> n >= 2 && (final(exec).replies()[h0] matches Some(cfg) && final(exec).replies()[h0 + 1] matches Some(st)
                && n == resize_plan(*m, cfg, st).len())
            &&& !r.ok ==> n == 0
                || (n == 1 && (final(exec).replies().last() matches Some(cfg) && live_refusal(m.vmid, m.hostname@, cfg) is Some))
                || (n >= 2 && (final(exec).replies()[h0] matches Some(cfg) && final(exec).replies()[h0 + 1] matches Some(st)
                    && resize_refused(*m, cfg, st)))
                || ended_on_failure(final(exec).requests(), final(exec).replies())
        }),
{
    let mut op = String::from_str("resize-");
    op.append(m.stack_name.as_str());
    let mut runner = Runner::new(op.as_str(), sink, journal);
    let ghost q0 = exec.requests();
    let ghost h0 = exec.replies();
    let vm = dec_string(m.vmid as u64);

    // Read the live config: the manifest, the no-touch list, the container
    // and its hostname, then whether it runs.
    runner.begin_step("read live config");
    match validate_manifest(m) {
        Ok(()) => {},
        Err(e) => {
            let e2 = runner.step_failed("read live config", e);
            return runner.finish_err("read live config", &e2).0;
        },
    }
    if contains_vmid(&safety.no_touch, m.vmid) {
        let mut s = String::from_str("vmid ");
        s.append(vm.as_str());
        s.append(" is on the no-touch list");
        let e2 = runner.step_failed("read live config", CoreError::SafetyAbort(s));
        return runner.finish_err("read live config", &e2).0;
    }
    let read = Cmd::new("pct", &["config", vm.as_str()], 30);
    proof {
        assert(string_views(read.args@) =~= seq!["config"@, dec(m.vmid as nat)]);
    }
    let cfg = match exec.run(&read) {
        Ok(c) => c,
        Err(e) => {
            let e2 = runner.step_failed("read live config", e);
            return runner.finish_err("read live config", &e2).0;
        },
    };
    proof {
        assert(exec.replies()[h0.len() as int] == Some(cfg@));
    }
    match live_check(m.vmid, m.hostname.as_str(), &cfg) {
        Ok(()) => {},
        Err(e) => {
            let e2 = runner.step_failed("read live config", e);
            return runner.finish_err("read live config", &e2).0;
        },
    }
    let cur_mem = match conf_u32(cfg.stdout.as_str(), "memory") {
        Some(v) => v,
        None => 0,
    };
    let cur_cores = match conf_u32(cfg.stdout.as_str(), "cores") {
        Some(v) => v,
        None => 0,
    };
    let cur_disk = match conf_disk_gb(cfg.stdout.as_str()) {
        Some(v) => v,
        None => 0,
    };
    let status_cmd = Cmd::new("pct", &["status", vm.as_str()], 30);
    proof {
        assert(string_views(status_cmd.args@) =~= seq!["status"@, dec(m.vmid as nat)]);
    }
    let ghost h1 = exec.replies();
    let status = match exec.run(&status_cmd) {
        Ok(o) => o,
        Err(e) => {
            proof {
                assert(exec.replies()[h0.len() as int] == h1[h0.len() as int]);
            }
            let e2 = runner.step_failed("read live config", e);
            return runner.finish_err("read live config", &e2).0;
        },
    };
    let running = str_contains(status.stdout.as_str(), "running");
    runner.step_done("read live config", StepOutcome::Unchanged);
    let ghost plan = resize_plan(*m, cfg@, status@);
    let ghost base = exec.requests();
    proof {
        assert(exec.replies()[h0.len() as int] == Some(cfg@));
        assert(exec.replies()[h0.len() + 1int] == Some(status@));
        assert(base =~= q0 + plan.take(2));
    }
    let ghost h2 = exec.replies();

    // RAM and cores: refused while running if either shrinks.
    let want_mem = m.resources.memory_mb;
    let want_cores = m.resources.cores as u32;
    runner.begin_step("apply ram + cores");
    let changed = match ram_cores_plan(running, cur_mem, cur_cores, want_mem, want_cores) {
        Ok(c) => c,
        Err(e) => {
            let e2 = runner.step_failed("apply ram + cores", e);
            return runner.finish_err("apply ram + cores", &e2).0;
        },
    };
    if changed {
        let mem = dec_string(want_mem as u64);
        let cores = dec_string(want_cores as u64);
        let swap = dec_string(m.resources.swap_mb as u64);
        let set = Cmd::new(
            "pct",
            &["set", vm.as_str(), "--memory", mem.as_str(), "--cores", cores.as_str(), "--swap", swap.as_str()],
            60,
        );
        proof {
            assert(run_request(set) == plan[2]) by {
                assert(string_views(set.args@) =~= seq![
                    "set"@,
                    dec(m.vmid as nat),
                    "--memory"@,
                    dec(m.resources.memory_mb as nat),
                    "--cores"@,
                    dec(m.resources.cores as nat),
                    "--swap"@,
                    dec(m.resources.swap_mb as nat)
                ]);
            }
        }
        let res = run_ok(exec, &set);
        proof {
            assert(exec.requests() =~= q0 + plan.take(3));
            assert(exec.replies()[h0.len() as int] == h2[h0.len() as int]);
            assert(exec.replies()[h0.len() + 1int] == h2[h0.len() + 1int]);
        }
        match res {
            Ok(_) => {
                runner.step_done("apply ram + cores", StepOutcome::Changed);
            },
            Err(e) => {
                let e2 = runner.step_failed("apply ram + cores", e);
                return runner.finish_err("apply ram + cores", &e2).0;
            },
        }
    } else {
        runner.step_done("apply ram + cores", StepOutcome::Unchanged);
    }
    let ghost k = exec.requests().len() - q0.len();
    let ghost h3 = exec.replies();

    // The disk: only ever grows.
    runner.begin_step("apply disk");
    let grow = match disk_plan(cur_disk, m.resources.disk_gb) {
        Ok(g) => g,
        Err(e) => {
            let e2 = runner.step_failed("apply disk", e);
            return runner.finish_err("apply disk", &e2).0;
        },
    };
    if grow {
        let mut size = dec_string(m.resources.disk_gb as u64);
        size.append("G");
        let resize = Cmd::new("pct", &["resize", vm.as_str(), "rootfs", size.as_str()], 120);
        proof {
            assert(run_request(resize) == plan[k]) by {
                assert(string_views(resize.args@) =~= seq![
                    "resize"@,
                    dec(m.vmid as nat),
                    "rootfs"@,
                    dec(m.resources.disk_gb as nat) + "G"@
                ]);
            }
        }
        let res = run_ok(exec, &resize);
        proof {
            assert(exec.requests() =~= q0 + plan.take(k + 1));
            assert(exec.replies()[h0.len() as int] == h3[h0.len() as int]);
            assert(exec.replies()[h0.len() + 1int] == h3[h0.len() + 1int]);
        }
        match res {
            Ok(_) => {
                runner.step_done("apply disk", StepOutcome::Changed);
            },
            Err(e) => {
                let e2 = runner.step_failed("apply disk", e);
                return runner.finish_err("apply disk", &e2).0;
            },
        }
    } else {
        runner.step_done("apply disk", StepOutcome::Unchanged);
    }
    proof {
        assert(plan.take(plan.len() as int) =~= plan);
    }
    let mut line = String::from_str("[resize] ");
    line.append(m.stack_name.as_str());
    line.append(" now ");
    let a = dec_string(m.resources.memory_mb as u64);
    line.append(a.as_str());
    line.append(" MiB / ");
    let b = dec_string(m.resources.cores as u64);
    line.append(b.as_str());
    line.append(" cores / ");
    let c = dec_string(m.resources.disk_gb as u64);
    line.append(c.as_str());
    line.append("G (live, no restart)");
    runner.log(Level::Info, line);
    runner.finish_ok().0
}

/// A resize never shrinks a disk: whenever its plan grows the disk, the
/// size the manifest asks for is above the size the config showed.
pub proof fn law_disk_only_grows(m: StackManifest, cfg: OutputView, st: OutputView)
    requires
        disk_grows(m, cfg),
    ensures
        conf_disk(cfg.stdout) matches Some(cur) && cur > 0 && m.resources.disk_gb > cur,
{
}

/// A resize never shrinks RAM or cores on a running container: whenever its
/// plan sets them and the status said running, neither goes down.
pub proof fn law_no_shrink_while_running(m: StackManifest, cfg: OutputView, st: OutputView)
    requires
        ram_cores_change(m, cfg, st),
        contains(st.stdout, "running"@),
    ensures
        m.resources.memory_mb >= or_zero(conf_value(cfg.stdout, "memory"@)),
        m.resources.cores as u32 >= or_zero(conf_value(cfg.stdout, "cores"@)),
{
}

} // verus!
