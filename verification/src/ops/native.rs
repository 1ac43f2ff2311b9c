//! Native services: bare binaries under systemd. Adoption takes a running
//! service under management without touching it; install puts a binary in
//! place with the previous one kept as a way back. What those operations
//! decide between their commands lives here.

use vstd::prelude::*;
use vstd::string::*;
use crate::error::CoreError;
use crate::executor::{
    ended_on_failure, extends, lemma_extends_refl, lemma_extends_trans, lemma_pushed, pct_sh, pct_sh_args, reply_of, run_ok, run_request,
    Cmd, Executor, OutputView, Request,
};
use crate::native::{native_problems, validate_native};
use crate::notify::{debug_quote, debug_string};
use crate::ops::{config_refusal, guard_target, no_touch_refusal};
use crate::ops::util::push_content;
use crate::ops::backup::{doomed_of, doomed_snapshots, restic_args, restic_cmd, BackupCfg};
use crate::retention::RetentionTier;
use crate::ops::zfs::{quoted_arg, shell_quote};
use crate::runner::{Journal, OperationReport, Runner, StepOutcome};
use crate::safety::SafetyConfig;
use crate::sink::{Level, Sink};
use crate::keyed::{entries_map, entry_views, find_key, keys_of, lemma_update_sorted, upsert};
use crate::native::NativeServiceManifest;
use crate::ops::deploy::stacks_of;
use crate::order::{sort_by, sort_strings, str_order};
use crate::state::{stack_names, units, HostState, StackState};
use crate::text::{
    contains, dec, dec_string, find_prefixed, find_prefixed_exec, joined, join_strings, lines,
    lines_of, split_char, split_on, str_contains, str_eq, string_views, trim, trimmed, views,
};

verus! {

// ── Adoption ────────────────────────────────────────────────────────────────

/// What adoption refuses about the running service, going by `systemctl
/// is-active` and `systemctl show`: it must be active (adoption never
/// starts anything), and it must run the binary and read the env file the
/// stack file names.
pub open spec fn service_refusal(m: NativeServiceManifest, active: Seq<char>, show: Seq<char>) -> Option<Seq<char>> {
    let unit = m.unit@ + ".service"@;
    if trimmed(active) != "active"@ {
        Some(
            "unit "@ + unit + " is not active ('"@ + trimmed(active)
                + "') — adoption never starts services; start it yourself and re-run"@,
        )
    } else if !contains(show, m.binary@) {
        Some(
            "unit "@ + unit + " does not exec '"@ + m.binary@ + "' (systemd says: "@ + trimmed(show)
                + ") — fix the stack file to match reality, not the other way around"@,
        )
    } else {
        match m.env_file {
            Some(f) => if !contains(show, f@) {
                Some(
                    "unit "@ + unit + " does not read EnvironmentFile "@ + f@
                        + " — fix the stack file to match reality"@,
                )
            } else {
                None
            },
            None => None,
        }
    }
}

pub fn service_verdict(m: &NativeServiceManifest, active: &str, show: &str) -> (r: Result<(), CoreError>)
    ensures
        match service_refusal(*m, active@, show@) {
            None => r is Ok,
            Some(msg) => r matches Err(CoreError::SafetyAbort(x)) && x@ == msg,
        },
{
    let mut unit = m.unit.clone();
    unit.append(".service");
    let a = trim(active);
    if !str_eq(a, "active") {
        let mut s = String::from_str("unit ");
        s.append(unit.as_str());
        s.append(" is not active ('");
        s.append(a);
        s.append("') — adoption never starts services; start it yourself and re-run");
        return Err(CoreError::SafetyAbort(s));
    }
    if !str_contains(show, m.binary.as_str()) {
        let mut s = String::from_str("unit ");
        s.append(unit.as_str());
        s.append(" does not exec '");
        s.append(m.binary.as_str());
        s.append("' (systemd says: ");
        s.append(trim(show));
        s.append(") — fix the stack file to match reality, not the other way around");
        return Err(CoreError::SafetyAbort(s));
    }
    match &m.env_file {
        Some(f) => {
            if !str_contains(show, f.as_str()) {
                let mut s = String::from_str("unit ");
                s.append(unit.as_str());
                s.append(" does not read EnvironmentFile ");
                s.append(f.as_str());
                s.append(" — fix the stack file to match reality");
                return Err(CoreError::SafetyAbort(s));
            }
        },
        None => {},
    }
    Ok(())
}

/// The container's tags with `homelab` added; `None` when it is already
/// there, because then nothing needs setting.
pub open spec fn tags_of(config: Seq<char>) -> Seq<Seq<char>> {
    match find_prefixed(lines_of(config), "tags:"@) {
        Some(v) => split_on(v, ';').map_values(|t: Seq<char>| trimmed(t)),
        None => Seq::empty(),
    }
}

pub open spec fn nonempty_tags(ts: Seq<Seq<char>>) -> Seq<Seq<char>>
    decreases ts.len(),
{
    if ts.len() == 0 {
        Seq::empty()
    } else if ts.last().len() > 0 {
        nonempty_tags(ts.drop_last()).push(ts.last())
    } else {
        nonempty_tags(ts.drop_last())
    }
}

pub open spec fn tags_with_homelab(config: Seq<char>) -> Option<Seq<char>> {
    if tags_of(config).contains("homelab"@) {
        None
    } else {
        Some(joined(nonempty_tags(tags_of(config)).push("homelab"@), ";"@))
    }
}

pub fn merged_tags(config: &str) -> (r: Option<String>)
    ensures
        match r {
            Some(t) => tags_with_homelab(config@) == Some(t@),
            None => tags_with_homelab(config@) is None,
        },
{
    let ls = lines(config);
    let ghost tv = tags_of(config@);
    let mut tags: Vec<String> = Vec::new();
    match find_prefixed_exec(&ls, "tags:") {
        Some(v) => {
            let parts = split_char(v, ';');
            let mut i: usize = 0;
            while i < parts.len()
                invariant
                    i <= parts.len(),
                    views(parts@) == split_on(v@, ';'),
                    tags@.len() == i,
                    forall|k: int| 0 <= k < i ==> (#[trigger] tags@[k])@ == trimmed(parts@[k]@),
                decreases parts.len() - i,
            {
                tags.push(String::from_str(trim(parts[i])));
                i += 1;
            }
            proof {
                assert(string_views(tags@) =~= tv);
            }
        },
        None => {
            proof {
                assert(string_views(tags@) =~= tv);
            }
        },
    }
    if crate::text::contains_string(&tags, "homelab") {
        return None;
    }
    let mut all: Vec<String> = Vec::new();
    let mut j: usize = 0;
    while j < tags.len()
        invariant
            j <= tags.len(),
            string_views(tags@) == tv,
            string_views(all@) == nonempty_tags(tv.take(j as int)),
        decreases tags.len() - j,
    {
        proof {
            assert(tv.take(j + 1).drop_last() =~= tv.take(j as int));
            assert(tv.take(j + 1).last() == tags@[j as int]@);
        }
        let ghost before = string_views(all@);
        if tags[j].unicode_len() > 0 {
            all.push(tags[j].clone());
            proof {
                assert(string_views(all@) =~= before.push(tags@[j as int]@));
            }
        }
        j += 1;
    }
    proof {
        assert(tv.take(tags.len() as int) =~= tv);
    }
    let ghost pre = string_views(all@);
    all.push(String::from_str("homelab"));
    proof {
        assert(string_views(all@) =~= pre.push("homelab"@));
    }
    Some(join_strings(all.as_slice(), ";"))
}

/// The first service on the list with this unit.
pub open spec fn unit_index(ns: Seq<NativeServiceManifest>, unit: Seq<char>) -> Option<int>
    decreases ns.len(),
{
    if ns.len() == 0 {
        None
    } else {
        match unit_index(ns.drop_last(), unit) {
            Some(i) => Some(i),
            None => if ns.last().unit@ == unit {
                Some(ns.len() - 1)
            } else {
                None
            },
        }
    }
}

/// `m` put on the list: in place of the service with its unit, or added.
pub open spec fn put_native(ns: Seq<NativeServiceManifest>, m: NativeServiceManifest) -> Seq<NativeServiceManifest> {
    match unit_index(ns, m.unit@) {
        Some(i) => ns.update(i, m),
        None => ns.push(m),
    }
}

proof fn lemma_unit_index(ns: Seq<NativeServiceManifest>, unit: Seq<char>)
    ensures
        match unit_index(ns, unit) {
            Some(i) => 0 <= i < ns.len() && ns[i].unit@ == unit && forall|k: int| 0 <= k < i ==> ns[k].unit@ != unit,
            None => forall|k: int| 0 <= k < ns.len() ==> ns[k].unit@ != unit,
        },
    decreases ns.len(),
{
    if ns.len() > 0 {
        lemma_unit_index(ns.drop_last(), unit);
        assert forall|k: int| 0 <= k < ns.len() - 1 implies ns[k] == ns.drop_last()[k] by {}
    }
}

/// Runs of equal neighbours collapsed to one (`Vec::dedup`).
pub open spec fn dedup(s: Seq<Seq<char>>) -> Seq<Seq<char>>
    decreases s.len(),
{
    if s.len() == 0 {
        Seq::empty()
    } else if s.len() >= 2 && s[s.len() - 2] == s.last() {
        dedup(s.drop_last())
    } else {
        dedup(s.drop_last()).push(s.last())
    }
}

proof fn lemma_dedup_last(s: Seq<Seq<char>>)
    requires
        s.len() > 0,
    ensures
        dedup(s).len() > 0 && dedup(s).last() == s.last(),
    decreases s.len(),
{
    if s.len() >= 2 && s[s.len() - 2] == s.last() {
        lemma_dedup_last(s.drop_last());
    }
}

pub(crate) fn dedup_strings(v: Vec<String>) -> (r: Vec<String>)
    ensures
        string_views(r@) == dedup(string_views(v@)),
{
    let ghost vs = string_views(v@);
    let mut out: Vec<String> = Vec::new();
    let mut i: usize = 0;
    while i < v.len()
        invariant
            i <= v.len(),
            vs == string_views(v@),
            string_views(out@) == dedup(vs.take(i as int)),
        decreases v.len() - i,
    {
        proof {
            assert(vs.take(i + 1).drop_last() =~= vs.take(i as int));
            assert(vs.take(i + 1).last() == v@[i as int]@);
            if i > 0 {
                lemma_dedup_last(vs.take(i as int));
                assert(vs.take(i + 1)[i - 1] == vs.take(i as int).last());
            }
        }
        let ghost before = string_views(out@);
        let dup = out.len() > 0 && str_eq(out[out.len() - 1].as_str(), v[i].as_str());
        if !dup {
            out.push(v[i].clone());
            proof {
                assert(string_views(out@) =~= before.push(v@[i as int]@));
            }
        }
        i += 1;
    }
    proof {
        assert(vs.take(v.len() as int) =~= vs);
    }
    out
}

/// The record adoption leaves: the service put on the stack's list, the
/// stack's apps its services' units (sorted, once each), the last backup
/// carried over.
pub open spec fn adopted_record(
    m: NativeServiceManifest,
    now: u64,
    prior: Option<StackState>,
    r: StackState,
) -> bool {
    let natives = put_native(
        match prior {
            Some(p) => p.natives@,
            None => Seq::empty(),
        },
        m,
    );
    &&& r.vmid == m.vmid
    &&& r.hostname@ == m.hostname@
    &&& r.natives@ == natives
    &&& string_views(r.apps@) == dedup(sort_by(units(natives), str_order()))
    &&& r.applied_at == now
    &&& r.last_backup == (match prior {
        Some(p) => p.last_backup,
        None => 0,
    })
    &&& r.applied_hash@ == Seq::<char>::empty()
    &&& r.manifest is None
    &&& r.native is None
    &&& r.enabled
    &&& r.incomplete_step is None
}

fn put_native_exec(ns: &mut Vec<NativeServiceManifest>, m: NativeServiceManifest)
    ensures
        final(ns)@ == put_native(old(ns)@, m),
{
    proof {
        lemma_unit_index(ns@, m.unit@);
    }
    let mut i: usize = 0;
    while i < ns.len()
        invariant
            i <= ns.len(),
            ns@ == old(ns)@,
            forall|k: int| 0 <= k < i ==> ns@[k].unit@ != m.unit@,
            match unit_index(ns@, m.unit@) {
                Some(j) => 0 <= j < ns@.len() && ns@[j].unit@ == m.unit@ && forall|k: int| 0 <= k < j ==> ns@[k].unit@ != m.unit@,
                None => forall|k: int| 0 <= k < ns@.len() ==> ns@[k].unit@ != m.unit@,
            },
        decreases ns.len() - i,
    {
        if str_eq(ns[i].unit.as_str(), m.unit.as_str()) {
            proof {
                match unit_index(ns@, m.unit@) {
                    Some(j) => {
                        if j < i {
                            assert(ns@[j].unit@ != m.unit@);
                        }
                        if j > i {
                            assert(ns@[i as int].unit@ != m.unit@);
                        }
                    },
                    None => {
                        assert(ns@[i as int].unit@ != m.unit@);
                    },
                }
            }
            ns.set(i, m);
            return;
        }
        i += 1;
    }
    ns.push(m);
}

fn unit_names(ns: &Vec<NativeServiceManifest>) -> (r: Vec<String>)
    ensures
        string_views(r@) == units(ns@),
{
    let mut out: Vec<String> = Vec::new();
    let mut i: usize = 0;
    while i < ns.len()
        invariant
            i <= ns.len(),
            out@.len() == i,
            forall|k: int| 0 <= k < i ==> (#[trigger] out@[k])@ == ns@[k].unit@,
        decreases ns.len() - i,
    {
        out.push(ns[i].unit.clone());
        i += 1;
    }
    proof {
        assert(string_views(out@) =~= units(ns@));
    }
    out
}

/// The refusal when a stack already lives on another container.
pub open spec fn repoint_refusal(stack: Seq<char>, existing: u16, wanted: u16) -> Seq<char> {
    "stack '"@ + stack + "' already exists on vmid "@ + dec(existing as nat) + " — refusing to re-point it to "@
        + dec(wanted as nat)
}

/// Record an adopted native service. A stack already on record under
/// another vmid is refused and the state left as it was.
pub fn record_adopted(state: &mut HostState, m: NativeServiceManifest, now: u64) -> (r: Result<(), CoreError>)
    requires
        old(state).wf(),
    ensures
        final(state).wf(),
        ({
            let before = stacks_of(*old(state));
            let name = m.stack_name@;
            if before.contains_key(name) && before[name].vmid != m.vmid {
                &&& r matches Err(CoreError::SafetyAbort(x)) && x@ == repoint_refusal(name, before[name].vmid, m.vmid)
                &&& *final(state) == *old(state)
            } else {
                &&& r is Ok
                &&& stacks_of(*final(state)).dom() == before.dom().insert(name)
                &&& forall|k: Seq<char>| #[trigger] before.contains_key(k) && k != name ==> stacks_of(*final(state))[k] == before[k]
                &&& adopted_record(
                    m,
                    now,
                    if before.contains_key(name) {
                        Some(before[name])
                    } else {
                        None
                    },
                    stacks_of(*final(state))[name],
                )
                &&& *final(state) == (HostState { stacks: final(state).stacks, ..*old(state) })
            }
        }),
{
    proof {
        assert(stack_names(state.stacks@) =~= keys_of(entry_views(state.stacks@)));
    }
    let ghost e = entry_views(state.stacks@);
    let ghost name = m.stack_name@;
    let key = m.stack_name.clone();
    let hostname = m.hostname.clone();
    let vmid = m.vmid;
    match find_key(&state.stacks, m.stack_name.as_str()) {
        Some(i) => {
            if state.stacks[i].1.vmid != m.vmid {
                let mut s = String::from_str("stack '");
                s.append(m.stack_name.as_str());
                s.append("' already exists on vmid ");
                let a = dec_string(state.stacks[i].1.vmid as u64);
                s.append(a.as_str());
                s.append(" — refusing to re-point it to ");
                let b = dec_string(m.vmid as u64);
                s.append(b.as_str());
                return Err(CoreError::SafetyAbort(s));
            }
            let (k, prior) = state.stacks.remove(i);
            let mut natives = prior.natives;
            put_native_exec(&mut natives, m);
            let names = unit_names(&natives);
            let apps = dedup_strings(sort_strings(names));
            let record = StackState {
                vmid,
                hostname,
                apps,
                applied_at: now,
                last_backup: prior.last_backup,
                applied_hash: String::new(),
                manifest: None,
                native: None,
                natives,
                enabled: true,
                incomplete_step: None,
            };
            state.stacks.insert(i, (k, record));
            proof {
                reveal_strlit("");
                assert(entry_views(state.stacks@) =~= e.update(i as int, (e[i as int].0, record)));
                lemma_update_sorted(e, i as int, record);
                assert(stack_names(state.stacks@) =~= keys_of(entry_views(state.stacks@)));
                assert(stacks_of(*state) =~= entries_map(e).insert(name, record));
            }
        },
        None => {
            let mut natives: Vec<NativeServiceManifest> = Vec::new();
            proof {
                assert(natives@ =~= Seq::<NativeServiceManifest>::empty());
            }
            put_native_exec(&mut natives, m);
            let names = unit_names(&natives);
            let apps = dedup_strings(sort_strings(names));
            let record = StackState {
                vmid,
                hostname,
                apps,
                applied_at: now,
                last_backup: 0,
                applied_hash: String::new(),
                manifest: None,
                native: None,
                natives,
                enabled: true,
                incomplete_step: None,
            };
            upsert(&mut state.stacks, key, record);
            proof {
                reveal_strlit("");
                assert(stack_names(state.stacks@) =~= keys_of(entry_views(state.stacks@)));
                assert(stacks_of(*state) =~= entries_map(e).insert(name, record));
            }
        },
    }
    Ok(())
}

// ── Install ─────────────────────────────────────────────────────────────────

/// What install refuses about the unit file before writing anything: there
/// must be one, and it must run the binary the stack file names.
pub open spec fn unit_file_refusal(m: NativeServiceManifest, unit_file: Seq<char>) -> Option<Seq<char>> {
    if trimmed(unit_file).len() == 0 {
        Some(
            "no unit file for "@ + m.unit@
                + " — the file that makes the service exist is not in the repository, and installing a binary without it produces a container with a program on it and nothing to run it"@,
        )
    } else if !contains(unit_file, m.binary@) {
        Some(
            "the unit file does not exec '"@ + m.binary@
                + "' — the same mismatch adoption refuses, caught before it is written rather than after"@,
        )
    } else {
        None
    }
}

pub fn check_unit_file(m: &NativeServiceManifest, unit_file: &str) -> (r: Result<(), CoreError>)
    ensures
        match unit_file_refusal(*m, unit_file@) {
            None => r is Ok,
            Some(msg) => r matches Err(CoreError::Validation(x)) && x@ == msg,
        },
{
    if trim(unit_file).unicode_len() == 0 {
        let mut s = String::from_str("no unit file for ");
        s.append(m.unit.as_str());
        s.append(
            " — the file that makes the service exist is not in the repository, and installing a binary without it produces a container with a program on it and nothing to run it",
        );
        return Err(CoreError::Validation(s));
    }
    if !str_contains(unit_file, m.binary.as_str()) {
        let mut s = String::from_str("the unit file does not exec '");
        s.append(m.binary.as_str());
        s.append("' — the same mismatch adoption refuses, caught before it is written rather than after");
        return Err(CoreError::Validation(s));
    }
    Ok(())
}

/// How a failed activation ends: a first install has nothing to return
/// to; otherwise the previous binary was put back, and that worked or not.
pub open spec fn activation_failure(unit: Seq<char>, had_previous: bool, log: Seq<char>, rollback_ok: bool) -> Seq<char> {
    if !had_previous {
        unit
            + " did not come up and there is no previous binary to return to — this was a FIRST install, so the container now has the program and no working service. Last log lines: "@
            + trimmed(log)
    } else {
        "the installed "@ + unit + " did not come up healthy — rolled back to the previous binary ("@
            + (if rollback_ok {
            "service restored and active"@
        } else {
            "ROLLBACK ALSO FAILED — service needs hands NOW"@
        }) + ")"@
    }
}

pub fn activation_failed(unit: &str, had_previous: bool, log: &str, rollback_ok: bool) -> (r: CoreError)
    ensures
        r matches CoreError::Other(x) && x@ == activation_failure(unit@, had_previous, log@, rollback_ok),
{
    if !had_previous {
        let mut s = String::from_str(unit);
        s.append(
            " did not come up and there is no previous binary to return to — this was a FIRST install, so the container now has the program and no working service. Last log lines: ",
        );
        s.append(trim(log));
        return CoreError::Other(s);
    }
    let mut s = String::from_str("the installed ");
    s.append(unit);
    s.append(" did not come up healthy — rolled back to the previous binary (");
    if rollback_ok {
        s.append("service restored and active");
    } else {
        s.append("ROLLBACK ALSO FAILED — service needs hands NOW");
    }
    s.append(")");
    CoreError::Other(s)
}

/// The script that prints the binary's hash.
pub open spec fn binary_hash_script(binary: Seq<char>) -> Seq<char> {
    "sha256sum "@ + quoted_arg(binary) + " | cut -d' ' -f1"@
}

/// The script that keeps a copy of the running binary beside it.
pub open spec fn keep_binary_script(binary: Seq<char>) -> Seq<char> {
    "cp -p "@ + quoted_arg(binary) + " "@ + quoted_arg(binary + ".homelab-prev"@)
}

/// Restart the unit and wait up to ten seconds for it to be active.
pub open spec fn health_script(unit: Seq<char>) -> Seq<char> {
    let u = unit + ".service"@;
    "systemctl restart "@ + u + " && for i in 1 2 3 4 5; do [ \"$(systemctl is-active "@ + u
        + ")\" = active ] && exit 0; sleep 2; done; exit 1"@
}

/// Put the kept binary back, restart, and check it is active.
pub open spec fn restore_binary_script(binary: Seq<char>, unit: Seq<char>) -> Seq<char> {
    let u = unit + ".service"@;
    "cp -p "@ + quoted_arg(binary + ".homelab-prev"@) + " "@ + quoted_arg(binary) + " && systemctl restart "@ + u
        + " && sleep 2 && [ \"$(systemctl is-active "@ + u + ")\" = active ]"@
}

/// What a supervised self-update asks of the machine, in order, as far as
/// it goes: the target guard's config read, the binary's hash, keeping it,
/// the app's own update command, the hash again, the health-checked
/// restart, and the restore of the kept binary.
pub open spec fn native_update_plan(m: NativeServiceManifest, update_cmd: Seq<char>) -> Seq<Request> {
    let sh = |s: Seq<char>, t: u64| Request::Run("pct"@, pct_sh_args(m.vmid, s), t);
    seq![
        Request::Run("pct"@, seq!["config"@, dec(m.vmid as nat)], 30),
        sh(binary_hash_script(m.binary@), 60),
        sh(keep_binary_script(m.binary@), 60),
        sh(update_cmd, 900),
        sh(binary_hash_script(m.binary@), 60),
        sh(health_script(m.unit@), 120),
        sh(restore_binary_script(m.binary@, m.unit@), 120),
    ]
}

fn native_sh<E: Executor>(exec: &mut E, vmid: u16, script: &str, timeout_s: u64) -> (r: Result<crate::executor::CmdOutput, CoreError>)
    ensures
        final(exec).requests() == old(exec).requests().push(Request::Run("pct"@, pct_sh_args(vmid, script@), timeout_s)),
        final(exec).replies() == old(exec).replies().push(crate::executor::reply_of(r)),
{
    pct_sh(exec, vmid, script, timeout_s)
}

/// Supervise a native service's own self-update. Without an update command
/// nothing is asked of the machine. The target guard runs first; the app's
/// update runs only once the running binary is safely kept; the service is
/// restarted only when the binary actually changed; and the kept binary is
/// restored, from outside the app, only when the restarted service did not
/// come up.
pub fn update_native<E: Executor, S: Sink, J: Journal>(
    exec: &mut E,
    sink: S,
    journal: J,
    safety: &SafetyConfig,
    m: &NativeServiceManifest,
) -> (r: OperationReport)
    ensures
        r.op@ == "update-"@ + m.stack_name@,
        ({
            let q0 = old(exec).requests();
            let h0 = old(exec).replies().len() as int;
            let q = final(exec).requests();
            let h = final(exec).replies();
            let n = q.len() - q0.len();
            &&& m.update_cmd is None ==> n == 0 && r.ok
            &&& m.update_cmd matches Some(cmd) ==> {
                &&& 0 <= n <= 7
                &&& q == q0 + native_update_plan(*m, cmd@).take(n)
                &&& no_touch_refusal(safety.no_touch@, m.vmid) is Some ==> n == 0 && !r.ok
                &&& no_touch_refusal(safety.no_touch@, m.vmid) is None ==> n >= 1
                &&& n >= 2 ==> (h[h0] matches Some(cfg) && config_refusal(m.vmid, m.hostname@, cfg) is None)
                &&& n >= 4 ==> (h[h0 + 2] matches Some(o) && o.code == 0)
                &&& n >= 6 ==> (h[h0 + 1] matches Some(b) && h[h0 + 4] matches Some(a) && trimmed(a.stdout) != trimmed(
                    b.stdout,
                ))
                &&& n == 7 ==> (h[h0 + 5] matches Some(o) && o.code != 0)
                &&& r.ok ==> (n == 5 || n == 6)
                &&& (n == 5 || n == 6) ==> (r.ok <==> h.last() is Some)
                &&& !r.ok ==> no_touch_refusal(safety.no_touch@, m.vmid) is Some
                    || (n == 1 && (h.last() matches Some(cfg) && config_refusal(m.vmid, m.hostname@, cfg) is Some))
                    || n == 7
                    || ended_on_failure(q, h)
            }
        }),
{
    let ghost q0 = exec.requests();
    let ghost h0 = exec.replies();
    let mut op = String::from_str("update-");
    op.append(m.stack_name.as_str());
    let mut runner = Runner::new(op.as_str(), sink, journal);
    let update_cmd = match &m.update_cmd {
        Some(c) => c,
        None => {
            let mut line = String::from_str("[update] ");
            line.append(m.stack_name.as_str());
            line.append(" has no update_cmd — skipped by decision");
            runner.log(Level::Info, line);
            return runner.finish_ok().0;
        },
    };
    let ghost plan = native_update_plan(*m, update_cmd@);
    let vmid = m.vmid;

    runner.begin_step("guard target");
    match guard_target(exec, safety, vmid, m.hostname.as_str()) {
        Ok(()) => {},
        Err(e) => {
            proof {
                if no_touch_refusal(safety.no_touch@, vmid) is None {
                    assert(exec.requests() =~= q0 + plan.take(1));
                } else {
                    assert(exec.requests() =~= q0 + plan.take(0));
                }
            }
            let e2 = runner.step_failed("guard target", e);
            return runner.finish_err("guard target", &e2).0;
        },
    }
    runner.step_done("guard target", StepOutcome::Unchanged);
    let ghost h1 = exec.replies();
    proof {
        assert(exec.requests() =~= q0 + plan.take(1));
        assert(h1.drop_last() == h0);
        assert(h1[h0.len() as int] == h1.last());
    }

    // Keep the running binary before the app touches it.
    runner.begin_step("preserve binary");
    let quoted = shell_quote(m.binary.as_str());
    let mut hash = String::from_str("sha256sum ");
    hash.append(quoted.as_str());
    hash.append(" | cut -d' ' -f1");
    let sum = native_sh(exec, vmid, hash.as_str(), 60);
    proof {
        assert(exec.requests() =~= q0 + plan.take(2));
        assert(exec.replies()[h0.len() as int] == h1[h0.len() as int]);
    }
    let sum = match sum {
        Ok(o) => o,
        Err(e) => {
            let e2 = runner.step_failed("preserve binary", e);
            return runner.finish_err("preserve binary", &e2).0;
        },
    };
    let before = String::from_str(trim(sum.stdout.as_str()));
    let mut prev = String::from_str(m.binary.as_str());
    prev.append(".homelab-prev");
    let mut keep = String::from_str("cp -p ");
    keep.append(quoted.as_str());
    keep.append(" ");
    let qp = shell_quote(prev.as_str());
    keep.append(qp.as_str());
    let ghost h2 = exec.replies();
    let out = native_sh(exec, vmid, keep.as_str(), 60);
    proof {
        assert(exec.requests() =~= q0 + plan.take(3));
        assert(exec.replies()[h0.len() as int] == h2[h0.len() as int]);
        assert(exec.replies()[h0.len() + 1int] == h2[h0.len() + 1int]);
    }
    let out = match out {
        Ok(o) => o,
        Err(e) => {
            let e2 = runner.step_failed("preserve binary", e);
            return runner.finish_err("preserve binary", &e2).0;
        },
    };
    if !out.success() {
        let mut msg = String::from_str("cannot preserve ");
        msg.append(m.binary.as_str());
        msg.append(" — refusing to update without a rollback copy");
        let e2 = runner.step_failed("preserve binary", CoreError::Other(msg));
        return runner.finish_err("preserve binary", &e2).0;
    }
    runner.step_done("preserve binary", StepOutcome::Changed);

    // The app updates itself.
    runner.begin_step("run self-update");
    let ghost h3 = exec.replies();
    let out = native_sh(exec, vmid, update_cmd.as_str(), 900);
    proof {
        assert(exec.requests() =~= q0 + plan.take(4));
        assert(exec.replies()[h0.len() as int] == h3[h0.len() as int]);
        assert(exec.replies()[h0.len() + 1int] == h3[h0.len() + 1int]);
        assert(exec.replies()[h0.len() + 2int] == h3[h0.len() + 2int]);
    }
    let out = match out {
        Ok(o) => o,
        Err(e) => {
            let e2 = runner.step_failed("run self-update", e);
            return runner.finish_err("run self-update", &e2).0;
        },
    };
    if !out.success() {
        let mut msg = String::from_str("'");
        msg.append(update_cmd.as_str());
        msg.append("' failed: ");
        msg.append(trim(out.stderr.as_str()));
        msg.append(" — binary untouched, service still on the old version");
        let e2 = runner.step_failed("run self-update", CoreError::Other(msg));
        return runner.finish_err("run self-update", &e2).0;
    }
    runner.step_done("run self-update", StepOutcome::Changed);

    // Restart only a binary that changed; restore the kept one if the
    // restarted service does not come up.
    runner.begin_step("restart if changed");
    let ghost h4 = exec.replies();
    let after = native_sh(exec, vmid, hash.as_str(), 60);
    proof {
        assert(exec.requests() =~= q0 + plan.take(5));
        assert(exec.replies()[h0.len() as int] == h4[h0.len() as int]);
        assert(exec.replies()[h0.len() + 1int] == h4[h0.len() + 1int]);
        assert(exec.replies()[h0.len() + 2int] == h4[h0.len() + 2int]);
    }
    let after = match after {
        Ok(o) => o,
        Err(e) => {
            let e2 = runner.step_failed("restart if changed", e);
            return runner.finish_err("restart if changed", &e2).0;
        },
    };
    if str_eq(trim(after.stdout.as_str()), before.as_str()) {
        runner.step_done("restart if changed", StepOutcome::Unchanged);
    } else {
        let mut u = String::from_str(m.unit.as_str());
        u.append(".service");
        let mut health = String::from_str("systemctl restart ");
        health.append(u.as_str());
        health.append(" && for i in 1 2 3 4 5; do [ \"$(systemctl is-active ");
        health.append(u.as_str());
        health.append(")\" = active ] && exit 0; sleep 2; done; exit 1");
        let ghost h5 = exec.replies();
        let out = native_sh(exec, vmid, health.as_str(), 120);
        proof {
            assert(exec.requests() =~= q0 + plan.take(6));
            assert(exec.replies()[h0.len() as int] == h5[h0.len() as int]);
            assert(exec.replies()[h0.len() + 1int] == h5[h0.len() + 1int]);
            assert(exec.replies()[h0.len() + 2int] == h5[h0.len() + 2int]);
            assert(exec.replies()[h0.len() + 4int] == h5[h0.len() + 4int]);
        }
        let out = match out {
            Ok(o) => o,
            Err(e) => {
                let e2 = runner.step_failed("restart if changed", e);
                return runner.finish_err("restart if changed", &e2).0;
            },
        };
        if out.success() {
            runner.step_done("restart if changed", StepOutcome::Changed);
        } else {
            let mut rollback = String::from_str("cp -p ");
            rollback.append(qp.as_str());
            rollback.append(" ");
            rollback.append(quoted.as_str());
            rollback.append(" && systemctl restart ");
            rollback.append(u.as_str());
            rollback.append(" && sleep 2 && [ \"$(systemctl is-active ");
            rollback.append(u.as_str());
            rollback.append(")\" = active ]");
            let ghost h6 = exec.replies();
            let rb = native_sh(exec, vmid, rollback.as_str(), 120);
            proof {
                assert(exec.requests() =~= q0 + plan.take(7));
                assert(exec.replies()[h0.len() as int] == h6[h0.len() as int]);
                assert(exec.replies()[h0.len() + 1int] == h6[h0.len() + 1int]);
                assert(exec.replies()[h0.len() + 2int] == h6[h0.len() + 2int]);
                assert(exec.replies()[h0.len() + 4int] == h6[h0.len() + 4int]);
                assert(exec.replies()[h0.len() + 5int] == h6[h0.len() + 5int]);
            }
            let restored = match rb {
                Ok(o) => o.success(),
                Err(e) => {
                    let e2 = runner.step_failed("restart if changed", e);
                    return runner.finish_err("restart if changed", &e2).0;
                },
            };
            let mut msg = String::from_str("new ");
            msg.append(m.stack_name.as_str());
            msg.append(" version did not come up healthy — rolled back to the previous binary (");
            if restored {
                msg.append("service restored and active");
            } else {
                msg.append("ROLLBACK ALSO FAILED — service needs hands NOW");
            }
            msg.append("); investigate before the next nightly run");
            let e2 = runner.step_failed("restart if changed", CoreError::Other(msg));
            return runner.finish_err("restart if changed", &e2).0;
        }
    }
    let mut line = String::from_str("[update] ");
    line.append(m.stack_name.as_str());
    line.append(" self-update supervised — healthy");
    runner.log(Level::Info, line);
    runner.finish_ok().0
}

// ── Adoption, on the machine ────────────────────────────────────────────────

/// `test -x` the binary, `test -d` each data directory, `test -f` the env
/// file: everything the stack file claims exists.
pub open spec fn paths_script_of(binary: Seq<char>, dirs: Seq<String>, env: Option<String>) -> Seq<char>
    decreases dirs.len(),
{
    if dirs.len() == 0 {
        "test -x "@ + quoted_arg(binary) + match env {
            Some(f) => " && test -f "@ + quoted_arg(f@),
            None => Seq::empty(),
        }
    } else {
        let pre = paths_script_of(binary, dirs.drop_last(), None);
        pre + " && test -d "@ + quoted_arg(dirs.last()@) + match env {
            Some(f) => " && test -f "@ + quoted_arg(f@),
            None => Seq::empty(),
        }
    }
}

fn paths_script(m: &NativeServiceManifest) -> (r: String)
    ensures
        r@ == paths_script_of(m.binary@, m.data_dirs@, m.env_file),
{
    let mut s = String::from_str("test -x ");
    let b = shell_quote(m.binary.as_str());
    s.append(b.as_str());
    let mut i: usize = 0;
    while i < m.data_dirs.len()
        invariant
            i <= m.data_dirs.len(),
            s@ == paths_script_of(m.binary@, m.data_dirs@.take(i as int), None),
        decreases m.data_dirs.len() - i,
    {
        proof {
            assert(m.data_dirs@.take(i + 1).drop_last() =~= m.data_dirs@.take(i as int));
        }
        s.append(" && test -d ");
        let d = shell_quote(m.data_dirs[i].as_str());
        s.append(d.as_str());
        i += 1;
    }
    proof {
        assert(m.data_dirs@.take(i as int) =~= m.data_dirs@);
        if m.data_dirs@.len() > 0 {
            assert(m.data_dirs@.drop_last() =~= m.data_dirs@.take(m.data_dirs@.len() - 1));
        }
    }
    match &m.env_file {
        Some(f) => {
            s.append(" && test -f ");
            let q = shell_quote(f.as_str());
            s.append(q.as_str());
        },
        None => {},
    }
    s
}

/// `{:?}` of a list of strings.
pub open spec fn debug_list(v: Seq<String>) -> Seq<char> {
    "["@ + joined(v.map_values(|d: String| debug_string(d@)), ", "@) + "]"@
}

fn debug_strings(v: &Vec<String>) -> (r: String)
    ensures
        r@ == debug_list(v@),
{
    let mut parts: Vec<String> = Vec::new();
    let mut i: usize = 0;
    while i < v.len()
        invariant
            i <= v.len(),
            string_views(parts@) == v@.take(i as int).map_values(|d: String| debug_string(d@)),
        decreases v.len() - i,
    {
        let q = debug_quote(v[i].as_str());
        let ghost before = parts@;
        proof {
            assert(q@ == debug_string(v@[i as int]@));
            assert(string_views(before).len() == before.len());
            assert(v@.take(i as int).map_values(|d: String| debug_string(d@)).len() == i);
            assert(before.len() == i);
        }
        parts.push(q);
        proof {
            let want = v@.take(i + 1).map_values(|d: String| debug_string(d@));
            assert(want.len() == i + 1);
            assert forall|k: int| 0 <= k < i + 1 implies #[trigger] string_views(parts@)[k] == want[k] by {
                if k < i {
                    assert(parts@[k] == before[k]);
                    assert(string_views(before)[k] == v@.take(i as int).map_values(|d: String| debug_string(d@))[k]);
                }
            }
            assert(string_views(parts@) =~= want);
        }
        i += 1;
    }
    proof {
        assert(v@.take(i as int) =~= v@);
    }
    let mut s = String::from_str("[");
    let j = join_strings(parts.as_slice(), ", ");
    s.append(j.as_str());
    s.append("]");
    s
}

/// What adopting asks of the machine, as far as the reads go: the target
/// guard's config read, `systemctl is-active`, `systemctl show`, the path
/// test, and the config read for the tags. The one change it may make, the
/// `homelab` tag, comes after all of them.
pub open spec fn adopt_reads(m: NativeServiceManifest) -> Seq<Request> {
    let unit = m.unit@ + ".service"@;
    let sh = |s: Seq<char>| Request::Run("pct"@, pct_sh_args(m.vmid, s), 30);
    seq![
        Request::Run("pct"@, seq!["config"@, dec(m.vmid as nat)], 30),
        sh("systemctl is-active "@ + unit),
        sh("systemctl show "@ + unit + " -p ExecStart -p EnvironmentFiles"@),
        sh(paths_script_of(m.binary@, m.data_dirs@, m.env_file)),
        Request::Run("pct"@, seq!["config"@, dec(m.vmid as nat)], 30),
    ]
}

/// The machine's part of adopting a running native service: validate the
/// stack file, guard the target, check that the unit runs the binary and
/// reads the env file the stack file names, that every path exists, and tag
/// the container `homelab`. It never starts, stops or restarts anything:
/// every request is one of the reads, and the only change is the tag, set
/// only when the container does not carry it yet. `Ok` hands the runner
/// back to record the stack.
pub fn adopt_service<E: Executor, S: Sink, J: Journal>(
    exec: &mut E,
    runner: Runner<S, J>,
    safety: &SafetyConfig,
    m: &NativeServiceManifest,
) -> (r: Result<Runner<S, J>, OperationReport>)
    ensures
        ({
            let q0 = old(exec).requests();
            let h0 = old(exec).replies().len() as int;
            let q = final(exec).requests();
            let h = final(exec).replies();
            let n = q.len() - q0.len();
            &&& 0 <= n <= 6
            &&& q.take(q0.len() + if n <= 5 { n } else { 5 }) == q0 + adopt_reads(*m).take(if n <= 5 { n } else { 5 })
            &&& (native_problems(*m).len() > 0 || no_touch_refusal(safety.no_touch@, m.vmid) is Some) ==> n == 0
            &&& (native_problems(*m).len() == 0 && no_touch_refusal(safety.no_touch@, m.vmid) is None) ==> n >= 1
            &&& n >= 2 ==> (h[h0] matches Some(cfg) && config_refusal(m.vmid, m.hostname@, cfg) is None)
            &&& n == 6 ==> (h[h0 + 4] matches Some(c) && tags_with_homelab(c.stdout) matches Some(t) && q.last()
                == Request::Run("pct"@, seq!["set"@, dec(m.vmid as nat), "--tags"@, t], 30))
            &&& r is Ok ==> n >= 5
            &&& r is Err ==> native_problems(*m).len() > 0 || no_touch_refusal(safety.no_touch@, m.vmid) is Some
                || (n == 1 && (h.last() matches Some(c) && config_refusal(m.vmid, m.hostname@, c) is Some))
                || (n == 3 && (h[h0 + 1] matches Some(a) && h[h0 + 2] matches Some(sh) && service_refusal(*m, a.stdout, sh.stdout) is Some))
                || ended_on_failure(q, h)
            &&& n == 5 ==> (r is Ok <==> h.last() is Some)
            &&& n == 6 ==> (r is Ok <==> (h.last() matches Some(o) && o.code == 0))
        }),
        match r {
            Ok(run) => run.op_name() == runner.op_name(),
            Err(rep) => !rep.ok && rep.op@ == runner.op_name(),
        },
{
    let mut runner = runner;
    let ghost q0 = exec.requests();
    let ghost h0 = exec.replies();
    let ghost reads = adopt_reads(*m);
    let vmid = m.vmid;

    runner.begin_step("validate manifest");
    match validate_native(m) {
        Ok(()) => {},
        Err(ps) => {
            let mut msg = String::from_str("native manifest: ");
            let j = join_strings(ps.as_slice(), "; ");
            msg.append(j.as_str());
            proof {
                assert(exec.requests() =~= q0 + reads.take(0));
            }
            let e2 = runner.step_failed("validate manifest", CoreError::SafetyAbort(msg));
            return Err(runner.finish_err("validate manifest", &e2).0);
        },
    }
    runner.step_done("validate manifest", StepOutcome::Unchanged);

    runner.begin_step("guard target");
    match guard_target(exec, safety, vmid, m.hostname.as_str()) {
        Ok(()) => {},
        Err(e) => {
            proof {
                if no_touch_refusal(safety.no_touch@, vmid) is None {
                    assert(exec.requests() =~= q0 + reads.take(1));
                } else {
                    assert(exec.requests() =~= q0 + reads.take(0));
                }
            }
            let e2 = runner.step_failed("guard target", e);
            return Err(runner.finish_err("guard target", &e2).0);
        },
    }
    runner.step_done("guard target", StepOutcome::Unchanged);
    let ghost h1 = exec.replies();
    proof {
        assert(exec.requests() =~= q0 + reads.take(1));
        assert(h1[h0.len() as int] == h1.last());
    }

    // The unit must run, and be wired the way the stack file claims.
    runner.begin_step("verify service");
    let mut unit = String::from_str(m.unit.as_str());
    unit.append(".service");
    let mut ask = String::from_str("systemctl is-active ");
    ask.append(unit.as_str());
    let active = pct_sh(exec, vmid, ask.as_str(), 30);
    proof {
        assert(exec.requests() =~= q0 + reads.take(2));
        assert(exec.replies()[h0.len() as int] == h1[h0.len() as int]);
    }
    let active = match active {
        Ok(o) => o,
        Err(e) => {
            let e2 = runner.step_failed("verify service", e);
            return Err(runner.finish_err("verify service", &e2).0);
        },
    };
    let ghost h2 = exec.replies();
    let mut show_cmd = String::from_str("systemctl show ");
    show_cmd.append(unit.as_str());
    show_cmd.append(" -p ExecStart -p EnvironmentFiles");
    let show = pct_sh(exec, vmid, show_cmd.as_str(), 30);
    proof {
        assert(exec.requests() =~= q0 + reads.take(3));
        assert(exec.replies()[h0.len() as int] == h2[h0.len() as int]);
    }
    let show = match show {
        Ok(o) => o,
        Err(e) => {
            let e2 = runner.step_failed("verify service", e);
            return Err(runner.finish_err("verify service", &e2).0);
        },
    };
    match service_verdict(m, active.stdout.as_str(), show.stdout.as_str()) {
        Ok(()) => {},
        Err(e) => {
            let e2 = runner.step_failed("verify service", e);
            return Err(runner.finish_err("verify service", &e2).0);
        },
    }
    runner.step_done("verify service", StepOutcome::Unchanged);

    runner.begin_step("verify paths");
    let ghost h3 = exec.replies();
    let script = paths_script(m);
    let out = pct_sh(exec, vmid, script.as_str(), 30);
    proof {
        assert(exec.requests() =~= q0 + reads.take(4));
        assert(exec.replies()[h0.len() as int] == h3[h0.len() as int]);
    }
    let out = match out {
        Ok(o) => o,
        Err(e) => {
            let e2 = runner.step_failed("verify paths", e);
            return Err(runner.finish_err("verify paths", &e2).0);
        },
    };
    if !out.success() {
        let mut msg = String::from_str("binary/data/env paths do not all exist in CT ");
        let v = dec_string(vmid as u64);
        msg.append(v.as_str());
        msg.append(" (checked: ");
        msg.append(m.binary.as_str());
        msg.append(" ");
        let dirs = debug_strings(&m.data_dirs);
        msg.append(dirs.as_str());
        msg.append(" ");
        match &m.env_file {
            Some(f) => {
                msg.append("Some(");
                let q = debug_quote(f.as_str());
                msg.append(q.as_str());
                msg.append(")");
            },
            None => {
                msg.append("None");
            },
        }
        msg.append(")");
        let e2 = runner.step_failed("verify paths", CoreError::SafetyAbort(msg));
        return Err(runner.finish_err("verify paths", &e2).0);
    }
    runner.step_done("verify paths", StepOutcome::Unchanged);

    // The `homelab` tag makes "managed" visible; any other tag stays.
    runner.begin_step("tag as managed");
    let ghost h4 = exec.replies();
    let vm = dec_string(vmid as u64);
    let read = Cmd::new("pct", &["config", vm.as_str()], 30);
    proof {
        assert(string_views(read.args@) =~= seq!["config"@, dec(vmid as nat)]);
    }
    let cfg = exec.run(&read);
    proof {
        assert(exec.requests() =~= q0 + reads.take(5));
        assert(exec.replies()[h0.len() as int] == h4[h0.len() as int]);
    }
    let cfg = match cfg {
        Ok(o) => o,
        Err(e) => {
            let e2 = runner.step_failed("tag as managed", e);
            return Err(runner.finish_err("tag as managed", &e2).0);
        },
    };
    let ghost h5 = exec.replies();
    let ghost q5 = exec.requests();
    proof {
        assert(h5[h0.len() + 4int] == Some(cfg@));
    }
    match merged_tags(cfg.stdout.as_str()) {
        None => {
            runner.step_done("tag as managed", StepOutcome::Unchanged);
        },
        Some(joined_tags) => {
            let set = Cmd::new("pct", &["set", vm.as_str(), "--tags", joined_tags.as_str()], 30);
            proof {
                assert(string_views(set.args@) =~= seq!["set"@, dec(vmid as nat), "--tags"@, joined_tags@]);
            }
            let res = run_ok(exec, &set);
            proof {
                assert(exec.requests().take(q0.len() + 5int) =~= q5);
                assert(exec.replies()[h0.len() as int] == h5[h0.len() as int]);
                assert(exec.replies()[h0.len() + 4int] == h5[h0.len() + 4int]);
            }
            match res {
                Ok(_) => {
                    runner.step_done("tag as managed", StepOutcome::Changed);
                },
                Err(e) => {
                    let e2 = runner.step_failed("tag as managed", e);
                    return Err(runner.finish_err("tag as managed", &e2).0);
                },
            }
        },
    }
    proof {
        assert(q5 =~= q0 + reads.take(5));
        assert(exec.requests().take(q0.len() + 5int) =~= q0 + reads.take(5));
    }
    Ok(runner)
}


// ── Installing a native service ─────────────────────────────────────────────

/// A command in container `vmid` through `sh -c`.
pub open spec fn in_ct(vmid: u16, script: Seq<char>, timeout_s: u64) -> Request {
    Request::Run("pct"@, pct_sh_args(vmid, script), timeout_s)
}

/// Where the new binary is decoded, beside the running one.
pub open spec fn staged_binary(binary: Seq<char>) -> Seq<char> {
    binary + ".homelab-new"@
}

/// Whether a binary is there to fall back to.
pub open spec fn presence_script(binary: Seq<char>) -> Seq<char> {
    "test -f "@ + quoted_arg(binary) + " && echo yes || echo no"@
}

/// Decode the pushed base64 into the staged binary, and drop the base64.
pub open spec fn decode_script(binary: Seq<char>) -> Seq<char> {
    let new = staged_binary(binary);
    let b64 = new + ".b64"@;
    "base64 -d "@ + quoted_arg(b64) + " > "@ + quoted_arg(new) + " && chmod 755 "@ + quoted_arg(new) + " && rm -f "@
        + quoted_arg(b64) + " && test -s "@ + quoted_arg(new)
}

/// Stop the unit, move the staged binary over the running one, enable and
/// start it, and wait up to ten seconds for it to be active.
pub open spec fn activate_script(unit: Seq<char>, binary: Seq<char>) -> Seq<char> {
    let u = unit + ".service"@;
    "systemctl stop "@ + u + " 2>/dev/null; mv -f "@ + quoted_arg(staged_binary(binary)) + " "@ + quoted_arg(binary)
        + " && systemctl enable "@ + u + " >/dev/null 2>&1 && systemctl start "@ + u
        + " && for i in 1 2 3 4 5; do [ \"$(systemctl is-active "@ + u + ")\" = active ] && exit 0; sleep 2; done; exit 1"@
}

/// The reply at `j` is a command that ran and succeeded.
pub open spec fn succeeded(h: Seq<Option<OutputView>>, j: int) -> bool {
    h[j] matches Some(o) && o.code == 0
}

/// The presence probe, answered at `j`, found a binary.
pub open spec fn found_binary(h: Seq<Option<OutputView>>, j: int) -> bool {
    h[j] matches Some(o) && trimmed(o.stdout) == "yes"@
}

/// What an install refuses before it asks anything of the machine.
pub open spec fn install_refused(m: NativeServiceManifest, unit_file: Seq<char>, no_touch: Seq<u16>) -> bool {
    native_problems(m).len() > 0 || unit_file_refusal(m, unit_file) is Some || no_touch_refusal(no_touch, m.vmid) is Some
}

/// The record from `n0` (replies shifted by `d`) opens an install: the
/// target guard's config read passed, the presence probe was answered,
/// and a binary it found was copied aside successfully.
pub open spec fn install_head(q: Seq<Request>, h: Seq<Option<OutputView>>, d: int, n0: int, m: NativeServiceManifest) -> bool {
    &&& 0 <= n0
    &&& 0 <= n0 + d
    &&& q.len() >= n0 + 2
    &&& h.len() == q.len() + d
    &&& q[n0] == Request::Run("pct"@, seq!["config"@, dec(m.vmid as nat)], 30)
    &&& h[n0 + d] matches Some(cfg) && config_refusal(m.vmid, m.hostname@, cfg) is None
    &&& q[n0 + 1] == in_ct(m.vmid, presence_script(m.binary@), 30)
    &&& h[n0 + 1 + d] is Some
    &&& found_binary(h, n0 + 1 + d) ==> q.len() >= n0 + 3 && q[n0 + 2] == in_ct(m.vmid, keep_binary_script(m.binary@), 120)
        && succeeded(h, n0 + 2 + d)
}

/// No request from `from` on moves a staged binary over the running one.
pub open spec fn no_activation(q: Seq<Request>, from: int, m: NativeServiceManifest) -> bool {
    forall|i: int| from <= i < q.len() ==> #[trigger] q[i] != in_ct(m.vmid, activate_script(m.unit@, m.binary@), 180)
}

/// The activation at `i` was prepared: the install opened soundly, the
/// staged binary decoded, and systemd reloaded the unit file right before.
pub open spec fn prepared_at(q: Seq<Request>, h: Seq<Option<OutputView>>, d: int, n0: int, i: int, m: NativeServiceManifest) -> bool {
    &&& install_head(q.take(i), h.take(i + d), d, n0, m)
    &&& q[i - 1] == in_ct(m.vmid, "systemctl daemon-reload"@, 60)
    &&& succeeded(h, i - 1 + d)
    &&& exists|t: int| #![trigger q[t]] n0 + 2 <= t < i - 1 && q[t] == in_ct(m.vmid, decode_script(m.binary@), 300) && succeeded(h, t + d)
}

proof fn lemma_install_carry(
    q1: Seq<Request>,
    h1: Seq<Option<OutputView>>,
    q2: Seq<Request>,
    h2: Seq<Option<OutputView>>,
    d: int,
    n0: int,
    m: NativeServiceManifest,
)
    requires
        extends(q1, h1, q2, h2),
        install_head(q1, h1, d, n0, m),
        no_activation(q1, n0, m),
        no_activation(q2, q1.len() as int, m),
    ensures
        install_head(q2, h2, d, n0, m),
        no_activation(q2, n0, m),
        forall|j: int| 0 <= j < q1.len() ==> #[trigger] q2[j] == q1[j],
        forall|j: int| 0 <= j < h1.len() ==> #[trigger] h2[j] == h1[j],
{
    assert forall|j: int| 0 <= j < q1.len() implies #[trigger] q2[j] == q1[j] by {
        assert(q2.take(q1.len() as int)[j] == q2[j]);
    }
    assert forall|j: int| 0 <= j < h1.len() implies #[trigger] h2[j] == h1[j] by {
        assert(h2.take(h1.len() as int)[j] == h2[j]);
    }
    assert(q2[n0] == q1[n0]);
    assert(q2[n0 + 1] == q1[n0 + 1]);
    assert(h2[n0 + d] == h1[n0 + d]);
    assert(h2[n0 + 1 + d] == h1[n0 + 1 + d]);
    if found_binary(h1, n0 + 1 + d) {
        assert(q2[n0 + 2] == q1[n0 + 2]);
        assert(h2[n0 + 2 + d] == h1[n0 + 2 + d]);
    }
    assert forall|i: int| n0 <= i < q2.len() implies #[trigger] q2[i] != in_ct(m.vmid, activate_script(m.unit@, m.binary@), 180) by {
        if i < q1.len() {
            assert(q2[i] == q1[i]);
        }
    }
}

proof fn lemma_scripts_differ(unit: Seq<char>, binary: Seq<char>)
    ensures
        restore_binary_script(binary, unit) != activate_script(unit, binary),
{
    reveal_strlit("cp -p ");
    reveal_strlit("systemctl stop ");
    let a = restore_binary_script(binary, unit);
    let b = activate_script(unit, binary);
    assert(a[0] == 'c');
    assert(b[0] == 's');
}

/// One command in the container, with its place in the record.
fn ct_sh<E: Executor>(exec: &mut E, vmid: u16, script: &str, timeout_s: u64) -> (r: Result<crate::executor::CmdOutput, CoreError>)
    ensures
        final(exec).requests() == old(exec).requests().push(in_ct(vmid, script@, timeout_s)),
        final(exec).replies() == old(exec).replies().push(reply_of(r)),
        extends(old(exec).requests(), old(exec).replies(), final(exec).requests(), final(exec).replies()),
{
    let ghost q = exec.requests();
    let ghost h = exec.replies();
    let r = pct_sh(exec, vmid, script, timeout_s);
    proof {
        lemma_pushed(q, h, in_ct(vmid, script@, timeout_s), reply_of(r));
    }
    r
}

/// The record from `n0` is ready for the activation: the install opened
/// soundly, nothing moved a binary yet, the staged binary decoded, and the
/// last request, systemd's reload, succeeded.
pub open spec fn ready_to_activate(q: Seq<Request>, h: Seq<Option<OutputView>>, d: int, n0: int, m: NativeServiceManifest) -> bool {
    &&& install_head(q, h, d, n0, m)
    &&& no_activation(q, n0, m)
    &&& q.last() == in_ct(m.vmid, "systemctl daemon-reload"@, 60)
    &&& succeeded(h, q.len() - 1 + d)
    &&& exists|t: int| #![trigger q[t]] n0 + 2 <= t < q.len() - 1 && q[t] == in_ct(m.vmid, decode_script(m.binary@), 300) && succeeded(h, t + d)
}

proof fn lemma_activation_prepared(
    q: Seq<Request>,
    h: Seq<Option<OutputView>>,
    x: Option<OutputView>,
    d: int,
    n0: int,
    m: NativeServiceManifest,
)
    requires
        ready_to_activate(q, h, d, n0, m),
    ensures
        ({
            let act = in_ct(m.vmid, activate_script(m.unit@, m.binary@), 180);
            let q2 = q.push(act);
            let h2 = h.push(x);
            forall|i: int| n0 <= i < q2.len() && #[trigger] q2[i] == act ==> prepared_at(q2, h2, d, n0, i, m)
        }),
{
    let act = in_ct(m.vmid, activate_script(m.unit@, m.binary@), 180);
    let q2 = q.push(act);
    let h2 = h.push(x);
    let a = q.len() as int;
    assert(q2.take(a) =~= q);
    assert(h2.take(a + d) =~= h);
    let t = choose|t: int| #![trigger q[t]] n0 + 2 <= t < q.len() - 1 && q[t] == in_ct(m.vmid, decode_script(m.binary@), 300) && succeeded(h, t + d);
    assert(q2[t] == q[t]);
    assert(h2[t + d] == h[t + d]);
    assert(q2[a - 1] == q[a - 1]);
    assert(h2[a - 1 + d] == h[a - 1 + d]);
    assert(prepared_at(q2, h2, d, n0, a, m));
    assert forall|i: int| n0 <= i < q2.len() && #[trigger] q2[i] == act implies prepared_at(q2, h2, d, n0, i, m) by {
        if i < a {
            assert(q2[i] == q[i]);
        }
    }
}

proof fn lemma_prepared_carry(
    q1: Seq<Request>,
    h1: Seq<Option<OutputView>>,
    q2: Seq<Request>,
    h2: Seq<Option<OutputView>>,
    d: int,
    n0: int,
    m: NativeServiceManifest,
)
    requires
        extends(q1, h1, q2, h2),
        h1.len() == q1.len() + d,
        0 <= n0,
        0 <= n0 + d,
        forall|i: int| n0 <= i < q1.len() && #[trigger] q1[i] == in_ct(m.vmid, activate_script(m.unit@, m.binary@), 180)
            ==> prepared_at(q1, h1, d, n0, i, m),
        no_activation(q2, q1.len() as int, m),
    ensures
        forall|i: int| n0 <= i < q2.len() && #[trigger] q2[i] == in_ct(m.vmid, activate_script(m.unit@, m.binary@), 180)
            ==> prepared_at(q2, h2, d, n0, i, m),
{
    let act = in_ct(m.vmid, activate_script(m.unit@, m.binary@), 180);
    assert forall|i: int| n0 <= i < q2.len() && #[trigger] q2[i] == act implies prepared_at(q2, h2, d, n0, i, m) by {
        assert(i < q1.len());
        assert(q2.take(q1.len() as int)[i] == q2[i]);
        assert(prepared_at(q1, h1, d, n0, i, m));
        assert(q2.take(i) =~= q1.take(i));
        assert(h2.take(i + d) =~= h1.take(i + d));
        assert(q2.take(q1.len() as int)[i - 1] == q2[i - 1]);
        assert(h2.take(h1.len() as int)[i - 1 + d] == h2[i - 1 + d]);
        let t = choose|t: int| #![trigger q1[t]] n0 + 2 <= t < i - 1 && q1[t] == in_ct(m.vmid, decode_script(m.binary@), 300) && succeeded(h1, t + d);
        assert(q2.take(q1.len() as int)[t] == q2[t]);
        assert(h2.take(h1.len() as int)[t + d] == h2[t + d]);
    }
}

/// Everything before the activation: the target guard, keeping a binary
/// that is there, staging the new one and installing the unit file. `Ok`
/// says whether a binary was there to fall back to.
fn install_prepare<E: Executor, S: Sink, J: Journal>(
    exec: &mut E,
    runner: &mut Runner<S, J>,
    safety: &SafetyConfig,
    m: &NativeServiceManifest,
    binary_b64: &str,
    unit_file: &str,
) -> (r: Result<bool, (&'static str, CoreError)>)
    ensures
        extends(old(exec).requests(), old(exec).replies(), final(exec).requests(), final(exec).replies()),
        final(runner).op_name() == old(runner).op_name(),
        ({
            let q0 = old(exec).requests();
            let n0 = q0.len() as int;
            let d = old(exec).replies().len() - n0;
            let q = final(exec).requests();
            let h = final(exec).replies();
            &&& no_touch_refusal(safety.no_touch@, m.vmid) is Some ==> q == q0 && r is Err
            &&& no_touch_refusal(safety.no_touch@, m.vmid) is None ==> q.len() > n0
                && q[n0] == Request::Run("pct"@, seq!["config"@, dec(m.vmid as nat)], 30)
            &&& no_activation(q, n0, *m)
            &&& r matches Ok(had) ==> ready_to_activate(q, h, d, n0, *m) && had == found_binary(h, n0 + 1 + d)
            &&& r is Err && no_touch_refusal(safety.no_touch@, m.vmid) is None ==> ended_on_failure(q, h) || (h[n0 + d] matches Some(
                c,
            ) && config_refusal(m.vmid, m.hostname@, c) is Some)
        }),
{
    let ghost q0 = exec.requests();
    let ghost h0 = exec.replies();
    let ghost n0 = q0.len() as int;
    let ghost d = h0.len() - n0;
    proof {
        lemma_extends_refl(q0, h0);
    }
    let vmid = m.vmid;
    let mut prev = String::from_str(m.binary.as_str());
    prev.append(".homelab-prev");
    let mut staged = String::from_str(m.binary.as_str());
    staged.append(".homelab-new");
    let mut unit_path = String::from_str("/etc/systemd/system/");
    unit_path.append(m.unit.as_str());
    unit_path.append(".service");
    let qbin = shell_quote(m.binary.as_str());
    let qprev = shell_quote(prev.as_str());
    let qnew = shell_quote(staged.as_str());

    runner.begin_step("guard target");
    match guard_target(exec, safety, vmid, m.hostname.as_str()) {
        Ok(()) => {},
        Err(e) => {
            proof {
                if no_touch_refusal(safety.no_touch@, vmid) is None {
                    assert(exec.replies() =~= h0.push(exec.replies().last()));
                    lemma_pushed(q0, h0, exec.requests().last(), exec.replies().last());
                }
            }
            return Err(("guard target", runner.step_failed("guard target", e)));
        },
    }
    runner.step_done("guard target", StepOutcome::Unchanged);
    let ghost q1 = exec.requests();
    let ghost h1 = exec.replies();
    proof {
        assert(h1 =~= h0.push(h1.last()));
        lemma_pushed(q0, h0, q1.last(), h1.last());
        assert(h1[n0 + d] == h1.last());
    }

    runner.begin_step("preserve previous binary");
    let mut probe = String::from_str("test -f ");
    probe.append(qbin.as_str());
    probe.append(" && echo yes || echo no");
    let out = ct_sh(exec, vmid, probe.as_str(), 30);
    proof {
        lemma_extends_trans(q0, h0, q1, h1, exec.requests(), exec.replies());
    }
    let out = match out {
        Ok(o) => o,
        Err(e) => return Err(("preserve previous binary", runner.step_failed("preserve previous binary", e))),
    };
    let had_previous = str_eq(trim(out.stdout.as_str()), "yes");
    proof {
        reveal_strlit("yes");
    }
    if had_previous {
        let mut keep = String::from_str("cp -p ");
        keep.append(qbin.as_str());
        keep.append(" ");
        keep.append(qprev.as_str());
        let ghost q2 = exec.requests();
        let ghost h2 = exec.replies();
        let kept = ct_sh(exec, vmid, keep.as_str(), 120);
        proof {
            lemma_extends_trans(q0, h0, q2, h2, exec.requests(), exec.replies());
        }
        let kept = match kept {
            Ok(o) => o,
            Err(e) => return Err(("preserve previous binary", runner.step_failed("preserve previous binary", e))),
        };
        if !kept.success() {
            let mut msg = String::from_str("cannot preserve the running ");
            msg.append(m.binary.as_str());
            msg.append(" — refusing to replace a binary with no way back");
            return Err(("preserve previous binary", runner.step_failed("preserve previous binary", CoreError::Other(msg))));
        }
        runner.step_done("preserve previous binary", StepOutcome::Changed);
    } else {
        runner.step_done("preserve previous binary", StepOutcome::Unchanged);
    }
    let ghost q3 = exec.requests();
    let ghost h3 = exec.replies();
    proof {
        assert(install_head(q3, h3, d, n0, *m));
        assert(no_activation(q3, n0, *m));
    }

    // The binary travels as base64 text and is decoded beside the target,
    // so a transfer that dies half way leaves the running service alone.
    runner.begin_step("stage binary");
    let mut b64_path = String::from_str(staged.as_str());
    b64_path.append(".b64");
    let pushed = push_content(exec, vmid, b64_path.as_str(), binary_b64, "600");
    proof {
        lemma_install_carry(q3, h3, exec.requests(), exec.replies(), d, n0, *m);
        lemma_extends_trans(q0, h0, q3, h3, exec.requests(), exec.replies());
    }
    match pushed {
        Ok(_) => {},
        Err(e) => return Err(("stage binary", runner.step_failed("stage binary", e))),
    }
    let qb64 = shell_quote(b64_path.as_str());
    let mut decode = String::from_str("base64 -d ");
    decode.append(qb64.as_str());
    decode.append(" > ");
    decode.append(qnew.as_str());
    decode.append(" && chmod 755 ");
    decode.append(qnew.as_str());
    decode.append(" && rm -f ");
    decode.append(qb64.as_str());
    decode.append(" && test -s ");
    decode.append(qnew.as_str());
    let ghost q4 = exec.requests();
    let ghost h4 = exec.replies();
    let out = ct_sh(exec, vmid, decode.as_str(), 300);
    proof {
        lemma_install_carry(q4, h4, exec.requests(), exec.replies(), d, n0, *m);
        lemma_extends_trans(q0, h0, q4, h4, exec.requests(), exec.replies());
    }
    let out = match out {
        Ok(o) => o,
        Err(e) => return Err(("stage binary", runner.step_failed("stage binary", e))),
    };
    if !out.success() {
        let mut msg = String::from_str("could not decode the binary into ");
        msg.append(staged.as_str());
        msg.append(" (");
        msg.append(trim(out.stderr.as_str()));
        msg.append(") — nothing was replaced");
        return Err(("stage binary", runner.step_failed("stage binary", CoreError::Other(msg))));
    }
    runner.step_done("stage binary", StepOutcome::Changed);
    let ghost t = q4.len() as int;
    let ghost q5 = exec.requests();
    let ghost h5 = exec.replies();
    proof {
        assert(decode@ == decode_script(m.binary@));
        assert(q5[t] == in_ct(vmid, decode_script(m.binary@), 300));
        assert(succeeded(h5, t + d));
    }

    runner.begin_step("install unit file");
    let pushed = push_content(exec, vmid, unit_path.as_str(), unit_file, "644");
    proof {
        lemma_install_carry(q5, h5, exec.requests(), exec.replies(), d, n0, *m);
        lemma_extends_trans(q0, h0, q5, h5, exec.requests(), exec.replies());
    }
    match pushed {
        Ok(_) => {},
        Err(e) => return Err(("install unit file", runner.step_failed("install unit file", e))),
    }
    let ghost q6 = exec.requests();
    let ghost h6 = exec.replies();
    let out = ct_sh(exec, vmid, "systemctl daemon-reload", 60);
    proof {
        lemma_install_carry(q6, h6, exec.requests(), exec.replies(), d, n0, *m);
        lemma_extends_trans(q0, h0, q6, h6, exec.requests(), exec.replies());
        assert(exec.requests()[t] == q5[t]);
        assert(exec.replies()[t + d] == h5[t + d]);
    }
    let out = match out {
        Ok(o) => o,
        Err(e) => return Err(("install unit file", runner.step_failed("install unit file", e))),
    };
    if !out.success() {
        let mut msg = String::from_str("systemctl daemon-reload failed: ");
        msg.append(trim(out.stderr.as_str()));
        return Err(("install unit file", runner.step_failed("install unit file", CoreError::Other(msg))));
    }
    runner.step_done("install unit file", StepOutcome::Changed);
    Ok(had_previous)
}

/// After an activation that failed: with nothing to fall back to, stop the
/// unit and read its last log lines; otherwise put the kept binary back.
/// Nothing here moves the staged binary over the running one again.
fn after_failed_activation<E: Executor>(
    exec: &mut E,
    m: &NativeServiceManifest,
    had_previous: bool,
) -> (r: Result<CoreError, CoreError>)
    ensures
        extends(old(exec).requests(), old(exec).replies(), final(exec).requests(), final(exec).replies()),
        no_activation(final(exec).requests(), old(exec).requests().len() as int, *m),
        had_previous ==> final(exec).requests() == old(exec).requests().push(
            in_ct(m.vmid, restore_binary_script(m.binary@, m.unit@), 180),
        ),
        !had_previous ==> final(exec).requests().len() > old(exec).requests().len() && final(exec).requests()[old(
            exec,
        ).requests().len() as int] == in_ct(m.vmid, "systemctl stop "@ + m.unit@ + ".service"@, 60),
        r matches Ok(e) ==> e matches CoreError::Other(x) && (!had_previous ==> exists|log: Seq<char>| x@ == activation_failure(m.unit@, false, log, false)),
{
    let ghost q0 = exec.requests();
    let ghost h0 = exec.replies();
    let vmid = m.vmid;
    let mut unit = String::from_str(m.unit.as_str());
    unit.append(".service");
    if !had_previous {
        let mut stop = String::from_str("systemctl stop ");
        stop.append(unit.as_str());
        proof {
            assert(stop@ =~= "systemctl stop "@ + m.unit@ + ".service"@);
        }
        let _ = ct_sh(exec, vmid, stop.as_str(), 60);
        let ghost qs = exec.requests();
        let ghost q1 = exec.requests();
        let ghost h1 = exec.replies();
        let mut tail = String::from_str("journalctl -u ");
        tail.append(unit.as_str());
        tail.append(" -n 20 --no-pager 2>&1 | tail -20");
        let log = ct_sh(exec, vmid, tail.as_str(), 60);
        proof {
            lemma_extends_trans(q0, h0, q1, h1, exec.requests(), exec.replies());
            assert(exec.requests()[q0.len() as int] == qs[q0.len() as int]);
        }
        let log = log?;
        return Ok(activation_failed(m.unit.as_str(), false, log.stdout.as_str(), false));
    }
    let qbin = shell_quote(m.binary.as_str());
    let mut prev = String::from_str(m.binary.as_str());
    prev.append(".homelab-prev");
    let qprev = shell_quote(prev.as_str());
    let mut rollback = String::from_str("cp -p ");
    rollback.append(qprev.as_str());
    rollback.append(" ");
    rollback.append(qbin.as_str());
    rollback.append(" && systemctl restart ");
    rollback.append(unit.as_str());
    rollback.append(" && sleep 2 && [ \"$(systemctl is-active ");
    rollback.append(unit.as_str());
    rollback.append(")\" = active ]");
    let rb = ct_sh(exec, vmid, rollback.as_str(), 180);
    proof {
        lemma_scripts_differ(m.unit@, m.binary@);
        assert(rollback@ == restore_binary_script(m.binary@, m.unit@));
    }
    let rb = rb?;
    Ok(activation_failed(m.unit.as_str(), true, "", rb.success()))
}

/// The activation at some `a` failed, and what follows it is the way back:
/// the kept binary put back when there was one, else the unit stopped.
pub open spec fn failed_activation(q: Seq<Request>, h: Seq<Option<OutputView>>, d: int, n0: int, m: NativeServiceManifest) -> bool {
    exists|a: int|
        #![trigger q[a]]
        n0 <= a && a + 1 < q.len() && q[a] == in_ct(m.vmid, activate_script(m.unit@, m.binary@), 180) && !succeeded(h, a + d)
            && q[a + 1] == (if found_binary(h, n0 + 1 + d) {
            in_ct(m.vmid, restore_binary_script(m.binary@, m.unit@), 180)
        } else {
            in_ct(m.vmid, "systemctl stop "@ + m.unit@ + ".service"@, 60)
        })
}

/// Install a native service's binary and unit file into a container that
/// already exists. Nothing is asked of the machine for a malformed stack
/// file, a missing or wrong unit file, or a no-touch container. The new
/// binary is decoded beside the running one, and moved over it only once
/// it decoded and systemd reloaded the unit file (see [`prepared_at`]); a
/// binary that was there is copied aside first, and put back if the new
/// one does not come up. An install that fails without a refusal stopped
/// on a command that failed, on a container config that is not the one
/// named, or on a failed activation followed by the way back (see
/// [`failed_activation`]). `Ok` hands the runner back once the service is
/// active, to record the stack the way adopting does.
#[verifier::rlimit(40)]
pub fn install_native<E: Executor, S: Sink, J: Journal>(
    exec: &mut E,
    sink: S,
    journal: J,
    safety: &SafetyConfig,
    m: &NativeServiceManifest,
    binary_b64: &str,
    unit_file: &str,
) -> (r: Result<Runner<S, J>, OperationReport>)
    ensures
        match r {
            Ok(run) => run.op_name() == "install-"@ + m.unit@,
            Err(rep) => !rep.ok && rep.op@ == "install-"@ + m.unit@,
        },
        extends(old(exec).requests(), old(exec).replies(), final(exec).requests(), final(exec).replies()),
        ({
            let q0 = old(exec).requests();
            let n0 = q0.len() as int;
            let d = old(exec).replies().len() - n0;
            let q = final(exec).requests();
            let h = final(exec).replies();
            &&& install_refused(*m, unit_file@, safety.no_touch@) ==> q == q0 && r is Err
            &&& !install_refused(*m, unit_file@, safety.no_touch@) ==> q.len() > n0
                && q[n0] == Request::Run("pct"@, seq!["config"@, dec(m.vmid as nat)], 30)
            &&& forall|i: int| n0 <= i < q.len() && #[trigger] q[i] == in_ct(m.vmid, activate_script(m.unit@, m.binary@), 180)
                ==> prepared_at(q, h, d, n0, i, *m)
            &&& r is Ok ==> q.len() > n0 && q.last() == in_ct(m.vmid, activate_script(m.unit@, m.binary@), 180)
                && succeeded(h, h.len() - 1)
            &&& r is Err && !install_refused(*m, unit_file@, safety.no_touch@) ==> ended_on_failure(q, h) || (h[n0 + d] matches Some(
                c,
            ) && config_refusal(m.vmid, m.hostname@, c) is Some) || failed_activation(q, h, d, n0, *m)
        }),
{
    let ghost q0 = exec.requests();
    let ghost h0 = exec.replies();
    let ghost n0 = q0.len() as int;
    let ghost d = h0.len() - n0;
    proof {
        lemma_extends_refl(q0, h0);
    }
    let mut op = String::from_str("install-");
    op.append(m.unit.as_str());
    let mut runner = Runner::new(op.as_str(), sink, journal);

    runner.begin_step("validate manifest");
    match validate_native(m) {
        Ok(()) => {},
        Err(ps) => {
            let mut msg = String::from_str("native manifest: ");
            let j = join_strings(ps.as_slice(), "; ");
            msg.append(j.as_str());
            let e2 = runner.step_failed("validate manifest", CoreError::SafetyAbort(msg));
            return Err(runner.finish_err("validate manifest", &e2).0);
        },
    }
    match check_unit_file(m, unit_file) {
        Ok(()) => {},
        Err(e) => {
            let e2 = runner.step_failed("validate manifest", e);
            return Err(runner.finish_err("validate manifest", &e2).0);
        },
    }
    runner.step_done("validate manifest", StepOutcome::Unchanged);

    let prepared = install_prepare(exec, &mut runner, safety, m, binary_b64, unit_file);
    let ghost hp = exec.replies();
    let had_previous = match prepared {
        Ok(had) => had,
        Err((step, e)) => {
            proof {
                let q = exec.requests();
                assert forall|i: int| n0 <= i < q.len() && #[trigger] q[i] == in_ct(m.vmid, activate_script(m.unit@, m.binary@), 180)
                    implies prepared_at(q, exec.replies(), d, n0, i, *m) by {
                    assert(q[i] != in_ct(m.vmid, activate_script(m.unit@, m.binary@), 180));
                }
            }
            return Err(runner.finish_err(step, &e).0);
        },
    };

    // Stopping first: a file replaced under a running process stays mapped,
    // and every reading afterwards would be of the old version.
    runner.begin_step("activate");
    let mut unit = String::from_str(m.unit.as_str());
    unit.append(".service");
    let mut staged = String::from_str(m.binary.as_str());
    staged.append(".homelab-new");
    let qbin = shell_quote(m.binary.as_str());
    let qnew = shell_quote(staged.as_str());
    let mut act = String::from_str("systemctl stop ");
    act.append(unit.as_str());
    act.append(" 2>/dev/null; mv -f ");
    act.append(qnew.as_str());
    act.append(" ");
    act.append(qbin.as_str());
    act.append(" && systemctl enable ");
    act.append(unit.as_str());
    act.append(" >/dev/null 2>&1 && systemctl start ");
    act.append(unit.as_str());
    act.append(" && for i in 1 2 3 4 5; do [ \"$(systemctl is-active ");
    act.append(unit.as_str());
    act.append(")\" = active ] && exit 0; sleep 2; done; exit 1");
    let ghost q7 = exec.requests();
    let ghost h7 = exec.replies();
    let out = ct_sh(exec, m.vmid, act.as_str(), 180);
    proof {
        assert(act@ == activate_script(m.unit@, m.binary@));
        lemma_activation_prepared(q7, h7, exec.replies().last(), d, n0, *m);
        assert(exec.replies() =~= h7.push(exec.replies().last()));
        lemma_extends_trans(q0, h0, q7, h7, exec.requests(), exec.replies());
    }
    let out = match out {
        Ok(o) => o,
        Err(e) => {
            proof {
                assert(ended_on_failure(exec.requests(), exec.replies()));
            }
            let e2 = runner.step_failed("activate", e);
            return Err(runner.finish_err("activate", &e2).0);
        },
    };
    if out.success() {
        runner.step_done("activate", StepOutcome::Changed);
        return Ok(runner);
    }
    let ghost q8 = exec.requests();
    let ghost h8 = exec.replies();
    proof {
        assert(had_previous == found_binary(h8, n0 + 1 + d)) by {
            assert(h8[n0 + 1 + d] == hp[n0 + 1 + d]);
        }
        assert(h8[n0 + d] == hp[n0 + d]);
    }
    let after = after_failed_activation(exec, m, had_previous);
    proof {
        lemma_prepared_carry(q8, h8, exec.requests(), exec.replies(), d, n0, *m);
        lemma_extends_trans(q0, h0, q8, h8, exec.requests(), exec.replies());
        let q = exec.requests();
        let h = exec.replies();
        let a = q7.len() as int;
        assert(q.take(q8.len() as int)[a] == q[a]);
        assert(h.take(h8.len() as int)[a + d] == h[a + d]);
        assert(h.take(h8.len() as int)[n0 + 1 + d] == h[n0 + 1 + d]);
        assert(h8[a + d] == Some(out@));
        assert(found_binary(h, n0 + 1 + d) == had_previous);
        assert(q[a] == in_ct(m.vmid, activate_script(m.unit@, m.binary@), 180));
        assert(failed_activation(q, h, d, n0, *m));
    }
    let e = match after {
        Ok(e) => e,
        Err(e) => e,
    };
    let e2 = runner.step_failed("activate", e);
    Err(runner.finish_err("activate", &e2).0)
}


// ── A native service's nightly backup ───────────────────────────────────────

/// The service's data directories, each quoted, space-separated.
pub open spec fn quoted_dirs(dirs: Seq<String>) -> Seq<char> {
    joined(dirs.map_values(|d: String| quoted_arg(d@)), " "@)
}

/// Stream the data directories out of the container with `tar` straight
/// into `restic --stdin`, in the service's own repository. `pipefail` is
/// what keeps a dead `tar` from becoming an empty snapshot that looks fine.
pub open spec fn native_snapshot_script(m: NativeServiceManifest, cfg: BackupCfg) -> Seq<char> {
    "set -o pipefail; pct exec "@ + dec(m.vmid as nat) + " -- tar -cf - "@ + quoted_dirs(m.data_dirs@)
        + " | env RESTIC_REPOSITORY="@ + cfg.restic_base@ + "/"@ + m.unit@ + "-config RESTIC_PASSWORD_FILE="@
        + cfg.password_file@ + " restic backup --stdin --stdin-filename "@ + m.unit@ + "-data.tar"@
}

/// What a native backup asks of the machine, in order, as far as it goes:
/// the target guard's config read, creating the repository (harmless when
/// it exists), the snapshot, the listing, and the forget of `doomed`.
pub open spec fn native_backup_plan(m: NativeServiceManifest, cfg: BackupCfg, doomed: Seq<Seq<char>>) -> Seq<Request> {
    let base = cfg.restic_base@;
    let pw = cfg.password_file@;
    let u = m.unit@;
    seq![
        Request::Run("pct"@, seq!["config"@, dec(m.vmid as nat)], 30),
        Request::Run("env"@, restic_args(base, u, pw, seq!["init"@]), 120),
        Request::Run("sh"@, seq!["-c"@, native_snapshot_script(m, cfg)], cfg.snapshot_timeout_s),
        Request::Run("env"@, restic_args(base, u, pw, seq!["snapshots"@, "--json"@]), 300),
        Request::Run("env"@, restic_args(base, u, pw, seq!["forget"@] + doomed + seq!["--prune"@]), 900),
    ]
}

/// Back up a native service's data from inside its container, then apply
/// the retention tiers to its repository. A no-touch container is refused
/// before anything runs. The record is always a prefix of
/// [`native_backup_plan`], whose forget names exactly what the tiers let go
/// in the listing just read, and is made only when that is something.
pub fn backup_native<E: Executor, S: Sink, J: Journal>(
    exec: &mut E,
    sink: S,
    journal: J,
    safety: &SafetyConfig,
    m: &NativeServiceManifest,
    cfg: &BackupCfg,
    now: u64,
) -> (r: OperationReport)
    ensures
        r.op@ == "backup-"@ + m.stack_name@,
        ({
            let q0 = old(exec).requests();
            let h0 = old(exec).replies().len() as int;
            let q = final(exec).requests();
            let h = final(exec).replies();
            let n = q.len() - q0.len();
            let doomed = match h[h0 + 3] {
                Some(o) => doomed_of(o.stdout, cfg.tiers@, now),
                None => Seq::empty(),
            };
            &&& 0 <= n <= 5
            &&& q == q0 + native_backup_plan(*m, *cfg, doomed).take(n)
            &&& no_touch_refusal(safety.no_touch@, m.vmid) is Some ==> n == 0 && !r.ok
            &&& no_touch_refusal(safety.no_touch@, m.vmid) is None ==> n >= 1
            &&& n >= 2 ==> (h[h0] matches Some(c) && config_refusal(m.vmid, m.hostname@, c) is None)
            &&& n >= 4 ==> (h[h0 + 2] matches Some(o) && o.code == 0)
            &&& n == 5 ==> doomed.len() > 0 && (h[h0 + 3] matches Some(o) && o.code == 0)
            &&& r.ok ==> n >= 4 && (h[h0 + 3] matches Some(o) && o.code == 0) && (n == 4 <==> doomed.len() == 0)
            &&& n == 4 ==> (r.ok <==> ((h[h0 + 3] matches Some(o) && o.code == 0) && doomed.len() == 0))
            &&& n == 5 ==> (r.ok <==> (h.last() matches Some(o) && o.code == 0))
            &&& !r.ok ==> no_touch_refusal(safety.no_touch@, m.vmid) is Some
                || (n == 1 && (h.last() matches Some(c) && config_refusal(m.vmid, m.hostname@, c) is Some))
                || ended_on_failure(q, h)
        }),
{
    let ghost q0 = exec.requests();
    let ghost h0 = exec.replies();
    let ghost n0 = h0.len() as int;
    let mut op = String::from_str("backup-");
    op.append(m.stack_name.as_str());
    let mut runner = Runner::new(op.as_str(), sink, journal);

    runner.begin_step("guard target");
    match guard_target(exec, safety, m.vmid, m.hostname.as_str()) {
        Ok(()) => {},
        Err(e) => {
            proof {
                let ghost plan = native_backup_plan(*m, *cfg, Seq::empty());
                if no_touch_refusal(safety.no_touch@, m.vmid) is None {
                    assert(exec.requests() =~= q0 + native_backup_plan(*m, *cfg, Seq::empty()).take(1));
                } else {
                    assert(exec.requests() =~= q0 + native_backup_plan(*m, *cfg, Seq::empty()).take(0));
                }
            }
            let e2 = runner.step_failed("guard target", e);
            return runner.finish_err("guard target", &e2).0;
        },
    }
    runner.step_done("guard target", StepOutcome::Unchanged);
    let ghost h1 = exec.replies();
    proof {
        assert(h1[n0] == h1.last());
    }

    // Creating a repository that exists fails harmlessly.
    runner.begin_step("init repo");
    let init = restic_cmd(cfg, m.unit.as_str(), &["init"], 120);
    proof {
        assert(string_views(init.args@) =~= restic_args(cfg.restic_base@, m.unit@, cfg.password_file@, seq!["init"@]));
    }
    let _ = exec.run(&init);
    runner.step_done("init repo", StepOutcome::Unchanged);
    let ghost h2 = exec.replies();
    proof {
        assert(exec.requests() =~= q0 + native_backup_plan(*m, *cfg, Seq::empty()).take(2));
        assert(h2[n0] == h1[n0]);
    }

    runner.begin_step("snapshot");
    let mut quoted: Vec<String> = Vec::new();
    let mut i: usize = 0;
    while i < m.data_dirs.len()
        invariant
            i <= m.data_dirs.len(),
            string_views(quoted@) == m.data_dirs@.take(i as int).map_values(|d: String| quoted_arg(d@)),
        decreases m.data_dirs.len() - i,
    {
        let ghost before = string_views(quoted@);
        let qd = shell_quote(m.data_dirs[i].as_str());
        quoted.push(qd);
        proof {
            assert(string_views(quoted@) =~= before.push(quoted_arg(m.data_dirs@[i as int]@)));
            assert(m.data_dirs@.take(i + 1).map_values(|d: String| quoted_arg(d@)) =~= m.data_dirs@.take(i as int).map_values(
                |d: String| quoted_arg(d@),
            ).push(quoted_arg(m.data_dirs@[i as int]@)));
        }
        i += 1;
    }
    proof {
        assert(m.data_dirs@.take(m.data_dirs.len() as int) =~= m.data_dirs@);
    }
    let dirs = join_strings(quoted.as_slice(), " ");
    let mut script = String::from_str("set -o pipefail; pct exec ");
    let vm = dec_string(m.vmid as u64);
    script.append(vm.as_str());
    script.append(" -- tar -cf - ");
    script.append(dirs.as_str());
    script.append(" | env RESTIC_REPOSITORY=");
    script.append(cfg.restic_base.as_str());
    script.append("/");
    script.append(m.unit.as_str());
    script.append("-config RESTIC_PASSWORD_FILE=");
    script.append(cfg.password_file.as_str());
    script.append(" restic backup --stdin --stdin-filename ");
    script.append(m.unit.as_str());
    script.append("-data.tar");
    let snap = Cmd::new("sh", &["-c", script.as_str()], cfg.snapshot_timeout_s);
    proof {
        assert(script@ =~= native_snapshot_script(*m, *cfg));
        assert(string_views(snap.args@) =~= seq!["-c"@, native_snapshot_script(*m, *cfg)]);
    }
    let res = run_ok(exec, &snap);
    let ghost h3 = exec.replies();
    proof {
        assert(exec.requests() =~= q0 + native_backup_plan(*m, *cfg, Seq::empty()).take(3));
        assert(h3[n0] == h2[n0]);
    }
    match res {
        Ok(_) => {},
        Err(e) => {
            let e2 = runner.step_failed("snapshot", e);
            return runner.finish_err("snapshot", &e2).0;
        },
    }
    runner.step_done("snapshot", StepOutcome::Changed);

    runner.begin_step("retention");
    let list = restic_cmd(cfg, m.unit.as_str(), &["snapshots", "--json"], 300);
    proof {
        assert(string_views(list.args@) =~= restic_args(cfg.restic_base@, m.unit@, cfg.password_file@, seq!["snapshots"@, "--json"@]));
    }
    let res = run_ok(exec, &list);
    let ghost h4 = exec.replies();
    proof {
        assert(exec.requests() =~= q0 + native_backup_plan(*m, *cfg, Seq::empty()).take(4));
        assert(h4[n0] == h3[n0]);
        assert(h4[n0 + 2] == h3[n0 + 2]);
    }
    let out = match res {
        Ok(o) => o,
        Err(e) => {
            let e2 = runner.step_failed("retention", e);
            return runner.finish_err("retention", &e2).0;
        },
    };
    let doomed = doomed_snapshots(out.stdout.as_str(), cfg.tiers.as_slice(), now);
    let ghost dv = doomed_of(out.stdout@, cfg.tiers@, now);
    proof {
        assert(h4[n0 + 3] == Some(out@));
        assert(native_backup_plan(*m, *cfg, dv).take(4) =~= native_backup_plan(*m, *cfg, Seq::empty()).take(4));
    }
    if doomed.len() == 0 {
        runner.step_done("retention", StepOutcome::Unchanged);
    } else {
        let mut args: Vec<&str> = Vec::new();
        args.push("forget");
        let mut k: usize = 0;
        while k < doomed.len()
            invariant
                k <= doomed.len(),
                args@.map_values(|a: &str| a@) == seq!["forget"@] + crate::retention::strings(doomed@).take(k as int),
            decreases doomed.len() - k,
        {
            let ghost before = args@.map_values(|a: &str| a@);
            args.push(doomed[k].as_str());
            proof {
                assert(args@.map_values(|a: &str| a@) =~= before.push(doomed@[k as int]@));
                assert(crate::retention::strings(doomed@).take(k + 1) =~= crate::retention::strings(doomed@).take(k as int).push(
                    doomed@[k as int]@,
                ));
            }
            k += 1;
        }
        let ghost mid = args@.map_values(|a: &str| a@);
        args.push("--prune");
        proof {
            assert(crate::retention::strings(doomed@).take(doomed.len() as int) =~= crate::retention::strings(doomed@));
            assert(args@.map_values(|a: &str| a@) =~= mid.push("--prune"@));
            assert(args@.map_values(|a: &str| a@) =~= seq!["forget"@] + dv + seq!["--prune"@]);
        }
        let forget = restic_cmd(cfg, m.unit.as_str(), args.as_slice(), 900);
        let res = run_ok(exec, &forget);
        proof {
            assert(exec.requests() =~= q0 + native_backup_plan(*m, *cfg, dv).take(5));
            assert(exec.replies()[n0 + 3] == h4[n0 + 3]);
            assert(exec.replies()[n0 + 2] == h4[n0 + 2]);
            assert(exec.replies()[n0] == h4[n0]);
        }
        match res {
            Ok(_) => {},
            Err(e) => {
                let e2 = runner.step_failed("retention", e);
                return runner.finish_err("retention", &e2).0;
            },
        }
        runner.step_done("retention", StepOutcome::Changed);
    }
    let mut line = String::from_str("[backup] ");
    line.append(m.stack_name.as_str());
    line.append(" (native, in-container) snapshot complete");
    runner.log(Level::Info, line);
    runner.finish_ok().0
}

} // verus!
