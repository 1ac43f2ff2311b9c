//! The deploy's decisions. The deploy itself is a long run of commands
//! against the host and the container; what it decides between them lives
//! here, each as a function of what the commands gave back: what a
//! half-finished deploy leaves in the state, what a finished one records,
//! which mounts a container is missing, whether a template can be cloned,
//! which files on the container the repository no longer has.

use vstd::prelude::*;
use vstd::string::*;
use crate::keyed::{entries_map, entry_views, find_key, keys_of, lemma_update_sorted, upsert};
use crate::executor::{pct_sh, pct_sh_args, CmdOutput, Executor, Request};
use crate::manifest::{DeploySpec, FileBlob, NetworkSpec, StackManifest};
use crate::native::NativeServiceManifest;
use crate::state::{stack_names, HostState, StackState};
use crate::text::{
    after_last, contains, dec, dec_string, ends_with, lines, lines_of, split_once, split_whitespace,
    str_after_last, str_contains, str_ends_with, str_eq, str_split_once, string_views,
    str_trim_start_char, trim, trim_end, trim_start_char, trimmed, trimmed_end, views, words,
    find_prefixed, find_prefixed_exec,
};

verus! {

// ── The state a deploy leaves ───────────────────────────────────────────────

/// The steps that run before anything on the machine is touched: a failure
/// in one of them leaves nothing half-done, so nothing is recorded.
pub open spec fn touches_nothing(step: Seq<char>) -> bool {
    step == "validate"@ || step == "safety gates"@ || step == "registry cache"@ || step
        == "hardware readiness"@
}

pub fn before_anything_changes(step: &str) -> (r: bool)
    ensures
        r == touches_nothing(step@),
{
    str_eq(step, "validate") || str_eq(step, "safety gates") || str_eq(step, "registry cache")
        || str_eq(step, "hardware readiness")
}

/// The stacks of a state, by name.
pub open spec fn stacks_of(state: HostState) -> Map<Seq<char>, StackState> {
    entries_map(entry_views(state.stacks@))
}

/// `new` is `old` marked as stopped at `step`, and otherwise untouched.
pub open spec fn marked_at(old: StackState, new: StackState, step: Seq<char>) -> bool {
    &&& new == (StackState { incomplete_step: new.incomplete_step, ..old })
    &&& new.incomplete_step matches Some(s) && s@ == step
}

/// The least record that makes a stack a deploy stopped on exist.
pub open spec fn first_record_at(m: StackManifest, step: Seq<char>, now: u64, r: StackState) -> bool {
    &&& r.vmid == m.vmid
    &&& r.hostname@ == m.hostname@
    &&& string_views(r.apps@) == string_views(m.apps@)
    &&& r.applied_at == now
    &&& r.last_backup == 0
    &&& r.applied_hash@ == Seq::<char>::empty()
    &&& r.manifest == Some(m)
    &&& r.enabled
    &&& r.native is None
    &&& r.natives@.len() == 0
    &&& r.incomplete_step matches Some(s) && s@ == step
}

fn copy_strings(v: &Vec<String>) -> (r: Vec<String>)
    ensures
        string_views(r@) == string_views(v@),
{
    let mut out: Vec<String> = Vec::new();
    let mut i: usize = 0;
    while i < v.len()
        invariant
            i <= v.len(),
            out@.len() == i,
            forall|k: int| 0 <= k < i ==> (#[trigger] out@[k])@ == v@[k]@,
        decreases v.len() - i,
    {
        out.push(v[i].clone());
        i += 1;
    }
    proof {
        assert(string_views(out@) =~= string_views(v@));
    }
    out
}

proof fn lemma_names_are_keys(v: Seq<(String, StackState)>)
    ensures
        stack_names(v) == keys_of(entry_views(v)),
{
    assert(stack_names(v) =~= keys_of(entry_views(v)));
}

/// Record that a deploy stopped part-way at `step`, so the stack is at
/// least visible. A stack already known keeps everything and is only
/// marked; one never recorded gets the minimum that makes it exist. The
/// steps before anything changes record nothing.
pub fn mark_incomplete(state: &mut HostState, m: StackManifest, step: &str, now: u64)
    requires
        old(state).wf(),
    ensures
        final(state).wf(),
        touches_nothing(step@) ==> *final(state) == *old(state),
        !touches_nothing(step@) ==> {
            let before = stacks_of(*old(state));
            let after = stacks_of(*final(state));
            &&& after.dom() == before.dom().insert(m.stack_name@)
            &&& forall|k: Seq<char>| #[trigger] before.contains_key(k) && k != m.stack_name@ ==> after[k]
                == before[k]
            &&& before.contains_key(m.stack_name@) ==> marked_at(
                before[m.stack_name@],
                after[m.stack_name@],
                step@,
            )
            &&& !before.contains_key(m.stack_name@) ==> first_record_at(
                m,
                step@,
                now,
                after[m.stack_name@],
            )
        },
        *final(state) == (HostState { stacks: final(state).stacks, ..*old(state) }),
{
    if before_anything_changes(step) {
        return;
    }
    proof {
        lemma_names_are_keys(state.stacks@);
    }
    let ghost e = entry_views(state.stacks@);
    let ghost name = m.stack_name@;
    match find_key(&state.stacks, m.stack_name.as_str()) {
        Some(i) => {
            let (k, prior) = state.stacks.remove(i);
            let marked = StackState { incomplete_step: Some(String::from_str(step)), ..prior };
            state.stacks.insert(i, (k, marked));
            proof {
                assert(entry_views(state.stacks@) =~= e.update(i as int, (e[i as int].0, marked)));
                lemma_update_sorted(e, i as int, marked);
                assert(stacks_of(*state) =~= entries_map(e).insert(name, marked));
            }
        },
        None => {
            let record = StackState {
                vmid: m.vmid,
                hostname: m.hostname.clone(),
                apps: copy_strings(&m.apps),
                applied_at: now,
                last_backup: 0,
                applied_hash: String::new(),
                manifest: None,
                enabled: true,
                native: None,
                natives: Vec::new(),
                incomplete_step: Some(String::from_str(step)),
            };
            let key = m.stack_name.clone();
            let record = StackState { manifest: Some(m), ..record };
            upsert(&mut state.stacks, key, record);
            proof {
                assert(stacks_of(*state) =~= entries_map(e).insert(name, record));
            }
        },
    }
    proof {
        lemma_names_are_keys(state.stacks@);
    }
}

/// The record a finished deploy leaves: what the stack file says now, with
/// what the deploy does not own carried over from the record before it —
/// the last backup, whether the nightly round is switched on for it, and
/// the native services registered on it. A stack with no record before
/// takes its last backup from what the repository says (`recovered`).
pub open spec fn applied_record(
    m: StackManifest,
    now: u64,
    hash: Seq<char>,
    prior: Option<StackState>,
    recovered: Option<u64>,
    r: StackState,
) -> bool {
    &&& r.vmid == m.vmid
    &&& r.hostname@ == m.hostname@
    &&& string_views(r.apps@) == string_views(m.apps@)
    &&& r.applied_at == now
    &&& r.applied_hash@ == hash
    &&& r.manifest == Some(m)
    &&& r.incomplete_step is None
    &&& match prior {
        Some(p) => {
            &&& r.last_backup == p.last_backup
            &&& r.enabled == p.enabled
            &&& r.native == p.native
            &&& r.natives == p.natives
        },
        None => {
            &&& r.last_backup == (match recovered {
                Some(t) => t,
                None => 0,
            })
            &&& r.enabled
            &&& r.native is None
            &&& r.natives@.len() == 0
        },
    }
}

/// Record a finished deploy of `m`.
pub fn record_applied(
    state: &mut HostState,
    m: StackManifest,
    now: u64,
    applied_hash: String,
    recovered: Option<u64>,
)
    requires
        old(state).wf(),
    ensures
        final(state).wf(),
        stacks_of(*final(state)).dom() == stacks_of(*old(state)).dom().insert(m.stack_name@),
        forall|k: Seq<char>| #[trigger] stacks_of(*old(state)).contains_key(k) && k != m.stack_name@
            ==> stacks_of(*final(state))[k] == stacks_of(*old(state))[k],
        applied_record(
            m,
            now,
            applied_hash@,
            if stacks_of(*old(state)).contains_key(m.stack_name@) {
                Some(stacks_of(*old(state))[m.stack_name@])
            } else {
                None
            },
            recovered,
            stacks_of(*final(state))[m.stack_name@],
        ),
        *final(state) == (HostState { stacks: final(state).stacks, ..*old(state) }),
{
    proof {
        lemma_names_are_keys(state.stacks@);
    }
    let ghost e = entry_views(state.stacks@);
    let ghost name = m.stack_name@;
    let apps = copy_strings(&m.apps);
    let hostname = m.hostname.clone();
    let vmid = m.vmid;
    match find_key(&state.stacks, m.stack_name.as_str()) {
        Some(i) => {
            let (k, prior) = state.stacks.remove(i);
            let record = StackState {
                vmid,
                hostname,
                apps,
                applied_at: now,
                last_backup: prior.last_backup,
                applied_hash,
                manifest: Some(m),
                enabled: prior.enabled,
                native: prior.native,
                natives: prior.natives,
                incomplete_step: None,
            };
            state.stacks.insert(i, (k, record));
            proof {
                assert(entry_views(state.stacks@) =~= e.update(i as int, (e[i as int].0, record)));
                lemma_update_sorted(e, i as int, record);
                assert(stacks_of(*state) =~= entries_map(e).insert(name, record));
            }
        },
        None => {
            let last_backup = match recovered {
                Some(t) => t,
                None => 0,
            };
            let key = m.stack_name.clone();
            let record = StackState {
                vmid,
                hostname,
                apps,
                applied_at: now,
                last_backup,
                applied_hash,
                manifest: Some(m),
                enabled: true,
                native: None,
                natives: Vec::new(),
                incomplete_step: None,
            };
            upsert(&mut state.stacks, key, record);
            proof {
                assert(stacks_of(*state) =~= entries_map(e).insert(name, record));
            }
        },
    }
    proof {
        lemma_names_are_keys(state.stacks@);
    }
}

// ── Reading what the machine said ───────────────────────────────────────────

/// The vault file name for a file a native unit reads: its last path
/// component, so the vault stays flat.
pub fn vault_key(path: &str) -> (r: String)
    ensures
        r@ == after_last(path@, '/'),
{
    String::from_str(str_after_last(path, '/'))
}

/// Some line of `ls`, trimmed, is `target`.
pub open spec fn has_line(ls: Seq<Seq<char>>, target: Seq<char>) -> bool {
    exists|i: int| 0 <= i < ls.len() && trimmed(#[trigger] ls[i]) == target
}

fn any_line_is(ls: &Vec<&str>, target: &str) -> (r: bool)
    ensures
        r == has_line(views(ls@), target@),
{
    let mut i: usize = 0;
    while i < ls.len()
        invariant
            i <= ls.len(),
            forall|k: int| 0 <= k < i ==> trimmed(#[trigger] views(ls@)[k]) != target@,
        decreases ls.len() - i,
    {
        if str_eq(trim(ls[i]), target) {
            proof {
                assert(trimmed(views(ls@)[i as int]) == target@);
            }
            return true;
        }
        i += 1;
    }
    false
}

/// The container's config says its protection flag is on.
pub fn is_protected(config: &str) -> (r: bool)
    ensures
        r == has_line(lines_of(config@), "protection: 1"@),
{
    let ls = lines(config);
    any_line_is(&ls, "protection: 1")
}

/// What a template's config says of its privilege: `unprivileged: 1` on
/// the first `unprivileged:` line, and privileged when there is none.
pub open spec fn unprivileged_in(config: Seq<char>) -> bool {
    match find_prefixed(lines_of(config), "unprivileged:"@) {
        Some(v) => trimmed(v) == "1"@,
        None => false,
    }
}

/// Whether a template container is unprivileged. A clone always inherits
/// this, so a stack asking for the other kind is refused before cloning.
pub fn template_is_unprivileged(config: &str) -> (r: bool)
    ensures
        r == unprivileged_in(config@),
{
    let ls = lines(config);
    match find_prefixed_exec(&ls, "unprivileged:") {
        Some(v) => str_eq(trim(v), "1"),
        None => false,
    }
}

/// `pct`'s network argument for a stack.
pub open spec fn net0_of(n: NetworkSpec) -> Seq<char> {
    let base = "name=eth0,bridge="@ + n.bridge@ + ",firewall=0,ip="@ + n.ip@ + ",gw="@ + n.gateway@;
    match n.vlan {
        Some(tag) => base + ",tag="@ + dec(tag as nat),
        None => base,
    }
}

pub fn net0(n: &NetworkSpec) -> (r: String)
    ensures
        r@ == net0_of(*n),
{
    let mut s = String::from_str("name=eth0,bridge=");
    s.append(n.bridge.as_str());
    s.append(",firewall=0,ip=");
    s.append(n.ip.as_str());
    s.append(",gw=");
    s.append(n.gateway.as_str());
    match n.vlan {
        Some(tag) => {
            s.append(",tag=");
            let t = dec_string(tag as u64);
            s.append(t.as_str());
        },
        None => {},
    }
    s
}

/// A mount as `pct` writes it: host path, then where it appears inside.
pub open spec fn mount_value(host: Seq<char>, inside: Seq<char>) -> Seq<char> {
    host + ",mp="@ + inside
}

/// The mount points a stack asks for, as `(-mpN, value)`: its own storage
/// first, then the directories it borrows, numbered on from there.
pub open spec fn wanted_mounts(m: StackManifest) -> Seq<(Seq<char>, Seq<char>)> {
    let s = m.storage@;
    let d = m.data_mounts@;
    Seq::new(
        s.len() + d.len(),
        |i: int|
            (
                "-mp"@ + dec(i as nat),
                if i < s.len() {
                    mount_value(s[i].host_path@, s[i].mount_point@)
                } else {
                    mount_value(d[i - s.len()].host_path@, d[i - s.len()].mount_point@)
                },
            ),
    )
}

pub fn mount_wants(m: &StackManifest) -> (r: Vec<(String, String)>)
    requires
        m.storage@.len() + m.data_mounts@.len() <= u64::MAX,
    ensures
        r@.map_values(|p: (String, String)| (p.0@, p.1@)) == wanted_mounts(*m),
{
    let mut out: Vec<(String, String)> = Vec::new();
    let mut i: usize = 0;
    let n = m.storage.len();
    while i < n
        invariant
            i <= n,
            n == m.storage@.len(),
            out@.len() == i,
            forall|k: int| 0 <= k < i ==> ((#[trigger] out@[k]).0@, out@[k].1@) == wanted_mounts(*m)[k],
        decreases n - i,
    {
        let mut key = String::from_str("-mp");
        let num = dec_string(i as u64);
        key.append(num.as_str());
        let mut val = m.storage[i].host_path.clone();
        val.append(",mp=");
        val.append(m.storage[i].mount_point.as_str());
        out.push((key, val));
        i += 1;
    }
    let mut j: usize = 0;
    while j < m.data_mounts.len()
        invariant
            j <= m.data_mounts@.len(),
            n == m.storage@.len(),
            n + m.data_mounts@.len() <= u64::MAX,
            out@.len() == n + j,
            forall|k: int| 0 <= k < n + j ==> ((#[trigger] out@[k]).0@, out@[k].1@) == wanted_mounts(*m)[k],
        decreases m.data_mounts@.len() - j,
    {
        let mut key = String::from_str("-mp");
        let idx: u64 = n as u64 + j as u64;
        let num = dec_string(idx);
        key.append(num.as_str());
        let mut val = m.data_mounts[j].host_path.clone();
        val.append(",mp=");
        val.append(m.data_mounts[j].mount_point.as_str());
        out.push((key, val));
        j += 1;
    }
    proof {
        assert(out@.map_values(|p: (String, String)| (p.0@, p.1@)) =~= wanted_mounts(*m));
    }
    out
}

/// The config line a mount shows as: `mpN: value`.
pub open spec fn mount_line(key: Seq<char>, val: Seq<char>) -> Seq<char> {
    trim_start_char(key, '-') + ": "@ + val
}

/// The wanted mounts the container's config does not show.
pub open spec fn missing_mounts_of(
    wants: Seq<(Seq<char>, Seq<char>)>,
    config: Seq<Seq<char>>,
) -> Seq<(Seq<char>, Seq<char>)>
    decreases wants.len(),
{
    if wants.len() == 0 {
        Seq::empty()
    } else {
        let pre = missing_mounts_of(wants.drop_last(), config);
        let w = wants.last();
        if has_line(config, mount_line(w.0, w.1)) {
            pre
        } else {
            pre.push(w)
        }
    }
}

/// Which of the wanted mounts a container that already exists lacks; the
/// deploy attaches exactly these.
pub fn missing_mounts(wants: &Vec<(String, String)>, config: &str) -> (r: Vec<(String, String)>)
    ensures
        r@.map_values(|p: (String, String)| (p.0@, p.1@)) == missing_mounts_of(
            wants@.map_values(|p: (String, String)| (p.0@, p.1@)),
            lines_of(config@),
        ),
{
    let ls = lines(config);
    let ghost wv = wants@.map_values(|p: (String, String)| (p.0@, p.1@));
    let mut out: Vec<(String, String)> = Vec::new();
    let mut i: usize = 0;
    while i < wants.len()
        invariant
            i <= wants.len(),
            wv == wants@.map_values(|p: (String, String)| (p.0@, p.1@)),
            views(ls@) == lines_of(config@),
            out@.map_values(|p: (String, String)| (p.0@, p.1@)) == missing_mounts_of(wv.take(i as int), lines_of(config@)),
        decreases wants.len() - i,
    {
        let mut line = String::from_str(str_trim_start_char(wants[i].0.as_str(), '-'));
        line.append(": ");
        line.append(wants[i].1.as_str());
        proof {
            assert(wv.take(i + 1).drop_last() =~= wv.take(i as int));
            assert(wv.take(i + 1).last() == wv[i as int]);
        }
        let ghost before = out@.map_values(|p: (String, String)| (p.0@, p.1@));
        if !any_line_is(&ls, line.as_str()) {
            out.push((wants[i].0.clone(), wants[i].1.clone()));
            proof {
                assert(out@.map_values(|p: (String, String)| (p.0@, p.1@)) =~= before.push(wv[i as int]));
            }
        }
        i += 1;
    }
    proof {
        assert(wv.take(wants.len() as int) =~= wv);
    }
    out
}

/// A snapshot listing that names at least one snapshot.
pub open spec fn snapshot_listed(o: crate::executor::OutputView) -> bool {
    o.code == 0 && trimmed(o.stdout) != "[]"@ && trimmed(o.stdout).len() > 0
}

/// Whether restic's answer shows a snapshot to restore an empty directory
/// from.
pub fn snapshot_usable(out: &CmdOutput) -> (r: bool)
    ensures
        r == snapshot_listed(out@),
{
    let t = trim(out.stdout.as_str());
    out.success() && !str_eq(t, "[]") && t.unicode_len() > 0
}

/// systemd inside the container has finished starting (or started with a
/// unit failed, which is still far enough to go on).
pub fn systemd_settled(stdout: &str) -> (r: bool)
    ensures
        r == (contains(trimmed(stdout@), "running"@) || contains(trimmed(stdout@), "degraded"@)),
{
    let t = trim(stdout);
    str_contains(t, "running") || str_contains(t, "degraded")
}

/// A failed `git commit` that only says there was nothing to commit.
pub open spec fn commit_noop_text(noise: Seq<char>) -> bool {
    contains(noise, "nothing to commit"@) || contains(noise, "nothing added to commit"@) || contains(
        noise,
        "no changes added"@,
    )
}

/// Only the benign no-op may pass; any other commit failure is an error,
/// because the intent history would silently stop.
pub fn commit_was_noop(out: &CmdOutput) -> (r: bool)
    ensures
        r == commit_noop_text(out.stdout@ + out.stderr@),
{
    let mut noise = out.stdout.clone();
    noise.append(out.stderr.as_str());
    str_contains(noise.as_str(), "nothing to commit") || str_contains(noise.as_str(), "nothing added to commit")
        || str_contains(noise.as_str(), "no changes added")
}

/// A probe that could not run at all: the image has no shell.
pub fn probe_unrunnable(text: &str) -> (r: bool)
    ensures
        r == (contains(text@, "executable file not found"@) || contains(text@, "OCI runtime exec failed"@)
            || contains(text@, "no such file or directory: unknown"@)),
{
    str_contains(text, "executable file not found") || str_contains(text, "OCI runtime exec failed")
        || str_contains(text, "no such file or directory: unknown")
}

/// The apps a stack had and no longer has: they are taken down and their
/// directories removed (their config directories stay).
pub open spec fn removed_apps_of(prior: Seq<Seq<char>>, wanted: Seq<Seq<char>>) -> Seq<Seq<char>>
    decreases prior.len(),
{
    if prior.len() == 0 {
        Seq::empty()
    } else {
        let pre = removed_apps_of(prior.drop_last(), wanted);
        if wanted.contains(prior.last()) {
            pre
        } else {
            pre.push(prior.last())
        }
    }
}

pub fn removed_apps(prior: &Vec<String>, wanted: &Vec<String>) -> (r: Vec<String>)
    ensures
        string_views(r@) == removed_apps_of(string_views(prior@), string_views(wanted@)),
{
    let ghost pv = string_views(prior@);
    let mut out: Vec<String> = Vec::new();
    let mut i: usize = 0;
    while i < prior.len()
        invariant
            i <= prior.len(),
            pv == string_views(prior@),
            string_views(out@) == removed_apps_of(pv.take(i as int), string_views(wanted@)),
        decreases prior.len() - i,
    {
        proof {
            assert(pv.take(i + 1).drop_last() =~= pv.take(i as int));
            assert(pv.take(i + 1).last() == prior@[i as int]@);
        }
        let ghost before = string_views(out@);
        if !crate::text::contains_string(wanted, prior[i].as_str()) {
            out.push(prior[i].clone());
            proof {
                assert(string_views(out@) =~= before.push(prior@[i as int]@));
            }
        }
        i += 1;
    }
    proof {
        assert(pv.take(prior.len() as int) =~= pv);
    }
    out
}

/// The paths a deploy sends, from its file list.
pub open spec fn sent_paths(files: Seq<FileBlob>) -> Seq<Seq<char>> {
    files.map_values(|f: FileBlob| f.path@)
}

/// Files the container has under the stack's directory that the deploy did
/// not send: the listing's lines, trimmed, without blanks, without `.env`
/// files (those come from the vault, never from the repository).
pub open spec fn orphans_of(listing: Seq<Seq<char>>, sent: Seq<Seq<char>>) -> Seq<Seq<char>>
    decreases listing.len(),
{
    if listing.len() == 0 {
        Seq::empty()
    } else {
        let pre = orphans_of(listing.drop_last(), sent);
        let l = trimmed(listing.last());
        if l.len() > 0 && !ends_with(l, ".env"@) && !sent.contains(l) {
            pre.push(l)
        } else {
            pre
        }
    }
}

pub fn orphan_paths(listing: &str, files: &Vec<FileBlob>) -> (r: Vec<String>)
    ensures
        string_views(r@) == orphans_of(lines_of(listing@), sent_paths(files@)),
{
    let mut sent: Vec<String> = Vec::new();
    let mut k: usize = 0;
    while k < files.len()
        invariant
            k <= files.len(),
            sent@.len() == k,
            forall|t: int| 0 <= t < k ==> (#[trigger] sent@[t])@ == files@[t].path@,
        decreases files.len() - k,
    {
        sent.push(files[k].path.clone());
        k += 1;
    }
    proof {
        assert(string_views(sent@) =~= sent_paths(files@));
    }
    let ls = lines(listing);
    let ghost lv = views(ls@);
    let mut out: Vec<String> = Vec::new();
    let mut i: usize = 0;
    while i < ls.len()
        invariant
            i <= ls.len(),
            lv == views(ls@),
            lv == lines_of(listing@),
            string_views(sent@) == sent_paths(files@),
            string_views(out@) == orphans_of(lv.take(i as int), sent_paths(files@)),
        decreases ls.len() - i,
    {
        proof {
            assert(lv.take(i + 1).drop_last() =~= lv.take(i as int));
            assert(lv.take(i + 1).last() == ls@[i as int]@);
        }
        let l = trim(ls[i]);
        let ghost before = string_views(out@);
        if l.unicode_len() > 0 && !str_ends_with(l, ".env") && !crate::text::contains_string(&sent, l) {
            out.push(String::from_str(l));
            proof {
                assert(string_views(out@) =~= before.push(l@));
            }
        }
        i += 1;
    }
    proof {
        assert(lv.take(ls.len() as int) =~= lv);
    }
    out
}

/// The first line that, without its trailing whitespace, ends with `p`.
pub open spec fn first_ending_with(ls: Seq<Seq<char>>, p: Seq<char>) -> Option<Seq<char>>
    decreases ls.len(),
{
    if ls.len() == 0 {
        None
    } else if ends_with(trimmed_end(ls[0]), p) {
        Some(ls[0])
    } else {
        first_ending_with(ls.drop_first(), p)
    }
}

/// What is wrong with one pushed file, going by `sha256sum`'s output:
/// nothing when its line starts with the hash the file should have.
pub open spec fn hash_problem(ls: Seq<Seq<char>>, path: Seq<char>, hash: Seq<char>) -> Option<Seq<char>> {
    match first_ending_with(ls, path) {
        Some(l) => if words(l).len() > 0 && words(l)[0] == hash {
            None
        } else {
            Some(path + " has different content"@)
        },
        None => Some(path + " is not there"@),
    }
}

pub open spec fn hash_problems_of(ls: Seq<Seq<char>>, want: Seq<(Seq<char>, Seq<char>)>) -> Seq<Seq<char>>
    decreases want.len(),
{
    if want.len() == 0 {
        Seq::empty()
    } else {
        let pre = hash_problems_of(ls, want.drop_last());
        match hash_problem(ls, want.last().0, want.last().1) {
            Some(p) => pre.push(p),
            None => pre,
        }
    }
}

fn first_ending_with_exec<'a>(ls: &Vec<&'a str>, p: &str) -> (r: Option<&'a str>)
    ensures
        match r {
            Some(l) => first_ending_with(views(ls@), p@) == Some(l@),
            None => first_ending_with(views(ls@), p@) is None,
        },
{
    let ghost lv = views(ls@);
    let mut i: usize = 0;
    proof {
        assert(lv.subrange(0, lv.len() as int) =~= lv);
    }
    while i < ls.len()
        invariant
            i <= ls.len(),
            lv == views(ls@),
            first_ending_with(lv, p@) == first_ending_with(lv.subrange(i as int, lv.len() as int), p@),
        decreases ls.len() - i,
    {
        proof {
            assert(lv.subrange(i as int, lv.len() as int).drop_first() =~= lv.subrange(i + 1, lv.len() as int));
            assert(lv.subrange(i as int, lv.len() as int)[0] == ls@[i as int]@);
        }
        if str_ends_with(trim_end(ls[i]), p) {
            return Some(ls[i]);
        }
        i += 1;
    }
    proof {
        assert(lv.subrange(i as int, lv.len() as int) =~= Seq::<Seq<char>>::empty());
    }
    None
}

/// The files whose content on the container is not what was pushed, each
/// with what is wrong; empty when every one checks out.
pub fn hash_problems(want: &Vec<(String, String)>, sha_out: &str) -> (r: Vec<String>)
    ensures
        string_views(r@) == hash_problems_of(
            lines_of(sha_out@),
            want@.map_values(|p: (String, String)| (p.0@, p.1@)),
        ),
{
    let ls = lines(sha_out);
    let ghost wv = want@.map_values(|p: (String, String)| (p.0@, p.1@));
    let mut out: Vec<String> = Vec::new();
    let mut i: usize = 0;
    while i < want.len()
        invariant
            i <= want.len(),
            views(ls@) == lines_of(sha_out@),
            wv == want@.map_values(|p: (String, String)| (p.0@, p.1@)),
            string_views(out@) == hash_problems_of(lines_of(sha_out@), wv.take(i as int)),
        decreases want.len() - i,
    {
        proof {
            assert(wv.take(i + 1).drop_last() =~= wv.take(i as int));
            assert(wv.take(i + 1).last() == wv[i as int]);
        }
        let path = want[i].0.as_str();
        let hash = want[i].1.as_str();
        let ghost before = string_views(out@);
        match first_ending_with_exec(&ls, path) {
            Some(l) => {
                let w = split_whitespace(l);
                let good = w.len() > 0 && str_eq(w[0], hash);
                if !good {
                    let mut msg = String::from_str(path);
                    msg.append(" has different content");
                    out.push(msg);
                    proof {
                        assert(string_views(out@) =~= before.push(msg@));
                    }
                }
            },
            None => {
                let mut msg = String::from_str(path);
                msg.append(" is not there");
                out.push(msg);
                proof {
                    assert(string_views(out@) =~= before.push(msg@));
                }
            },
        }
        i += 1;
    }
    proof {
        assert(wv.take(want.len() as int) =~= wv);
    }
    out
}

/// What pushing a changed file means for its app: a changed compose file
/// makes `compose up` recreate the app by itself; any other changed file
/// needs a restart, because `up` leaves a running app alone. A file outside
/// an app directory belongs to no app.
#[derive(Debug, Clone, PartialEq, Eq)]
pub enum ConfigEffect {
    Recreated(String),
    NeedsRestart(String),
    Nothing,
}

pub open spec fn config_effect_of(path: Seq<char>) -> ConfigEffectView {
    match split_once(path, '/') {
        Some((app, name)) => if name == "docker-compose.yml"@ {
            ConfigEffectView::Recreated(app)
        } else {
            ConfigEffectView::NeedsRestart(app)
        },
        None => ConfigEffectView::Nothing,
    }
}

/// A [`ConfigEffect`] with its app name as characters.
pub enum ConfigEffectView {
    Recreated(Seq<char>),
    NeedsRestart(Seq<char>),
    Nothing,
}

impl View for ConfigEffect {
    type V = ConfigEffectView;

    open spec fn view(&self) -> ConfigEffectView {
        match self {
            ConfigEffect::Recreated(a) => ConfigEffectView::Recreated(a@),
            ConfigEffect::NeedsRestart(a) => ConfigEffectView::NeedsRestart(a@),
            ConfigEffect::Nothing => ConfigEffectView::Nothing,
        }
    }
}

pub fn config_effect(path: &str) -> (r: ConfigEffect)
    ensures
        r@ == config_effect_of(path@),
{
    match str_split_once(path, '/') {
        Some((app, name)) => {
            if str_eq(name, "docker-compose.yml") {
                ConfigEffect::Recreated(String::from_str(app))
            } else {
                ConfigEffect::NeedsRestart(String::from_str(app))
            }
        },
        None => ConfigEffect::Nothing,
    }
}

/// A deploy that stopped part-way and a later one that finished leave what
/// a deploy does not own exactly as it was before either ran — the last
/// backup, the nightly switch, the native services — and the stack no
/// longer marked as incomplete.
pub proof fn law_interrupted_then_finished_keeps_ownership(
    before: StackState,
    marked: StackState,
    after: StackState,
    m: StackManifest,
    step: Seq<char>,
    now: u64,
    hash: Seq<char>,
    recovered: Option<u64>,
)
    requires
        marked_at(before, marked, step),
        applied_record(m, now, hash, Some(marked), recovered, after),
    ensures
        after.last_backup == before.last_backup,
        after.enabled == before.enabled,
        after.native == before.native,
        after.natives == before.natives,
        after.incomplete_step is None,
{
}


// ── Files the repository no longer has ──────────────────────────────────────

/// List every file under the stack's directory, relative to it.
pub open spec fn stack_files_script(stack: Seq<char>) -> Seq<char> {
    "cd '/opt/"@ + stack + "' 2>/dev/null && find . -type f -printf '%P\\n' 2>/dev/null || true"@
}

/// What is left on the container under the stack's directory that the
/// deploy no longer sends (see [`orphans_of`]). Best effort: a container
/// that does not answer gives an empty list, never a finding.
pub fn orphan_files<E: Executor>(exec: &mut E, m: &StackManifest, spec: &DeploySpec) -> (r: Vec<String>)
    ensures
        final(exec).requests() == old(exec).requests().push(
            Request::Run("pct"@, pct_sh_args(m.vmid, stack_files_script(m.stack_name@)), 120),
        ),
        match final(exec).replies().last() {
            Some(o) => string_views(r@) == orphans_of(lines_of(o.stdout), sent_paths(spec.files@)),
            None => r@.len() == 0,
        },
{
    let mut script = String::from_str("cd '/opt/");
    script.append(m.stack_name.as_str());
    script.append("' 2>/dev/null && find . -type f -printf '%P\\n' 2>/dev/null || true");
    match pct_sh(exec, m.vmid, script.as_str(), 120) {
        Ok(out) => orphan_paths(out.stdout.as_str(), &spec.files),
        Err(_) => Vec::new(),
    }
}

} // verus!
