//! The recurring restore drill. A backup nobody has restored is a
//! hypothesis. The verdict refuses to be satisfied by empty files and looks
//! at the largest file that came back; the rotation is round-robin, so over
//! a year every repository gets its turn.

use vstd::prelude::*;
use vstd::string::*;
use crate::manifest::{owner_of, MountSpec};
use crate::ops::fleetcheck::{findings_view, fv, push_finding, Finding, FindingView, Severity};
use crate::order::{lemma_sort_by, lemma_str_order_total, sort_by, sort_strings, sorted_by, str_order};
use crate::state::HostState;
use crate::text::{contains_string, dec, dec_string, str_eq, string_views};

verus! {

/// How long a passed drill counts for: a quarter.
pub const DEFAULT_DRILL_INTERVAL_S: u64 = 7776000;

pub open spec fn is_due(last: u64, now: u64, interval_s: u64) -> bool {
    last == 0 || (if now >= last { now - last } else { 0 }) >= interval_s
}

/// Is a drill due? One that has never run always is.
pub fn due(last: u64, now: u64, interval_s: u64) -> (r: bool)
    ensures
        r == is_due(last, now, interval_s),
{
    let since = if now >= last { now - last } else { 0 };
    last == 0 || since >= interval_s
}

/// `v` with `x` added at the end unless it is already there.
pub open spec fn add_new(v: Seq<Seq<char>>, x: Seq<char>) -> Seq<Seq<char>> {
    if v.contains(x) {
        v
    } else {
        v.push(x)
    }
}

/// The repositories the mounts of one stack back up to: the owner of every
/// mount that holds data and is not declared reproducible.
pub open spec fn mount_repos(acc: Seq<Seq<char>>, ms: Seq<MountSpec>, stack: Seq<char>) -> Seq<Seq<char>>
    decreases ms.len(),
{
    if ms.len() == 0 {
        acc
    } else {
        let a = mount_repos(acc, ms.drop_last(), stack);
        let m = ms.last();
        if m.no_data || m.no_backup is Some {
            a
        } else {
            add_new(a, owner_of(m, stack))
        }
    }
}

pub open spec fn native_repos(acc: Seq<Seq<char>>, ns: Seq<Seq<char>>) -> Seq<Seq<char>>
    decreases ns.len(),
{
    if ns.len() == 0 {
        acc
    } else {
        add_new(native_repos(acc, ns.drop_last()), ns.last())
    }
}

pub open spec fn collect_repos(stacks: Seq<(Vec<MountSpec>, String, Vec<String>)>) -> Seq<Seq<char>>
    decreases stacks.len(),
{
    if stacks.len() == 0 {
        Seq::empty()
    } else {
        let (ms, stack, ns) = stacks.last();
        native_repos(mount_repos(collect_repos(stacks.drop_last()), ms@, stack@), string_views(ns@))
    }
}

fn add_new_exec(v: &mut Vec<String>, x: String)
    ensures
        string_views(final(v)@) == add_new(string_views(old(v)@), x@),
{
    if !contains_string(v, x.as_str()) {
        let ghost before = string_views(v@);
        v.push(x);
        proof {
            assert(string_views(v@) =~= before.push(x@));
        }
    }
}

/// Which repositories the drill rotates over: the owners of the mounts the
/// backup actually snapshots, plus the native units (which back themselves
/// up under their own names) — sorted, each once.
pub fn drill_repos(stacks: &[(Vec<MountSpec>, String, Vec<String>)]) -> (r: Vec<String>)
    ensures
        string_views(r@) == sort_by(collect_repos(stacks@), str_order()),
{
    let mut out: Vec<String> = Vec::new();
    let mut i: usize = 0;
    while i < stacks.len()
        invariant
            i <= stacks.len(),
            string_views(out@) == collect_repos(stacks@.take(i as int)),
        decreases stacks.len() - i,
    {
        proof {
            assert(stacks@.take(i + 1).drop_last() =~= stacks@.take(i as int));
        }
        let (mounts, stack, natives) = &stacks[i];
        let ghost base = string_views(out@);
        let mut j: usize = 0;
        while j < mounts.len()
            invariant
                j <= mounts.len(),
                string_views(out@) == mount_repos(base, mounts@.take(j as int), stack@),
            decreases mounts.len() - j,
        {
            proof {
                assert(mounts@.take(j + 1).drop_last() =~= mounts@.take(j as int));
            }
            let m = &mounts[j];
            if !(m.no_data || m.no_backup.is_some()) {
                let owner = String::from_str(m.owner(stack.as_str()));
                add_new_exec(&mut out, owner);
            }
            j += 1;
        }
        proof {
            assert(mounts@.take(mounts.len() as int) =~= mounts@);
        }
        let ghost base2 = string_views(out@);
        let mut k: usize = 0;
        while k < natives.len()
            invariant
                k <= natives.len(),
                string_views(out@) == native_repos(base2, string_views(natives@).take(k as int)),
            decreases natives.len() - k,
        {
            proof {
                assert(string_views(natives@).take(k + 1).drop_last() =~= string_views(natives@).take(k as int));
            }
            add_new_exec(&mut out, natives[k].clone());
            k += 1;
        }
        proof {
            assert(string_views(natives@).take(natives.len() as int) =~= string_views(natives@));
        }
        i += 1;
    }
    proof {
        assert(stacks@.take(stacks.len() as int) =~= stacks@);
    }
    sort_strings(out)
}

/// Adjacent repeats removed (`Vec::dedup`).
pub open spec fn dedup(s: Seq<Seq<char>>) -> Seq<Seq<char>>
    decreases s.len(),
{
    if s.len() == 0 {
        Seq::empty()
    } else if s.len() >= 2 && s[s.len() - 2] == s.last() {
        dedup(s.drop_last())
    } else {
        dedup(s.drop_last()).push(s.last())
    }
}

proof fn lemma_dedup_last(s: Seq<Seq<char>>)
    requires
        s.len() > 0,
    ensures
        dedup(s).len() > 0,
        dedup(s).last() == s.last(),
    decreases s.len(),
{
    if s.len() >= 2 && s[s.len() - 2] == s.last() {
        lemma_dedup_last(s.drop_last());
    }
}

/// Whose turn it is, and the cursor for next time: round-robin over the
/// repositories sorted and deduplicated, so the order does not depend on
/// how a map was walked. None when there is nothing to drill.
pub open spec fn turn(repos: Seq<Seq<char>>, index: nat) -> Option<(Seq<char>, nat)> {
    let s = dedup(sort_by(repos, str_order()));
    if repos.len() == 0 {
        None
    } else {
        Some((s[(index % s.len()) as int], ((index % s.len()) + 1) % s.len()))
    }
}

proof fn lemma_sort_len(s: Seq<Seq<char>>)
    ensures
        sort_by(s, str_order()).len() == s.len(),
    decreases s.len(),
{
    if s.len() > 0 {
        lemma_sort_len(s.drop_last());
        lemma_insert_len(sort_by(s.drop_last(), str_order()), s.last());
    }
}

proof fn lemma_insert_len(s: Seq<Seq<char>>, x: Seq<char>)
    ensures
        crate::order::insert_by(s, x, str_order()).len() == s.len() + 1,
    decreases s.len(),
{
    if s.len() > 0 {
        lemma_insert_len(s.drop_last(), x);
    }
}

proof fn lemma_insert_contains(s: Seq<Seq<char>>, x: Seq<char>, r: Seq<char>)
    ensures
        crate::order::insert_by(s, x, str_order()).contains(r) <==> (s.contains(r) || r == x),
    decreases s.len(),
{
    let t = crate::order::insert_by(s, x, str_order());
    if s.len() == 0 {
        assert(t =~= seq![x]);
        assert(t.contains(r) ==> t[0] == r);
        if r == x {
            assert(t[0] == x);
        }
    } else if (str_order())(s.last(), x) {
        assert(t =~= s.push(x));
        if s.contains(r) {
            let i = choose|i: int| 0 <= i < s.len() && s[i] == r;
            assert(t[i] == r);
        }
        if t.contains(r) {
            let i = choose|i: int| 0 <= i < t.len() && t[i] == r;
            if i < s.len() {
                assert(s[i] == r);
            }
        }
        if r == x {
            assert(t[s.len() as int] == x);
        }
    } else {
        let p = crate::order::insert_by(s.drop_last(), x, str_order());
        lemma_insert_contains(s.drop_last(), x, r);
        assert(t =~= p.push(s.last()));
        if s.contains(r) {
            let i = choose|i: int| 0 <= i < s.len() && s[i] == r;
            if i < s.len() - 1 {
                assert(s.drop_last()[i] == r);
                let j = choose|j: int| 0 <= j < p.len() && p[j] == r;
                assert(t[j] == r);
            } else {
                assert(t[p.len() as int] == r);
            }
        }
        if r == x {
            let j = choose|j: int| 0 <= j < p.len() && p[j] == r;
            assert(t[j] == r);
        }
        if t.contains(r) {
            let i = choose|i: int| 0 <= i < t.len() && t[i] == r;
            if i < p.len() {
                assert(p[i] == r);
                if r != x {
                    let j = choose|j: int| 0 <= j < s.drop_last().len() && s.drop_last()[j] == r;
                    assert(s[j] == r);
                }
            } else {
                assert(s[s.len() - 1] == r);
            }
        }
    }
}

proof fn lemma_sort_contains(s: Seq<Seq<char>>, r: Seq<char>)
    ensures
        sort_by(s, str_order()).contains(r) <==> s.contains(r),
    decreases s.len(),
{
    if s.len() > 0 {
        lemma_sort_contains(s.drop_last(), r);
        lemma_insert_contains(sort_by(s.drop_last(), str_order()), s.last(), r);
        if s.contains(r) {
            let i = choose|i: int| 0 <= i < s.len() && s[i] == r;
            if i < s.len() - 1 {
                assert(s.drop_last()[i] == r);
            }
        }
        if s.drop_last().contains(r) {
            let i = choose|i: int| 0 <= i < s.drop_last().len() && s.drop_last()[i] == r;
            assert(s[i] == r);
        }
    }
}

proof fn lemma_dedup_contains(s: Seq<Seq<char>>, r: Seq<char>)
    requires
        s.contains(r),
    ensures
        dedup(s).contains(r),
        dedup(s).len() <= s.len(),
    decreases s.len(),
{
    let i = choose|i: int| 0 <= i < s.len() && s[i] == r;
    let p = s.drop_last();
    if i == s.len() - 1 {
        lemma_dedup_last(s);
        assert(dedup(s)[dedup(s).len() - 1] == r);
        if p.len() > 0 {
            lemma_dedup_contains(p, p[0]);
        }
    } else {
        assert(p[i] == r);
        lemma_dedup_contains(p, r);
        let j = choose|j: int| 0 <= j < dedup(p).len() && dedup(p)[j] == r;
        if !(s.len() >= 2 && s[s.len() - 2] == s.last()) {
            assert(dedup(s)[j] == r);
        }
    }
}

/// The turn `k` drills after the one at `index`, each turn handing its
/// cursor on to the next.
pub open spec fn kth_turn(repos: Seq<Seq<char>>, index: nat, k: nat) -> Option<Seq<char>>
    decreases k,
{
    match turn(repos, index) {
        Some((r, next)) => if k == 0 {
            Some(r)
        } else {
            kth_turn(repos, next, (k - 1) as nat)
        },
        None => None,
    }
}

proof fn lemma_kth_turn(repos: Seq<Seq<char>>, index: nat, k: nat)
    requires
        repos.len() > 0,
        dedup(sort_by(repos, str_order())).len() > 0,
    ensures
        ({
            let s = dedup(sort_by(repos, str_order()));
            let n = s.len() as int;
            kth_turn(repos, index, k) == Some(s[((index as int % n) + k) % n])
        }),
    decreases k,
{
    let s = dedup(sort_by(repos, str_order()));
    let n = s.len() as int;
    let c = index as int % n;
    vstd::arithmetic::div_mod::lemma_small_mod(c as nat, n as nat);
    assert(turn(repos, index) == Some((s[c], ((c + 1) % n) as nat)));
    if k > 0 {
        let next = (c + 1) % n;
        lemma_kth_turn(repos, next as nat, (k - 1) as nat);
        vstd::arithmetic::div_mod::lemma_small_mod(next as nat, n as nat);
        assert(((next % n) + (k - 1)) % n == (next + (k - 1)) % n);
        vstd::arithmetic::div_mod::lemma_add_mod_noop_right(k - 1, c + 1, n);
        assert((next + (k - 1)) % n == (c + k) % n);
    }
}

/// Round-robin reaches every repository: from any cursor, the next turns,
/// each handing its cursor to the following one, drill every repository
/// before as many turns as there are repositories have passed.
pub proof fn law_round_robin_reaches_every_repository(repos: Seq<Seq<char>>, index: nat, r: Seq<char>)
    requires
        repos.contains(r),
    ensures
        exists|k: nat| k < repos.len() && #[trigger] kth_turn(repos, index, k) == Some(r),
{
    let sorted = sort_by(repos, str_order());
    lemma_sort_contains(repos, r);
    lemma_sort_len(repos);
    lemma_dedup_contains(sorted, r);
    let s = dedup(sorted);
    let n = s.len();
    let j = choose|j: int| 0 <= j < s.len() && s[j] == r;
    let c = index % n;
    let k: nat = ((j - c + n) % (n as int)) as nat;
    lemma_kth_turn(repos, index, k);
    vstd::arithmetic::div_mod::lemma_add_mod_noop_right(c as int, j - c + n, n as int);
    assert((c + (j - c + n)) % (n as int) == (j + n) % (n as int));
    vstd::arithmetic::div_mod::lemma_add_mod_noop(j, n as int, n as int);
    vstd::arithmetic::div_mod::lemma_small_mod(j as nat, n);
    assert((n as int) % (n as int) == 0) by {
        vstd::arithmetic::div_mod::lemma_mod_self_0(n as int);
    }
    assert(kth_turn(repos, index, k) == Some(r));
}

proof fn lemma_add_new_unique(v: Seq<Seq<char>>, x: Seq<char>)
    requires
        v.no_duplicates(),
    ensures
        add_new(v, x).no_duplicates(),
{
    if !v.contains(x) {
        assert forall|i: int, j: int| 0 <= i < j < v.push(x).len() implies v.push(x)[i] != v.push(x)[j] by {
            if j == v.len() {
                assert(v.contains(v[i]));
            }
        }
    }
}

proof fn lemma_mount_repos_unique(acc: Seq<Seq<char>>, ms: Seq<MountSpec>, stack: Seq<char>)
    requires
        acc.no_duplicates(),
    ensures
        mount_repos(acc, ms, stack).no_duplicates(),
    decreases ms.len(),
{
    if ms.len() > 0 {
        lemma_mount_repos_unique(acc, ms.drop_last(), stack);
        lemma_add_new_unique(mount_repos(acc, ms.drop_last(), stack), owner_of(ms.last(), stack));
    }
}

proof fn lemma_native_repos_unique(acc: Seq<Seq<char>>, ns: Seq<Seq<char>>)
    requires
        acc.no_duplicates(),
    ensures
        native_repos(acc, ns).no_duplicates(),
    decreases ns.len(),
{
    if ns.len() > 0 {
        lemma_native_repos_unique(acc, ns.drop_last());
        lemma_add_new_unique(native_repos(acc, ns.drop_last()), ns.last());
    }
}

proof fn lemma_collect_repos_unique(stacks: Seq<(Vec<MountSpec>, String, Vec<String>)>)
    ensures
        collect_repos(stacks).no_duplicates(),
    decreases stacks.len(),
{
    if stacks.len() > 0 {
        lemma_collect_repos_unique(stacks.drop_last());
        let (ms, stack, ns) = stacks.last();
        lemma_mount_repos_unique(collect_repos(stacks.drop_last()), ms@, stack@);
        lemma_native_repos_unique(mount_repos(collect_repos(stacks.drop_last()), ms@, stack@), string_views(ns@));
    }
}

/// The repositories the drill rotates through come out in string order,
/// each of them once.
pub proof fn law_drill_repos_sorted_once(stacks: Seq<(Vec<MountSpec>, String, Vec<String>)>)
    ensures
        sorted_by(sort_by(collect_repos(stacks), str_order()), str_order()),
        sort_by(collect_repos(stacks), str_order()).no_duplicates(),
        sort_by(collect_repos(stacks), str_order()).to_multiset() == collect_repos(stacks).to_multiset(),
{
    let c = collect_repos(stacks);
    lemma_str_order_total();
    lemma_sort_by(c, str_order());
    lemma_collect_repos_unique(stacks);
    c.lemma_multiset_has_no_duplicates();
    sort_by(c, str_order()).lemma_multiset_has_no_duplicates_conv();
}

pub fn next_repo(repos: &[String], index: usize) -> (r: Option<(String, usize)>)
    ensures
        match turn(string_views(repos@), index as nat) {
            Some((repo, next)) => r matches Some((x, n)) && x@ == repo && n as nat == next,
            None => r is None,
        },
{
    if repos.len() == 0 {
        return None;
    }
    let mut v: Vec<String> = Vec::new();
    let mut i: usize = 0;
    while i < repos.len()
        invariant
            i <= repos.len(),
            string_views(v@) == string_views(repos@).take(i as int),
        decreases repos.len() - i,
    {
        let ghost before = string_views(v@);
        v.push(repos[i].clone());
        proof {
            assert(string_views(v@) =~= before.push(repos@[i as int]@));
            assert(string_views(v@) =~= string_views(repos@).take(i + 1));
        }
        i += 1;
    }
    proof {
        assert(string_views(repos@).take(repos.len() as int) =~= string_views(repos@));
    }
    let sorted = sort_strings(v);
    let ghost ss = string_views(sorted@);
    proof {
        lemma_sort_len(string_views(repos@));
    }
    let mut d: Vec<String> = Vec::new();
    let mut j: usize = 0;
    while j < sorted.len()
        invariant
            j <= sorted.len(),
            ss == string_views(sorted@),
            string_views(d@) == dedup(ss.take(j as int)),
        decreases sorted.len() - j,
    {
        proof {
            assert(ss.take(j + 1).drop_last() =~= ss.take(j as int));
            if j > 0 {
                lemma_dedup_last(ss.take(j as int));
            }
        }
        if j > 0 && str_eq(sorted[j].as_str(), d[d.len() - 1].as_str()) {
        } else {
            let ghost before = string_views(d@);
            d.push(sorted[j].clone());
            proof {
                assert(string_views(d@) =~= before.push(ss[j as int]));
            }
        }
        j += 1;
    }
    proof {
        assert(ss.take(sorted.len() as int) =~= ss);
        lemma_dedup_last(ss);
    }
    let k = index % d.len();
    let next = (k + 1) % d.len();
    Some((d[k].clone(), next))
}

/// What a finished drill amounts to.
#[derive(Debug, Clone, PartialEq, Eq)]
pub enum Outcome {
    /// Files came back and at least one of them has content.
    Passed { files: usize, largest_bytes: u64 },
    /// It ran and what came back proves nothing.
    Failed(String),
}

pub open spec fn outcome_view(o: Outcome) -> Result<(usize, u64), Seq<char>> {
    match o {
        Outcome::Passed { files, largest_bytes } => Ok((files, largest_bytes)),
        Outcome::Failed(m) => Err(m@),
    }
}

/// A restore judged by what came back, not by the exit status: zero-byte
/// placeholders prove nothing about whether the data is recoverable.
pub open spec fn drill_verdict(files: usize, largest_bytes: u64) -> Result<(usize, u64), Seq<char>> {
    if files == 0 {
        Err("the restore returned no files at all"@)
    } else if largest_bytes == 0 {
        Err(dec(files as nat) + " file(s) came back and every one of them is empty — a restore of zero-byte files proves nothing about whether the data is recoverable"@)
    } else {
        Ok((files, largest_bytes))
    }
}

pub fn verdict(files: usize, largest_bytes: u64) -> (r: Outcome)
    ensures
        outcome_view(r) == drill_verdict(files, largest_bytes),
{
    if files == 0 {
        return Outcome::Failed(String::from_str("the restore returned no files at all"));
    }
    if largest_bytes == 0 {
        let mut s = dec_string(files as u64);
        s.append(" file(s) came back and every one of them is empty — a restore of zero-byte files proves nothing about whether the data is recoverable");
        return Outcome::Failed(s);
    }
    Outcome::Passed { files, largest_bytes }
}

/// What the state says about the drill: failed and left that way, or
/// overdue.
pub open spec fn drill_findings(state: HostState, now: u64, interval_s: u64) -> Seq<FindingView> {
    match state.last_restore_drill_error {
        Some(err) => seq![fv(
            Severity::Broken,
            "restore drill"@ + if state.last_restore_drill_repo@.len() == 0 {
                Seq::empty()
            } else {
                " · "@ + state.last_restore_drill_repo@
            },
            "the last drill did not prove a restore: "@ + err@,
            "the backup for this repository is a hypothesis until one comes back with content in it — check the repository and the password file"@,
        )],
        None => if is_due(state.last_restore_drill, now, interval_s) {
            seq![fv(
                Severity::Drift,
                "restore drill"@,
                "no restore has been rehearsed since: "@ + if state.last_restore_drill == 0 {
                    "never"@
                } else {
                    dec(((if now >= state.last_restore_drill { now - state.last_restore_drill } else { 0 }) / 86400) as nat) + " days ago"@
                },
                "the nightly round takes one automatically; if this stands, the round is not reaching it — a backup nobody has restored is a hypothesis"@,
            )]
        } else {
            Seq::empty()
        },
    }
}

pub fn evaluate_drill(state: &HostState, now: u64, interval_s: u64) -> (r: Vec<Finding>)
    ensures
        findings_view(r@) == drill_findings(*state, now, interval_s),
{
    let mut out: Vec<Finding> = Vec::new();
    proof {
        assert(findings_view(out@) =~= Seq::<FindingView>::empty());
    }
    if let Some(err) = &state.last_restore_drill_error {
        let mut subject = String::from_str("restore drill");
        if state.last_restore_drill_repo.unicode_len() > 0 {
            subject.append(" · ");
            subject.append(state.last_restore_drill_repo.as_str());
        }
        let mut what = String::from_str("the last drill did not prove a restore: ");
        what.append(err.as_str());
        proof {
            let sv = "restore drill"@ + if state.last_restore_drill_repo@.len() == 0 {
                Seq::<char>::empty()
            } else {
                " · "@ + state.last_restore_drill_repo@
            };
            assert(subject@ =~= sv);
        }
        push_finding(&mut out, Severity::Broken, subject, what, String::from_str(
            "the backup for this repository is a hypothesis until one comes back with content in it — check the repository and the password file",
        ));
        proof {
            assert(findings_view(out@) =~= drill_findings(*state, now, interval_s));
        }
        return out;
    }
    if due(state.last_restore_drill, now, interval_s) {
        let mut what = String::from_str("no restore has been rehearsed since: ");
        if state.last_restore_drill == 0 {
            what.append("never");
        } else {
            let since = if now >= state.last_restore_drill { now - state.last_restore_drill } else { 0 };
            let d = dec_string(since / 86400);
            what.append(d.as_str());
            what.append(" days ago");
        }
        proof {
            let wv = "no restore has been rehearsed since: "@ + if state.last_restore_drill == 0 {
                "never"@
            } else {
                dec(((if now >= state.last_restore_drill { now - state.last_restore_drill } else { 0 }) / 86400) as nat) + " days ago"@
            };
            assert(what@ =~= wv);
        }
        push_finding(&mut out, Severity::Drift, String::from_str("restore drill"), what, String::from_str(
            "the nightly round takes one automatically; if this stands, the round is not reaching it — a backup nobody has restored is a hypothesis",
        ));
    }
    proof {
        assert(findings_view(out@) =~= drill_findings(*state, now, interval_s));
    }
    out
}

} // verus!
