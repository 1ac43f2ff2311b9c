//! Native services — bare binaries under systemd in their own LXC, no
//! docker layer. What stands here is the service manifest, its validator,
//! and what a unit file needs before it can start.

use vstd::prelude::*;
use vstd::string::*;
use crate::text::{
    contains, dec, dec_string, is_lower_dashed, lines, lines_of, lower_dashed_str, split_char,
    split_on, split_once, split_whitespace, starts_with, str_contains, str_eq, str_split_once,
    str_starts_with, string_views, trim, trimmed, views, words,
};

verus! {

/// Everything the homelab needs to know about one native service.
#[derive(Debug, Clone, PartialEq, Eq)]
pub struct NativeServiceManifest {
    pub stack_name: String,
    pub vmid: u16,
    pub hostname: String,
    /// systemd unit name, without the `.service` suffix.
    pub unit: String,
    /// Absolute path of the installed binary inside the container.
    pub binary: String,
    /// Absolute path of the EnvironmentFile, if the unit uses one.
    pub env_file: Option<String>,
    /// Absolute in-container paths whose contents are the service's state.
    pub data_dirs: Vec<String>,
    /// The self-update verb; None = the homelab never updates this service.
    pub update_cmd: Option<String>,
    /// This service keeps no state at all, deliberately.
    pub stateless: bool,
    /// `owner/repo` of the GitHub release the binary comes from.
    pub release_repo: Option<String>,
    /// The asset name inside that release; defaults to the unit name.
    pub release_asset: Option<String>,
}

pub open spec fn asset_of(m: NativeServiceManifest) -> Seq<char> {
    match m.release_asset {
        Some(a) => a@,
        None => m.unit@,
    }
}

impl NativeServiceManifest {
    /// The release asset to fetch, falling back to the unit name.
    pub fn asset_name(&self) -> (r: &str)
        ensures
            r@ == asset_of(*self),
    {
        match &self.release_asset {
            Some(a) => a.as_str(),
            None => self.unit.as_str(),
        }
    }
}

/// Non-empty and only `[a-z0-9-]`.
pub fn lower_dashed(s: &str) -> (r: bool)
    ensures
        r == is_lower_dashed(s@),
{
    lower_dashed_str(s)
}

pub open spec fn when(cond: bool, msg: Seq<char>) -> Seq<Seq<char>> {
    if cond {
        seq![msg]
    } else {
        Seq::empty()
    }
}

pub open spec fn path_problem(p: Seq<char>) -> Seq<Seq<char>> {
    when(
        !starts_with(p, "/"@) || contains(p, ".."@),
        "path '"@ + p + "' must be absolute and free of '..'"@,
    )
}

pub open spec fn paths_problems(ps: Seq<Seq<char>>) -> Seq<Seq<char>>
    decreases ps.len(),
{
    if ps.len() == 0 {
        Seq::empty()
    } else {
        paths_problems(ps.drop_last()) + path_problem(ps.last())
    }
}

/// The paths a native manifest names: the binary, its env file, its data.
pub open spec fn named_paths(m: NativeServiceManifest) -> Seq<Seq<char>> {
    seq![m.binary@] + match m.env_file {
        Some(e) => seq![e@],
        None => Seq::empty(),
    } + string_views(m.data_dirs@)
}

pub open spec fn empty_state_msg() -> Seq<char> {
    "data_dirs is empty — a service with no declared state cannot be backed up; declare at least one directory, or set `stateless: true` if it genuinely keeps none (kyu-runner is the real case: its unit says so and it runs under DynamicUser)"@
}

/// A repository is `owner/name` and nothing else.
pub open spec fn repo_ok(repo: Seq<char>) -> bool {
    let parts = split_on(repo, '/');
    parts.len() == 2 && parts[0].len() > 0 && parts[1].len() > 0
}

/// Names: the stack, the unit and the hostname that the A2 guard reads.
pub open spec fn naming_problems(m: NativeServiceManifest) -> Seq<Seq<char>> {
    when(
        !is_lower_dashed(m.stack_name@),
        "stack_name '"@ + m.stack_name@ + "' must be non-empty lowercase [a-z0-9-]"@,
    ) + when(
        !is_lower_dashed(m.unit@),
        "unit '"@ + m.unit@ + "' must be non-empty lowercase [a-z0-9-] (no .service suffix)"@,
    ) + when(
        m.hostname@ != crate::manifest::canonical(m.vmid, m.stack_name@),
        "hostname '"@ + m.hostname@ + "' must be '"@ + crate::manifest::canonical(
            m.vmid,
            m.stack_name@,
        ) + "' (A2 guard depends on it)"@,
    )
}

/// State: declared, or declared absent, never both and never neither.
pub open spec fn state_problems(m: NativeServiceManifest) -> Seq<Seq<char>> {
    when(m.data_dirs@.len() == 0 && !m.stateless, empty_state_msg()) + when(
        m.stateless && m.data_dirs@.len() != 0,
        "stateless: true but "@ + dec(m.data_dirs@.len())
            + " data_dirs are declared — one of the two is wrong, and guessing which would decide silently whether this service is backed up"@,
    )
}

/// Release: a well-formed repository, and no asset without one.
pub open spec fn release_problems(m: NativeServiceManifest) -> Seq<Seq<char>> {
    (match m.release_repo {
        Some(repo) => when(!repo_ok(repo@), "release_repo '"@ + repo@ + "' must be 'owner/name'"@),
        None => Seq::empty(),
    }) + when(
        m.release_asset is Some && m.release_repo is None,
        "release_asset is set without a release_repo — there is nowhere to fetch it from"@,
    )
}

/// Every problem of a native manifest, in the order the validator finds them.
pub open spec fn native_problems(m: NativeServiceManifest) -> Seq<Seq<char>> {
    naming_problems(m) + paths_problems(named_paths(m)) + state_problems(m) + release_problems(m)
}

fn push_msg(problems: &mut Vec<String>, s: String)
    ensures
        string_views(final(problems)@) == string_views(old(problems)@).push(s@),
{
    problems.push(s);
    proof {
        assert(string_views(problems@) =~= string_views(old(problems)@).push(s@));
    }
}

fn check_path(p: &str, problems: &mut Vec<String>)
    ensures
        string_views(final(problems)@) == string_views(old(problems)@) + path_problem(p@),
{
    let ghost p0 = string_views(problems@);
    if !str_starts_with(p, "/") || str_contains(p, "..") {
        let mut s = String::from_str("path '");
        s.append(p);
        s.append("' must be absolute and free of '..'");
        push_msg(problems, s);
    }
    proof {
        assert(string_views(problems@) =~= p0 + path_problem(p@));
    }
}

fn check_naming(m: &NativeServiceManifest, problems: &mut Vec<String>)
    ensures
        string_views(final(problems)@) == string_views(old(problems)@) + naming_problems(*m),
{
    let ghost p0 = string_views(problems@);
    if !lower_dashed_str(m.stack_name.as_str()) {
        let mut s = String::from_str("stack_name '");
        s.append(m.stack_name.as_str());
        s.append("' must be non-empty lowercase [a-z0-9-]");
        push_msg(problems, s);
    }
    let ghost p1 = string_views(problems@);
    if !lower_dashed_str(m.unit.as_str()) {
        let mut s = String::from_str("unit '");
        s.append(m.unit.as_str());
        s.append("' must be non-empty lowercase [a-z0-9-] (no .service suffix)");
        push_msg(problems, s);
    }
    let ghost p2 = string_views(problems@);
    let mut canonical = dec_string(m.vmid as u64);
    canonical.append("-app-");
    canonical.append(m.stack_name.as_str());
    if !str_eq(m.hostname.as_str(), canonical.as_str()) {
        let mut s = String::from_str("hostname '");
        s.append(m.hostname.as_str());
        s.append("' must be '");
        s.append(canonical.as_str());
        s.append("' (A2 guard depends on it)");
        push_msg(problems, s);
    }
    proof {
        assert(string_views(problems@) =~= p0 + naming_problems(*m));
    }
}

fn check_paths(m: &NativeServiceManifest, problems: &mut Vec<String>)
    ensures
        string_views(final(problems)@) == string_views(old(problems)@) + paths_problems(
            named_paths(*m),
        ),
{
    let ghost p0 = string_views(problems@);
    check_path(m.binary.as_str(), problems);
    if let Some(e) = &m.env_file {
        check_path(e.as_str(), problems);
    }
    let ghost p1 = string_views(problems@);
    let mut i: usize = 0;
    while i < m.data_dirs.len()
        invariant
            i <= m.data_dirs.len(),
            string_views(problems@) == p1 + paths_problems(string_views(m.data_dirs@.take(i as int))),
        decreases m.data_dirs.len() - i,
    {
        proof {
            assert(string_views(m.data_dirs@.take(i + 1)).drop_last() =~= string_views(
                m.data_dirs@.take(i as int),
            ));
            assert(string_views(m.data_dirs@.take(i + 1)).last() == m.data_dirs@[i as int]@);
        }
        check_path(m.data_dirs[i].as_str(), problems);
        i += 1;
    }
    proof {
        assert(m.data_dirs@.take(m.data_dirs.len() as int) =~= m.data_dirs@);
        let mm = *m;
        let envs: Seq<Seq<char>> = match mm.env_file {
            Some(e) => seq![e@],
            None => Seq::<Seq<char>>::empty(),
        };
        lemma_paths_concat(seq![mm.binary@] + envs, string_views(mm.data_dirs@));
        lemma_paths_concat(seq![mm.binary@], envs);
        lemma_paths_single(mm.binary@);
        match mm.env_file {
            Some(e) => {
                lemma_paths_single(e@);
            },
            None => {},
        }
        assert(string_views(problems@) =~= p0 + paths_problems(named_paths(*m)));
    }
}

fn check_state(m: &NativeServiceManifest, problems: &mut Vec<String>)
    ensures
        string_views(final(problems)@) == string_views(old(problems)@) + state_problems(*m),
{
    let ghost p0 = string_views(problems@);
    if m.data_dirs.len() == 0 && !m.stateless {
        push_msg(problems, String::from_str(
            "data_dirs is empty — a service with no declared state cannot be backed up; declare at least one directory, or set `stateless: true` if it genuinely keeps none (kyu-runner is the real case: its unit says so and it runs under DynamicUser)",
        ));
    }
    let ghost p1 = string_views(problems@);
    if m.stateless && m.data_dirs.len() != 0 {
        let mut s = String::from_str("stateless: true but ");
        let d = dec_string(m.data_dirs.len() as u64);
        s.append(d.as_str());
        s.append(
            " data_dirs are declared — one of the two is wrong, and guessing which would decide silently whether this service is backed up",
        );
        push_msg(problems, s);
    }
    proof {
        assert(string_views(problems@) =~= p0 + state_problems(*m));
    }
}

fn check_release(m: &NativeServiceManifest, problems: &mut Vec<String>)
    ensures
        string_views(final(problems)@) == string_views(old(problems)@) + release_problems(*m),
{
    let ghost p0 = string_views(problems@);
    if let Some(repo) = &m.release_repo {
        let parts = split_char(repo.as_str(), '/');
        proof {
            assert(views(parts@).len() == parts@.len());
            if parts@.len() == 2 {
                assert(views(parts@)[0] == parts@[0]@);
                assert(views(parts@)[1] == parts@[1]@);
            }
        }
        if parts.len() != 2 || parts[0].unicode_len() == 0 || parts[1].unicode_len() == 0 {
            let mut s = String::from_str("release_repo '");
            s.append(repo.as_str());
            s.append("' must be 'owner/name'");
            push_msg(problems, s);
        }
    }
    let ghost p1 = string_views(problems@);
    if m.release_asset.is_some() && m.release_repo.is_none() {
        push_msg(problems, String::from_str(
            "release_asset is set without a release_repo — there is nowhere to fetch it from",
        ));
    }
    proof {
        assert(string_views(problems@) =~= p0 + release_problems(*m));
    }
}

/// Every path is absolute and free of `..`.
pub open spec fn paths_ok(ps: Seq<Seq<char>>) -> bool {
    forall|i: int| 0 <= i < ps.len() ==> starts_with(#[trigger] ps[i], "/"@) && !contains(ps[i], ".."@)
}

proof fn lemma_paths_problems_empty(ps: Seq<Seq<char>>)
    ensures
        paths_problems(ps).len() == 0 <==> paths_ok(ps),
    decreases ps.len(),
{
    if ps.len() > 0 {
        let init = ps.drop_last();
        lemma_paths_problems_empty(init);
        if paths_ok(ps) {
            assert forall|i: int| 0 <= i < init.len() implies starts_with(#[trigger] init[i], "/"@) && !contains(init[i], ".."@) by {
                assert(init[i] == ps[i]);
            }
            assert(ps.last() == ps[ps.len() - 1]);
        }
        if paths_problems(ps).len() == 0 {
            assert forall|i: int| 0 <= i < ps.len() implies starts_with(#[trigger] ps[i], "/"@) && !contains(ps[i], ".."@) by {
                if i < init.len() {
                    assert(init[i] == ps[i]);
                }
            }
        }
    }
}

/// A native manifest is accepted exactly when every rule holds: the stack
/// and unit names are lowercase and dashed, the hostname is the canonical
/// one, every named path is absolute and free of `..`, state is declared or
/// declared absent (never both, never neither), a release repository is
/// `owner/name`, and an asset comes with a repository.
pub proof fn law_native_accepted_iff_every_rule_holds(m: NativeServiceManifest)
    ensures
        native_problems(m).len() == 0 <==> (is_lower_dashed(m.stack_name@) && is_lower_dashed(m.unit@)
            && m.hostname@ == crate::manifest::canonical(m.vmid, m.stack_name@) && paths_ok(named_paths(m))
            && (m.data_dirs@.len() == 0) == m.stateless && (m.release_repo matches Some(repo) ==> repo_ok(repo@))
            && (m.release_asset is Some ==> m.release_repo is Some)),
{
    lemma_paths_problems_empty(named_paths(m));
}

/// Same fail-closed philosophy as the stack validator: every problem in
/// one pass, so the operator fixes the file once.
pub fn validate_native(m: &NativeServiceManifest) -> (r: Result<(), Vec<String>>)
    ensures
        native_problems(*m).len() == 0 ==> r is Ok,
        native_problems(*m).len() != 0 ==> (r matches Err(ps) && string_views(ps@)
            == native_problems(*m)),
{
    let mut problems: Vec<String> = Vec::new();
    proof {
        assert(string_views(problems@) =~= Seq::<Seq<char>>::empty());
    }
    check_naming(m, &mut problems);
    check_paths(m, &mut problems);
    check_state(m, &mut problems);
    check_release(m, &mut problems);
    proof {
        assert(string_views(problems@) =~= native_problems(*m));
    }
    if problems.len() == 0 {
        Ok(())
    } else {
        Err(problems)
    }
}

proof fn lemma_paths_single(x: Seq<char>)
    ensures
        paths_problems(seq![x]) == path_problem(x),
{
    assert(seq![x].drop_last() =~= Seq::<Seq<char>>::empty());
    assert(seq![x].last() == x);
    assert(paths_problems(Seq::<Seq<char>>::empty()) =~= Seq::<Seq<char>>::empty());
    assert(Seq::<Seq<char>>::empty() + path_problem(x) =~= path_problem(x));
}

proof fn lemma_paths_concat(a: Seq<Seq<char>>, b: Seq<Seq<char>>)
    ensures
        paths_problems(a + b) == paths_problems(a) + paths_problems(b),
    decreases b.len(),
{
    if b.len() == 0 {
        assert(a + b =~= a);
    } else {
        lemma_paths_concat(a, b.drop_last());
        assert((a + b).drop_last() =~= a + b.drop_last());
        assert((a + b).last() == b.last());
    }
}

/// What a unit file needs before it can start.
#[derive(Debug, Clone, PartialEq, Eq)]
pub struct UnitPrereqs {
    /// `User=` — the account systemd runs it as (None with `DynamicUser=`).
    pub user: Option<String>,
    /// `EnvironmentFile=` paths that must exist (a leading `-` makes one
    /// optional, and those are left out).
    pub env_files: Vec<String>,
    /// `LoadCredential=id:path` — the paths.
    pub credentials: Vec<String>,
    /// The program `ExecStart=` runs, with its arguments stripped.
    pub binary: Option<String>,
}

/// The state of reading a unit file line by line.
pub struct UnitScan {
    pub section: Seq<char>,
    pub user: Option<Seq<char>>,
    pub dynamic_user: bool,
    pub env_files: Seq<Seq<char>>,
    pub credentials: Seq<Seq<char>>,
    pub binary: Option<Seq<char>>,
}

pub open spec fn is_exec_prefix(c: char) -> bool {
    c == '-' || c == '+' || c == '!' || c == '@'
}

/// `ExecStart=` value with its `-+!@` prefixes removed.
pub open spec fn strip_exec_prefixes(s: Seq<char>) -> Seq<char>
    decreases s.len(),
{
    if s.len() > 0 && is_exec_prefix(s[0]) {
        strip_exec_prefixes(s.drop_first())
    } else {
        s
    }
}

/// What one key of the `[Service]` section sets.
pub open spec fn scan_key(st: UnitScan, k: Seq<char>, v: Seq<char>) -> UnitScan {
    if k == "User"@ {
        UnitScan { user: Some(v), ..st }
    } else if k == "DynamicUser"@ {
        UnitScan { dynamic_user: v == "yes"@ || v == "true"@ || v == "1"@, ..st }
    } else if k == "EnvironmentFile"@ {
        if starts_with(v, "-"@) {
            st
        } else {
            UnitScan { env_files: st.env_files.push(v), ..st }
        }
    } else if k == "LoadCredential"@ {
        match split_once(v, ':') {
            Some((_, path)) => UnitScan { credentials: st.credentials.push(path), ..st },
            None => st,
        }
    } else if k == "ExecStart"@ {
        let w = words(strip_exec_prefixes(v));
        if w.len() > 0 {
            UnitScan { binary: Some(w[0]), ..st }
        } else {
            st
        }
    } else {
        st
    }
}

/// What one line of a unit file changes.
pub open spec fn scan_line(st: UnitScan, line: Seq<char>) -> UnitScan {
    let t = trimmed(line);
    if starts_with(t, "["@) {
        UnitScan { section: t, ..st }
    } else if st.section != "[Service]"@ || starts_with(t, "#"@) {
        st
    } else {
        match split_once(t, '=') {
            None => st,
            Some((k, v)) => scan_key(st, trimmed(k), trimmed(v)),
        }
    }
}

pub open spec fn scan_lines(ls: Seq<Seq<char>>) -> UnitScan
    decreases ls.len(),
{
    if ls.len() == 0 {
        UnitScan {
            section: Seq::empty(),
            user: None,
            dynamic_user: false,
            env_files: Seq::empty(),
            credentials: Seq::empty(),
            binary: None,
        }
    } else {
        scan_line(scan_lines(ls.drop_last()), ls.last())
    }
}

pub open spec fn opt_view(o: Option<String>) -> Option<Seq<char>> {
    match o {
        Some(s) => Some(s@),
        None => None,
    }
}

/// The prerequisites the scan found; `DynamicUser=` means no account to make.
pub open spec fn prereqs_match(p: UnitPrereqs, text: Seq<char>) -> bool {
    let st = scan_lines(lines_of(text));
    &&& opt_view(p.user) == (if st.dynamic_user {
        None
    } else {
        st.user
    })
    &&& string_views(p.env_files@) == st.env_files
    &&& string_views(p.credentials@) == st.credentials
    &&& opt_view(p.binary) == st.binary
}

fn strip_exec_prefixes_exec(s: &str) -> (r: &str)
    ensures
        r@ == strip_exec_prefixes(s@),
{
    let mut cur = s;
    while cur.unicode_len() > 0 && (cur.get_char(0) == '-' || cur.get_char(0) == '+'
        || cur.get_char(0) == '!' || cur.get_char(0) == '@')
        invariant
            strip_exec_prefixes(s@) == strip_exec_prefixes(cur@),
        decreases cur@.len(),
    {
        let k = cur.unicode_len();
        proof {
            assert(cur@.drop_first() =~= cur@.subrange(1, k as int));
        }
        cur = cur.substring_char(1, k);
    }
    cur
}

/// Parse the prerequisites out of a unit file. Only `[Service]` keys are
/// read: a key in the wrong section is invisible to systemd.
pub fn unit_prereqs(text: &str) -> (r: UnitPrereqs)
    ensures
        prereqs_match(r, text@),
{
    let ls = lines(text);
    let ghost lv = views(ls@);
    let mut section = String::new();
    let mut user: Option<String> = None;
    let mut dynamic_user = false;
    let mut env_files: Vec<String> = Vec::new();
    let mut credentials: Vec<String> = Vec::new();
    let mut binary: Option<String> = None;
    let mut i: usize = 0;
    while i < ls.len()
        invariant
            i <= ls.len(),
            lv == views(ls@),
            ({
                let st = scan_lines(lv.take(i as int));
                &&& st.section == section@
                &&& st.user == opt_view(user)
                &&& st.dynamic_user == dynamic_user
                &&& st.env_files == string_views(env_files@)
                &&& st.credentials == string_views(credentials@)
                &&& st.binary == opt_view(binary)
            }),
        decreases ls.len() - i,
    {
        proof {
            assert(lv.take(i + 1).drop_last() =~= lv.take(i as int));
            assert(lv.take(i + 1).last() == ls@[i as int]@);
        }
        let t = trim(ls[i]);
        if str_starts_with(t, "[") {
            section = String::from_str(t);
        } else if !str_eq(section.as_str(), "[Service]") || str_starts_with(t, "#") {
        } else if let Some((k0, v0)) = str_split_once(t, '=') {
            let k = trim(k0);
            let v = trim(v0);
            if str_eq(k, "User") {
                user = Some(String::from_str(v));
            } else if str_eq(k, "DynamicUser") {
                dynamic_user = str_eq(v, "yes") || str_eq(v, "true") || str_eq(v, "1");
            } else if str_eq(k, "EnvironmentFile") {
                if !str_starts_with(v, "-") {
                    let ghost ef = string_views(env_files@);
                    env_files.push(String::from_str(v));
                    proof {
                        assert(string_views(env_files@) =~= ef.push(v@));
                    }
                }
            } else if str_eq(k, "LoadCredential") {
                if let Some((_id, path)) = str_split_once(v, ':') {
                    let ghost cf = string_views(credentials@);
                    credentials.push(String::from_str(path));
                    proof {
                        assert(string_views(credentials@) =~= cf.push(path@));
                    }
                }
            } else if str_eq(k, "ExecStart") {
                let cmd = strip_exec_prefixes_exec(v);
                let w = split_whitespace(cmd);
                if w.len() > 0 {
                    proof {
                        assert(views(w@)[0] == w@[0]@);
                    }
                    binary = Some(String::from_str(w[0]));
                } else {
                    proof {
                        assert(views(w@).len() == 0);
                    }
                }
            }
        }
        i += 1;
    }
    proof {
        assert(lv.take(ls.len() as int) =~= lv);
    }
    if dynamic_user {
        user = None;
    }
    UnitPrereqs { user, env_files, credentials, binary }
}

} // verus!
