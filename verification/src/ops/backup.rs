//! Backup and restore decisions. Restic runs on the host against a stack's
//! `/appdata` paths, one repository per owning app; what is decided about a
//! night, a repository and a snapshot time is here.

use vstd::prelude::*;
use vstd::string::*;
use vstd::utf8::encode_utf8;
use crate::error::CoreError;
use crate::executor::{
    ended_on_failure, extends, lemma_some_failed_grows, some_failed, lemma_extends_refl, lemma_extends_trans, lemma_pushed, pct_sh, pct_sh_args, reply_of, run_ok, run_request, Cmd,
    CmdOutput, Executor, OutputView, Request,
};
use crate::manifest::{app_problems, validate_manifest};
use crate::ops::{config_refusal, guard_target, no_touch_refusal};
use crate::ops::busy::{app_busy, busy_cleared, lemma_busy_cleared_grows, reason};
use crate::state::{HostState, StackState};
use crate::runner::{Journal, OperationReport, StepOutcome};
use crate::safety::SafetyConfig;
use crate::sink::{Level, Sink};
use crate::manifest::{owner_of, MountSpec, StackManifest};
use crate::ops::zfs::{all_ascii, tdiv};
use crate::retention::{default_tiers, RetentionTier};
use crate::text::{
    ends_with, join_strings, joined, lines, lines_of, parse_i64, parse_signed, str_ends_with,
    str_eq, string_views, trim, trimmed, views, split_whitespace, words, starts_with,
    str_starts_with, dec, dec_int, dec_string_i64,
};

verus! {

/// Where restic keeps its index cache, so an operation does not fetch the
/// whole repository index first.
pub open spec fn restic_cache_dir() -> Seq<char> {
    "/var/lib/homelab/restic-cache"@
}

/// What one stack's nightly backup did. A backup that stood aside (somebody
/// was using the service) did not run — so no timestamp — and did not fail
/// — so the stack is not parked.
#[derive(Clone, Debug, PartialEq, Eq)]
pub enum NightBackup {
    Done,
    Deferred(String),
    Failed,
}

pub open spec fn night_view(n: NightBackup) -> Option<Option<Seq<char>>> {
    match n {
        NightBackup::Done => None,
        NightBackup::Deferred(w) => Some(Some(w@)),
        NightBackup::Failed => Some(None),
    }
}

impl NightBackup {
    /// Read an operation's outcome; a report that claims both ok and
    /// deferred counts as done, because something did run.
    pub fn of(ok: bool, deferred: Option<&str>) -> (r: Self)
        ensures
            ok ==> r is Done,
            !ok ==> match deferred {
                Some(w) => r matches NightBackup::Deferred(x) && x@ == w@,
                None => r is Failed,
            },
    {
        if ok {
            NightBackup::Done
        } else if let Some(why) = deferred {
            NightBackup::Deferred(String::from_str(why))
        } else {
            NightBackup::Failed
        }
    }

    /// Does this night park the stack? Only a real failure does.
    pub fn parks_the_stack(&self, update_ok: bool) -> (r: bool)
        ensures
            r == (*self is Failed || !update_ok),
    {
        match self {
            NightBackup::Failed => true,
            _ => !update_ok,
        }
    }

    /// May a `last_backup` timestamp be written? Only for work that happened.
    pub fn records_a_timestamp(&self) -> (r: bool)
        ensures
            r == (*self is Done),
    {
        match self {
            NightBackup::Done => true,
            _ => false,
        }
    }

    /// Services sharing one container share a fate: a failure outranks a
    /// deferral outranks a completed backup (the first deferral wins).
    pub fn worse_of(self, other: NightBackup) -> (r: NightBackup)
        ensures
            night_view(r) == if self is Failed || other is Failed {
                Some(None)
            } else if self is Deferred {
                night_view(self)
            } else {
                night_view(other)
            },
    {
        match (self, other) {
            (NightBackup::Failed, _) => NightBackup::Failed,
            (_, NightBackup::Failed) => NightBackup::Failed,
            (NightBackup::Deferred(d), _) => NightBackup::Deferred(d),
            (_, o) => o,
        }
    }
}

/// The restic invocation for one repository: `env` with the repository, the
/// password file and the cache directory inline, then `restic` and its
/// arguments.
pub open spec fn restic_args(base: Seq<char>, stack: Seq<char>, password_ref: Seq<char>, args: Seq<Seq<char>>) -> Seq<Seq<char>> {
    seq![
        "RESTIC_REPOSITORY="@ + base + "/"@ + stack + "-config"@,
        "RESTIC_PASSWORD_FILE="@ + password_ref,
        "RESTIC_CACHE_DIR="@ + restic_cache_dir(),
        "restic"@,
    ] + args
}

pub fn restic(base: &str, stack: &str, password_ref: &str, args: &[&str], timeout: u64) -> (c: Cmd)
    ensures
        c.program@ == "env"@,
        string_views(c.args@) == restic_args(base@, stack@, password_ref@, args@.map_values(|a: &str| a@)),
        c.timeout_s == timeout,
{
    let mut repo = String::from_str("RESTIC_REPOSITORY=");
    repo.append(base);
    repo.append("/");
    repo.append(stack);
    repo.append("-config");
    let mut pw = String::from_str("RESTIC_PASSWORD_FILE=");
    pw.append(password_ref);
    let mut full: Vec<String> = Vec::new();
    full.push(repo);
    full.push(pw);
    full.push(String::from_str("RESTIC_CACHE_DIR=/var/lib/homelab/restic-cache"));
    full.push(String::from_str("restic"));
    let mut i: usize = 0;
    proof {
        reveal_strlit("RESTIC_CACHE_DIR=/var/lib/homelab/restic-cache");
        reveal_strlit("RESTIC_CACHE_DIR=");
        reveal_strlit("/var/lib/homelab/restic-cache");
        assert("RESTIC_CACHE_DIR=/var/lib/homelab/restic-cache"@ =~= "RESTIC_CACHE_DIR="@ + restic_cache_dir());
    }
    let ghost head = string_views(full@);
    while i < args.len()
        invariant
            i <= args.len(),
            string_views(full@) == head + args@.take(i as int).map_values(|a: &str| a@),
        decreases args.len() - i,
    {
        let ghost before = string_views(full@);
        full.push(String::from_str(args[i]));
        proof {
            assert(string_views(full@) =~= before.push(args@[i as int]@));
            assert(args@.take(i + 1).map_values(|a: &str| a@) =~= args@.take(i as int).map_values(|a: &str| a@).push(args@[i as int]@));
        }
        i += 1;
    }
    proof {
        assert(args@.take(args.len() as int) =~= args@);
        assert(string_views(full@) =~= restic_args(base@, stack@, password_ref@, args@.map_values(|a: &str| a@)));
    }
    Cmd { program: String::from_str("env"), args: full, timeout_s: timeout }
}

#[derive(Clone)]
pub struct BackupCfg {
    pub restic_base: String,
    /// Path to the restic password file on the host.
    pub password_file: String,
    /// Tiered retention, computed here rather than by restic's own flags.
    pub tiers: Vec<RetentionTier>,
    /// Snapshot timeout: a first multi-GB upload takes hours.
    pub snapshot_timeout_s: u64,
    /// Restore timeout, as generous as the snapshot's.
    pub restore_timeout_s: u64,
}

impl Default for BackupCfg {
    fn default() -> (r: Self)
        ensures
            r.restic_base@ == "rclone:gdrive:homelab-backups"@,
            r.password_file@ == "/var/lib/homelab/secrets/restic.pw"@,
            r.tiers@.len() == 3,
            r.snapshot_timeout_s == 14400,
            r.restore_timeout_s == 14400,
    {
        BackupCfg {
            restic_base: String::from_str("rclone:gdrive:homelab-backups"),
            password_file: String::from_str("/var/lib/homelab/secrets/restic.pw"),
            tiers: default_tiers(),
            snapshot_timeout_s: 14400,
            restore_timeout_s: 14400,
        }
    }
}

/// A restic command for one repository, from the configuration.
pub fn restic_cmd(cfg: &BackupCfg, stack: &str, args: &[&str], timeout: u64) -> (c: Cmd)
    ensures
        c.program@ == "env"@,
        string_views(c.args@) == restic_args(cfg.restic_base@, stack@, cfg.password_file@, args@.map_values(|a: &str| a@)),
        c.timeout_s == timeout,
{
    restic(cfg.restic_base.as_str(), stack, cfg.password_file.as_str(), args, timeout)
}

/// The first owner another stack also claims, with that stack. Nothing is
/// reported for the stack's own name, nor for an owner nobody else claims.
pub open spec fn owner_conflict(stack: Seq<char>, owners: Seq<Seq<char>>, others: Seq<(Seq<char>, Seq<Seq<char>>)>) -> Option<(Seq<char>, Seq<char>)>
    decreases owners.len(),
{
    if owners.len() == 0 {
        None
    } else {
        match claimant(stack, owners[0], others) {
            Some(o) => Some((owners[0], o)),
            None => owner_conflict(stack, owners.drop_first(), others),
        }
    }
}

/// The first other stack that claims `owner`.
pub open spec fn claimant(stack: Seq<char>, owner: Seq<char>, others: Seq<(Seq<char>, Seq<Seq<char>>)>) -> Option<Seq<char>>
    decreases others.len(),
{
    if others.len() == 0 {
        None
    } else if others[0].0 != stack && others[0].1.contains(owner) {
        Some(others[0].0)
    } else {
        claimant(stack, owner, others.drop_first())
    }
}

pub open spec fn others_view(v: Seq<(String, Vec<String>)>) -> Seq<(Seq<char>, Seq<Seq<char>>)> {
    v.map_values(|p: (String, Vec<String>)| (p.0@, string_views(p.1@)))
}

fn claimant_exec(stack: &str, owner: &str, others: &[(String, Vec<String>)]) -> (r: Option<String>)
    ensures
        match claimant(stack@, owner@, others_view(others@)) {
            Some(o) => r matches Some(x) && x@ == o,
            None => r is None,
        },
{
    let ghost ov = others_view(others@);
    let mut i: usize = 0;
    proof {
        assert(ov.subrange(0, ov.len() as int) =~= ov);
    }
    while i < others.len()
        invariant
            i <= others.len(),
            ov == others_view(others@),
            claimant(stack@, owner@, ov) == claimant(stack@, owner@, ov.subrange(i as int, ov.len() as int)),
        decreases others.len() - i,
    {
        proof {
            assert(ov.subrange(i as int, ov.len() as int).drop_first() =~= ov.subrange(i + 1, ov.len() as int));
            assert(ov.subrange(i as int, ov.len() as int)[0] == ov[i as int]);
        }
        let (other, owners) = &others[i];
        if !str_eq(other.as_str(), stack) && crate::text::contains_string(owners, owner) {
            return Some(other.clone());
        }
        i += 1;
    }
    None
}

/// Two stacks that name the same owning app write into one repository, and
/// the retention that follows a snapshot would apply one stack's tiers to
/// the other's history. Returns the first conflict as `(owner, other stack)`.
pub fn conflicting_owner(stack: &str, owners: &[String], others: &[(String, Vec<String>)]) -> (r: Option<(String, String)>)
    ensures
        match owner_conflict(stack@, string_views(owners@), others_view(others@)) {
            Some((o, s)) => r matches Some((x, y)) && x@ == o && y@ == s,
            None => r is None,
        },
{
    let ghost ow = string_views(owners@);
    let mut i: usize = 0;
    proof {
        assert(ow.subrange(0, ow.len() as int) =~= ow);
    }
    while i < owners.len()
        invariant
            i <= owners.len(),
            ow == string_views(owners@),
            owner_conflict(stack@, ow, others_view(others@)) == owner_conflict(stack@, ow.subrange(i as int, ow.len() as int), others_view(others@)),
        decreases owners.len() - i,
    {
        proof {
            assert(ow.subrange(i as int, ow.len() as int).drop_first() =~= ow.subrange(i + 1, ow.len() as int));
            assert(ow.subrange(i as int, ow.len() as int)[0] == owners@[i as int]@);
        }
        if let Some(o) = claimant_exec(stack, owners[i].as_str(), others) {
            return Some((owners[i].clone(), o));
        }
        i += 1;
    }
    None
}

/// A stack's storage paths grouped by the app that owns them, in manifest
/// order. A mount that holds nothing or is declared reproducible gets no
/// repository at all.
pub open spec fn groups_of(ms: Seq<MountSpec>, stack: Seq<char>) -> Seq<(Seq<char>, Seq<Seq<char>>)>
    decreases ms.len(),
{
    if ms.len() == 0 {
        Seq::empty()
    } else {
        let g = groups_of(ms.drop_last(), stack);
        let m = ms.last();
        if m.no_data || m.no_backup is Some {
            g
        } else {
            let owner = owner_of(m, stack);
            match owner_index(g, owner) {
                Some(i) => g.update(i, (owner, g[i].1.push(m.host_path@))),
                None => g.push((owner, seq![m.host_path@])),
            }
        }
    }
}

pub open spec fn owner_index(g: Seq<(Seq<char>, Seq<Seq<char>>)>, owner: Seq<char>) -> Option<int>
    decreases g.len(),
{
    if g.len() == 0 {
        None
    } else if owner_index(g.drop_last(), owner) is Some {
        owner_index(g.drop_last(), owner)
    } else if g.last().0 == owner {
        Some(g.len() - 1)
    } else {
        None
    }
}

proof fn lemma_owner_index(g: Seq<(Seq<char>, Seq<Seq<char>>)>, owner: Seq<char>, i: int)
    requires
        0 <= i <= g.len(),
        forall|k: int| 0 <= k < i ==> g[k].0 != owner,
        i < g.len() ==> g[i].0 == owner,
    ensures
        i < g.len() ==> owner_index(g, owner) == Some(i),
        i == g.len() ==> owner_index(g, owner) is None,
    decreases g.len(),
{
    if g.len() > 0 {
        let p = g.drop_last();
        if i < p.len() {
            lemma_owner_index(p, owner, i);
        } else {
            lemma_owner_index(p, owner, p.len() as int);
        }
    }
}

pub fn owner_groups(m: &StackManifest) -> (r: Vec<(String, Vec<String>)>)
    ensures
        others_view(r@) == groups_of(m.storage@, m.stack_name@),
{
    let mut groups: Vec<(String, Vec<String>)> = Vec::new();
    let mut i: usize = 0;
    proof {
        assert(others_view(groups@) =~= Seq::<(Seq<char>, Seq<Seq<char>>)>::empty());
    }
    while i < m.storage.len()
        invariant
            i <= m.storage.len(),
            others_view(groups@) == groups_of(m.storage@.take(i as int), m.stack_name@),
        decreases m.storage.len() - i,
    {
        proof {
            assert(m.storage@.take(i + 1).drop_last() =~= m.storage@.take(i as int));
        }
        let mount = &m.storage[i];
        if !(mount.no_data || mount.no_backup.is_some()) {
            let owner = mount.owner(m.stack_name.as_str());
            let ghost gv = others_view(groups@);
            let mut j: usize = 0;
            while j < groups.len()
                invariant
                    j <= groups.len(),
                    gv == others_view(groups@),
                    forall|k: int| 0 <= k < j ==> gv[k].0 != owner@,
                ensures
                    j <= groups.len(),
                    forall|k: int| 0 <= k < j ==> gv[k].0 != owner@,
                    j < groups.len() ==> gv[j as int].0 == owner@,
                decreases groups.len() - j,
            {
                if str_eq(groups[j].0.as_str(), owner) {
                    break;
                }
                j += 1;
            }
            proof {
                lemma_owner_index(gv, owner@, j as int);
            }
            if j < groups.len() {
                let (o, mut paths) = groups.remove(j);
                let ghost pv = string_views(paths@);
                paths.push(mount.host_path.clone());
                proof {
                    assert(string_views(paths@) =~= pv.push(mount.host_path@));
                }
                groups.insert(j, (o, paths));
                proof {
                    assert(others_view(groups@) =~= gv.update(j as int, (owner@, gv[j as int].1.push(mount.host_path@))));
                }
            } else {
                let mut paths: Vec<String> = Vec::new();
                paths.push(mount.host_path.clone());
                proof {
                    assert(string_views(paths@) =~= seq![mount.host_path@]);
                }
                groups.push((String::from_str(owner), paths));
                proof {
                    assert(others_view(groups@) =~= gv.push((owner@, seq![mount.host_path@])));
                }
            }
        }
        i += 1;
    }
    proof {
        assert(m.storage@.take(m.storage.len() as int) =~= m.storage@);
    }
    groups
}

/// Days since the epoch of a civil date, with Rust's truncating division
/// (the form the snapshot-time reader uses).
pub open spec fn rfc_days(y: int, mo: int, d: int) -> int {
    let y1 = if mo <= 2 { y - 1 } else { y };
    let m1 = if mo <= 2 { mo + 12 } else { mo };
    let era = tdiv(y1, 400);
    let yoe = y1 - era * 400;
    let doy = tdiv(153 * (m1 - 3) + 2, 5) + d - 1;
    let doe = yoe * 365 + tdiv(yoe, 4) - tdiv(yoe, 100) + doy;
    era * 146097 + doe - 719468
}

pub open spec fn field_of(s: Seq<char>, from: int, to: int) -> Option<int> {
    parse_signed(s.subrange(from, to), i64::MAX as nat)
}

/// The timezone offset of an RFC 3339 time's tail (after the seconds): `Z`
/// or nothing is UTC, `±HH:MM` is that offset, and anything else counts as
/// UTC; `None` when an offset is there and cannot be read.
pub open spec fn tz_offset(rest: Seq<char>) -> Option<int> {
    if ends_with(rest, "Z"@) || rest.len() == 0 {
        Some(0)
    } else {
        match last_sign(rest) {
            Some(pos) => {
                let tz = rest.skip(pos + 1);
                if tz.len() < 5 || !all_ascii(tz.take(5)) {
                    None
                } else {
                    match (field_of(tz, 0, 2), field_of(tz, 3, 5)) {
                        (Some(th), Some(tm)) => Some((if rest[pos] == '+' { 1int } else { -1int }) * (th * 3600 + tm * 60)),
                        _ => None,
                    }
                }
            },
            None => Some(0),
        }
    }
}

/// The position of the last `+` or `-`.
pub open spec fn last_sign(s: Seq<char>) -> Option<int>
    decreases s.len(),
{
    if s.len() == 0 {
        None
    } else if s.last() == '+' || s.last() == '-' {
        Some(s.len() - 1)
    } else {
        last_sign(s.drop_last())
    }
}

/// The RFC 3339 times restic writes (`2026-08-11T04:00:12.123+02:00`) as
/// unix seconds, or `None` for anything unexpected or before the epoch.
pub open spec fn rfc3339_unix(s: Seq<char>) -> Option<u64> {
    if s.len() < 19 || !all_ascii(s.take(19)) {
        None
    } else {
        match (field_of(s, 0, 4), field_of(s, 5, 7), field_of(s, 8, 10), field_of(s, 11, 13), field_of(s, 14, 16), field_of(s, 17, 19)) {
            (Some(y), Some(mo), Some(d), Some(h), Some(mi), Some(sec)) => match tz_offset(s.skip(19)) {
                Some(off) => {
                    let t = rfc_days(y, mo, d) * 86400 + h * 3600 + mi * 60 + sec - off;
                    if 0 <= t <= u64::MAX { Some(t as u64) } else { None }
                },
                None => None,
            },
            _ => None,
        }
    }
}

fn num(s: &str, from: usize, to: usize) -> (r: Option<i64>)
    requires
        from <= to <= s@.len(),
        to - from == 2 || to - from == 4,
    ensures
        match r {
            Some(v) => field_of(s@, from as int, to as int) == Some(v as int) && -999 <= v <= 9999 && (to - from == 2 ==> -9 <= v <= 99),
            None => field_of(s@, from as int, to as int) is None,
        },
{
    crate::ops::zfs::field(s, from, to)
}

fn last_sign_exec(s: &str) -> (r: Option<usize>)
    ensures
        match r {
            Some(p) => last_sign(s@) == Some(p as int) && p < s@.len(),
            None => last_sign(s@) is None,
        },
{
    let mut i = s.unicode_len();
    proof {
        assert(s@.take(i as int) =~= s@);
    }
    while i > 0
        invariant
            i <= s@.len(),
            last_sign(s@) == last_sign(s@.take(i as int)),
        decreases i,
    {
        let c = s.get_char(i - 1);
        proof {
            assert(s@.take(i as int).last() == c);
            assert(s@.take(i as int).drop_last() =~= s@.take(i - 1));
        }
        if c == '+' || c == '-' {
            return Some(i - 1);
        }
        i -= 1;
    }
    None
}

fn tz_offset_exec(rest: &str) -> (r: Option<i64>)
    ensures
        match r {
            Some(v) => tz_offset(rest@) == Some(v as int) && -400000 <= v <= 400000,
            None => tz_offset(rest@) is None,
        },
{
    if str_ends_with(rest, "Z") || rest.unicode_len() == 0 {
        return Some(0);
    }
    match last_sign_exec(rest) {
        Some(pos) => {
            let n = rest.unicode_len();
            let tz = rest.substring_char(pos + 1, n);
            proof {
                assert(tz@ =~= rest@.skip(pos + 1));
            }
            if tz.unicode_len() < 5 {
                return None;
            }
            let head = tz.substring_char(0, 5);
            proof {
                assert(head@ =~= tz@.take(5));
            }
            if !crate::ops::zfs::ascii_only(head) {
                return None;
            }
            let th = match num(tz, 0, 2) {
                Some(v) => v,
                None => return None,
            };
            let tm = match num(tz, 3, 5) {
                Some(v) => v,
                None => return None,
            };
            let magnitude: i64 = th * 3600 + tm * 60;
            let c = rest.get_char(pos);
            proof {
                assert(tz@.take(5) =~= head@);
                if c == '+' {
                    assert(1int * magnitude == magnitude);
                } else {
                    assert(-1int * magnitude == -magnitude);
                }
            }
            if c == '+' {
                Some(magnitude)
            } else {
                Some(-magnitude)
            }
        },
        None => Some(0),
    }
}

/// RFC 3339 as written by restic, to unix seconds (UTC).
pub fn humantime_to_unix(s: &str) -> (r: Option<u64>)
    ensures
        r == rfc3339_unix(s@),
{
    let n = s.unicode_len();
    if n < 19 {
        return None;
    }
    let head = s.substring_char(0, 19);
    proof {
        assert(head@ =~= s@.take(19));
    }
    if !crate::ops::zfs::ascii_only(head) {
        return None;
    }
    let y = match num(s, 0, 4) { Some(v) => v, None => return None };
    let mo = match num(s, 5, 7) { Some(v) => v, None => return None };
    let d = match num(s, 8, 10) { Some(v) => v, None => return None };
    let h = match num(s, 11, 13) { Some(v) => v, None => return None };
    let mi = match num(s, 14, 16) { Some(v) => v, None => return None };
    let sec = match num(s, 17, 19) { Some(v) => v, None => return None };
    let rest = s.substring_char(19, n);
    proof {
        assert(rest@ =~= s@.skip(19));
    }
    let off = match tz_offset_exec(rest) { Some(v) => v, None => return None };
    let days = rfc_days_exec(y, mo, d);
    let t = days * 86_400 + h * 3600 + mi * 60 + sec - off;
    if t < 0 {
        None
    } else {
        Some(t as u64)
    }
}

fn rfc_days_exec(y: i64, mo: i64, d: i64) -> (r: i64)
    requires
        -999 <= y <= 9999,
        -9 <= mo <= 99,
        -9 <= d <= 99,
    ensures
        r == rfc_days(y as int, mo as int, d as int),
{
    let (y1, m1) = if mo <= 2 { (y - 1, mo + 12) } else { (y, mo) };
    let era = y1 / 400;
    let yoe = y1 - era * 400;
    let doy = (153 * (m1 - 3) + 2) / 5 + d - 1;
    let doe = yoe * 365 + yoe / 4 - yoe / 100 + doy;
    era * 146_097 + doe - 719_468
}

// ── What a backup run decides ───────────────────────────────────────────────

/// Two stacks that name the same owning app would write into one history,
/// and one stack's retention would thin the other's snapshots.
pub open spec fn owner_conflict_text(stack: Seq<char>, owner: Seq<char>, other: Seq<char>) -> Seq<char> {
    "stack '"@ + stack + "' would back up into the repository '"@ + owner + "-config', which stack '"@ + other
        + "' already owns :: repositories are named after the owning app (D25), so both stacks write into ONE history and the retention pass afterwards applies this stack's tiers to the other stack's snapshots. Rename the app in one of the two stack files"@
}

pub fn owner_conflict_error(stack: &str, owner: &str, other: &str) -> (r: CoreError)
    ensures
        r matches CoreError::SafetyAbort(m) && m@ == owner_conflict_text(stack@, owner@, other@),
{
    let mut s = String::from_str("stack '");
    s.append(stack);
    s.append("' would back up into the repository '");
    s.append(owner);
    s.append("-config', which stack '");
    s.append(other);
    s.append(
        "' already owns :: repositories are named after the owning app (D25), so both stacks write into ONE history and the retention pass afterwards applies this stack's tiers to the other stack's snapshots. Rename the app in one of the two stack files",
    );
    CoreError::SafetyAbort(s)
}

/// A service somebody is using is not stopped for a snapshot: the backup
/// stands aside, which is neither a success nor a failure.
pub fn in_use_deferral(app: &str, reason: &str) -> (r: CoreError)
    ensures
        r matches CoreError::Deferred(m) && m@ == app@
            + " is in use, so nothing was stopped and no snapshot was taken: "@ + reason@,
{
    let mut s = String::from_str(app);
    s.append(" is in use, so nothing was stopped and no snapshot was taken: ");
    s.append(reason);
    CoreError::Deferred(s)
}

/// Paths declared to hold nothing that hold something: nothing in them is
/// backed up, by declaration, so that is refused rather than ignored.
pub open spec fn declared_empty_text(wrong: Seq<Seq<char>>) -> Seq<char> {
    "these paths are declared `no_data: true` and are not empty: "@ + joined(wrong, ", "@)
        + " — nothing in them is being backed up, by declaration. Either the declaration is stale or something started writing there"@
}

pub fn declared_empty_error(wrong: &Vec<String>) -> (r: Option<CoreError>)
    ensures
        wrong@.len() == 0 ==> r is None,
        wrong@.len() > 0 ==> (r matches Some(CoreError::Validation(m)) && m@ == declared_empty_text(
            string_views(wrong@),
        )),
{
    if wrong.len() == 0 {
        return None;
    }
    let mut s = String::from_str("these paths are declared `no_data: true` and are not empty: ");
    let j = join_strings(wrong.as_slice(), ", ");
    s.append(j.as_str());
    s.append(
        " — nothing in them is being backed up, by declaration. Either the declaration is stale or something started writing there",
    );
    Some(CoreError::Validation(s))
}

/// Declared paths that do not exist: almost always a stack file that
/// gained a mount and was not deployed since — not a broken backup.
pub open spec fn missing_paths_text(stack: Seq<char>, missing: Seq<Seq<char>>) -> Seq<char> {
    "these paths are declared in the stack file and do not exist on the host: "@ + joined(missing, ", "@)
        + " :: this is almost always a stack whose file gained a mount and was not deployed afterwards — `homelab deploy stacks/"@
        + stack
        + "` creates them. It is NOT a broken backup, and restic's own message for it says the opposite"@
}

pub fn missing_paths_error(stack: &str, missing: &Vec<String>) -> (r: Option<CoreError>)
    ensures
        missing@.len() == 0 ==> r is None,
        missing@.len() > 0 ==> (r matches Some(CoreError::Validation(m)) && m@ == missing_paths_text(
            stack@,
            string_views(missing@),
        )),
{
    if missing.len() == 0 {
        return None;
    }
    let mut s = String::from_str("these paths are declared in the stack file and do not exist on the host: ");
    let j = join_strings(missing.as_slice(), ", ");
    s.append(j.as_str());
    s.append(
        " :: this is almost always a stack whose file gained a mount and was not deployed afterwards — `homelab deploy stacks/",
    );
    s.append(stack);
    s.append("` creates them. It is NOT a broken backup, and restic's own message for it says the opposite");
    Some(CoreError::Validation(s))
}

/// The containers labelled to be paused for a backup, from `docker ps`.
pub open spec fn named_lines(ls: Seq<Seq<char>>) -> Seq<Seq<char>>
    decreases ls.len(),
{
    if ls.len() == 0 {
        Seq::empty()
    } else if trimmed(ls.last()).len() > 0 {
        named_lines(ls.drop_last()).push(trimmed(ls.last()))
    } else {
        named_lines(ls.drop_last())
    }
}

pub fn paused_names(stdout: &str) -> (r: Vec<String>)
    ensures
        string_views(r@) == named_lines(lines_of(stdout@)),
{
    let ls = lines(stdout);
    let ghost lv = views(ls@);
    let mut out: Vec<String> = Vec::new();
    let mut i: usize = 0;
    while i < ls.len()
        invariant
            i <= ls.len(),
            lv == views(ls@),
            lv == lines_of(stdout@),
            string_views(out@) == named_lines(lv.take(i as int)),
        decreases ls.len() - i,
    {
        proof {
            assert(lv.take(i + 1).drop_last() =~= lv.take(i as int));
            assert(lv.take(i + 1).last() == ls@[i as int]@);
        }
        let t = trim(ls[i]);
        let ghost before = string_views(out@);
        if t.unicode_len() > 0 {
            out.push(String::from_str(t));
            proof {
                assert(string_views(out@) =~= before.push(t@));
            }
        }
        i += 1;
    }
    proof {
        assert(lv.take(ls.len() as int) =~= lv);
    }
    out
}

/// `docker stop`/`docker start` for the paused containers; failures are
/// tolerated (`; true`).
pub fn docker_all(verb: &str, names: &Vec<String>) -> (r: String)
    ensures
        r@ == "docker "@ + verb@ + " "@ + joined(string_views(names@), " "@) + "; true"@,
{
    let mut s = String::from_str("docker ");
    s.append(verb);
    s.append(" ");
    let j = join_strings(names.as_slice(), " ");
    s.append(j.as_str());
    s.append("; true");
    s
}

/// The arguments of a `restic forget` for the snapshots retention dooms.
pub fn forget_args(doomed: &Vec<String>) -> (r: Vec<String>)
    ensures
        string_views(r@) == seq!["forget"@] + string_views(doomed@) + seq!["--prune"@],
{
    let mut out: Vec<String> = Vec::new();
    out.push(String::from_str("forget"));
    let mut i: usize = 0;
    while i < doomed.len()
        invariant
            i <= doomed.len(),
            out@.len() == i + 1,
            out@[0]@ == "forget"@,
            forall|k: int| 0 <= k < i ==> (#[trigger] out@[k + 1])@ == doomed@[k]@,
        decreases doomed.len() - i,
    {
        out.push(doomed[i].clone());
        i += 1;
    }
    let ghost before = out@;
    out.push(String::from_str("--prune"));
    proof {
        let want = seq!["forget"@] + string_views(doomed@) + seq!["--prune"@];
        assert(want.len() == out@.len());
        assert forall|k: int| 0 <= k < want.len() implies string_views(out@)[k] == want[k] by {
            if k == 0 {
                assert(out@[0] == before[0]);
            } else if k <= doomed@.len() {
                assert(out@[(k - 1) + 1] == before[(k - 1) + 1]);
                assert(before[(k - 1) + 1]@ == doomed@[k - 1]@);
            }
        }
        assert(string_views(out@) =~= want);
    }
    out
}

/// A snapshot that holds no files gives nothing back on a restore, so it
/// fails the backup.
pub open spec fn empty_snapshot_text(owner: Seq<char>, paths: Seq<Seq<char>>) -> Seq<char> {
    "the snapshot for '"@ + owner + "' contains no files :: it covered "@ + joined(paths, ", "@)
        + " — check the path holds what you think it does, because a restore from this gives back nothing"@
}

pub fn empty_snapshot_error(owner: &str, paths: &Vec<String>) -> (r: CoreError)
    ensures
        r matches CoreError::Command { rendered, detail } && rendered@ == "restic backup "@ + owner@
            && detail@ == empty_snapshot_text(owner@, string_views(paths@)),
{
    let mut rendered = String::from_str("restic backup ");
    rendered.append(owner);
    let mut d = String::from_str("the snapshot for '");
    d.append(owner);
    d.append("' contains no files :: it covered ");
    let j = join_strings(paths.as_slice(), ", ");
    d.append(j.as_str());
    d.append(" — check the path holds what you think it does, because a restore from this gives back nothing");
    CoreError::Command { rendered, detail: d }
}

/// The newest snapshot time seen so far, with one repository's listing
/// folded in.
pub open spec fn newest_in(current: Option<u64>, times: Seq<u64>) -> Option<u64>
    decreases times.len(),
{
    if times.len() == 0 {
        current
    } else {
        let pre = newest_in(current, times.drop_last());
        let t = times.last();
        match pre {
            Some(n) => Some(if n >= t { n } else { t }),
            None => Some(t),
        }
    }
}

pub fn newest_snapshot(current: Option<u64>, listed: &Vec<(String, u64)>) -> (r: Option<u64>)
    ensures
        r == newest_in(current, listed@.map_values(|p: (String, u64)| p.1)),
{
    let ghost ts = listed@.map_values(|p: (String, u64)| p.1);
    let mut cur = current;
    let mut i: usize = 0;
    while i < listed.len()
        invariant
            i <= listed.len(),
            ts == listed@.map_values(|p: (String, u64)| p.1),
            cur == newest_in(current, ts.take(i as int)),
        decreases listed.len() - i,
    {
        proof {
            assert(ts.take(i + 1).drop_last() =~= ts.take(i as int));
            assert(ts.take(i + 1).last() == listed@[i as int].1);
        }
        let t = listed[i].1;
        cur = match cur {
            Some(n) => Some(if n >= t { n } else { t }),
            None => Some(t),
        };
        i += 1;
    }
    proof {
        assert(ts.take(listed.len() as int) =~= ts);
    }
    cur
}

// ── What a restore checks first ─────────────────────────────────────────────

/// The non-blank lines of a listing.
pub open spec fn nonblank_count(ls: Seq<Seq<char>>) -> nat
    decreases ls.len(),
{
    if ls.len() == 0 {
        0
    } else {
        nonblank_count(ls.drop_last()) + if trimmed(ls.last()).len() > 0 {
            1nat
        } else {
            0nat
        }
    }
}

/// A word of restic's listing names the snapshot asked for: it starts with
/// what was asked, or what was asked starts with it and it is at least
/// eight bytes (a short id).
pub open spec fn names_snapshot(w: Seq<char>, snapshot: Seq<char>) -> bool {
    starts_with(w, snapshot) || (starts_with(snapshot, w) && encode_utf8(w).len() as usize >= 8)
}

/// Why a restore refuses before anything is stopped, going by one
/// repository's `restic snapshots` output.
pub open spec fn snapshot_refusal(owner: Seq<char>, snapshot: Seq<char>, out: OutputView) -> Option<Seq<char>> {
    if out.code != 0 {
        Some("restic repo for '"@ + owner + "' unreachable"@)
    } else if snapshot == "latest"@ {
        if nonblank_count(lines_of(out.stdout)) < 2 {
            Some("repository for '"@ + owner + "' holds no snapshots at all, so 'latest' means nothing"@)
        } else {
            None
        }
    } else if !(exists|i: int| 0 <= i < words(out.stdout).len() && names_snapshot(#[trigger] words(out.stdout)[i], snapshot)) {
        Some("snapshot '"@ + snapshot + "' is not in the repository for '"@ + owner + "' — nothing has been stopped"@)
    } else {
        None
    }
}

pub fn snapshot_check(owner: &str, snapshot: &str, out: &CmdOutput) -> (r: Result<(), CoreError>)
    ensures
        match snapshot_refusal(owner@, snapshot@, out@) {
            None => r is Ok,
            Some(m) => r matches Err(CoreError::Other(x)) && x@ == m,
        },
{
    if !out.success() {
        let mut s = String::from_str("restic repo for '");
        s.append(owner);
        s.append("' unreachable");
        return Err(CoreError::Other(s));
    }
    if str_eq(snapshot, "latest") {
        let ls = lines(out.stdout.as_str());
        let ghost lv = views(ls@);
        let mut n: usize = 0;
        let mut i: usize = 0;
        while i < ls.len()
            invariant
                i <= ls.len(),
                lv == views(ls@),
                n == nonblank_count(lv.take(i as int)),
                n <= i,
            decreases ls.len() - i,
        {
            proof {
                assert(lv.take(i + 1).drop_last() =~= lv.take(i as int));
                assert(lv.take(i + 1).last() == ls@[i as int]@);
            }
            if trim(ls[i]).unicode_len() > 0 {
                n += 1;
            }
            i += 1;
        }
        proof {
            assert(lv.take(ls.len() as int) =~= lv);
        }
        if n < 2 {
            let mut s = String::from_str("repository for '");
            s.append(owner);
            s.append("' holds no snapshots at all, so 'latest' means nothing");
            return Err(CoreError::Other(s));
        }
        return Ok(());
    }
    let ws = split_whitespace(out.stdout.as_str());
    let ghost wv = views(ws@);
    let mut found = false;
    let mut k: usize = 0;
    while k < ws.len()
        invariant
            k <= ws.len(),
            wv == views(ws@),
            wv == words(out.stdout@),
            found == exists|i: int| 0 <= i < k && names_snapshot(#[trigger] wv[i], snapshot@),
        decreases ws.len() - k,
    {
        let w = ws[k];
        let hit = str_starts_with(w, snapshot) || (str_starts_with(snapshot, w) && w.len() >= 8);
        proof {
            assert(wv[k as int] == w@);
            if found {
                let i = choose|i: int| 0 <= i < k && names_snapshot(#[trigger] wv[i], snapshot@);
                assert(0 <= i < k + 1 && names_snapshot(wv[i], snapshot@));
            }
            if hit {
                assert(names_snapshot(wv[k as int], snapshot@));
            }
            if !found && !hit {
                assert forall|i: int| 0 <= i < k + 1 implies !names_snapshot(#[trigger] wv[i], snapshot@) by {
                    if i < k {
                    }
                }
            }
        }
        found = found || hit;
        k += 1;
    }
    if !found {
        let mut s = String::from_str("snapshot '");
        s.append(snapshot);
        s.append("' is not in the repository for '");
        s.append(owner);
        s.append("' — nothing has been stopped");
        return Err(CoreError::Other(s));
    }
    Ok(())
}

/// What a failed `restic restore` of `app` into `target` is reported as.
pub fn restore_failed(app: &str, target: &str, out: &CmdOutput) -> (r: CoreError)
    ensures
        r matches CoreError::Command { rendered, detail } && rendered@ == "restic restore latest --target "@
            + target@ && detail@ == "restic restore of "@ + app@ + " exited "@ + dec_int(out.code as int) + ": "@
            + trimmed(out.stderr@),
{
    let mut rendered = String::from_str("restic restore latest --target ");
    rendered.append(target);
    let mut d = String::from_str("restic restore of ");
    d.append(app);
    d.append(" exited ");
    let c = dec_string_i64(out.code as i64);
    d.append(c.as_str());
    d.append(": ");
    d.append(trim(out.stderr.as_str()));
    CoreError::Command { rendered, detail: d }
}

// ── What restic printed ─────────────────────────────────────────────────────

/// The snapshots of a listing as `(id, unix time)`, dropping any whose
/// time does not read.
pub open spec fn timed_snapshots(snaps: Seq<(Seq<char>, Seq<char>)>) -> Seq<(Seq<char>, u64)>
    decreases snaps.len(),
{
    if snaps.len() == 0 {
        Seq::empty()
    } else {
        let pre = timed_snapshots(snaps.drop_last());
        match rfc3339_unix(snaps.last().1) {
            Some(t) => pre.push((snaps.last().0, t)),
            None => pre,
        }
    }
}

/// The snapshots restic listed (`short_id`, `time`), with their times read.
pub fn snapshot_times(snaps: &Vec<(String, String)>) -> (r: Vec<(String, u64)>)
    ensures
        r@.map_values(|p: (String, u64)| (p.0@, p.1)) == timed_snapshots(
            snaps@.map_values(|p: (String, String)| (p.0@, p.1@)),
        ),
{
    let ghost sv = snaps@.map_values(|p: (String, String)| (p.0@, p.1@));
    let mut out: Vec<(String, u64)> = Vec::new();
    let mut i: usize = 0;
    while i < snaps.len()
        invariant
            i <= snaps.len(),
            sv == snaps@.map_values(|p: (String, String)| (p.0@, p.1@)),
            out@.map_values(|p: (String, u64)| (p.0@, p.1)) == timed_snapshots(sv.take(i as int)),
        decreases snaps.len() - i,
    {
        proof {
            assert(sv.take(i + 1).drop_last() =~= sv.take(i as int));
            assert(sv.take(i + 1).last() == (snaps@[i as int].0@, snaps@[i as int].1@));
        }
        let ghost before = out@.map_values(|p: (String, u64)| (p.0@, p.1));
        match humantime_to_unix(snaps[i].1.as_str()) {
            Some(t) => {
                out.push((snaps[i].0.clone(), t));
                proof {
                    assert(out@.map_values(|p: (String, u64)| (p.0@, p.1)) =~= before.push((snaps@[i as int].0@, t)));
                }
            },
            None => {},
        }
        i += 1;
    }
    proof {
        assert(sv.take(snaps.len() as int) =~= sv);
    }
    out
}

/// A field of a JSON object line, as `serde_json` reads it: `None` when
/// the line is not JSON, `Some(None)` when the field is missing or not an
/// unsigned integer.
pub uninterp spec fn json_u64_field(line: Seq<char>, key: Seq<char>) -> Option<Option<u64>>;

/// `serde_json::from_str::<serde_json::Value>` on one line, then the named
/// field read as `u64`. The result is a function of the line and the key
/// alone; what it is for given text is not stated here.
#[verifier::external_body]
fn json_field_u64(line: &str, key: &str) -> (r: Option<Option<u64>>)
    ensures
        r == json_u64_field(line@, key@),
{
    match serde_json::from_str::<serde_json::Value>(line) {
        Ok(v) => match v.get(key) {
            Some(n) => Some(n.as_u64()),
            None => Some(None),
        },
        Err(_) => None,
    }
}

/// A line that may be restic's closing summary.
pub open spec fn summary_candidate(l: Seq<char>) -> bool {
    starts_with(trimmed(l), "{"@) && crate::text::contains(trimmed(l), "\"message_type\":\"summary\""@)
        && json_u64_field(trimmed(l), "total_files_processed"@) is Some
}

/// What restic's summary says of a snapshot: empty when it processed
/// neither files nor bytes (a missing count reads as 0). The first line
/// that is a JSON summary decides; without one the snapshot is not
/// called empty.
pub open spec fn summary_empty(ls: Seq<Seq<char>>) -> bool
    decreases ls.len(),
{
    if ls.len() == 0 {
        false
    } else if summary_candidate(ls[0]) {
        let t = trimmed(ls[0]);
        let files = match json_u64_field(t, "total_files_processed"@) {
            Some(Some(n)) => n,
            _ => 0,
        };
        let bytes = match json_u64_field(t, "total_bytes_processed"@) {
            Some(Some(n)) => n,
            _ => 0,
        };
        files == 0 && bytes == 0
    } else {
        summary_empty(ls.drop_first())
    }
}

pub fn snapshot_is_empty(stdout: &str) -> (r: bool)
    ensures
        r == summary_empty(lines_of(stdout@)),
{
    let ls = lines(stdout);
    let ghost lv = views(ls@);
    let mut i: usize = 0;
    proof {
        assert(lv.subrange(0, lv.len() as int) =~= lv);
    }
    while i < ls.len()
        invariant
            i <= ls.len(),
            lv == views(ls@),
            lv == lines_of(stdout@),
            summary_empty(lv) == summary_empty(lv.subrange(i as int, lv.len() as int)),
        decreases ls.len() - i,
    {
        proof {
            assert(lv.subrange(i as int, lv.len() as int).drop_first() =~= lv.subrange(i + 1, lv.len() as int));
            assert(lv.subrange(i as int, lv.len() as int)[0] == ls@[i as int]@);
        }
        let t = trim(ls[i]);
        if str_starts_with(t, "{") && crate::text::str_contains(t, "\"message_type\":\"summary\"") {
            match json_field_u64(t, "total_files_processed") {
                Some(files) => {
                    let f = match files {
                        Some(n) => n,
                        None => 0,
                    };
                    let b = match json_field_u64(t, "total_bytes_processed") {
                        Some(Some(n)) => n,
                        _ => 0,
                    };
                    return f == 0 && b == 0;
                },
                None => {},
            }
        }
        i += 1;
    }
    proof {
        assert(lv.subrange(i as int, lv.len() as int) =~= Seq::<Seq<char>>::empty());
    }
    false
}


/// Pull one repository's newest snapshot into `target`, a scratch
/// directory: the drill proves the backup without touching anything live.
/// One request, the restore; a restore that exits non-zero is an error
/// naming the repository and the exit code.
pub fn restore_into<E: Executor>(exec: &mut E, cfg: &BackupCfg, app: &str, target: &str) -> (r: Result<(), CoreError>)
    ensures
        final(exec).requests() == old(exec).requests().push(
            Request::Run(
                "env"@,
                restic_args(cfg.restic_base@, app@, cfg.password_file@, seq!["restore"@, "latest"@, "--target"@, target@]),
                cfg.restore_timeout_s,
            ),
        ),
        extends(old(exec).requests(), old(exec).replies(), final(exec).requests(), final(exec).replies()),
        match final(exec).replies().last() {
            Some(o) => if o.code == 0 {
                r is Ok
            } else {
                r matches Err(CoreError::Command { rendered, detail }) && rendered@ == "restic restore latest --target "@ + target@
                    && detail@ == "restic restore of "@ + app@ + " exited "@ + dec_int(o.code as int) + ": "@ + trimmed(o.stderr)
            },
            None => r is Err,
        },
{
    let c = restic_cmd(cfg, app, &["restore", "latest", "--target", target], cfg.restore_timeout_s);
    proof {
        assert(string_views(c.args@) =~= restic_args(
            cfg.restic_base@,
            app@,
            cfg.password_file@,
            seq!["restore"@, "latest"@, "--target"@, target@],
        ));
    }
    let ghost q = exec.requests();
    let ghost h = exec.replies();
    let out = exec.run(&c);
    proof {
        lemma_pushed(q, h, run_request(c), reply_of(out));
    }
    let out = out?;
    if out.code != 0 {
        let mut rendered = String::from_str("restic restore latest --target ");
        rendered.append(target);
        let mut detail = String::from_str("restic restore of ");
        detail.append(app);
        detail.append(" exited ");
        let code = dec_string_i64(out.code as i64);
        detail.append(code.as_str());
        detail.append(": ");
        detail.append(trim(out.stderr.as_str()));
        return Err(CoreError::Command { rendered, detail });
    }
    Ok(())
}

// ── The host's own metadata ─────────────────────────────────────────────────

/// What this suite installed on the host outside its state directory; each
/// is snapshotted only where it exists.
pub open spec fn host_extras() -> Seq<Seq<char>> {
    seq![
        "/usr/local/bin/smart-textfile-collector.py"@,
        "/etc/systemd/system/smart-collector.service"@,
        "/etc/systemd/system/smart-collector.timer"@,
    ]
}

/// The host's metadata that always goes into the snapshot: the secrets
/// vault, the state file, the TLS material, the intent repository and the
/// daemon's own configuration.
pub open spec fn host_meta_paths(state_dir: Seq<char>) -> Seq<Seq<char>> {
    seq![
        state_dir + "/secrets"@,
        state_dir + "/state.json"@,
        state_dir + "/tls-cert.pem"@,
        state_dir + "/tls-key.pem"@,
        state_dir + "/repo"@,
        "/etc/homelab/host.toml"@,
    ]
}

/// Whether a host extra exists.
pub open spec fn presence_probe(path: Seq<char>) -> Request {
    Request::Run("sh"@, seq!["-c"@, "test -e '"@ + path + "' && echo yes || true"@], 30)
}

/// The extras among the first `k` whose probe, answered from `from` on,
/// said yes.
pub open spec fn present_extras(h: Seq<Option<OutputView>>, from: int, k: int) -> Seq<Seq<char>>
    decreases k,
{
    if k <= 0 {
        Seq::empty()
    } else {
        let pre = present_extras(h, from, k - 1);
        if h[from + k - 1] matches Some(o) && trimmed(o.stdout) == "yes"@ {
            pre.push(host_extras()[k - 1])
        } else {
            pre
        }
    }
}

/// What the host-metadata snapshot asks of the machine, in order: create
/// the repository (harmless when it exists), probe each extra, and snapshot
/// the metadata with the extras that exist.
pub open spec fn host_meta_plan(cfg: BackupCfg, state_dir: Seq<char>, present: Seq<Seq<char>>) -> Seq<Request> {
    let base = cfg.restic_base@;
    let pw = cfg.password_file@;
    let x = host_extras();
    seq![
        Request::Run("env"@, restic_args(base, "host-meta"@, pw, seq!["init"@]), 120),
        presence_probe(x[0]),
        presence_probe(x[1]),
        presence_probe(x[2]),
        Request::Run("env"@, restic_args(base, "host-meta"@, pw, seq!["backup"@] + host_meta_paths(state_dir) + present), 600),
    ]
}

fn probe_extra<E: Executor>(exec: &mut E, path: &str) -> (r: Result<CmdOutput, CoreError>)
    ensures
        final(exec).requests() == old(exec).requests().push(presence_probe(path@)),
        final(exec).replies() == old(exec).replies().push(reply_of(r)),
{
    let mut script = String::from_str("test -e '");
    script.append(path);
    script.append("' && echo yes || true");
    let c = Cmd::new("sh", &["-c", script.as_str()], 30);
    proof {
        assert(string_views(c.args@) =~= seq!["-c"@, "test -e '"@ + path@ + "' && echo yes || true"@]);
    }
    exec.run(&c)
}

/// Snapshot the host's own metadata into its own repository: losing the
/// host's disk must not lose the keys needed to recover it. The record is
/// always a prefix of [`host_meta_plan`], with exactly the extras that were
/// found; the run succeeds only when the snapshot did.
pub fn backup_host_meta<E: Executor, S: Sink, J: Journal>(
    exec: &mut E,
    sink: S,
    journal: J,
    state_dir: &str,
    cfg: &BackupCfg,
) -> (r: OperationReport)
    ensures
        r.op@ == "host-meta-backup"@,
        ({
            let q0 = old(exec).requests();
            let h0 = old(exec).replies().len() as int;
            let q = final(exec).requests();
            let h = final(exec).replies();
            let n = q.len() - q0.len();
            &&& 1 <= n <= 5
            &&& q == q0 + host_meta_plan(*cfg, state_dir@, present_extras(h, h0 + 1, 3)).take(n)
            &&& r.ok ==> n == 5 && (h[h0 + 4] matches Some(o) && o.code == 0)
            &&& n == 5 ==> (r.ok <==> (h.last() matches Some(o) && o.code == 0))
            &&& !r.ok ==> ended_on_failure(q, h)
        }),
{
    let ghost q0 = exec.requests();
    let ghost h0 = exec.replies();
    let ghost n0 = h0.len() as int;
    let mut runner = crate::runner::Runner::new("host-meta-backup", sink, journal);

    runner.begin_step("init repo");
    let ghost h1 = exec.replies();
    let init = restic_cmd(cfg, "host-meta", &["init"], 120);
    proof {
        assert(string_views(init.args@) =~= restic_args(cfg.restic_base@, "host-meta"@, cfg.password_file@, seq!["init"@]));
    }
    let out = exec.run(&init);
    proof {
        let plan = host_meta_plan(*cfg, state_dir@, present_extras(exec.replies(), n0 + 1, 3));
        assert(exec.requests() =~= q0 + plan.take(1));
    }
    match out {
        Ok(_) => {},
        Err(e) => {
            let e2 = runner.step_failed("init repo", e);
            return runner.finish_err("init repo", &e2).0;
        },
    }
    runner.step_done("init repo", StepOutcome::Unchanged);

    runner.begin_step("host extras");
    let extras: [&str; 3] = [
        "/usr/local/bin/smart-textfile-collector.py",
        "/etc/systemd/system/smart-collector.service",
        "/etc/systemd/system/smart-collector.timer",
    ];
    proof {
        assert(extras@.map_values(|x: &str| x@) =~= host_extras());
    }
    let mut present: Vec<String> = Vec::new();
    let mut i: usize = 0;
    while i < 3
        invariant
            i <= 3,
            extras@.map_values(|x: &str| x@) == host_extras(),
            q0 == old(exec).requests(),
            h0 == old(exec).replies(),
            n0 == h0.len(),
            exec.requests().len() == q0.len() + 1 + i,
            exec.replies().len() == h0.len() + 1 + i,
            exec.requests().take(q0.len() + 1 + i) == exec.requests(),
            forall|k: int| 0 <= k < 1 + i ==> #[trigger] exec.requests()[q0.len() + k] == host_meta_plan(
                *cfg,
                state_dir@,
                Seq::empty(),
            )[k],
            exec.requests().take(q0.len() as int) == q0,
            exec.replies().take(h0.len() as int) == h0,
            string_views(present@) == present_extras(exec.replies(), n0 + 1, i as int),
            runner.op_name() == "host-meta-backup"@,
        decreases 3 - i,
    {
        let ghost qi = exec.requests();
        let ghost hi = exec.replies();
        let out = probe_extra(exec, extras[i]);
        proof {
            assert(extras@.map_values(|x: &str| x@)[i as int] == extras@[i as int]@);
            assert forall|k: int| 0 <= k < 1 + i + 1 implies #[trigger] exec.requests()[q0.len() + k] == host_meta_plan(
                *cfg,
                state_dir@,
                Seq::empty(),
            )[k] by {
                if k < 1 + i {
                    assert(exec.requests()[q0.len() + k] == qi[q0.len() + k]);
                }
            }
            assert(exec.requests().take(q0.len() as int) =~= qi.take(q0.len() as int));
            assert(exec.replies().take(h0.len() as int) =~= hi.take(h0.len() as int));
            assert(exec.requests().take(q0.len() + 1 + i + 1) =~= exec.requests());
            assert(exec.replies().take(hi.len() as int) =~= hi);
            assert forall|k: int| 0 <= k <= i implies #[trigger] present_extras(exec.replies(), n0 + 1, k) == present_extras(hi, n0 + 1, k) by {
                lemma_present_stable(hi, exec.replies(), n0 + 1, k);
            }
        }
        let out = match out {
            Ok(o) => o,
            Err(e) => {
                let e2 = runner.step_failed("host extras", e);
                proof {
                    lemma_host_meta_prefix(*cfg, state_dir@, q0, exec.requests(), exec.replies(), n0, 2 + i);
                }
                return runner.finish_err("host extras", &e2).0;
            },
        };
        let ghost before = string_views(present@);
        proof {
            lemma_present_stable(hi, exec.replies(), n0 + 1, i as int);
            assert(exec.replies()[n0 + 1 + i] == Some(out@));
        }
        if str_eq(trim(out.stdout.as_str()), "yes") {
            present.push(String::from_str(extras[i]));
            proof {
                reveal_strlit("yes");
                assert(string_views(present@) =~= before.push(host_extras()[i as int]));
            }
        } else {
            proof {
                reveal_strlit("yes");
            }
        }
        i += 1;
    }
    let mut line = String::from_str("[host-meta] ");
    let np = crate::text::dec_string(present.len() as u64);
    line.append(np.as_str());
    line.append(" of 3 host extra(s) present: ");
    if present.len() == 0 {
        line.append("—");
    } else {
        let joined_present = join_strings(present.as_slice(), ", ");
        line.append(joined_present.as_str());
    }
    runner.log(Level::Info, line);
    runner.step_done("host extras", StepOutcome::Unchanged);

    runner.begin_step("snapshot");
    let mut secrets = String::from_str(state_dir);
    secrets.append("/secrets");
    let mut state_file = String::from_str(state_dir);
    state_file.append("/state.json");
    let mut tls_cert = String::from_str(state_dir);
    tls_cert.append("/tls-cert.pem");
    let mut tls_key = String::from_str(state_dir);
    tls_key.append("/tls-key.pem");
    let mut repo = String::from_str(state_dir);
    repo.append("/repo");
    let mut args: Vec<&str> = Vec::new();
    args.push("backup");
    args.push(secrets.as_str());
    args.push(state_file.as_str());
    args.push(tls_cert.as_str());
    args.push(tls_key.as_str());
    args.push(repo.as_str());
    args.push("/etc/homelab/host.toml");
    let ghost head = seq!["backup"@] + host_meta_paths(state_dir@);
    proof {
        assert(args@.map_values(|a: &str| a@) =~= head);
    }
    let mut k: usize = 0;
    while k < present.len()
        invariant
            k <= present.len(),
            args@.map_values(|a: &str| a@) == head + string_views(present@).take(k as int),
        decreases present.len() - k,
    {
        let ghost before = args@.map_values(|a: &str| a@);
        args.push(present[k].as_str());
        proof {
            assert(args@.map_values(|a: &str| a@) =~= before.push(present@[k as int]@));
            assert(string_views(present@).take(k + 1) =~= string_views(present@).take(k as int).push(present@[k as int]@));
        }
        k += 1;
    }
    proof {
        assert(string_views(present@).take(present.len() as int) =~= string_views(present@));
    }
    let snap = restic_cmd(cfg, "host-meta", args.as_slice(), 600);
    let ghost q4 = exec.requests();
    let ghost h4 = exec.replies();
    let res = run_ok(exec, &snap);
    proof {
        assert(exec.replies().take(h4.len() as int) =~= h4);
        lemma_present_stable(h4, exec.replies(), n0 + 1, 3);
        lemma_host_meta_prefix(*cfg, state_dir@, q0, q4, h4, n0, 4);
        let plan = host_meta_plan(*cfg, state_dir@, present_extras(exec.replies(), n0 + 1, 3));
        assert(exec.requests() =~= q0 + plan.take(5));
    }
    match res {
        Ok(_) => {},
        Err(e) => {
            let e2 = runner.step_failed("snapshot", e);
            return runner.finish_err("snapshot", &e2).0;
        },
    }
    runner.step_done("snapshot", StepOutcome::Changed);
    runner.log(Level::Info, String::from_str("[host-meta] vault/state/tls snapshot complete"));
    runner.finish_ok().0
}

proof fn lemma_present_stable(h1: Seq<Option<OutputView>>, h2: Seq<Option<OutputView>>, from: int, k: int)
    requires
        0 <= from,
        from + k <= h1.len() <= h2.len(),
        h2.take(h1.len() as int) == h1,
    ensures
        present_extras(h2, from, k) == present_extras(h1, from, k),
    decreases k,
{
    if k > 0 {
        lemma_present_stable(h1, h2, from, k - 1);
        assert(h2.take(h1.len() as int)[from + k - 1] == h2[from + k - 1]);
    }
}

proof fn lemma_host_meta_prefix(
    cfg: BackupCfg,
    state_dir: Seq<char>,
    q0: Seq<Request>,
    q: Seq<Request>,
    h: Seq<Option<OutputView>>,
    n0: int,
    n: int,
)
    requires
        1 <= n <= 4,
        q.len() == q0.len() + n,
        q.take(q0.len() as int) == q0,
        forall|k: int| 0 <= k < n ==> #[trigger] q[q0.len() + k] == host_meta_plan(cfg, state_dir, Seq::empty())[k],
    ensures
        q == q0 + host_meta_plan(cfg, state_dir, present_extras(h, n0 + 1, 3)).take(n),
{
    let plan = host_meta_plan(cfg, state_dir, present_extras(h, n0 + 1, 3));
    let p0 = host_meta_plan(cfg, state_dir, Seq::empty());
    assert forall|k: int| 0 <= k < q.len() implies #[trigger] q[k] == (q0 + plan.take(n))[k] by {
        if k < q0.len() {
            assert(q.take(q0.len() as int)[k] == q[k]);
        } else {
            assert(q[q0.len() + (k - q0.len())] == p0[k - q0.len()]);
        }
    }
    assert(q =~= q0 + plan.take(n));
}

// ── A native service's nightly backup ───────────────────────────────────────

/// `restic snapshots --json` as `(short_id, time)` pairs, as `serde_json`
/// reads them: nothing unless the text is a list whose every entry carries
/// both as strings.
pub uninterp spec fn restic_snapshot_pairs(raw: Seq<char>) -> Seq<(Seq<char>, Seq<char>)>;

/// `serde_json::from_str::<Vec<serde_json::Value>>`, then each entry's
/// `short_id` and `time` read as strings; a text that is not such a list
/// gives no pairs. The result is a function of the text alone; what it is
/// for given text is not stated here.
#[verifier::external_body]
fn snapshot_pairs(raw: &str) -> (r: Vec<(String, String)>)
    ensures
        r@.map_values(|p: (String, String)| (p.0@, p.1@)) == restic_snapshot_pairs(raw@),
{
    let list: Vec<serde_json::Value> = match serde_json::from_str(raw) {
        Ok(v) => v,
        Err(_) => return Vec::new(),
    };
    let pairs: Option<Vec<(String, String)>> = list
        .iter()
        .map(|s| Some((s.get("short_id")?.as_str()?.to_string(), s.get("time")?.as_str()?.to_string())))
        .collect();
    pairs.unwrap_or_default()
}

/// The snapshot ids the retention tiers let go, from a repository's
/// `restic snapshots --json` output.
pub open spec fn doomed_of(raw: Seq<char>, tiers: Seq<RetentionTier>, now: u64) -> Seq<Seq<char>> {
    let timed = timed_snapshots(restic_snapshot_pairs(trimmed(raw)));
    crate::retention::forgotten(timed.map_values(|p: (Seq<char>, u64)| (p.0, p.1 as nat)), tiers, now as nat)
}

/// The ids to forget, read off a listing.
pub fn doomed_snapshots(raw: &str, tiers: &[RetentionTier], now: u64) -> (r: Vec<String>)
    ensures
        crate::retention::strings(r@) == doomed_of(raw@, tiers@, now),
{
    let pairs = snapshot_pairs(trim(raw));
    let snaps = snapshot_times(&pairs);
    proof {
        let timed = timed_snapshots(restic_snapshot_pairs(trimmed(raw@)));
        assert(crate::retention::snaps_view(snaps@) =~= timed.map_values(|p: (Seq<char>, u64)| (p.0, p.1 as nat))) by {
            assert(snaps@.map_values(|p: (String, u64)| (p.0@, p.1)) == timed);
            assert forall|i: int| 0 <= i < snaps@.len() implies #[trigger] crate::retention::snaps_view(snaps@)[i]
                == timed.map_values(|p: (Seq<char>, u64)| (p.0, p.1 as nat))[i] by {
                assert(snaps@.map_values(|p: (String, u64)| (p.0@, p.1))[i] == timed[i]);
            }
        }
    }
    crate::retention::forget_list(snaps.as_slice(), tiers, now)
}

// ── Restore ─────────────────────────────────────────────────────────────────

/// `docker compose <tail>` in one app's directory of a stack.
pub open spec fn compose_script(stack: Seq<char>, app: Seq<char>, tail: Seq<char>) -> Seq<char> {
    "cd '/opt/"@ + stack + "/"@ + app + "' && docker compose "@ + tail
}

/// The repositories a stack's data lives in, by owning app.
pub open spec fn owners_of(m: StackManifest) -> Seq<Seq<char>> {
    groups_of(m.storage@, m.stack_name@).map_values(|g: (Seq<char>, Seq<Seq<char>>)| g.0)
}

/// Request `i` of a restore that restored `k` repositories: the target
/// guard's config read; each repository's snapshot listing; each app
/// composed down; the `k` restores; each app composed up; each app's
/// running services read.
pub open spec fn restore_step(m: StackManifest, cfg: BackupCfg, snapshot: Seq<char>, k: int, i: int) -> Request {
    let owners = owners_of(m);
    let apps = string_views(m.apps@);
    let g = owners.len() as int;
    let a = apps.len() as int;
    let st = m.stack_name@;
    if i == 0 {
        Request::Run("pct"@, seq!["config"@, dec(m.vmid as nat)], 30)
    } else if i < 1 + g {
        Request::Run("env"@, restic_args(cfg.restic_base@, owners[i - 1], cfg.password_file@, seq!["snapshots"@]), 120)
    } else if i < 1 + g + a {
        Request::Run("pct"@, pct_sh_args(m.vmid, compose_script(st, apps[i - 1 - g], "down"@)), 120)
    } else if i < 1 + g + a + k {
        Request::Run(
            "env"@,
            restic_args(cfg.restic_base@, owners[i - 1 - g - a], cfg.password_file@, seq!["restore"@, snapshot, "--target"@, "/"@]),
            cfg.restore_timeout_s,
        )
    } else if i < 1 + g + a + k + a {
        Request::Run("pct"@, pct_sh_args(m.vmid, compose_script(st, apps[i - 1 - g - a - k], "up -d"@)), 300)
    } else {
        Request::Run(
            "pct"@,
            pct_sh_args(m.vmid, compose_script(st, apps[i - 1 - g - a - k - a], "ps --status running --services"@)),
            60,
        )
    }
}

/// The requests from `n0` on follow a restore that restored `k`
/// repositories, as far as they go.
pub open spec fn follows_restore(q: Seq<Request>, n0: int, m: StackManifest, cfg: BackupCfg, snapshot: Seq<char>, k: int) -> bool {
    &&& 0 <= n0 <= q.len()
    &&& q.len() - n0 <= 1 + owners_of(m).len() + 3 * m.apps@.len() + k
    &&& forall|i: int| n0 <= i < q.len() ==> #[trigger] q[i] == restore_step(m, cfg, snapshot, k, i - n0)
}

/// Every snapshot listing was answered, and named the snapshot.
pub open spec fn snapshots_found(h: Seq<Option<OutputView>>, h0: int, m: StackManifest, snapshot: Seq<char>) -> bool {
    forall|j: int| 0 <= j < owners_of(m).len() ==> (#[trigger] h[h0 + 1 + j] matches Some(o) && snapshot_refusal(
        owners_of(m)[j],
        snapshot,
        o,
    ) is None)
}

pub(crate) fn compose(stack: &str, app: &str, tail: &str) -> (r: String)
    ensures
        r@ == compose_script(stack@, app@, tail@),
{
    let mut s = String::from_str("cd '/opt/");
    s.append(stack);
    s.append("/");
    s.append(app);
    s.append("' && docker compose ");
    s.append(tail);
    s
}

/// One repository's snapshot listing.
fn list_snapshots<E: Executor>(exec: &mut E, cfg: &BackupCfg, owner: &str) -> (r: Result<CmdOutput, CoreError>)
    ensures
        final(exec).requests() == old(exec).requests().push(
            Request::Run("env"@, restic_args(cfg.restic_base@, owner@, cfg.password_file@, seq!["snapshots"@]), 120),
        ),
        final(exec).replies() == old(exec).replies().push(reply_of(r)),
        extends(old(exec).requests(), old(exec).replies(), final(exec).requests(), final(exec).replies()),
{
    let c = restic_cmd(cfg, owner, &["snapshots"], 120);
    proof {
        assert(string_views(c.args@) =~= restic_args(cfg.restic_base@, owner@, cfg.password_file@, seq!["snapshots"@]));
    }
    let ghost q = exec.requests();
    let ghost h = exec.replies();
    let r = exec.run(&c);
    proof {
        lemma_pushed(q, h, run_request(c), reply_of(r));
    }
    r
}

/// One repository's restore of `snapshot` over `/`; a restore that exits
/// non-zero is an error.
fn restore_owner<E: Executor>(exec: &mut E, cfg: &BackupCfg, owner: &str, snapshot: &str) -> (r: Result<CmdOutput, CoreError>)
    ensures
        final(exec).requests() == old(exec).requests().push(
            Request::Run(
                "env"@,
                restic_args(cfg.restic_base@, owner@, cfg.password_file@, seq!["restore"@, snapshot@, "--target"@, "/"@]),
                cfg.restore_timeout_s,
            ),
        ),
        final(exec).replies().len() == old(exec).replies().len() + 1,
        extends(old(exec).requests(), old(exec).replies(), final(exec).requests(), final(exec).replies()),
        r is Err ==> !(final(exec).replies().last() matches Some(o) && o.code == 0),
{
    let c = restic_cmd(cfg, owner, &["restore", snapshot, "--target", "/"], cfg.restore_timeout_s);
    proof {
        assert(string_views(c.args@) =~= restic_args(
            cfg.restic_base@,
            owner@,
            cfg.password_file@,
            seq!["restore"@, snapshot@, "--target"@, "/"@],
        ));
    }
    let ghost q = exec.requests();
    let ghost h = exec.replies();
    let r = run_ok(exec, &c);
    proof {
        assert(exec.replies() =~= h.push(exec.replies().last()));
        lemma_pushed(q, h, run_request(c), exec.replies().last());
    }
    r
}

/// `docker compose <tail>` for one app, in the stack's container.
fn compose_in<E: Executor>(exec: &mut E, m: &StackManifest, app: &str, tail: &str, timeout_s: u64) -> (r: Result<CmdOutput, CoreError>)
    ensures
        final(exec).requests() == old(exec).requests().push(
            Request::Run("pct"@, pct_sh_args(m.vmid, compose_script(m.stack_name@, app@, tail@)), timeout_s),
        ),
        final(exec).replies() == old(exec).replies().push(reply_of(r)),
        extends(old(exec).requests(), old(exec).replies(), final(exec).requests(), final(exec).replies()),
{
    let s = compose(m.stack_name.as_str(), app, tail);
    let ghost q = exec.requests();
    let ghost h = exec.replies();
    let r = pct_sh(exec, m.vmid, s.as_str(), timeout_s);
    proof {
        lemma_pushed(q, h, exec.requests().last(), reply_of(r));
    }
    r
}

/// Put a stack's data back from a snapshot. Nothing is asked of the
/// machine for a malformed stack file or a no-touch container; nothing is
/// stopped until every repository was found to hold the snapshot; and once
/// the stack was stopped and the restores began, the stack is brought up
/// again whether or not they succeeded — a failed restore must not leave it
/// down. The record is always a prefix of [`restore_step`]'s plan.
pub fn restore<E: Executor, S: Sink, J: Journal>(
    exec: &mut E,
    sink: S,
    journal: J,
    safety: &SafetyConfig,
    m: &StackManifest,
    cfg: &BackupCfg,
    snapshot: &str,
) -> (r: OperationReport)
    ensures
        r.op@ == "restore-"@ + m.stack_name@,
        extends(old(exec).requests(), old(exec).replies(), final(exec).requests(), final(exec).replies()),
        ({
            let q0 = old(exec).requests();
            let n0 = q0.len() as int;
            let h0 = old(exec).replies().len() as int;
            let q = final(exec).requests();
            let h = final(exec).replies();
            let n = q.len() - n0;
            let g = owners_of(*m).len() as int;
            let a = m.apps@.len() as int;
            &&& (app_problems(string_views(m.apps@)).len() > 0 || no_touch_refusal(safety.no_touch@, m.vmid) is Some)
                ==> n == 0 && !r.ok
            &&& (app_problems(string_views(m.apps@)).len() == 0 && no_touch_refusal(safety.no_touch@, m.vmid) is None)
                ==> n >= 1
            &&& n > 1 + g ==> snapshots_found(h, h0, *m, snapshot@)
            &&& exists|k: int| 0 <= k <= g && #[trigger] follows_restore(q, n0, *m, *cfg, snapshot@, k) && (n > 1 + g + a ==> (
                n >= 1 + g + a + k + (if a > 0 { 1int } else { 0int }) && (g > 0 ==> k >= 1) && (k < g ==> !r.ok)))
            &&& r.ok ==> n == 1 + g + a + g + a + a
            &&& !r.ok ==> n == 0
                || (n == 1 && (h.last() matches Some(c) && config_refusal(m.vmid, m.hostname@, c) is Some))
                || (2 <= n <= 1 + g && (h.last() matches Some(o) && snapshot_refusal(owners_of(*m)[n - 2], snapshot@, o) is Some))
                || some_failed(h, h0 + 1 + g + a, h.len() as int)
                || (h.last() matches Some(o) && trimmed(o.stdout).len() == 0)
                || ended_on_failure(q, h)
        }),
{
    let ghost q0 = exec.requests();
    let ghost h0 = exec.replies();
    let ghost n0 = q0.len() as int;
    let ghost d = h0.len() - n0;
    proof {
        lemma_extends_refl(q0, h0);
    }
    let mut op = String::from_str("restore-");
    op.append(m.stack_name.as_str());
    let mut runner = crate::runner::Runner::new(op.as_str(), sink, journal);
    let mut line = String::from_str("[restore] ");
    line.append(m.stack_name.as_str());
    line.append(" from snapshot '");
    line.append(snapshot);
    line.append("'");
    runner.log(Level::Warn, line);
    let ghost owners = owners_of(*m);
    let ghost g = owners.len() as int;
    let ghost a = m.apps@.len() as int;
    let ghost sn = snapshot@;

    runner.begin_step("safety gates");
    match validate_manifest(m) {
        Ok(()) => {},
        Err(e) => {
            proof {
                assert(follows_restore(exec.requests(), n0, *m, *cfg, sn, 0));
            }
            let e2 = runner.step_failed("safety gates", e);
            return runner.finish_err("safety gates", &e2).0;
        },
    }
    match guard_target(exec, safety, m.vmid, m.hostname.as_str()) {
        Ok(()) => {},
        Err(e) => {
            proof {
                if no_touch_refusal(safety.no_touch@, m.vmid) is None {
                    assert(exec.replies() =~= h0.push(exec.replies().last()));
                    lemma_pushed(q0, h0, exec.requests().last(), exec.replies().last());
                }
                assert(follows_restore(exec.requests(), n0, *m, *cfg, sn, 0));
            }
            let e2 = runner.step_failed("safety gates", e);
            return runner.finish_err("safety gates", &e2).0;
        },
    }
    runner.step_done("safety gates", StepOutcome::Unchanged);
    proof {
        assert(exec.replies() =~= h0.push(exec.replies().last()));
        lemma_pushed(q0, h0, exec.requests().last(), exec.replies().last());
        assert(follows_restore(exec.requests(), n0, *m, *cfg, sn, 0));
    }

    let groups = owner_groups(m);
    proof {
        assert(groups@.len() == g);
        assert forall|j: int| 0 <= j < g implies #[trigger] groups@[j].0@ == owners[j] by {
            assert(others_view(groups@)[j] == groups_of(m.storage@, m.stack_name@)[j]);
        }
    }

    // Every repository must hold the snapshot before anything is stopped.
    runner.begin_step("validate snapshot");
    let mut j: usize = 0;
    while j < groups.len()
        invariant
            j <= groups.len(),
            groups@.len() == g,
            owners == owners_of(*m),
            forall|x: int| 0 <= x < g ==> #[trigger] groups@[x].0@ == owners[x],
            d == h0.len() - n0,
            q0 == old(exec).requests(),
            h0 == old(exec).replies(),
            n0 == q0.len(),
            sn == snapshot@,
            app_problems(string_views(m.apps@)).len() == 0,
            no_touch_refusal(safety.no_touch@, m.vmid) is None,
            g == owners_of(*m).len(),
            extends(q0, h0, exec.requests(), exec.replies()),
            exec.replies().len() == exec.requests().len() + d,
            exec.requests().len() == n0 + 1 + j,
            follows_restore(exec.requests(), n0, *m, *cfg, sn, 0),
            forall|x: int| 0 <= x < j ==> (#[trigger] exec.replies()[h0.len() + 1 + x] matches Some(o) && snapshot_refusal(
                owners[x],
                sn,
                o,
            ) is None),
            runner.op_name() == "restore-"@ + m.stack_name@,
        decreases groups.len() - j,
    {
        let ghost q1 = exec.requests();
        let ghost h1 = exec.replies();
        let out = list_snapshots(exec, cfg, groups[j].0.as_str());
        proof {
            lemma_extends_trans(q0, h0, q1, h1, exec.requests(), exec.replies());
            assert(groups@[j as int].0@ == owners[j as int]);
            assert(exec.requests()[q1.len() as int] == restore_step(*m, *cfg, sn, 0, 1 + j));
            assert(follows_restore(exec.requests(), n0, *m, *cfg, sn, 0));
        }
        let out = match out {
            Ok(o) => o,
            Err(e) => {
                let e2 = runner.step_failed("validate snapshot", e);
                return runner.finish_err("validate snapshot", &e2).0;
            },
        };
        match snapshot_check(groups[j].0.as_str(), snapshot, &out) {
            Ok(()) => {},
            Err(e) => {
                let e2 = runner.step_failed("validate snapshot", e);
                return runner.finish_err("validate snapshot", &e2).0;
            },
        }
        j += 1;
    }
    runner.step_done("validate snapshot", StepOutcome::Unchanged);
    proof {
        assert(snapshots_found(exec.replies(), h0.len() as int, *m, sn));
    }

    // Stop the whole stack for a consistent restore.
    runner.begin_step("quiesce stack");
    let mut i: usize = 0;
    while i < m.apps.len()
        invariant
            i <= m.apps.len(),
            a == m.apps@.len(),
            groups@.len() == g,
            owners == owners_of(*m),
            forall|x: int| 0 <= x < g ==> #[trigger] groups@[x].0@ == owners[x],
            d == h0.len() - n0,
            q0 == old(exec).requests(),
            h0 == old(exec).replies(),
            n0 == q0.len(),
            sn == snapshot@,
            app_problems(string_views(m.apps@)).len() == 0,
            no_touch_refusal(safety.no_touch@, m.vmid) is None,
            g == owners_of(*m).len(),
            extends(q0, h0, exec.requests(), exec.replies()),
            exec.replies().len() == exec.requests().len() + d,
            exec.requests().len() == n0 + 1 + g + i,
            follows_restore(exec.requests(), n0, *m, *cfg, sn, 0),
            snapshots_found(exec.replies(), h0.len() as int, *m, sn),
            runner.op_name() == "restore-"@ + m.stack_name@,
        decreases m.apps.len() - i,
    {
        let ghost q1 = exec.requests();
        let ghost h1 = exec.replies();
        let out = compose_in(exec, m, m.apps[i].as_str(), "down", 120);
        proof {
            lemma_extends_trans(q0, h0, q1, h1, exec.requests(), exec.replies());
            assert(string_views(m.apps@)[i as int] == m.apps@[i as int]@);
            assert(exec.requests()[q1.len() as int] == restore_step(*m, *cfg, sn, 0, 1 + g + i));
            assert(follows_restore(exec.requests(), n0, *m, *cfg, sn, 0));
            assert forall|x: int| 0 <= x < g implies #[trigger] exec.replies()[h0.len() + 1 + x] == h1[h0.len() + 1 + x] by {}
        }
        match out {
            Ok(_) => {},
            Err(e) => {
                let e2 = runner.step_failed("quiesce stack", e);
                return runner.finish_err("quiesce stack", &e2).0;
            },
        }
        i += 1;
    }
    runner.step_done("quiesce stack", StepOutcome::Changed);

    // The restore may fail; bringing the stack back up always runs.
    runner.begin_step("restore data");
    let mut k: usize = 0;
    let mut failure: Option<CoreError> = None;
    while k < groups.len() && failure.is_none()
        invariant
            k <= groups.len(),
            a == m.apps@.len(),
            groups@.len() == g,
            owners == owners_of(*m),
            forall|x: int| 0 <= x < g ==> #[trigger] groups@[x].0@ == owners[x],
            d == h0.len() - n0,
            q0 == old(exec).requests(),
            h0 == old(exec).replies(),
            n0 == q0.len(),
            sn == snapshot@,
            app_problems(string_views(m.apps@)).len() == 0,
            no_touch_refusal(safety.no_touch@, m.vmid) is None,
            g == owners_of(*m).len(),
            extends(q0, h0, exec.requests(), exec.replies()),
            exec.replies().len() == exec.requests().len() + d,
            exec.requests().len() == n0 + 1 + g + a + k,
            follows_restore(exec.requests(), n0, *m, *cfg, sn, k as int),
            snapshots_found(exec.replies(), h0.len() as int, *m, sn),
            failure is None ==> k <= g,
            failure is Some ==> k >= 1,
            failure is Some ==> some_failed(exec.replies(), h0.len() + 1 + g + a, exec.replies().len() as int),
            runner.op_name() == "restore-"@ + m.stack_name@,
        decreases groups.len() - k,
    {
        let ghost q1 = exec.requests();
        let ghost h1 = exec.replies();
        let res = restore_owner(exec, cfg, groups[k].0.as_str(), snapshot);
        proof {
            lemma_extends_trans(q0, h0, q1, h1, exec.requests(), exec.replies());
            assert(groups@[k as int].0@ == owners[k as int]);
            assert(exec.requests()[q1.len() as int] == restore_step(*m, *cfg, sn, k + 1, 1 + g + a + k));
            assert forall|x: int| n0 <= x < q1.len() implies #[trigger] exec.requests()[x] == restore_step(*m, *cfg, sn, k + 1, x - n0) by {
                assert(q1[x] == restore_step(*m, *cfg, sn, k as int, x - n0));
            }
            assert(follows_restore(exec.requests(), n0, *m, *cfg, sn, k + 1));
            assert forall|x: int| 0 <= x < owners_of(*m).len() implies (#[trigger] exec.replies()[h0.len() + 1 + x] matches Some(o)
                && snapshot_refusal(owners_of(*m)[x], sn, o) is None) by {
                assert(exec.replies().take(h1.len() as int)[h0.len() + 1 + x] == exec.replies()[h0.len() + 1 + x]);
                assert(h1[h0.len() + 1 + x] matches Some(o) && snapshot_refusal(owners_of(*m)[x], sn, o) is None);
            }
            assert(snapshots_found(exec.replies(), h0.len() as int, *m, sn));
        }
        match res {
            Ok(_) => {},
            Err(e) => {
                proof {
                    let w = h1.len() as int;
                    assert(exec.replies()[w] == exec.replies().last());
                }
                failure = Some(e);
            },
        }
        k += 1;
    }
    let ghost kk = k as int;
    let failure = match failure {
        Some(e) => Some(runner.step_failed("restore data", e)),
        None => {
            runner.step_done("restore data", StepOutcome::Changed);
            None
        },
    };

    runner.begin_step("resume stack");
    let mut i: usize = 0;
    while i < m.apps.len()
        invariant
            i <= m.apps.len(),
            a == m.apps@.len(),
            kk == k,
            kk <= g,
            g > 0 ==> kk >= 1,
            kk < g ==> failure is Some,
            failure is Some ==> some_failed(exec.replies(), h0.len() + 1 + g + a, exec.replies().len() as int),
            d == h0.len() - n0,
            q0 == old(exec).requests(),
            h0 == old(exec).replies(),
            n0 == q0.len(),
            sn == snapshot@,
            app_problems(string_views(m.apps@)).len() == 0,
            no_touch_refusal(safety.no_touch@, m.vmid) is None,
            g == owners_of(*m).len(),
            extends(q0, h0, exec.requests(), exec.replies()),
            exec.replies().len() == exec.requests().len() + d,
            exec.requests().len() == n0 + 1 + g + a + kk + i,
            follows_restore(exec.requests(), n0, *m, *cfg, sn, kk),
            snapshots_found(exec.replies(), h0.len() as int, *m, sn),
            runner.op_name() == "restore-"@ + m.stack_name@,
        decreases m.apps.len() - i,
    {
        let ghost q1 = exec.requests();
        let ghost h1 = exec.replies();
        let out = compose_in(exec, m, m.apps[i].as_str(), "up -d", 300);
        proof {
            lemma_extends_trans(q0, h0, q1, h1, exec.requests(), exec.replies());
            assert(string_views(m.apps@)[i as int] == m.apps@[i as int]@);
            assert(exec.requests()[q1.len() as int] == restore_step(*m, *cfg, sn, kk, 1 + g + a + kk + i));
            assert(follows_restore(exec.requests(), n0, *m, *cfg, sn, kk));
            assert forall|x: int| 0 <= x < g implies #[trigger] exec.replies()[h0.len() + 1 + x] == h1[h0.len() + 1 + x] by {}
            if failure is Some {
                lemma_some_failed_grows(h1, exec.replies(), h0.len() + 1 + g + a, h1.len() as int);
            }
        }
        match out {
            Ok(_) => {},
            Err(e) => {
                let e2 = runner.step_failed("resume stack", e);
                return runner.finish_err("resume stack", &e2).0;
            },
        }
        i += 1;
    }
    runner.step_done("resume stack", StepOutcome::Changed);
    match failure {
        Some(e) => return runner.finish_err("restore data", &e).0,
        None => {},
    }

    runner.begin_step("verify health");
    let mut i: usize = 0;
    while i < m.apps.len()
        invariant
            i <= m.apps.len(),
            a == m.apps@.len(),
            kk == g,
            d == h0.len() - n0,
            q0 == old(exec).requests(),
            h0 == old(exec).replies(),
            n0 == q0.len(),
            sn == snapshot@,
            app_problems(string_views(m.apps@)).len() == 0,
            no_touch_refusal(safety.no_touch@, m.vmid) is None,
            g == owners_of(*m).len(),
            extends(q0, h0, exec.requests(), exec.replies()),
            exec.replies().len() == exec.requests().len() + d,
            exec.requests().len() == n0 + 1 + g + a + kk + a + i,
            follows_restore(exec.requests(), n0, *m, *cfg, sn, kk),
            snapshots_found(exec.replies(), h0.len() as int, *m, sn),
            runner.op_name() == "restore-"@ + m.stack_name@,
        decreases m.apps.len() - i,
    {
        let ghost q1 = exec.requests();
        let ghost h1 = exec.replies();
        let out = compose_in(exec, m, m.apps[i].as_str(), "ps --status running --services", 60);
        proof {
            lemma_extends_trans(q0, h0, q1, h1, exec.requests(), exec.replies());
            assert(string_views(m.apps@)[i as int] == m.apps@[i as int]@);
            assert(exec.requests()[q1.len() as int] == restore_step(*m, *cfg, sn, kk, 1 + g + a + kk + a + i));
            assert(follows_restore(exec.requests(), n0, *m, *cfg, sn, kk));
            assert forall|x: int| 0 <= x < g implies #[trigger] exec.replies()[h0.len() + 1 + x] == h1[h0.len() + 1 + x] by {}
        }
        let out = match out {
            Ok(o) => o,
            Err(e) => {
                let e2 = runner.step_failed("verify health", e);
                return runner.finish_err("verify health", &e2).0;
            },
        };
        if trim(out.stdout.as_str()).unicode_len() == 0 {
            let mut msg = String::from_str(m.apps[i].as_str());
            msg.append(" not running after restore");
            let e2 = runner.step_failed("verify health", CoreError::Other(msg));
            return runner.finish_err("verify health", &e2).0;
        }
        i += 1;
    }
    runner.step_done("verify health", StepOutcome::Unchanged);
    let mut line = String::from_str("[restore] ");
    line.append(m.stack_name.as_str());
    line.append(" restored and verified");
    runner.log(Level::Info, line);
    runner.finish_ok().0
}

// ── Backup ──────────────────────────────────────────────────────────────────

/// The request that snapshots one repository's paths.
pub open spec fn snapshot_request(cfg: BackupCfg, owner: Seq<char>, paths: Seq<Seq<char>>) -> Request {
    Request::Run(
        "env"@,
        restic_args(cfg.restic_base@, owner, cfg.password_file@, seq!["backup"@, "--quiet"@, "--json"@] + paths),
        cfg.snapshot_timeout_s,
    )
}

/// Every repository in `groups` has its snapshot request in `q` from `n0` on.
pub open spec fn snapped(q: Seq<Request>, n0: int, cfg: BackupCfg, groups: Seq<(Seq<char>, Seq<Seq<char>>)>) -> bool {
    forall|x: int|
        #![trigger groups[x]]
        0 <= x < groups.len() ==> exists|i: int|
            n0 <= i < q.len() && #[trigger] q[i] == snapshot_request(cfg, groups[x].0, groups[x].1)
}

proof fn lemma_snapped_grows(
    q1: Seq<Request>,
    q2: Seq<Request>,
    n0: int,
    cfg: BackupCfg,
    groups: Seq<(Seq<char>, Seq<Seq<char>>)>,
)
    requires
        snapped(q1, n0, cfg, groups),
        0 <= n0,
        q1.len() <= q2.len(),
        q2.take(q1.len() as int) == q1,
    ensures
        snapped(q2, n0, cfg, groups),
{
    assert forall|x: int| #![trigger groups[x]] 0 <= x < groups.len() implies exists|i: int|
        n0 <= i < q2.len() && #[trigger] q2[i] == snapshot_request(cfg, groups[x].0, groups[x].1) by {
        let i = choose|i: int| n0 <= i < q1.len() && #[trigger] q1[i] == snapshot_request(cfg, groups[x].0, groups[x].1);
        assert(q2.take(q1.len() as int)[i] == q2[i]);
    }
}

fn sh_cmd(script: String, timeout_s: u64) -> (c: Cmd)
    ensures
        run_request(c) == Request::Run("sh"@, seq!["-c"@, script@], timeout_s),
{
    let mut args: Vec<String> = Vec::new();
    args.push(String::from_str("-c"));
    args.push(script);
    let c = Cmd { program: String::from_str("sh"), args, timeout_s };
    proof {
        reveal_strlit("sh");
        reveal_strlit("-c");
        assert(string_views(c.args@) =~= seq!["-c"@, c.args@[1]@]);
    }
    c
}

/// The request that reads whether a path declared to hold nothing holds
/// something.
pub open spec fn empty_probe(path: Seq<char>) -> Request {
    Request::Run("sh"@, seq!["-c"@, "find '"@ + path + "' -mindepth 1 -maxdepth 1 2>/dev/null | head -5 | wc -l"@], 60)
}

/// The request that reads whether a path to back up exists.
pub open spec fn exists_probe(path: Seq<char>) -> Request {
    Request::Run("sh"@, seq!["-c"@, "test -d '"@ + path + "' && echo yes || echo no"@], 30)
}

/// Some declared path was probed, from `n0` on, and did not read as
/// `good`: for `empty`, a `no_data` path that holds something; otherwise a
/// path that does not exist.
pub open spec fn probe_refused(
    q: Seq<Request>,
    h: Seq<Option<OutputView>>,
    d: int,
    n0: int,
    ms: Seq<MountSpec>,
    empty: bool,
) -> bool {
    exists|i: int, k: int|
        #![trigger q[i], ms[k]]
        n0 <= i < q.len() && 0 <= k < ms.len() && q[i] == (if empty {
            empty_probe(ms[k].host_path@)
        } else {
            exists_probe(ms[k].host_path@)
        }) && (h[i + d] matches Some(o) && trimmed(o.stdout) != (if empty {
            "0"@
        } else {
            "yes"@
        }))
}

/// The paths declared `no_data` that hold something.
fn declared_empty_check<E: Executor>(exec: &mut E, m: &StackManifest) -> (r: Result<(), CoreError>)
    ensures
        extends(old(exec).requests(), old(exec).replies(), final(exec).requests(), final(exec).replies()),
        r is Err ==> ended_on_failure(final(exec).requests(), final(exec).replies()) || probe_refused(
            final(exec).requests(),
            final(exec).replies(),
            old(exec).replies().len() - old(exec).requests().len(),
            old(exec).requests().len() as int,
            m.storage@,
            true,
        ),
{
    let ghost q0 = exec.requests();
    let ghost h0 = exec.replies();
    let ghost n0 = q0.len() as int;
    let ghost d = h0.len() - n0;
    let ghost mut wi: int = 0;
    let ghost mut wk: int = 0;
    proof {
        lemma_extends_refl(q0, h0);
    }
    let mut wrong: Vec<String> = Vec::new();
    let mut i: usize = 0;
    while i < m.storage.len()
        invariant
            i <= m.storage.len(),
            q0 == old(exec).requests(),
            h0 == old(exec).replies(),
            n0 == q0.len(),
            d == h0.len() - n0,
            extends(q0, h0, exec.requests(), exec.replies()),
            wrong@.len() > 0 ==> n0 <= wi < exec.requests().len() && 0 <= wk < m.storage@.len() && exec.requests()[wi]
                == empty_probe(m.storage@[wk].host_path@) && (exec.replies()[wi + d] matches Some(o) && trimmed(o.stdout)
                != "0"@),
        decreases m.storage.len() - i,
    {
        if m.storage[i].no_data {
            let mut script = String::from_str("find '");
            script.append(m.storage[i].host_path.as_str());
            script.append("' -mindepth 1 -maxdepth 1 2>/dev/null | head -5 | wc -l");
            let c = sh_cmd(script, 60);
            let ghost q1 = exec.requests();
            let ghost h1 = exec.replies();
            let out = exec.run(&c);
            proof {
                lemma_pushed(q1, h1, run_request(c), reply_of(out));
                lemma_extends_trans(q0, h0, q1, h1, exec.requests(), exec.replies());
            }
            let out = out?;
            if !str_eq(trim(out.stdout.as_str()), "0") {
                proof {
                    wi = q1.len() as int;
                    wk = i as int;
                    assert(exec.requests()[wi] == empty_probe(m.storage@[wk].host_path@));
                    assert(exec.replies()[wi + d] == Some(out@));
                }
                wrong.push(m.storage[i].host_path.clone());
            }
        }
        i += 1;
    }
    match declared_empty_error(&wrong) {
        Some(e) => {
            proof {
                assert(probe_refused(exec.requests(), exec.replies(), d, n0, m.storage@, true)) by {
                    assert(exec.requests()[wi] == empty_probe(m.storage@[wk].host_path@));
                }
            }
            Err(e)
        },
        None => Ok(()),
    }
}

/// The paths to back up that do not exist on the host.
fn declared_exist_check<E: Executor>(exec: &mut E, m: &StackManifest) -> (r: Result<(), CoreError>)
    ensures
        extends(old(exec).requests(), old(exec).replies(), final(exec).requests(), final(exec).replies()),
        r is Err ==> ended_on_failure(final(exec).requests(), final(exec).replies()) || probe_refused(
            final(exec).requests(),
            final(exec).replies(),
            old(exec).replies().len() - old(exec).requests().len(),
            old(exec).requests().len() as int,
            m.storage@,
            false,
        ),
{
    let ghost q0 = exec.requests();
    let ghost h0 = exec.replies();
    let ghost n0 = q0.len() as int;
    let ghost d = h0.len() - n0;
    let ghost mut wi: int = 0;
    let ghost mut wk: int = 0;
    proof {
        lemma_extends_refl(q0, h0);
    }
    let mut missing: Vec<String> = Vec::new();
    let mut i: usize = 0;
    while i < m.storage.len()
        invariant
            i <= m.storage.len(),
            q0 == old(exec).requests(),
            h0 == old(exec).replies(),
            n0 == q0.len(),
            d == h0.len() - n0,
            extends(q0, h0, exec.requests(), exec.replies()),
            missing@.len() > 0 ==> n0 <= wi < exec.requests().len() && 0 <= wk < m.storage@.len() && exec.requests()[wi]
                == exists_probe(m.storage@[wk].host_path@) && (exec.replies()[wi + d] matches Some(o) && trimmed(o.stdout)
                != "yes"@),
        decreases m.storage.len() - i,
    {
        if !m.storage[i].no_data && m.storage[i].no_backup.is_none() {
            let mut script = String::from_str("test -d '");
            script.append(m.storage[i].host_path.as_str());
            script.append("' && echo yes || echo no");
            let c = sh_cmd(script, 30);
            let ghost q1 = exec.requests();
            let ghost h1 = exec.replies();
            let out = exec.run(&c);
            proof {
                lemma_pushed(q1, h1, run_request(c), reply_of(out));
                lemma_extends_trans(q0, h0, q1, h1, exec.requests(), exec.replies());
            }
            let out = out?;
            if !str_eq(trim(out.stdout.as_str()), "yes") {
                proof {
                    wi = q1.len() as int;
                    wk = i as int;
                    assert(exec.requests()[wi] == exists_probe(m.storage@[wk].host_path@));
                    assert(exec.replies()[wi + d] == Some(out@));
                }
                missing.push(m.storage[i].host_path.clone());
            }
        }
        i += 1;
    }
    match missing_paths_error(m.stack_name.as_str(), &missing) {
        Some(e) => {
            proof {
                assert(probe_refused(exec.requests(), exec.replies(), d, n0, m.storage@, false)) by {
                    assert(exec.requests()[wi] == exists_probe(m.storage@[wk].host_path@));
                }
            }
            Err(e)
        },
        None => Ok(()),
    }
}

/// Run one restic verb on every repository; with `strict`, a run that could
/// not start is an error, otherwise every outcome is accepted.
fn each_repository<E: Executor>(
    exec: &mut E,
    cfg: &BackupCfg,
    groups: &Vec<(String, Vec<String>)>,
    verb: &str,
    strict: bool,
) -> (r: Result<(), CoreError>)
    ensures
        extends(old(exec).requests(), old(exec).replies(), final(exec).requests(), final(exec).replies()),
        r is Err ==> ended_on_failure(final(exec).requests(), final(exec).replies()),
{
    let ghost q0 = exec.requests();
    let ghost h0 = exec.replies();
    proof {
        lemma_extends_refl(q0, h0);
    }
    let mut j: usize = 0;
    while j < groups.len()
        invariant
            j <= groups.len(),
            q0 == old(exec).requests(),
            h0 == old(exec).replies(),
            extends(q0, h0, exec.requests(), exec.replies()),
        decreases groups.len() - j,
    {
        let mut args: Vec<&str> = Vec::new();
        args.push(verb);
        let c = restic_cmd(cfg, groups[j].0.as_str(), args.as_slice(), 120);
        let ghost q1 = exec.requests();
        let ghost h1 = exec.replies();
        let out = exec.run(&c);
        proof {
            lemma_pushed(q1, h1, run_request(c), reply_of(out));
            lemma_extends_trans(q0, h0, q1, h1, exec.requests(), exec.replies());
        }
        if strict {
            out?;
        }
        j += 1;
    }
    Ok(())
}

/// The listing of the containers labelled to be paused for a snapshot.
pub open spec fn pause_listing_request(vmid: u16) -> Request {
    Request::Run("pct"@, pct_sh_args(vmid, "docker ps --filter label=com.homelab.backup.pause=true --format '{{.Names}}'"@), 60)
}

/// `docker <verb>` for the named containers, failures tolerated.
pub open spec fn docker_all_request(vmid: u16, verb: Seq<char>, names: Seq<Seq<char>>, timeout_s: u64) -> Request {
    Request::Run("pct"@, pct_sh_args(vmid, "docker "@ + verb + " "@ + joined(names, " "@) + "; true"@), timeout_s)
}

/// What was paused for the snapshot was started again: the pause listing
/// is on the record from `n0` on, and when it named containers they were
/// stopped right after it and started again later.
pub open spec fn paused_then_started(q: Seq<Request>, h: Seq<Option<OutputView>>, d: int, n0: int, vmid: u16) -> bool {
    exists|i: int|
        n0 <= i < q.len() && #[trigger] q[i] == pause_listing_request(vmid) && (h[i + d] matches Some(o) && ({
            let names = named_lines(lines_of(o.stdout));
            names.len() > 0 ==> i + 1 < q.len() && q[i + 1] == docker_all_request(vmid, "stop"@, names, 120)
                && exists|k: int| i + 1 < k < q.len() && #[trigger] q[k] == docker_all_request(vmid, "start"@, names, 300)
        }))
}

/// A step whose name is not as long as `snapshot`, `resume` or
/// `retention` closes with a different error line than those three.
proof fn lemma_before_pause(step: Seq<char>)
    requires
        step.len() != 6 && step.len() != 8 && step.len() != 9,
    ensures
        "step '"@ + step + "' failed"@ != "step 'snapshot' failed"@,
        "step '"@ + step + "' failed"@ != "step 'resume' failed"@,
        "step '"@ + step + "' failed"@ != "step 'retention' failed"@,
{
    reveal_strlit("step '");
    reveal_strlit("' failed");
    reveal_strlit("step 'snapshot' failed");
    reveal_strlit("step 'resume' failed");
    reveal_strlit("step 'retention' failed");
    assert(("step '"@ + step + "' failed"@).len() == step.len() + 14);
}

proof fn lemma_paused_grows(
    q1: Seq<Request>,
    h1: Seq<Option<OutputView>>,
    q2: Seq<Request>,
    h2: Seq<Option<OutputView>>,
    d: int,
    n0: int,
    vmid: u16,
)
    requires
        0 <= n0,
        n0 + d >= 0,
        paused_then_started(q1, h1, d, n0, vmid),
        extends(q1, h1, q2, h2),
        h1.len() == q1.len() + d,
    ensures
        paused_then_started(q2, h2, d, n0, vmid),
{
    let i = choose|i: int|
        n0 <= i < q1.len() && #[trigger] q1[i] == pause_listing_request(vmid) && (h1[i + d] matches Some(o) && ({
            let names = named_lines(lines_of(o.stdout));
            names.len() > 0 ==> i + 1 < q1.len() && q1[i + 1] == docker_all_request(vmid, "stop"@, names, 120)
                && exists|k: int| i + 1 < k < q1.len() && #[trigger] q1[k] == docker_all_request(vmid, "start"@, names, 300)
        }));
    assert(q2.take(q1.len() as int)[i] == q2[i]);
    assert(h2.take(h1.len() as int)[i + d] == h2[i + d]);
    let o = h1[i + d]->Some_0;
    let names = named_lines(lines_of(o.stdout));
    if names.len() > 0 {
        assert(q2.take(q1.len() as int)[i + 1] == q2[i + 1]);
        let k = choose|k: int| i + 1 < k < q1.len() && #[trigger] q1[k] == docker_all_request(vmid, "start"@, names, 300);
        assert(q2.take(q1.len() as int)[k] == q2[k]);
    }
}

/// Stop the containers labelled for it, and say which ones were stopped.
fn quiesce<E: Executor>(exec: &mut E, vmid: u16) -> (r: Result<Vec<String>, CoreError>)
    ensures
        extends(old(exec).requests(), old(exec).replies(), final(exec).requests(), final(exec).replies()),
        r is Err ==> ended_on_failure(final(exec).requests(), final(exec).replies()),
        r matches Ok(names) ==> ({
            let n = old(exec).requests().len() as int;
            let q = final(exec).requests();
            &&& q.len() == n + 1 + (if names@.len() > 0 { 1int } else { 0int })
            &&& q[n] == pause_listing_request(vmid)
            &&& final(exec).replies()[old(exec).replies().len() as int] matches Some(o)
                && string_views(names@) == named_lines(lines_of(o.stdout))
            &&& names@.len() > 0 ==> q[n + 1] == docker_all_request(vmid, "stop"@, string_views(names@), 120)
        }),
{
    let ghost q0 = exec.requests();
    let ghost h0 = exec.replies();
    let out = pct_sh(exec, vmid, "docker ps --filter label=com.homelab.backup.pause=true --format '{{.Names}}'", 60);
    proof {
        lemma_pushed(q0, h0, exec.requests().last(), exec.replies().last());
        assert(exec.requests() == q0.push(exec.requests().last()));
    }
    let out = out?;
    let names = paused_names(out.stdout.as_str());
    if names.len() > 0 {
        let stop = docker_all("stop", &names);
        let ghost q1 = exec.requests();
        let ghost h1 = exec.replies();
        let r = pct_sh(exec, vmid, stop.as_str(), 120);
        proof {
            lemma_pushed(q1, h1, exec.requests().last(), exec.replies().last());
            assert(exec.requests() == q1.push(exec.requests().last()));
            lemma_extends_trans(q0, h0, q1, h1, exec.requests(), exec.replies());
        }
        r?;
    }
    Ok(names)
}

/// The record ends on a snapshot of one of the repositories that did not
/// succeed, or that succeeded and holds no files.
pub open spec fn snapshot_refused(q: Seq<Request>, h: Seq<Option<OutputView>>, cfg: BackupCfg, groups: Seq<(Seq<char>, Seq<Seq<char>>)>) -> bool {
    &&& q.len() > 0 && h.len() > 0
    &&& exists|x: int| 0 <= x < groups.len() && q.last() == snapshot_request(cfg, #[trigger] groups[x].0, groups[x].1)
    &&& !(h.last() matches Some(o) && o.code == 0 && !summary_empty(lines_of(o.stdout)))
}

/// Snapshot every repository; stops at the first that fails or comes out
/// empty. When all succeed, each repository's snapshot request is on the
/// record.
fn take_snapshots<E: Executor>(exec: &mut E, cfg: &BackupCfg, groups: &Vec<(String, Vec<String>)>) -> (r: Result<(), CoreError>)
    ensures
        extends(old(exec).requests(), old(exec).replies(), final(exec).requests(), final(exec).replies()),
        r is Err ==> snapshot_refused(final(exec).requests(), final(exec).replies(), *cfg, others_view(groups@)),
        r is Ok ==> snapped(final(exec).requests(), old(exec).requests().len() as int, *cfg, others_view(groups@)),
{
    let ghost q0 = exec.requests();
    let ghost h0 = exec.replies();
    let ghost n0 = q0.len() as int;
    let ghost gv = others_view(groups@);
    proof {
        lemma_extends_refl(q0, h0);
    }
    let mut j: usize = 0;
    while j < groups.len()
        invariant
            j <= groups.len(),
            q0 == old(exec).requests(),
            h0 == old(exec).replies(),
            n0 == q0.len(),
            gv == others_view(groups@),
            extends(q0, h0, exec.requests(), exec.replies()),
            snapped(exec.requests(), n0, *cfg, gv.take(j as int)),
        decreases groups.len() - j,
    {
        let owner = groups[j].0.as_str();
        let paths = &groups[j].1;
        let mut args: Vec<&str> = Vec::new();
        args.push("backup");
        args.push("--quiet");
        args.push("--json");
        let ghost head = seq!["backup"@, "--quiet"@, "--json"@];
        proof {
            assert(args@.map_values(|a: &str| a@) =~= head);
        }
        let mut k: usize = 0;
        while k < paths.len()
            invariant
                k <= paths.len(),
                args@.map_values(|a: &str| a@) == head + string_views(paths@).take(k as int),
            decreases paths.len() - k,
        {
            let ghost before = args@.map_values(|a: &str| a@);
            args.push(paths[k].as_str());
            proof {
                assert(args@.map_values(|a: &str| a@) =~= before.push(paths@[k as int]@));
                assert(string_views(paths@).take(k + 1) =~= string_views(paths@).take(k as int).push(paths@[k as int]@));
            }
            k += 1;
        }
        proof {
            assert(string_views(paths@).take(paths.len() as int) =~= string_views(paths@));
        }
        let c = restic_cmd(cfg, owner, args.as_slice(), cfg.snapshot_timeout_s);
        let ghost q1 = exec.requests();
        let ghost h1 = exec.replies();
        let out = run_ok(exec, &c);
        proof {
            lemma_pushed(q1, h1, exec.requests().last(), exec.replies().last());
            assert(exec.requests() == q1.push(exec.requests().last()));
            assert(exec.replies() =~= h1.push(exec.replies().last()));
            lemma_extends_trans(q0, h0, q1, h1, exec.requests(), exec.replies());
            assert(gv[j as int] == (owner@, string_views(paths@)));
            assert(exec.requests()[q1.len() as int] == snapshot_request(*cfg, gv[j as int].0, gv[j as int].1));
            assert(exec.requests().take(q1.len() as int) =~= q1);
            lemma_snapped_grows(q1, exec.requests(), n0, *cfg, gv.take(j as int));
            assert forall|x: int| #![trigger gv.take(j + 1)[x]] 0 <= x < j + 1 implies exists|i: int|
                n0 <= i < exec.requests().len() && #[trigger] exec.requests()[i] == snapshot_request(
                    *cfg,
                    gv.take(j + 1)[x].0,
                    gv.take(j + 1)[x].1,
                ) by {
                if x == j {
                    assert(exec.requests()[q1.len() as int] == snapshot_request(*cfg, gv.take(j + 1)[x].0, gv.take(j + 1)[x].1));
                } else {
                    assert(gv.take(j + 1)[x] == gv.take(j as int)[x]);
                }
            }
        }
        let out = out?;
        if snapshot_is_empty(out.stdout.as_str()) {
            return Err(empty_snapshot_error(owner, paths));
        }
        j += 1;
    }
    proof {
        assert(gv.take(groups.len() as int) =~= gv);
    }
    Ok(())
}

/// Start what was stopped, by name, then every declared app.
fn resume<E: Executor>(exec: &mut E, m: &StackManifest, names: &Vec<String>) -> (r: Result<(), CoreError>)
    ensures
        extends(old(exec).requests(), old(exec).replies(), final(exec).requests(), final(exec).replies()),
        r is Err ==> ended_on_failure(final(exec).requests(), final(exec).replies()),
        names@.len() > 0 ==> final(exec).requests().len() > old(exec).requests().len()
            && final(exec).requests()[old(exec).requests().len() as int] == docker_all_request(
            m.vmid,
            "start"@,
            string_views(names@),
            300,
        ),
{
    let ghost q0 = exec.requests();
    let ghost h0 = exec.replies();
    proof {
        lemma_extends_refl(q0, h0);
    }
    if names.len() > 0 {
        let start = docker_all("start", names);
        let r = pct_sh(exec, m.vmid, start.as_str(), 300);
        proof {
            lemma_pushed(q0, h0, exec.requests().last(), exec.replies().last());
            assert(exec.requests() == q0.push(exec.requests().last()));
        }
        r?;
    }
    let mut cmds: Vec<String> = Vec::new();
    let mut i: usize = 0;
    while i < m.apps.len()
        invariant
            i <= m.apps.len(),
        decreases m.apps.len() - i,
    {
        let mut c = String::from_str("cd '/opt/");
        c.append(m.stack_name.as_str());
        c.append("/");
        c.append(m.apps[i].as_str());
        c.append("' && docker compose up -d");
        cmds.push(c);
        i += 1;
    }
    if cmds.len() > 0 {
        let mut all = join_strings(&cmds, "; ");
        all.append("; true");
        let ghost q1 = exec.requests();
        let ghost h1 = exec.replies();
        let r = pct_sh(exec, m.vmid, all.as_str(), 300);
        proof {
            lemma_pushed(q1, h1, exec.requests().last(), exec.replies().last());
            assert(exec.requests() == q1.push(exec.requests().last()));
            lemma_extends_trans(q0, h0, q1, h1, exec.requests(), exec.replies());
        }
        r?;
    }
    Ok(())
}

/// Forget, per repository, what the tiers doom; says whether anything was.
fn apply_retention<E: Executor>(
    exec: &mut E,
    cfg: &BackupCfg,
    groups: &Vec<(String, Vec<String>)>,
    tiers: &[RetentionTier],
    now: u64,
) -> (r: Result<bool, CoreError>)
    ensures
        extends(old(exec).requests(), old(exec).replies(), final(exec).requests(), final(exec).replies()),
        r is Err ==> ended_on_failure(final(exec).requests(), final(exec).replies()),
{
    let ghost q0 = exec.requests();
    let ghost h0 = exec.replies();
    proof {
        lemma_extends_refl(q0, h0);
    }
    let mut changed = false;
    let mut j: usize = 0;
    while j < groups.len()
        invariant
            j <= groups.len(),
            q0 == old(exec).requests(),
            h0 == old(exec).replies(),
            extends(q0, h0, exec.requests(), exec.replies()),
        decreases groups.len() - j,
    {
        let owner = groups[j].0.as_str();
        let mut args: Vec<&str> = Vec::new();
        args.push("snapshots");
        args.push("--json");
        let c = restic_cmd(cfg, owner, args.as_slice(), 300);
        let ghost q1 = exec.requests();
        let ghost h1 = exec.replies();
        let out = run_ok(exec, &c);
        proof {
            lemma_pushed(q1, h1, exec.requests().last(), exec.replies().last());
            assert(exec.requests() == q1.push(exec.requests().last()));
            assert(exec.replies() =~= h1.push(exec.replies().last()));
            lemma_extends_trans(q0, h0, q1, h1, exec.requests(), exec.replies());
        }
        let out = out?;
        let doomed = doomed_snapshots(out.stdout.as_str(), tiers, now);
        if doomed.len() > 0 {
            let fargs = forget_args(&doomed);
            let mut refs: Vec<&str> = Vec::new();
            let mut k: usize = 0;
            while k < fargs.len()
                invariant
                    k <= fargs.len(),
                decreases fargs.len() - k,
            {
                refs.push(fargs[k].as_str());
                k += 1;
            }
            let fc = restic_cmd(cfg, owner, refs.as_slice(), 900);
            let ghost q2 = exec.requests();
            let ghost h2 = exec.replies();
            let done = run_ok(exec, &fc);
            proof {
                lemma_pushed(q2, h2, exec.requests().last(), exec.replies().last());
                assert(exec.requests() == q2.push(exec.requests().last()));
                assert(exec.replies() =~= h2.push(exec.replies().last()));
                lemma_extends_trans(q0, h0, q2, h2, exec.requests(), exec.replies());
            }
            done?;
            changed = true;
        }
        j += 1;
    }
    Ok(changed)
}

/// The repositories other stacks own, by stack: those stacks whose manifest
/// the state holds.
pub open spec fn claims_of(stacks: Seq<(String, StackState)>) -> Seq<(Seq<char>, Seq<Seq<char>>)>
    decreases stacks.len(),
{
    if stacks.len() == 0 {
        Seq::empty()
    } else {
        let pre = claims_of(stacks.drop_last());
        match stacks.last().1.manifest {
            Some(man) => pre.push((stacks.last().0@, owners_of(man))),
            None => pre,
        }
    }
}

fn claims(state: &HostState) -> (r: Vec<(String, Vec<String>)>)
    ensures
        others_view(r@) == claims_of(state.stacks@),
{
    let mut out: Vec<(String, Vec<String>)> = Vec::new();
    let mut i: usize = 0;
    while i < state.stacks.len()
        invariant
            i <= state.stacks.len(),
            others_view(out@) == claims_of(state.stacks@.take(i as int)),
        decreases state.stacks.len() - i,
    {
        proof {
            assert(state.stacks@.take(i + 1).drop_last() =~= state.stacks@.take(i as int));
        }
        match &state.stacks[i].1.manifest {
            Some(man) => {
                let groups = owner_groups(man);
                let mut owners: Vec<String> = Vec::new();
                let mut k: usize = 0;
                while k < groups.len()
                    invariant
                        k <= groups.len(),
                        string_views(owners@) == others_view(groups@).take(k as int).map_values(
                            |g: (Seq<char>, Seq<Seq<char>>)| g.0,
                        ),
                    decreases groups.len() - k,
                {
                    owners.push(groups[k].0.clone());
                    proof {
                        assert(others_view(groups@).take(k + 1).map_values(|g: (Seq<char>, Seq<Seq<char>>)| g.0)
                            =~= others_view(groups@).take(k as int).map_values(|g: (Seq<char>, Seq<Seq<char>>)| g.0).push(
                            others_view(groups@)[k as int].0,
                        ));
                    }
                    k += 1;
                }
                proof {
                    assert(others_view(groups@).take(groups.len() as int) =~= others_view(groups@));
                    assert(string_views(owners@) =~= owners_of(*man));
                }
                let ghost before = others_view(out@);
                out.push((state.stacks[i].0.clone(), owners));
                proof {
                    assert(others_view(out@) =~= before.push((state.stacks@[i as int].0@, owners_of(*man))));
                }
            },
            None => {},
        }
        i += 1;
    }
    proof {
        assert(state.stacks@.take(state.stacks.len() as int) =~= state.stacks@);
    }
    out
}

/// The target's probe was the one request, and it failed or the target
/// is not the container expected.
pub open spec fn target_failed(q: Seq<Request>, h: Seq<Option<OutputView>>, n0: int, vmid: u16, hostname: Seq<char>) -> bool {
    q.len() == n0 + 1 && (ended_on_failure(q, h) || (h.last() matches Some(c) && config_refusal(vmid, hostname, c) is Some))
}

/// Why a backup can fail: refused before anything was asked, the target
/// not the one expected, another stack owning a repository, standing aside
/// for a user, a reading or a command that failed, a declared path that is
/// not what the stack file says, or a snapshot that failed or came out
/// empty.
pub open spec fn backup_failed_because(
    q: Seq<Request>,
    h: Seq<Option<OutputView>>,
    n0: int,
    w: Seq<Request>,
    g: Seq<Option<OutputView>>,
    safety: SafetyConfig,
    state: Option<&HostState>,
    m: StackManifest,
    cfg: BackupCfg,
    deferred: bool,
) -> bool {
    let d = h.len() - q.len();
    ||| app_problems(string_views(m.apps@)).len() > 0 || no_touch_refusal(safety.no_touch@, m.vmid) is Some
    ||| target_failed(q, h, n0, m.vmid, m.hostname@)
    ||| state matches Some(s) && owner_conflict(m.stack_name@, owners_of(m), claims_of(s.stacks@)) is Some
    ||| deferred
    ||| ended_on_failure(w, g)
    ||| ended_on_failure(q, h)
    ||| probe_refused(q, h, d, n0, m.storage@, true)
    ||| probe_refused(q, h, d, n0, m.storage@, false)
    ||| exists|n: int| n0 < n <= q.len() && #[trigger] snapshot_refused(q.take(n), h.take(n + d), cfg, groups_of(m.storage@, m.stack_name@))
}

/// Back up a stack: one snapshot per owning app's repository. Refused, with
/// nothing asked of either machine, for a manifest that does not validate or
/// a stack that may not be touched; refused after the target's probe when
/// another stack in `state` owns one of the repositories. The busy check
/// goes through `quiet`: nothing past the target's probe is asked of the
/// machine unless every app was cleared, and a stack with an app in use
/// stands aside, deferred. The containers stopped for the snapshot are
/// started again whether it worked or not; the backup succeeds only with
/// every repository's snapshot taken.
#[verifier::rlimit(80)]
pub fn backup<E: Executor, Q: Executor, S: Sink, J: Journal>(
    exec: &mut E,
    quiet: &mut Q,
    sink: S,
    journal: J,
    safety: &SafetyConfig,
    state: Option<&HostState>,
    m: &StackManifest,
    cfg: &BackupCfg,
    now: u64,
) -> (r: OperationReport)
    ensures
        r.op@ == "backup-"@ + m.stack_name@,
        extends(old(exec).requests(), old(exec).replies(), final(exec).requests(), final(exec).replies()),
        extends(old(quiet).requests(), old(quiet).replies(), final(quiet).requests(), final(quiet).replies()),
        (app_problems(string_views(m.apps@)).len() > 0 || no_touch_refusal(safety.no_touch@, m.vmid) is Some) ==> !r.ok
            && final(exec).requests() == old(exec).requests() && final(quiet).requests() == old(quiet).requests(),
        (app_problems(string_views(m.apps@)).len() == 0 && no_touch_refusal(safety.no_touch@, m.vmid) is None) ==> final(exec).requests().len() > old(exec).requests().len() && final(exec).requests()[old(exec).requests().len() as int]
            == Request::Run("pct"@, seq!["config"@, dec(m.vmid as nat)], 30),
        (state matches Some(s) && owner_conflict(m.stack_name@, owners_of(*m), claims_of(s.stacks@)) is Some) ==> !r.ok
            && final(exec).requests().len() <= old(exec).requests().len() + 1 && final(quiet).requests() == old(quiet).requests(),
        (old(quiet).replies().len() >= old(quiet).requests().len() && final(exec).requests().len() > old(exec).requests().len() + 1) ==> forall|k: int|
            0 <= k < m.apps@.len() ==> #[trigger] busy_cleared(
                final(quiet).requests(),
                final(quiet).replies(),
                old(quiet).replies().len() - old(quiet).requests().len(),
                old(quiet).requests().len() as int,
                m.vmid,
                m.stack_name@,
                m.apps@[k]@,
            ),
        r.ok ==> snapped(final(exec).requests(), old(exec).requests().len() as int, *cfg, groups_of(m.storage@, m.stack_name@)),
        (r.ok || (r.error matches Some(e) && (e.what@ == "step 'snapshot' failed"@ || e.what@ == "step 'resume' failed"@
            || e.what@ == "step 'retention' failed"@))) ==> paused_then_started(
            final(exec).requests(),
            final(exec).replies(),
            old(exec).replies().len() - old(exec).requests().len(),
            old(exec).requests().len() as int,
            m.vmid,
        ),
        old(exec).replies().len() == old(exec).requests().len() && !r.ok ==> backup_failed_because(
            final(exec).requests(),
            final(exec).replies(),
            old(exec).requests().len() as int,
            final(quiet).requests(),
            final(quiet).replies(),
            *safety,
            state,
            *m,
            *cfg,
            r.deferred is Some,
        ),
        (old(quiet).replies().len() >= old(quiet).requests().len() && exists|k: int|
            0 <= k < m.apps@.len() && !#[trigger] busy_cleared(
                final(quiet).requests(),
                final(quiet).replies(),
                old(quiet).replies().len() - old(quiet).requests().len(),
                old(quiet).requests().len() as int,
                m.vmid,
                m.stack_name@,
                m.apps@[k]@,
            )) ==> !r.ok && final(exec).requests().len() <= old(exec).requests().len() + 1 && (app_problems(
            string_views(m.apps@),
        ).len() > 0 || no_touch_refusal(safety.no_touch@, m.vmid) is Some || target_failed(
            final(exec).requests(),
            final(exec).replies(),
            old(exec).requests().len() as int,
            m.vmid,
            m.hostname@,
        ) || (state matches Some(s) && owner_conflict(m.stack_name@, owners_of(*m), claims_of(s.stacks@)) is Some)
            || r.deferred is Some || ended_on_failure(final(quiet).requests(), final(quiet).replies())),
{
    let ghost q0 = exec.requests();
    let ghost h0 = exec.replies();
    let ghost n0 = q0.len() as int;
    let ghost w0 = quiet.requests();
    let ghost g0 = quiet.replies();
    let ghost wd = g0.len() - w0.len();
    let ghost st = m.stack_name@;
    proof {
        lemma_extends_refl(q0, h0);
        lemma_extends_refl(w0, g0);
    }
    let mut op = String::from_str("backup-");
    op.append(m.stack_name.as_str());
    let mut runner = crate::runner::Runner::new(op.as_str(), sink, journal);
    let groups = owner_groups(m);
    proof {
        reveal_strlit("safety gates");
        reveal_strlit("owner conflict");
        reveal_strlit("in use?");
        reveal_strlit("declared-empty paths");
        reveal_strlit("declared paths exist");
        reveal_strlit("init repos");
        reveal_strlit("quiesce");
        lemma_before_pause("safety gates"@);
        lemma_before_pause("owner conflict"@);
        lemma_before_pause("in use?"@);
        lemma_before_pause("declared-empty paths"@);
        lemma_before_pause("declared paths exist"@);
        lemma_before_pause("init repos"@);
        lemma_before_pause("quiesce"@);
    }

    runner.begin_step("safety gates");
    match validate_manifest(m) {
        Ok(()) => {},
        Err(e) => {
            let e2 = runner.step_failed("safety gates", e);
            return runner.finish_err("safety gates", &e2).0;
        },
    }
    let guarded = guard_target(exec, safety, m.vmid, m.hostname.as_str());
    proof {
        if no_touch_refusal(safety.no_touch@, m.vmid) is None {
            assert(exec.requests().take(n0) =~= q0);
            assert(exec.replies().take(h0.len() as int) =~= h0);
        }
    }
    match guarded {
        Ok(()) => {},
        Err(e) => {
            let e2 = runner.step_failed("safety gates", e);
            return runner.finish_err("safety gates", &e2).0;
        },
    }
    runner.step_done("safety gates", StepOutcome::Unchanged);
    let ghost q1 = exec.requests();

    runner.begin_step("owner conflict");
    match state {
        None => {},
        Some(s) => {
            let others = claims(s);
            let mut owners: Vec<String> = Vec::new();
            let mut k: usize = 0;
            while k < groups.len()
                invariant
                    k <= groups.len(),
                    string_views(owners@) == others_view(groups@).take(k as int).map_values(
                        |g: (Seq<char>, Seq<Seq<char>>)| g.0,
                    ),
                decreases groups.len() - k,
            {
                owners.push(groups[k].0.clone());
                proof {
                    assert(others_view(groups@).take(k + 1).map_values(|g: (Seq<char>, Seq<Seq<char>>)| g.0)
                        =~= others_view(groups@).take(k as int).map_values(|g: (Seq<char>, Seq<Seq<char>>)| g.0).push(
                        others_view(groups@)[k as int].0,
                    ));
                }
                k += 1;
            }
            proof {
                assert(others_view(groups@).take(groups.len() as int) =~= others_view(groups@));
                assert(string_views(owners@) =~= owners_of(*m));
            }
            match conflicting_owner(m.stack_name.as_str(), owners.as_slice(), others.as_slice()) {
                Some((owner, other)) => {
                    let e = owner_conflict_error(m.stack_name.as_str(), owner.as_str(), other.as_str());
                    let e2 = runner.step_failed("owner conflict", e);
                    return runner.finish_err("owner conflict", &e2).0;
                },
                None => {},
            }
        },
    }
    runner.step_done("owner conflict", StepOutcome::Unchanged);

    runner.begin_step("in use?");
    let mut k: usize = 0;
    while k < m.apps.len()
        invariant
            k <= m.apps.len(),
            w0 == old(quiet).requests(),
            g0 == old(quiet).replies(),
            wd == g0.len() - w0.len(),
            st == m.stack_name@,
            extends(w0, g0, quiet.requests(), quiet.replies()),
            exec.requests() == q1,
            extends(q0, h0, exec.requests(), exec.replies()),
            q1.len() == n0 + 1,
            q1[n0] == Request::Run("pct"@, seq!["config"@, dec(m.vmid as nat)], 30),
            n0 == q0.len(),
            q0 == old(exec).requests(),
            h0 == old(exec).replies(),
            app_problems(string_views(m.apps@)).len() == 0,
            no_touch_refusal(safety.no_touch@, m.vmid) is None,
            !(state matches Some(s) && owner_conflict(m.stack_name@, owners_of(*m), claims_of(s.stacks@)) is Some),
            wd >= 0 ==> forall|x: int|
                0 <= x < k ==> #[trigger] busy_cleared(quiet.requests(), quiet.replies(), wd, w0.len() as int, m.vmid, st, m.apps@[x]@),
            runner.op_name() == "backup-"@ + m.stack_name@,
            "step '"@ + "in use?"@ + "' failed"@ != "step 'snapshot' failed"@,
            "step '"@ + "in use?"@ + "' failed"@ != "step 'resume' failed"@,
            "step '"@ + "in use?"@ + "' failed"@ != "step 'retention' failed"@,
        decreases m.apps.len() - k,
    {
        let ghost wa = quiet.requests();
        let ghost ga = quiet.replies();
        let verdict = app_busy(quiet, m.vmid, m.stack_name.as_str(), m.apps[k].as_str());
        proof {
            assert(extends(wa, ga, quiet.requests(), quiet.replies()));
            lemma_extends_trans(w0, g0, wa, ga, quiet.requests(), quiet.replies());
            if wd >= 0 {
                assert forall|x: int| 0 <= x < k implies #[trigger] busy_cleared(
                    quiet.requests(),
                    quiet.replies(),
                    wd,
                    w0.len() as int,
                    m.vmid,
                    st,
                    m.apps@[x]@,
                ) by {
                    lemma_busy_cleared_grows(wa, ga, quiet.requests(), quiet.replies(), wd, w0.len() as int, w0.len() as int, m.vmid, st, m.apps@[x]@);
                }
            }
        }
        let verdict = match verdict {
            Ok(v) => v,
            Err(e) => {
                let e2 = runner.step_failed("in use?", e);
                return runner.finish_err("in use?", &e2).0;
            },
        };
        if !verdict.may_update() {
            let why = reason(&verdict);
            let e = in_use_deferral(m.apps[k].as_str(), why.as_str());
            let e2 = runner.step_failed("in use?", e);
            return runner.finish_err("in use?", &e2).0;
        }
        proof {
            if wd >= 0 {
                lemma_extends_refl(quiet.requests(), quiet.replies());
                lemma_busy_cleared_grows(
                    quiet.requests(), quiet.replies(), quiet.requests(), quiet.replies(), wd, w0.len() as int, wa.len() as int, m.vmid, st, m.apps@[k as int]@,
                );
            }
        }
        k += 1;
    }
    runner.step_done("in use?", StepOutcome::Unchanged);

    runner.begin_step("declared-empty paths");
    let ghost qa = exec.requests();
    let ghost ha = exec.replies();
    let res = declared_empty_check(exec, m);
    proof { lemma_extends_trans(q0, h0, qa, ha, exec.requests(), exec.replies()); }
    match res {
        Ok(()) => {},
        Err(e) => {
            let e2 = runner.step_failed("declared-empty paths", e);
            return runner.finish_err("declared-empty paths", &e2).0;
        },
    }
    runner.step_done("declared-empty paths", StepOutcome::Unchanged);

    runner.begin_step("declared paths exist");
    let ghost qa = exec.requests();
    let ghost ha = exec.replies();
    let res = declared_exist_check(exec, m);
    proof { lemma_extends_trans(q0, h0, qa, ha, exec.requests(), exec.replies()); }
    match res {
        Ok(()) => {},
        Err(e) => {
            let e2 = runner.step_failed("declared paths exist", e);
            return runner.finish_err("declared paths exist", &e2).0;
        },
    }
    runner.step_done("declared paths exist", StepOutcome::Unchanged);

    runner.begin_step("init repos");
    let ghost qa = exec.requests();
    let ghost ha = exec.replies();
    let res = each_repository(exec, cfg, &groups, "init", true);
    proof { lemma_extends_trans(q0, h0, qa, ha, exec.requests(), exec.replies()); }
    match res {
        Ok(()) => {},
        Err(e) => {
            let e2 = runner.step_failed("init repos", e);
            return runner.finish_err("init repos", &e2).0;
        },
    }
    runner.step_done("init repos", StepOutcome::Unchanged);

    runner.begin_step("clear stale locks");
    let ghost qa = exec.requests();
    let ghost ha = exec.replies();
    let _ = each_repository(exec, cfg, &groups, "unlock", false);
    proof { lemma_extends_trans(q0, h0, qa, ha, exec.requests(), exec.replies()); }
    runner.step_done("clear stale locks", StepOutcome::Unchanged);

    runner.begin_step("quiesce");
    let ghost qa = exec.requests();
    let ghost ha = exec.replies();
    let res = quiesce(exec, m.vmid);
    proof { lemma_extends_trans(q0, h0, qa, ha, exec.requests(), exec.replies()); }
    let ghost iq = qa.len() as int;
    let ghost dd = h0.len() - n0;
    let ghost qq = exec.requests();
    let ghost hq = exec.replies();
    let names = match res {
        Ok(n) => n,
        Err(e) => {
            let e2 = runner.step_failed("quiesce", e);
            return runner.finish_err("quiesce", &e2).0;
        },
    };
    if names.len() > 0 {
        runner.step_done("quiesce", StepOutcome::Changed);
    } else {
        runner.step_done("quiesce", StepOutcome::Unchanged);
    }

    // The snapshot may fail, but what was stopped is started again first.
    runner.begin_step("snapshot");
    let ghost qs = exec.requests();
    let ghost hs = exec.replies();
    let snap = take_snapshots(exec, cfg, &groups);
    proof { lemma_extends_trans(q0, h0, qs, hs, exec.requests(), exec.replies()); }
    let snap_err = match snap {
        Ok(()) => {
            if groups.len() > 0 {
                runner.step_done("snapshot", StepOutcome::Changed);
            } else {
                runner.step_done("snapshot", StepOutcome::Unchanged);
            }
            None
        },
        Err(e) => Some(runner.step_failed("snapshot", e)),
    };
    let ghost qz = exec.requests();
    let ghost hz = exec.replies();
    let ghost snap_bad = snap_err is Some;
    proof {
        if snap_bad {
            assert(snapshot_refused(qz, hz, *cfg, groups_of(m.storage@, m.stack_name@)));
        }
    }

    runner.begin_step("resume");
    let ghost qa = exec.requests();
    let ghost ha = exec.replies();
    let res = resume(exec, m, &names);
    proof {
        lemma_extends_trans(q0, h0, qa, ha, exec.requests(), exec.replies());
        let q = exec.requests();
        let h = exec.replies();
        assert(ha.len() == qa.len() + dd);
        assert(hq.len() == qq.len() + dd);
        assert(qs == qq && hs == hq);
        lemma_extends_trans(qs, hs, qz, hz, q, h);
        assert(qq.len() <= qa.len() && q.take(qq.len() as int) == qq);
        assert(h.take(hq.len() as int) == hq);
        assert(q[iq] == q.take(qq.len() as int)[iq]);
        assert(h[iq + dd] == h.take(hq.len() as int)[iq + dd]);
        let o = h[iq + dd]->Some_0;
        if names@.len() > 0 {
            assert(q[iq + 1] == q.take(qq.len() as int)[iq + 1]);
            assert(q[qa.len() as int] == docker_all_request(m.vmid, "start"@, string_views(names@), 300));
        }
        assert(paused_then_started(q, h, dd, n0, m.vmid));
    }
    match res {
        Ok(()) => {},
        Err(e) => {
            let e2 = runner.step_failed("resume", e);
            return runner.finish_err("resume", &e2).0;
        },
    }
    runner.step_done("resume", StepOutcome::Changed);
    match snap_err {
        Some(e) => {
            proof {
                let q = exec.requests();
                let h = exec.replies();
                assert(q.take(qz.len() as int) =~= qz);
                assert(h.take(hz.len() as int) =~= hz);
                assert(hz.len() == qz.len() + (h.len() - q.len()));
                assert(snapshot_refused(q.take(qz.len() as int), h.take(qz.len() + (h.len() - q.len())), *cfg, groups_of(m.storage@, m.stack_name@)));
            }
            return runner.finish_err("snapshot", &e).0;
        },
        None => {},
    }

    runner.begin_step("retention");
    let tiers: &[RetentionTier] = match &m.retention {
        Some(t) => t.as_slice(),
        None => cfg.tiers.as_slice(),
    };
    if m.retention.is_some() {
        let mut line = String::from_str("[w2] ");
        line.append(m.stack_name.as_str());
        line.append(" keeps snapshots by its own policy (");
        let n = crate::text::dec_string(tiers.len() as u64);
        line.append(n.as_str());
        line.append(" tier(s)), not the fleet-wide one");
        runner.log(Level::Info, line);
    }
    let ghost qa = exec.requests();
    let ghost ha = exec.replies();
    let res = apply_retention(exec, cfg, &groups, tiers, now);
    proof {
        lemma_extends_trans(q0, h0, qa, ha, exec.requests(), exec.replies());
        lemma_paused_grows(qa, ha, exec.requests(), exec.replies(), dd, n0, m.vmid);
    }
    let changed = match res {
        Ok(c) => c,
        Err(e) => {
            let e2 = runner.step_failed("retention", e);
            return runner.finish_err("retention", &e2).0;
        },
    };
    if changed {
        runner.step_done("retention", StepOutcome::Changed);
    } else {
        runner.step_done("retention", StepOutcome::Unchanged);
    }
    proof {
        assert(exec.requests().take(qz.len() as int) =~= qz);
        lemma_snapped_grows(qz, exec.requests(), qs.len() as int, *cfg, others_view(groups@));
    }
    let mut line = String::from_str("[backup] ");
    line.append(m.stack_name.as_str());
    line.append(" snapshot complete");
    runner.log(Level::Info, line);
    runner.finish_ok().0
}

} // verus!
