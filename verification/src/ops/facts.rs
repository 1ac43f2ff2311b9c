//! Reading the machine's answers into facts. Nothing here judges: the fleet
//! check decides what the facts mean. An unasked question never becomes a
//! fact, and a probe that produced nothing adds no fact — a zero read out of
//! a failed measurement is a false finding wearing plausible numbers.

use vstd::prelude::*;
use vstd::string::*;
use crate::executor::{extends, lemma_extends_refl, lemma_extends_trans, lemma_pushed, pct_sh, pct_sh_args, Cmd, Executor, OutputView, Request};
use crate::ops::reconcile::live_config;
use crate::state::{HostState, StackState};
use crate::ops::util::{parent_dir, path_parent};
use crate::ops::fleetcheck::{hostport, BootFact, CoverageFact, GrowthFact, LiveFacts, RouteFact, SeedFact, WatchedBackupFact};
use crate::error::{display_of, CoreError};
use crate::text::{
    before_first, contains, contains_string, lemma_first_occurrence, split_once_str, str_before_first, str_contains, str_split_once_str,
    is_digit, lines, lines_of, str_strip_prefix, strip_prefix, str_trim_end_char, str_trim_start_char, trim_end_char,
    trim_start_char, parse_uint, parse_unsigned, split_once, split_whitespace,
    str_eq, str_split_once, string_views, trim, trimmed, views, words, dec, rsplit_once, str_rsplit_once,
};

verus! {

/// A backup made outside this suite that it nevertheless watches.
#[derive(Debug, Clone)]
pub struct WatchedBackupSpec {
    pub name: String,
    pub rclone_path: String,
    pub max_age_hours: u64,
}

/// Everything the fact gathering needs from the host's configuration,
/// handed in rather than read, so a test can hand it a fleet of its own.
#[derive(Debug, Clone)]
pub struct FactsInputs {
    pub watched_backups: Vec<WatchedBackupSpec>,
    pub kuma_monitors_file: Option<String>,
    pub state_dir: String,
    pub gateway_vmid: u16,
    pub gateway_routes_dir: String,
    pub no_touch: Vec<u16>,
    pub prometheus_url: Option<String>,
    pub loki_url: Option<String>,
    pub logs_window: String,
    pub grafana_dashboards_dir: Option<String>,
    /// Now, in seconds since the epoch.
    pub now_unix: u64,
}

pub open spec fn is_unit(c: char) -> bool {
    c == 's' || c == 'm' || c == 'h' || c == 'd' || c == 'w'
}

/// `<digits><unit>`: the only shape a window may have before it is pasted
/// into a query string.
pub open spec fn window_ok(w: Seq<char>) -> bool {
    w.len() >= 2 && (forall|i: int| 0 <= i < w.len() - 1 ==> is_digit(#[trigger] w[i])) && is_unit(w.last())
}

/// A window from the configuration, or the default when it is anything but
/// `<digits><unit>`.
pub fn sane_window(w: &str, default: &str) -> (r: String)
    ensures
        r@ == if window_ok(w@) { w@ } else { default@ },
{
    let n = w.unicode_len();
    if n < 2 {
        return String::from_str(default);
    }
    let mut i: usize = 0;
    while i < n - 1
        invariant
            i <= n - 1,
            n == w@.len(),
            forall|k: int| 0 <= k < i ==> is_digit(#[trigger] w@[k]),
        decreases n - 1 - i,
    {
        let c = w.get_char(i);
        if !('0' <= c && c <= '9') {
            return String::from_str(default);
        }
        i += 1;
    }
    let last = w.get_char(n - 1);
    if last == 's' || last == 'm' || last == 'h' || last == 'd' || last == 'w' {
        String::from_str(w)
    } else {
        String::from_str(default)
    }
}

pub open spec fn word_u32(ws: Seq<Seq<char>>, i: int) -> Option<nat> {
    parse_unsigned(ws[i], 4294967295)
}

/// The host's memory picture from the probe's five numbers (total,
/// swap used, swap total, memory promised to containers, memory promised to
/// VMs): `(total, committed, swap_used, swap_total)`. None when any number
/// cannot be read — including a committed total that does not fit in 32
/// bits — which is deliberately not the same as a healthy host.
pub open spec fn host_memory(stdout: Seq<char>) -> Option<(u32, u32, u32, u32)> {
    let ws = words(stdout);
    if ws.len() < 5 {
        None
    } else {
        match (word_u32(ws, 0), word_u32(ws, 1), word_u32(ws, 2), word_u32(ws, 3), word_u32(ws, 4)) {
            (Some(t), Some(su), Some(st), Some(l), Some(v)) => if l + v <= 4294967295 {
                Some((t as u32, (l + v) as u32, su as u32, st as u32))
            } else {
                None
            },
            _ => None,
        }
    }
}

pub fn parse_host_memory(stdout: &str) -> (r: Option<(u32, u32, u32, u32)>)
    ensures
        r == host_memory(stdout@),
{
    let n = split_whitespace(stdout);
    if n.len() < 5 {
        return None;
    }
    proof {
        assert(views(n@)[0] == n@[0]@);
        assert(views(n@)[1] == n@[1]@);
        assert(views(n@)[2] == n@[2]@);
        assert(views(n@)[3] == n@[3]@);
        assert(views(n@)[4] == n@[4]@);
    }
    let t = parse_uint(n[0], 4294967295);
    let su = parse_uint(n[1], 4294967295);
    let st = parse_uint(n[2], 4294967295);
    let l = parse_uint(n[3], 4294967295);
    let v = parse_uint(n[4], 4294967295);
    match (t, su, st, l, v) {
        (Some(t), Some(su), Some(st), Some(l), Some(v)) => {
            if l + v <= 4294967295 {
                Some((t as u32, (l + v) as u32, su as u32, st as u32))
            } else {
                None
            }
        },
        _ => None,
    }
}

/// What the host's memory looks like, printed as `parse_host_memory`
/// reads it: total, swap in use and swap total from `free`, then the
/// memory promised to containers and to VMs.
pub const HOST_MEMORY_SCRIPT: &'static str = "free -m | awk '/^Mem:/{print $2} /^Swap:/{print $3\" \"$2}'; pct list 2>/dev/null | awk 'NR>1{print $1}' | xargs -r -n1 pct config 2>/dev/null | awk '/^memory:/{s+=$2} END{print s+0}'; qm list 2>/dev/null | awk 'NR>1{s+=$4} END{print s+0}'";

/// Total RAM, memory promised to guests, and swap in use and in total:
/// one request, the script; `None` when it could not run or its output
/// does not read as those numbers — never a healthy-looking host.
pub fn read_host_memory<E: Executor>(exec: &mut E) -> (r: Option<(u32, u32, u32, u32)>)
    ensures
        final(exec).requests() == old(exec).requests().push(Request::Run("sh"@, seq!["-c"@, HOST_MEMORY_SCRIPT@], 60)),
        final(exec).replies().len() == old(exec).replies().len() + 1,
        final(exec).replies().drop_last() == old(exec).replies(),
        match final(exec).replies().last() {
            Some(o) => r == host_memory(o.stdout),
            None => r is None,
        },
{
    let c = Cmd::new("sh", &["-c", HOST_MEMORY_SCRIPT], 60);
    proof {
        assert(string_views(c.args@) =~= seq!["-c"@, HOST_MEMORY_SCRIPT@]);
    }
    match exec.run(&c) {
        Ok(out) => parse_host_memory(out.stdout.as_str()),
        Err(_) => None,
    }
}

/// One line of `pct list`: the vmid and the last column (the name), when
/// the line has at least three columns and the vmid reads.
pub open spec fn pct_row(l: Seq<char>) -> Option<(u16, Seq<char>)> {
    let ws = words(l);
    if ws.len() >= 3 {
        match parse_unsigned(ws[0], 65535) {
            Some(v) => Some((v as u16, ws.last())),
            None => None,
        }
    } else {
        None
    }
}

pub open spec fn pct_rows(ls: Seq<Seq<char>>) -> Seq<(u16, Seq<char>)>
    decreases ls.len(),
{
    if ls.len() == 0 {
        Seq::empty()
    } else {
        pct_rows(ls.drop_last()) + match pct_row(ls.last()) {
            Some(r) => seq![r],
            None => Seq::empty(),
        }
    }
}

pub open spec fn containers_view(v: Seq<(u16, String)>) -> Seq<(u16, Seq<char>)> {
    v.map_values(|p: (u16, String)| (p.0, p.1@))
}

/// `pct list` read into (vmid, hostname) per container, the header skipped.
pub fn parse_pct_list(stdout: &str) -> (r: Vec<(u16, String)>)
    ensures
        containers_view(r@) == if lines_of(stdout@).len() == 0 {
            Seq::empty()
        } else {
            pct_rows(lines_of(stdout@).drop_first())
        },
{
    let ls = lines(stdout);
    let ghost lv = views(ls@);
    let mut out: Vec<(u16, String)> = Vec::new();
    if ls.len() == 0 {
        proof {
            assert(containers_view(out@) =~= Seq::<(u16, Seq<char>)>::empty());
        }
        return out;
    }
    let ghost body = lv.drop_first();
    let mut i: usize = 1;
    proof {
        assert(body.take(0) =~= Seq::<Seq<char>>::empty());
        assert(containers_view(out@) =~= Seq::<(u16, Seq<char>)>::empty());
    }
    while i < ls.len()
        invariant
            1 <= i <= ls.len(),
            lv == views(ls@),
            body == lv.drop_first(),
            containers_view(out@) == pct_rows(body.take(i - 1)),
        decreases ls.len() - i,
    {
        proof {
            assert(body.take(i as int).drop_last() =~= body.take(i - 1));
            assert(body.take(i as int).last() == ls@[i as int]@);
        }
        let cols = split_whitespace(ls[i]);
        if cols.len() >= 3 {
            proof {
                assert(views(cols@)[0] == cols@[0]@);
                assert(views(cols@).last() == cols@[cols.len() - 1]@);
            }
            if let Some(v) = parse_uint(cols[0], 65535) {
                let ghost before = containers_view(out@);
                out.push((v as u16, String::from_str(cols[cols.len() - 1])));
                proof {
                    assert(containers_view(out@) =~= before.push((v as u16, cols@[cols.len() - 1]@)));
                }
            }
        }
        i += 1;
    }
    proof {
        assert(body.take(ls.len() - 1) =~= body);
    }
    out
}

/// What the growth probe's `key=value` lines set, and whether the
/// unconditional `guards` line came (without it the probe never ran).
pub struct GrowthScan {
    pub disk: u8,
    pub mem: u8,
    pub swap: u32,
    pub journal: u32,
    pub dockerlogs: u32,
    pub guards: bool,
    pub probed: bool,
}

pub open spec fn num_or_zero(v: Seq<char>, max: nat) -> nat {
    match parse_unsigned(v, max) {
        Some(x) => x,
        None => 0,
    }
}

pub open spec fn growth_step(g: GrowthScan, l: Seq<char>) -> GrowthScan {
    match split_once(trimmed(l), '=') {
        None => g,
        Some((k, v)) => if k == "disk"@ {
            GrowthScan { disk: num_or_zero(v, 255) as u8, ..g }
        } else if k == "mem"@ {
            GrowthScan { mem: num_or_zero(v, 255) as u8, ..g }
        } else if k == "swap"@ {
            GrowthScan { swap: num_or_zero(v, 4294967295) as u32, ..g }
        } else if k == "journal"@ {
            GrowthScan { journal: num_or_zero(v, 4294967295) as u32, ..g }
        } else if k == "dockerlogs"@ {
            GrowthScan { dockerlogs: num_or_zero(v, 4294967295) as u32, ..g }
        } else if k == "guards"@ {
            GrowthScan { guards: v == "1"@, probed: true, ..g }
        } else {
            g
        },
    }
}

pub open spec fn growth_scan(ls: Seq<Seq<char>>) -> GrowthScan
    decreases ls.len(),
{
    if ls.len() == 0 {
        GrowthScan { disk: 0, mem: 0, swap: 0, journal: 0, dockerlogs: 0, guards: false, probed: false }
    } else {
        growth_step(growth_scan(ls.drop_last()), ls.last())
    }
}

proof fn lemma_step_probed(g: GrowthScan, l: Seq<char>)
    ensures
        growth_step(g, l).probed == (g.probed || line_key_is(l, "guards"@)),
{
    reveal_strlit("disk");
    reveal_strlit("mem");
    reveal_strlit("swap");
    reveal_strlit("journal");
    reveal_strlit("dockerlogs");
    reveal_strlit("guards");
    assert("disk"@.len() == 4 && "mem"@.len() == 3 && "swap"@.len() == 4 && "journal"@.len() == 7);
    assert("dockerlogs"@.len() == 10 && "guards"@.len() == 6);
}

/// The line names `key` before its first `=`, once trimmed.
pub open spec fn line_key_is(l: Seq<char>, key: Seq<char>) -> bool {
    split_once(trimmed(l), '=') matches Some((k, _)) && k == key
}

/// The probe counts as having run exactly when some line names `guards`;
/// and a line that names none of the six keys changes nothing, so each
/// reading is the value of the last line that names it.
pub proof fn law_probed_iff_guards_line(ls: Seq<Seq<char>>, l: Seq<char>)
    ensures
        growth_scan(ls).probed <==> exists|i: int| 0 <= i < ls.len() && #[trigger] line_key_is(ls[i], "guards"@),
        !line_key_is(l, "disk"@) && !line_key_is(l, "mem"@) && !line_key_is(l, "swap"@) && !line_key_is(l, "journal"@)
            && !line_key_is(l, "dockerlogs"@) && !line_key_is(l, "guards"@) ==> growth_scan(ls.push(l)) == growth_scan(ls),
    decreases ls.len(),
{
    assert(ls.push(l).drop_last() =~= ls);
    reveal_strlit("disk");
    reveal_strlit("mem");
    reveal_strlit("swap");
    reveal_strlit("journal");
    reveal_strlit("dockerlogs");
    reveal_strlit("guards");
    if ls.len() > 0 {
        let init = ls.drop_last();
        law_probed_iff_guards_line(init, ls.last());
        lemma_step_probed(growth_scan(init), ls.last());
        if growth_scan(ls).probed {
            if !line_key_is(ls.last(), "guards"@) {
                let i = choose|i: int| 0 <= i < init.len() && #[trigger] line_key_is(init[i], "guards"@);
                assert(init[i] == ls[i]);
            } else {
                assert(ls[ls.len() - 1] == ls.last());
            }
        }
        if exists|i: int| 0 <= i < ls.len() && #[trigger] line_key_is(ls[i], "guards"@) {
            let i = choose|i: int| 0 <= i < ls.len() && #[trigger] line_key_is(ls[i], "guards"@);
            if i < init.len() {
                assert(init[i] == ls[i]);
                assert(line_key_is(init[i], "guards"@));
            }
        }
    }
}

fn num_exec(v: &str, max: u64) -> (r: u64)
    ensures
        r == num_or_zero(v@, max as nat),
{
    match parse_uint(v, max) {
        Some(x) => x,
        None => 0,
    }
}

/// The growth probe's answer as a fact — `None` when the probe never ran
/// inside the container (no `guards` line).
pub fn parse_growth(vmid: u16, hostname: &str, stdout: &str) -> (r: Option<GrowthFact>)
    ensures
        ({
            let s = growth_scan(lines_of(stdout@));
            if s.probed {
                r matches Some(g) && g.vmid == vmid && g.hostname@ == hostname@ && g.disk_used_pct == s.disk
                    && g.mem_used_pct == s.mem && g.swap_used_mb == s.swap && g.journal_mb == s.journal
                    && g.docker_logs_mb == s.dockerlogs && g.guards == s.guards
            } else {
                r is None
            }
        }),
{
    let ls = lines(stdout);
    let ghost lv = views(ls@);
    let mut disk: u8 = 0;
    let mut mem: u8 = 0;
    let mut swap: u32 = 0;
    let mut journal: u32 = 0;
    let mut dockerlogs: u32 = 0;
    let mut guards = false;
    let mut probed = false;
    let mut i: usize = 0;
    while i < ls.len()
        invariant
            i <= ls.len(),
            lv == views(ls@),
            growth_scan(lv.take(i as int)) == (GrowthScan { disk, mem, swap, journal, dockerlogs, guards, probed }),
        decreases ls.len() - i,
    {
        proof {
            assert(lv.take(i + 1).drop_last() =~= lv.take(i as int));
            assert(lv.take(i + 1).last() == ls@[i as int]@);
        }
        if let Some((k, v)) = str_split_once(trim(ls[i]), '=') {
            if str_eq(k, "disk") {
                disk = num_exec(v, 255) as u8;
            } else if str_eq(k, "mem") {
                mem = num_exec(v, 255) as u8;
            } else if str_eq(k, "swap") {
                swap = num_exec(v, 4294967295) as u32;
            } else if str_eq(k, "journal") {
                journal = num_exec(v, 4294967295) as u32;
            } else if str_eq(k, "dockerlogs") {
                dockerlogs = num_exec(v, 4294967295) as u32;
            } else if str_eq(k, "guards") {
                guards = str_eq(v, "1");
                probed = true;
            }
        }
        i += 1;
    }
    proof {
        assert(lv.take(ls.len() as int) =~= lv);
    }
    if probed {
        Some(GrowthFact {
            vmid,
            hostname: String::from_str(hostname),
            disk_used_pct: disk,
            mem_used_pct: mem,
            swap_used_mb: swap,
            journal_mb: journal,
            docker_logs_mb: dockerlogs,
            guards,
        })
    } else {
        None
    }
}

// ── The gateway's routes ────────────────────────────────────────────────────

/// `s` without the double quotes at either end.
pub open spec fn unquoted(s: Seq<char>) -> Seq<char> {
    trim_end_char(trim_start_char(s, '"'), '"')
}

fn str_unquoted(s: &str) -> (r: &str)
    ensures
        r@ == unquoted(s@),
{
    str_trim_end_char(str_trim_start_char(s, '"'), '"')
}

/// What a route file line points at: the value of a `- url:` or
/// `- address:` entry, trimmed and without its double quotes.
pub open spec fn route_entry(l: Seq<char>) -> Option<Seq<char>> {
    let t = trimmed(l);
    match strip_prefix(t, "- url:"@) {
        Some(v) => Some(unquoted(trimmed(v))),
        None => match strip_prefix(t, "- address:"@) {
            Some(v) => Some(unquoted(trimmed(v))),
            None => None,
        },
    }
}

/// The gateway's route files, listed as `### <file>` headers each followed
/// by the file: the file being read, and every `(file, target)` so far.
pub open spec fn routes_scan(ls: Seq<Seq<char>>) -> (Seq<char>, Seq<(Seq<char>, Seq<char>)>)
    decreases ls.len(),
{
    if ls.len() == 0 {
        (Seq::empty(), Seq::empty())
    } else {
        let (cur, acc) = routes_scan(ls.drop_last());
        match strip_prefix(ls.last(), "### "@) {
            Some(name) => (name, acc),
            None => match route_entry(ls.last()) {
                Some(t) => (cur, acc.push((cur, t))),
                None => (cur, acc),
            },
        }
    }
}

fn route_entry_exec(l: &str) -> (r: Option<&str>)
    ensures
        match r {
            Some(t) => route_entry(l@) == Some(t@),
            None => route_entry(l@) is None,
        },
{
    let t = trim(l);
    match str_strip_prefix(t, "- url:") {
        Some(v) => Some(str_unquoted(trim(v))),
        None => match str_strip_prefix(t, "- address:") {
            Some(v) => Some(str_unquoted(trim(v))),
            None => None,
        },
    }
}

/// Every route target the gateway's files name, with the file it is in.
pub fn route_targets(listing: &str) -> (r: Vec<(String, String)>)
    ensures
        r@.map_values(|p: (String, String)| (p.0@, p.1@)) == routes_scan(lines_of(listing@)).1,
{
    let ls = lines(listing);
    let ghost lv = views(ls@);
    let mut current = String::new();
    let mut out: Vec<(String, String)> = Vec::new();
    let mut i: usize = 0;
    proof {
        reveal_strlit("");
        assert(current@ =~= routes_scan(lv.take(0)).0);
        assert(out@.map_values(|p: (String, String)| (p.0@, p.1@)) =~= routes_scan(lv.take(0)).1);
    }
    while i < ls.len()
        invariant
            i <= ls.len(),
            lv == views(ls@),
            lv == lines_of(listing@),
            current@ == routes_scan(lv.take(i as int)).0,
            out@.map_values(|p: (String, String)| (p.0@, p.1@)) == routes_scan(lv.take(i as int)).1,
        decreases ls.len() - i,
    {
        proof {
            assert(lv.take(i + 1).drop_last() =~= lv.take(i as int));
            assert(lv.take(i + 1).last() == ls@[i as int]@);
        }
        let l = ls[i];
        match str_strip_prefix(l, "### ") {
            Some(name) => {
                current = String::from_str(name);
            },
            None => match route_entry_exec(l) {
                Some(t) => {
                    let ghost before = out@.map_values(|p: (String, String)| (p.0@, p.1@));
                    out.push((current.clone(), String::from_str(t)));
                    proof {
                        assert(out@.map_values(|p: (String, String)| (p.0@, p.1@)) =~= before.push((current@, t@)));
                    }
                },
                None => {},
            },
        }
        i += 1;
    }
    proof {
        assert(lv.take(ls.len() as int) =~= lv);
    }
    out
}

// ── Backups somebody else makes ─────────────────────────────────────────────

/// What the newest file's date (as `date +%s` printed it) says of a
/// watched backup's age: `None` when it is not a number.
pub fn watched_age(now: u64, epoch_stdout: &str) -> (r: Option<u64>)
    ensures
        match crate::text::parse_unsigned(trimmed(epoch_stdout@), u64::MAX as nat) {
            Some(t) => r == Some(if now >= t { (now - t) as u64 } else { 0u64 }),
            None => r is None,
        },
{
    match parse_uint(trim(epoch_stdout), u64::MAX) {
        Some(t) => Some(now.saturating_sub(t)),
        None => None,
    }
}

/// A watched backup's fact, from what the listing gave back: the listing
/// failed (`listing_error`), or it named the newest file's age (or found
/// nothing).
pub fn watched_fact(spec: &WatchedBackupSpec, listing_error: Option<String>, newest_age_s: Option<u64>) -> (r: WatchedBackupFact)
    requires
        spec.max_age_hours * 3600 <= u64::MAX,
    ensures
        r.name@ == spec.name@,
        r.max_age_s == spec.max_age_hours * 3600,
        r.error == listing_error,
        listing_error is None ==> r.newest_age_s == newest_age_s,
        listing_error is Some ==> r.newest_age_s is None,
{
    let age = match &listing_error {
        Some(_) => None,
        None => newest_age_s,
    };
    WatchedBackupFact {
        name: spec.name.clone(),
        newest_age_s: age,
        max_age_s: spec.max_age_hours * 3600,
        error: listing_error,
    }
}


/// What precedes each dashboard uid in Grafana's search answer.
pub const UID_KEY: &'static str = "\"uid\":\"";

pub proof fn lemma_uid_rest_shorter(s: Seq<char>)
    ensures
        split_once_str(s, UID_KEY@) matches Some((a, rest)) ==> rest.len() < s.len(),
{
    reveal_strlit("\"uid\":\"");
    lemma_first_occurrence(s, UID_KEY@, 0);
}

/// The uids in Grafana's search answer: the text after each `"uid":"`, up
/// to the next quote.
pub open spec fn uids_in(s: Seq<char>) -> Seq<Seq<char>>
    decreases s.len(),
{
    match split_once_str(s, UID_KEY@) {
        Some((_, rest)) => {
            proof {
                lemma_uid_rest_shorter(s);
            }
            seq![before_first(rest, '"')] + uids_in(rest)
        },
        None => Seq::empty(),
    }
}

/// Ask the gateway's Grafana for the dashboards tagged `generated`, with
/// the admin credentials from the `.env` beside the dashboards directory.
pub open spec fn grafana_search_script(app_dir: Seq<char>) -> Seq<char> {
    "U=$(grep -h GRAFANA_GF_ADMIN_USER "@ + app_dir + "/.env | cut -d= -f2); P=$(grep -h GRAFANA_GF_ADMIN_PASSWORD "@ + app_dir
        + "/.env | cut -d= -f2); curl -s -m 15 -u \"$U:$P\" 'http://127.0.0.1:3000/api/search?tag=generated&limit=500'"@
}

/// The uids of the dashboards Grafana holds as generated. `None` when the
/// question could not be asked or was not answered with uids — never an
/// empty answer for a gateway that is down.
pub fn grafana_generated_uids<E: Executor>(exec: &mut E, gateway_vmid: u16, dashboards_dir: &str) -> (r: Option<Vec<String>>)
    ensures
        path_parent(dashboards_dir@) is None ==> r is None && final(exec).requests() == old(exec).requests()
            && final(exec).replies() == old(exec).replies(),
        path_parent(dashboards_dir@) is Some ==> final(exec).replies().len() == old(exec).replies().len() + 1
            && final(exec).replies().drop_last() == old(exec).replies(),
        path_parent(dashboards_dir@) matches Some(d) ==> final(exec).requests() == old(exec).requests().push(
            Request::Run("pct"@, pct_sh_args(gateway_vmid, grafana_search_script(d)), 60),
        ) && match final(exec).replies().last() {
            Some(o) => if contains(o.stdout, "\"uid\""@) {
                r matches Some(v) && string_views(v@) == uids_in(o.stdout)
            } else {
                r is None
            },
            None => r is None,
        },
{
    let app_dir = match parent_dir(dashboards_dir) {
        Some(d) => d,
        None => return None,
    };
    let mut script = String::from_str("U=$(grep -h GRAFANA_GF_ADMIN_USER ");
    script.append(app_dir.as_str());
    script.append("/.env | cut -d= -f2); P=$(grep -h GRAFANA_GF_ADMIN_PASSWORD ");
    script.append(app_dir.as_str());
    script.append("/.env | cut -d= -f2); curl -s -m 15 -u \"$U:$P\" 'http://127.0.0.1:3000/api/search?tag=generated&limit=500'");
    proof {
        assert(script@ =~= grafana_search_script(app_dir@));
    }
    let out = match pct_sh(exec, gateway_vmid, script.as_str(), 60) {
        Ok(o) => o,
        Err(_) => return None,
    };
    if !str_contains(out.stdout.as_str(), "\"uid\"") {
        return None;
    }
    let mut uids: Vec<String> = Vec::new();
    let mut rest: &str = out.stdout.as_str();
    proof {
        assert(string_views(uids@) + uids_in(rest@) =~= uids_in(out.stdout@));
    }
    loop
        invariant
            string_views(uids@) + uids_in(rest@) == uids_in(out.stdout@),
        ensures
            string_views(uids@) == uids_in(out.stdout@),
        decreases rest@.len(),
    {
        match str_split_once_str(rest, UID_KEY) {
            Some((_, after)) => {
                proof {
                    lemma_uid_rest_shorter(rest@);
                }
                let ghost before = string_views(uids@);
                uids.push(String::from_str(str_before_first(after, '"')));
                proof {
                    assert(string_views(uids@) =~= before.push(before_first(after@, '"')));
                    assert(uids_in(rest@) == seq![before_first(after@, '"')] + uids_in(after@));
                    assert(string_views(uids@) + uids_in(after@) =~= before + uids_in(rest@));
                }
                rest = after;
            },
            None => {
                proof {
                    assert(uids_in(rest@) == Seq::<Seq<char>>::empty());
                    assert(string_views(uids@) =~= uids_in(out.stdout@));
                }
                break;
            },
        }
    }
    Some(uids)
}

/// What the growth probe asks inside a container: disk and memory use,
/// swap, the journal's and docker's logs, and whether both log guards are
/// in place (both halves, or a half-guarded container reads as guarded).
pub open spec fn growth_probe() -> Seq<char> {
    "df -P / | awk 'NR==2{gsub(\"%\",\"\",$5); print \"disk=\"$5}'; free -m | awk '/^Mem:/{if($2>0) printf \"mem=%d\\n\", ($3*100)/$2} /^Swap:/{print \"swap=\"$3}'; echo \"journal=$(du -sm /var/log/journal 2>/dev/null | cut -f1)\"; echo \"dockerlogs=$(du -sm /var/lib/docker/containers 2>/dev/null | cut -f1)\"; if ls /etc/systemd/journald.conf.d/*.conf >/dev/null 2>&1 && grep -q max-size /etc/docker/daemon.json 2>/dev/null; then echo guards=1; else echo guards=0; fi"@
}

fn growth_probe_text() -> (r: &'static str)
    ensures
        r@ == growth_probe(),
{
    "df -P / | awk 'NR==2{gsub(\"%\",\"\",$5); print \"disk=\"$5}'; free -m | awk '/^Mem:/{if($2>0) printf \"mem=%d\\n\", ($3*100)/$2} /^Swap:/{print \"swap=\"$3}'; echo \"journal=$(du -sm /var/log/journal 2>/dev/null | cut -f1)\"; echo \"dockerlogs=$(du -sm /var/lib/docker/containers 2>/dev/null | cut -f1)\"; if ls /etc/systemd/journald.conf.d/*.conf >/dev/null 2>&1 && grep -q max-size /etc/docker/daemon.json 2>/dev/null; then echo guards=1; else echo guards=0; fi"
}

/// The request that reads a container's growth.
pub open spec fn growth_request(vmid: u16) -> Request {
    Request::Run("pct"@, pct_sh_args(vmid, growth_probe()), 45)
}

/// The request that reads a container's configuration.
pub open spec fn config_request(vmid: u16) -> Request {
    Request::Run("pct"@, seq!["config"@, dec(vmid as nat)], 30)
}

/// `g` is the reading the growth probe's answer `stdout` gives.
pub open spec fn growth_reading(g: GrowthFact, stdout: Seq<char>) -> bool {
    let s = growth_scan(lines_of(stdout));
    &&& s.probed
    &&& g.disk_used_pct == s.disk && g.mem_used_pct == s.mem && g.swap_used_mb == s.swap
    &&& g.journal_mb == s.journal && g.docker_logs_mb == s.dockerlogs && g.guards == s.guards
}

/// The containers the listing names, from its reply.
pub open spec fn listed(reply: Option<OutputView>) -> Seq<(u16, Seq<char>)> {
    match reply {
        Some(o) => if lines_of(o.stdout).len() == 0 {
            Seq::empty()
        } else {
            pct_rows(lines_of(o.stdout).drop_first())
        },
        None => Seq::empty(),
    }
}

/// Every growth fact is of a container that may be touched and is what
/// the answer to its probe, from `n0` on, reads.
#[verifier::opaque]
pub open spec fn growth_facts_read(q: Seq<Request>, h: Seq<Option<OutputView>>, d: int, n0: int, no_touch: Seq<u16>, growth: Seq<GrowthFact>) -> bool {
    forall|k: int|
        0 <= k < growth.len() ==> !no_touch.contains(#[trigger] growth[k].vmid) && exists|i: int|
            n0 < i < q.len() && q[i] == growth_request(growth[k].vmid) && (h[i + d] matches Some(o) && growth_reading(
                growth[k],
                o.stdout,
            ))
}

/// Every boot fact is of a container that may be touched and is what its
/// configuration read, from `n0` on, says.
#[verifier::opaque]
pub open spec fn boot_facts_read(q: Seq<Request>, h: Seq<Option<OutputView>>, d: int, n0: int, no_touch: Seq<u16>, boot: Seq<BootFact>) -> bool {
    forall|k: int|
        0 <= k < boot.len() ==> !no_touch.contains(#[trigger] boot[k].vmid) && exists|i: int|
            n0 < i < q.len() && q[i] == config_request(boot[k].vmid) && (h[i + d] matches Some(o) && o.code == 0
                && boot[k].live == live_config(o.stdout))
}

proof fn lemma_facts_read_grow(
    q1: Seq<Request>,
    h1: Seq<Option<OutputView>>,
    q2: Seq<Request>,
    h2: Seq<Option<OutputView>>,
    d: int,
    n0: int,
    no_touch: Seq<u16>,
    growth: Seq<GrowthFact>,
    boot: Seq<BootFact>,
)
    requires
        growth_facts_read(q1, h1, d, n0, no_touch, growth),
        boot_facts_read(q1, h1, d, n0, no_touch, boot),
        extends(q1, h1, q2, h2),
        h1.len() == q1.len() + d,
        0 <= n0,
        0 <= d,
    ensures
        growth_facts_read(q2, h2, d, n0, no_touch, growth),
        boot_facts_read(q2, h2, d, n0, no_touch, boot),
{
    reveal(growth_facts_read);
    reveal(boot_facts_read);
    assert forall|k: int| 0 <= k < growth.len() implies !no_touch.contains(#[trigger] growth[k].vmid) && exists|i: int|
        n0 < i < q2.len() && q2[i] == growth_request(growth[k].vmid) && (h2[i + d] matches Some(o) && growth_reading(
            growth[k],
            o.stdout,
        )) by {
        let i = choose|i: int|
            n0 < i < q1.len() && q1[i] == growth_request(growth[k].vmid) && (h1[i + d] matches Some(o) && growth_reading(
                growth[k],
                o.stdout,
            ));
        assert(q2[i] == q2.take(q1.len() as int)[i]);
        assert(h2[i + d] == h2.take(h1.len() as int)[i + d]);
    }
    assert forall|k: int| 0 <= k < boot.len() implies !no_touch.contains(#[trigger] boot[k].vmid) && exists|i: int|
        n0 < i < q2.len() && q2[i] == config_request(boot[k].vmid) && (h2[i + d] matches Some(o) && o.code == 0
            && boot[k].live == live_config(o.stdout)) by {
        let i = choose|i: int|
            n0 < i < q1.len() && q1[i] == config_request(boot[k].vmid) && (h1[i + d] matches Some(o) && o.code == 0
                && boot[k].live == live_config(o.stdout));
        assert(q2[i] == q2.take(q1.len() as int)[i]);
        assert(h2[i + d] == h2.take(h1.len() as int)[i + d]);
    }
}

proof fn lemma_growth_fact_added(q: Seq<Request>, h: Seq<Option<OutputView>>, d: int, n0: int, no_touch: Seq<u16>, growth: Seq<GrowthFact>, f: GrowthFact, i: int)
    requires
        growth_facts_read(q, h, d, n0, no_touch, growth),
        !no_touch.contains(f.vmid),
        n0 < i < q.len(),
        q[i] == growth_request(f.vmid),
        h[i + d] matches Some(o) && growth_reading(f, o.stdout),
    ensures
        growth_facts_read(q, h, d, n0, no_touch, growth.push(f)),
{
    reveal(growth_facts_read);
    assert forall|k: int| 0 <= k < growth.push(f).len() implies !no_touch.contains(#[trigger] growth.push(f)[k].vmid) && exists|j: int|
        n0 < j < q.len() && q[j] == growth_request(growth.push(f)[k].vmid) && (h[j + d] matches Some(o) && growth_reading(
            growth.push(f)[k],
            o.stdout,
        )) by {
        if k < growth.len() {
            assert(growth.push(f)[k] == growth[k]);
        }
    }
}

proof fn lemma_boot_fact_added(q: Seq<Request>, h: Seq<Option<OutputView>>, d: int, n0: int, no_touch: Seq<u16>, boot: Seq<BootFact>, b: BootFact, i: int)
    requires
        boot_facts_read(q, h, d, n0, no_touch, boot),
        !no_touch.contains(b.vmid),
        n0 < i < q.len(),
        q[i] == config_request(b.vmid),
        h[i + d] matches Some(o) && o.code == 0 && b.live == live_config(o.stdout),
    ensures
        boot_facts_read(q, h, d, n0, no_touch, boot.push(b)),
{
    reveal(boot_facts_read);
    assert forall|k: int| 0 <= k < boot.push(b).len() implies !no_touch.contains(#[trigger] boot.push(b)[k].vmid) && exists|j: int|
        n0 < j < q.len() && q[j] == config_request(boot.push(b)[k].vmid) && (h[j + d] matches Some(o) && o.code == 0
            && boot.push(b)[k].live == live_config(o.stdout)) by {
        if k < boot.len() {
            assert(boot.push(b)[k] == boot[k]);
        }
    }
}

/// A growth answer from a probe that ran gave a fact about `vmid`.
pub open spec fn growth_given(growth: Seq<GrowthFact>, vmid: u16, hostname: Seq<char>, reply: Option<OutputView>) -> bool {
    match reply {
        Some(o) => growth_scan(lines_of(o.stdout)).probed ==> exists|x: int|
            0 <= x < growth.len() && #[trigger] growth[x].vmid == vmid && growth[x].hostname@ == hostname && growth_reading(
                growth[x],
                o.stdout,
            ),
        None => true,
    }
}

/// A configuration read that succeeded gave a fact about `vmid`.
pub open spec fn boot_given(boot: Seq<BootFact>, vmid: u16, hostname: Seq<char>, reply: Option<OutputView>) -> bool {
    match reply {
        Some(o) => o.code == 0 ==> exists|y: int|
            0 <= y < boot.len() && #[trigger] boot[y].vmid == vmid && boot[y].hostname@ == hostname && boot[y].live
                == live_config(o.stdout),
        None => true,
    }
}

/// Container `vmid` had its growth and then its configuration read, from
/// `n0` on, and each answer that could give a fact gave one.
#[verifier::opaque]
pub open spec fn container_read(
    q: Seq<Request>,
    h: Seq<Option<OutputView>>,
    d: int,
    n0: int,
    growth: Seq<GrowthFact>,
    boot: Seq<BootFact>,
    vmid: u16,
    hostname: Seq<char>,
) -> bool {
    exists|i: int|
        #![trigger q[i]]
        n0 < i && i + 1 < q.len() && q[i] == growth_request(vmid) && q[i + 1] == config_request(vmid) && growth_given(
            growth,
            vmid,
            hostname,
            h[i + d],
        ) && boot_given(boot, vmid, hostname, h[i + 1 + d])
}

proof fn lemma_read_grows(
    q1: Seq<Request>,
    h1: Seq<Option<OutputView>>,
    q2: Seq<Request>,
    h2: Seq<Option<OutputView>>,
    d: int,
    n0: int,
    g1: Seq<GrowthFact>,
    g2: Seq<GrowthFact>,
    b1: Seq<BootFact>,
    b2: Seq<BootFact>,
    vmid: u16,
    hostname: Seq<char>,
)
    requires
        container_read(q1, h1, d, n0, g1, b1, vmid, hostname),
        extends(q1, h1, q2, h2),
        h1.len() == q1.len() + d,
        0 <= n0,
        0 <= d,
        g1.len() <= g2.len() && g2.take(g1.len() as int) == g1,
        b1.len() <= b2.len() && b2.take(b1.len() as int) == b1,
    ensures
        container_read(q2, h2, d, n0, g2, b2, vmid, hostname),
{
    reveal(container_read);
    let i = choose|i: int|
        #![trigger q1[i]]
        n0 < i && i + 1 < q1.len() && q1[i] == growth_request(vmid) && q1[i + 1] == config_request(vmid) && growth_given(
            g1,
            vmid,
            hostname,
            h1[i + d],
        ) && boot_given(b1, vmid, hostname, h1[i + 1 + d]);
    assert(q2[i] == q2.take(q1.len() as int)[i]);
    assert(q2[i + 1] == q2.take(q1.len() as int)[i + 1]);
    assert(h2[i + d] == h2.take(h1.len() as int)[i + d]);
    assert(h2[i + 1 + d] == h2.take(h1.len() as int)[i + 1 + d]);
    match h2[i + d] {
        Some(o) => {
            if growth_scan(lines_of(o.stdout)).probed {
                let x = choose|x: int|
                    0 <= x < g1.len() && #[trigger] g1[x].vmid == vmid && g1[x].hostname@ == hostname && growth_reading(g1[x], o.stdout);
                assert(g2[x] == g2.take(g1.len() as int)[x]);
            }
        },
        None => {},
    }
    match h2[i + 1 + d] {
        Some(o) => {
            if o.code == 0 {
                let y = choose|y: int|
                    0 <= y < b1.len() && #[trigger] b1[y].vmid == vmid && b1[y].hostname@ == hostname && b1[y].live == live_config(o.stdout);
                assert(b2[y] == b2.take(b1.len() as int)[y]);
            }
        },
        None => {},
    }
    assert(q2[i] == growth_request(vmid));
}

/// The facts read from the containers themselves: every container the
/// hypervisor lists, then for each one the inputs do not mark untouchable
/// its growth and its configured shape. A reading that failed, or a probe that never ran
/// inside the container, adds no fact: not examined is not examined and
/// found wanting.
#[verifier::rlimit(100)]
#[verifier::spinoff_prover]
pub fn gather_container_facts<E: Executor>(exec: &mut E, inp: &FactsInputs) -> (r: (Vec<(u16, String)>, Vec<GrowthFact>, Vec<BootFact>))
    ensures
        extends(old(exec).requests(), old(exec).replies(), final(exec).requests(), final(exec).replies()),
        final(exec).requests().len() > old(exec).requests().len(),
        final(exec).requests()[old(exec).requests().len() as int] == Request::Run("pct"@, seq!["list"@], 30),
        containers_view(r.0@) == listed(final(exec).replies()[old(exec).replies().len() as int]),
        old(exec).replies().len() >= old(exec).requests().len() ==> ({
            let n0 = old(exec).requests().len() as int;
            let d = old(exec).replies().len() - n0;
            let q = final(exec).requests();
            let h = final(exec).replies();
            &&& growth_facts_read(q, h, d, n0, inp.no_touch@, r.1@)
            &&& boot_facts_read(q, h, d, n0, inp.no_touch@, r.2@)
            &&& forall|k: int|
                0 <= k < r.0@.len() && !inp.no_touch@.contains(r.0@[k].0) ==> #[trigger] container_read(
                    q,
                    h,
                    d,
                    n0,
                    r.1@,
                    r.2@,
                    r.0@[k].0,
                    r.0@[k].1@,
                )
        }),
{
    let ghost q0 = exec.requests();
    let ghost h0 = exec.replies();
    let ghost n0 = q0.len() as int;
    let ghost d = h0.len() - n0;
    let mut args: Vec<String> = Vec::new();
    args.push(String::from_str("list"));
    let list = Cmd { program: String::from_str("pct"), args, timeout_s: 30 };
    proof {
        reveal_strlit("list");
        assert(string_views(list.args@) =~= seq!["list"@]);
    }
    let out = exec.run(&list);
    proof {
        lemma_pushed(q0, h0, exec.requests().last(), exec.replies().last());
        assert(exec.requests() == q0.push(exec.requests().last()));
        assert(exec.replies() == h0.push(exec.replies().last()));
    }
    let containers = match out {
        Ok(o) => parse_pct_list(o.stdout.as_str()),
        Err(_) => Vec::new(),
    };
    let ghost q1 = exec.requests();
    let ghost h1 = exec.replies();
    let mut growth: Vec<GrowthFact> = Vec::new();
    let mut boot: Vec<BootFact> = Vec::new();
    proof {
        assert(containers_view(containers@) == listed(h1[n0 + d]));
        lemma_extends_refl(q1, h1);
        reveal(growth_facts_read);
        reveal(boot_facts_read);
    }
    let mut k: usize = 0;
    while k < containers.len()
        invariant
            k <= containers.len(),
            q0 == old(exec).requests(),
            h0 == old(exec).replies(),
            n0 == q0.len(),
            d == h0.len() - n0,
            q1.len() == n0 + 1,
            q1[n0] == Request::Run("pct"@, seq!["list"@], 30),
            extends(q0, h0, q1, h1),
            extends(q1, h1, exec.requests(), exec.replies()),
            containers_view(containers@) == listed(h1[n0 + d]),
            h1.len() == q1.len() + d,
            d >= 0 ==> growth_facts_read(exec.requests(), exec.replies(), d, n0, inp.no_touch@, growth@),
            d >= 0 ==> boot_facts_read(exec.requests(), exec.replies(), d, n0, inp.no_touch@, boot@),
            d >= 0 ==> forall|j: int|
                0 <= j < k && !inp.no_touch@.contains(containers@[j].0) ==> #[trigger] container_read(
                    exec.requests(),
                    exec.replies(),
                    d,
                    n0,
                    growth@,
                    boot@,
                    containers@[j].0,
                    containers@[j].1@,
                ),
        decreases containers.len() - k,
    {
        let ghost qk = exec.requests();
        let ghost hk = exec.replies();
        let ghost gk = growth@;
        let ghost bk = boot@;
        proof {
            lemma_extends_refl(qk, hk);
        }
        let vmid = containers[k].0;
        if !crate::safety::contains_vmid(&inp.no_touch, vmid) {
            let ghost qa = exec.requests();
            let ghost ha = exec.replies();
            let ghost mut gx: int = -1;
            let ghost mut bx: int = -1;
            let g = pct_sh(exec, vmid, growth_probe_text(), 45);
            proof {
                lemma_pushed(qa, ha, exec.requests().last(), exec.replies().last());
                lemma_extends_trans(q1, h1, qa, ha, exec.requests(), exec.replies());
                if d >= 0 {
                    lemma_facts_read_grow(qa, ha, exec.requests(), exec.replies(), d, n0, inp.no_touch@, growth@, boot@);
                }
            }
            match g {
                Ok(o) => {
                    match parse_growth(vmid, containers[k].1.as_str(), o.stdout.as_str()) {
                        Some(f) => {
                            proof {
                                assert(exec.requests()[qa.len() as int] == growth_request(vmid));
                                assert(exec.replies()[qa.len() + d] == Some(o@));
                                if d >= 0 {
                                    lemma_growth_fact_added(exec.requests(), exec.replies(), d, n0, inp.no_touch@, growth@, f, qa.len() as int);
                                }
                            }
                            proof {
                                gx = growth@.len() as int;
                            }
                            growth.push(f);
                        },
                        None => {},
                    }
                },
                Err(_) => {},
            }
            let c = crate::ops::guard_probe(vmid);
            let ghost qb = exec.requests();
            let ghost hb = exec.replies();
            let cfg = exec.run(&c);
            proof {
                lemma_pushed(qb, hb, exec.requests().last(), exec.replies().last());
                lemma_extends_trans(q1, h1, qb, hb, exec.requests(), exec.replies());
                lemma_pushed(qa, ha, qb.last(), hb.last());
                assert(qb == qa.push(qb.last()));
                assert(hb == ha.push(hb.last()));
                lemma_extends_trans(qa, ha, qb, hb, exec.requests(), exec.replies());
                if d >= 0 {
                    lemma_facts_read_grow(qb, hb, exec.requests(), exec.replies(), d, n0, inp.no_touch@, growth@, boot@);
                }
            }
            match cfg {
                Ok(o) => {
                    if o.success() {
                        let live = crate::ops::reconcile::parse(o.stdout.as_str());
                        let b = BootFact { vmid, hostname: containers[k].1.clone(), live };
                        proof {
                            assert(exec.requests()[qb.len() as int] == config_request(vmid));
                            assert(exec.replies()[qb.len() + d] == Some(o@));
                            if d >= 0 {
                                lemma_boot_fact_added(exec.requests(), exec.replies(), d, n0, inp.no_touch@, boot@, b, qb.len() as int);
                            }
                        }
                        proof {
                            bx = boot@.len() as int;
                        }
                        boot.push(b);
                    }
                },
                Err(_) => {},
            }
            proof {
                if d >= 0 {
                    let i = qa.len() as int;
                    assert(exec.requests()[i] == growth_request(vmid));
                    assert(exec.requests()[i + 1] == config_request(vmid));
                    assert(exec.replies()[i + d] == hb[i + d]);
                    let hn = containers@[k as int].1@;
                    if gx >= 0 {
                        assert(growth@[gx].vmid == vmid && growth@[gx].hostname@ == hn);
                    }
                    if bx >= 0 {
                        assert(boot@[bx].vmid == vmid && boot@[bx].hostname@ == hn);
                    }
                    assert(growth_given(growth@, vmid, hn, exec.replies()[i + d]));
                    assert(boot_given(boot@, vmid, hn, exec.replies()[i + 1 + d]));
                    reveal(container_read);
                    assert(container_read(exec.requests(), exec.replies(), d, n0, growth@, boot@, vmid, containers@[k as int].1@));
                }
            }
        }
        proof {
            if d >= 0 {
                assert(growth@.take(gk.len() as int) =~= gk);
                assert(boot@.take(bk.len() as int) =~= bk);
                assert forall|j: int|
                    0 <= j < k + 1 && !inp.no_touch@.contains(containers@[j].0) implies #[trigger] container_read(
                    exec.requests(),
                    exec.replies(),
                    d,
                    n0,
                    growth@,
                    boot@,
                    containers@[j].0,
                    containers@[j].1@,
                ) by {
                    if j < k {
                        lemma_read_grows(qk, hk, exec.requests(), exec.replies(), d, n0, gk, growth@, bk, boot@, containers@[j].0, containers@[j].1@);
                    }
                }
            }
        }
        k += 1;
    }
    proof {
        lemma_extends_trans(q0, h0, q1, h1, exec.requests(), exec.replies());
        assert(exec.requests()[n0] == q1[n0]) by {
            assert(exec.requests().take(q1.len() as int)[n0] == exec.requests()[n0]);
        }
        assert(exec.replies()[n0 + d] == h1[n0 + d]) by {
            assert(exec.replies().take(h1.len() as int)[n0 + d] == exec.replies()[n0 + d]);
        }
    }
    (containers, growth, boot)
}

// ── The whole fact gathering ────────────────────────────────────────────────

/// The request `req` was made, from `n0` on, and its reply satisfies `p`.
#[verifier::opaque]
pub open spec fn asked(q: Seq<Request>, h: Seq<Option<OutputView>>, d: int, n0: int, req: Request, p: spec_fn(Option<OutputView>) -> bool) -> bool {
    exists|i: int| #![trigger q[i]] n0 <= i < q.len() && q[i] == req && p(h[i + d])
}

proof fn lemma_asked_grows(
    q1: Seq<Request>,
    h1: Seq<Option<OutputView>>,
    q2: Seq<Request>,
    h2: Seq<Option<OutputView>>,
    d: int,
    n0: int,
    req: Request,
    p: spec_fn(Option<OutputView>) -> bool,
)
    requires
        asked(q1, h1, d, n0, req, p),
        extends(q1, h1, q2, h2),
        h1.len() == q1.len() + d,
        0 <= n0,
        0 <= d,
    ensures
        asked(q2, h2, d, n0, req, p),
{
    reveal(asked);
    let i = choose|i: int| #![trigger q1[i]] n0 <= i < q1.len() && q1[i] == req && p(h1[i + d]);
    assert(q2[i] == q2.take(q1.len() as int)[i]);
    assert(h2[i + d] == h2.take(h1.len() as int)[i + d]);
}

proof fn lemma_asked_here(q: Seq<Request>, h: Seq<Option<OutputView>>, d: int, n0: int, req: Request, p: spec_fn(Option<OutputView>) -> bool, i: int)
    requires
        n0 <= i < q.len(),
        q[i] == req,
        p(h[i + d]),
    ensures
        asked(q, h, d, n0, req, p),
{
    reveal(asked);
}

/// How a watched backup's newest file is found: its listing, newest
/// modification time last.
pub open spec fn listing_script(path: Seq<char>) -> Seq<char> {
    "rclone lsjson --files-only '"@ + path + "' 2>&1 | sed -n 's/.*\"ModTime\":\"\\([^\"]*\\)\".*/\\1/p' | sort | tail -1"@
}

pub open spec fn listing_request(path: Seq<char>) -> Request {
    Request::Run("sh"@, seq!["-c"@, listing_script(path)], 180)
}

/// Each watched backup's fact names it, carries its limit, and says it
/// could not be listed exactly when its listing did not succeed.
#[verifier::opaque]
pub open spec fn watched_read(
    q: Seq<Request>,
    h: Seq<Option<OutputView>>,
    d: int,
    n0: int,
    specs: Seq<WatchedBackupSpec>,
    facts: Seq<WatchedBackupFact>,
) -> bool {
    forall|k: int|
        #![trigger facts[k]]
        0 <= k < facts.len() ==> k < specs.len() && facts[k].name@ == specs[k].name@ && facts[k].max_age_s
            == specs[k].max_age_hours * 3600 && asked(
            q,
            h,
            d,
            n0,
            listing_request(specs[k].rclone_path@),
            |rep: Option<OutputView>| (facts[k].error is None) == (rep matches Some(o) && o.code == 0),
        )
}

proof fn lemma_watched_grows(
    q1: Seq<Request>,
    h1: Seq<Option<OutputView>>,
    q2: Seq<Request>,
    h2: Seq<Option<OutputView>>,
    d: int,
    n0: int,
    specs: Seq<WatchedBackupSpec>,
    facts: Seq<WatchedBackupFact>,
)
    requires
        watched_read(q1, h1, d, n0, specs, facts),
        extends(q1, h1, q2, h2),
        h1.len() == q1.len() + d,
        0 <= n0,
        0 <= d,
    ensures
        watched_read(q2, h2, d, n0, specs, facts),
{
    reveal(watched_read);
    assert forall|k: int| #![trigger facts[k]] 0 <= k < facts.len() implies k < specs.len() && facts[k].name@ == specs[k].name@
        && facts[k].max_age_s == specs[k].max_age_hours * 3600 && asked(
        q2,
        h2,
        d,
        n0,
        listing_request(specs[k].rclone_path@),
        |rep: Option<OutputView>| (facts[k].error is None) == (rep matches Some(o) && o.code == 0),
    ) by {
        lemma_asked_grows(q1, h1, q2, h2, d, n0, listing_request(specs[k].rclone_path@), |rep: Option<OutputView>|
            (facts[k].error is None) == (rep matches Some(o) && o.code == 0));
    }
}

proof fn lemma_watched_added(
    q: Seq<Request>,
    h: Seq<Option<OutputView>>,
    d: int,
    n0: int,
    specs: Seq<WatchedBackupSpec>,
    facts: Seq<WatchedBackupFact>,
    f: WatchedBackupFact,
    i: int,
)
    requires
        watched_read(q, h, d, n0, specs, facts),
        facts.len() < specs.len(),
        f.name@ == specs[facts.len() as int].name@,
        f.max_age_s == specs[facts.len() as int].max_age_hours * 3600,
        n0 <= i < q.len(),
        q[i] == listing_request(specs[facts.len() as int].rclone_path@),
        (f.error is None) == (h[i + d] matches Some(o) && o.code == 0),
    ensures
        watched_read(q, h, d, n0, specs, facts.push(f)),
{
    reveal(watched_read);
    let fs = facts.push(f);
    assert forall|k: int| #![trigger fs[k]] 0 <= k < fs.len() implies k < specs.len() && fs[k].name@ == specs[k].name@
        && fs[k].max_age_s == specs[k].max_age_hours * 3600 && asked(
        q,
        h,
        d,
        n0,
        listing_request(specs[k].rclone_path@),
        |rep: Option<OutputView>| (fs[k].error is None) == (rep matches Some(o) && o.code == 0),
    ) by {
        if k < facts.len() {
            assert(fs[k] == facts[k]);
            assert((|rep: Option<OutputView>| (fs[k].error is None) == (rep matches Some(o) && o.code == 0)) =~= (|rep: Option<OutputView>|
                (facts[k].error is None) == (rep matches Some(o) && o.code == 0)));
        } else {
            lemma_asked_here(q, h, d, n0, listing_request(specs[k].rclone_path@), |rep: Option<OutputView>|
                (fs[k].error is None) == (rep matches Some(o) && o.code == 0), i);
        }
    }
}

/// The watched backups' facts: each one's listing, and for the newest file
/// found its date, read as seconds since the epoch.
fn watched_facts<E: Executor>(exec: &mut E, inp: &FactsInputs) -> (r: Vec<WatchedBackupFact>)
    requires
        forall|k: int| 0 <= k < inp.watched_backups@.len() ==> #[trigger] inp.watched_backups@[k].max_age_hours * 3600 <= u64::MAX,
    ensures
        extends(old(exec).requests(), old(exec).replies(), final(exec).requests(), final(exec).replies()),
        r@.len() == inp.watched_backups@.len(),
        old(exec).replies().len() >= old(exec).requests().len() ==> watched_read(
            final(exec).requests(),
            final(exec).replies(),
            old(exec).replies().len() - old(exec).requests().len(),
            old(exec).requests().len() as int,
            inp.watched_backups@,
            r@,
        ),
{
    let ghost q0 = exec.requests();
    let ghost h0 = exec.replies();
    let ghost n0 = q0.len() as int;
    let ghost d = h0.len() - n0;
    let mut out: Vec<WatchedBackupFact> = Vec::new();
    proof {
        lemma_extends_refl(q0, h0);
        reveal(watched_read);
    }
    let mut k: usize = 0;
    while k < inp.watched_backups.len()
        invariant
            k <= inp.watched_backups.len(),
            out@.len() == k,
            q0 == old(exec).requests(),
            h0 == old(exec).replies(),
            n0 == q0.len(),
            d == h0.len() - n0,
            extends(q0, h0, exec.requests(), exec.replies()),
            forall|j: int| 0 <= j < inp.watched_backups@.len() ==> #[trigger] inp.watched_backups@[j].max_age_hours * 3600 <= u64::MAX,
            d >= 0 ==> watched_read(exec.requests(), exec.replies(), d, n0, inp.watched_backups@, out@),
        decreases inp.watched_backups.len() - k,
    {
        let w = &inp.watched_backups[k];
        let mut script = String::from_str("rclone lsjson --files-only '");
        script.append(w.rclone_path.as_str());
        script.append("' 2>&1 | sed -n 's/.*\"ModTime\":\"\\([^\"]*\\)\".*/\\1/p' | sort | tail -1");
        let mut args: Vec<&str> = Vec::new();
        args.push("-c");
        args.push(script.as_str());
        let c = Cmd::new("sh", args.as_slice(), 180);
        proof {
            assert(args@.map_values(|a: &str| a@) =~= seq!["-c"@, listing_script(w.rclone_path@)]);
        }
        let ghost qa = exec.requests();
        let ghost ha = exec.replies();
        let out0 = exec.run(&c);
        proof {
            lemma_pushed(qa, ha, exec.requests().last(), exec.replies().last());
            lemma_extends_trans(q0, h0, qa, ha, exec.requests(), exec.replies());
            assert(exec.requests()[qa.len() as int] == listing_request(w.rclone_path@));
        }
        let ghost qb = exec.requests();
        let ghost hb = exec.replies();
        proof {
            lemma_extends_refl(qb, hb);
        }
        let mut err: Option<String> = None;
        let mut age: Option<u64> = None;
        match out0 {
            Err(e) => {
                err = Some(e.message());
            },
            Ok(o) => {
                if !o.success() {
                    err = Some(String::from_str(trim(o.stderr.as_str())));
                } else {
                    let newest = trim(o.stdout.as_str());
                    if newest.unicode_len() > 0 {
                        let dc = Cmd::new("date", &["-d", newest, "+%s"], 30);
                        let dr = exec.run(&dc);
                        proof {
                            lemma_pushed(qb, hb, exec.requests().last(), exec.replies().last());
                            assert(exec.requests() == qb.push(exec.requests().last()));
                            assert(exec.replies() == hb.push(exec.replies().last()));
                            lemma_extends_trans(q0, h0, qb, hb, exec.requests(), exec.replies());
                        }
                        match dr {
                            Ok(dd) => {
                                age = watched_age(inp.now_unix, dd.stdout.as_str());
                            },
                            Err(_) => {},
                        }
                    }
                }
            },
        }
        let f = watched_fact(w, err, age);
        proof {
            if d >= 0 {
                lemma_pushed(qa, ha, qb.last(), hb.last());
                assert(qb == qa.push(qb.last()));
                assert(hb == ha.push(hb.last()));
                lemma_extends_trans(qa, ha, qb, hb, exec.requests(), exec.replies());
                assert(exec.requests()[qa.len() as int] == exec.requests().take(qb.len() as int)[qa.len() as int]);
                assert(exec.replies()[qa.len() + d] == exec.replies().take(hb.len() as int)[qa.len() + d]);
                lemma_watched_grows(qa, ha, exec.requests(), exec.replies(), d, n0, inp.watched_backups@, out@);
                lemma_watched_added(exec.requests(), exec.replies(), d, n0, inp.watched_backups@, out@, f, qa.len() as int);
            }
        }
        out.push(f);
        k += 1;
    }
    out
}

/// What the gateway's route files hold, each file announced by name.
pub open spec fn routes_script(dir: Seq<char>) -> Seq<char> {
    "for f in "@ + dir + "/*.yml; do echo \"### $(basename $f)\"; cat \"$f\"; done 2>/dev/null"@
}

/// Whether anything listens at a route's target, asked from the gateway.
pub open spec fn route_probe(gateway: u16, target: Seq<char>) -> Request {
    Request::Run(
        "pct"@,
        pct_sh_args(gateway, "timeout 3 bash -c 'echo > /dev/tcp/"@ + hostport(target) + "' 2>/dev/null && echo up || echo down"@),
        15,
    )
}

/// The routes the listing's reply names, by file and target.
pub open spec fn listed_routes(reply: Option<OutputView>) -> Seq<(Seq<char>, Seq<char>)> {
    match reply {
        Some(o) => routes_scan(lines_of(o.stdout)).1,
        None => Seq::empty(),
    }
}

pub open spec fn route_pairs(v: Seq<RouteFact>) -> Seq<(Seq<char>, Seq<char>)> {
    v.map_values(|r: RouteFact| (r.file@, r.target@))
}

/// Each route answered exactly when its probe's reply said `up`.
#[verifier::opaque]
pub open spec fn routes_read(q: Seq<Request>, h: Seq<Option<OutputView>>, d: int, n0: int, gateway: u16, routes: Seq<RouteFact>) -> bool {
    forall|k: int|
        #![trigger routes[k]]
        0 <= k < routes.len() ==> asked(
            q,
            h,
            d,
            n0,
            route_probe(gateway, routes[k].target@),
            |rep: Option<OutputView>| routes[k].answered == (rep matches Some(o) && contains(o.stdout, "up"@)),
        )
}

proof fn lemma_routes_grows(
    q1: Seq<Request>,
    h1: Seq<Option<OutputView>>,
    q2: Seq<Request>,
    h2: Seq<Option<OutputView>>,
    d: int,
    n0: int,
    gateway: u16,
    routes: Seq<RouteFact>,
)
    requires
        routes_read(q1, h1, d, n0, gateway, routes),
        extends(q1, h1, q2, h2),
        h1.len() == q1.len() + d,
        0 <= n0,
        0 <= d,
    ensures
        routes_read(q2, h2, d, n0, gateway, routes),
{
    reveal(routes_read);
    assert forall|k: int| #![trigger routes[k]] 0 <= k < routes.len() implies asked(
        q2,
        h2,
        d,
        n0,
        route_probe(gateway, routes[k].target@),
        |rep: Option<OutputView>| routes[k].answered == (rep matches Some(o) && contains(o.stdout, "up"@)),
    ) by {
        lemma_asked_grows(q1, h1, q2, h2, d, n0, route_probe(gateway, routes[k].target@), |rep: Option<OutputView>|
            routes[k].answered == (rep matches Some(o) && contains(o.stdout, "up"@)));
    }
}

proof fn lemma_routes_added(q: Seq<Request>, h: Seq<Option<OutputView>>, d: int, n0: int, gateway: u16, routes: Seq<RouteFact>, f: RouteFact, i: int)
    requires
        routes_read(q, h, d, n0, gateway, routes),
        n0 <= i < q.len(),
        q[i] == route_probe(gateway, f.target@),
        f.answered == (h[i + d] matches Some(o) && contains(o.stdout, "up"@)),
    ensures
        routes_read(q, h, d, n0, gateway, routes.push(f)),
{
    reveal(routes_read);
    let rs = routes.push(f);
    assert forall|k: int| #![trigger rs[k]] 0 <= k < rs.len() implies asked(
        q,
        h,
        d,
        n0,
        route_probe(gateway, rs[k].target@),
        |rep: Option<OutputView>| rs[k].answered == (rep matches Some(o) && contains(o.stdout, "up"@)),
    ) by {
        if k < routes.len() {
            assert(rs[k] == routes[k]);
        } else {
            lemma_asked_here(q, h, d, n0, route_probe(gateway, rs[k].target@), |rep: Option<OutputView>|
                rs[k].answered == (rep matches Some(o) && contains(o.stdout, "up"@)), i);
        }
    }
}

/// The gateway's routes: every target its files name, and whether anything
/// answers there.
fn route_facts<E: Executor>(exec: &mut E, inp: &FactsInputs) -> (r: Vec<RouteFact>)
    ensures
        extends(old(exec).requests(), old(exec).replies(), final(exec).requests(), final(exec).replies()),
        final(exec).requests().len() > old(exec).requests().len(),
        final(exec).requests()[old(exec).requests().len() as int] == Request::Run(
            "pct"@,
            pct_sh_args(inp.gateway_vmid, routes_script(inp.gateway_routes_dir@)),
            60,
        ),
        route_pairs(r@) == listed_routes(final(exec).replies()[old(exec).replies().len() as int]),
        old(exec).replies().len() >= old(exec).requests().len() ==> routes_read(
            final(exec).requests(),
            final(exec).replies(),
            old(exec).replies().len() - old(exec).requests().len(),
            old(exec).requests().len() as int,
            inp.gateway_vmid,
            r@,
        ),
{
    let ghost q0 = exec.requests();
    let ghost h0 = exec.replies();
    let ghost n0 = q0.len() as int;
    let ghost d = h0.len() - n0;
    let mut script = String::from_str("for f in ");
    script.append(inp.gateway_routes_dir.as_str());
    script.append("/*.yml; do echo \"### $(basename $f)\"; cat \"$f\"; done 2>/dev/null");
    let listing = pct_sh(exec, inp.gateway_vmid, script.as_str(), 60);
    proof {
        lemma_pushed(q0, h0, exec.requests().last(), exec.replies().last());
        assert(exec.requests() == q0.push(exec.requests().last()));
        assert(exec.replies() == h0.push(exec.replies().last()));
    }
    let ghost q1 = exec.requests();
    let ghost h1 = exec.replies();
    let targets = match listing {
        Ok(o) => route_targets(o.stdout.as_str()),
        Err(_) => Vec::new(),
    };
    let ghost tv = targets@.map_values(|p: (String, String)| (p.0@, p.1@));
    proof {
        assert(tv == listed_routes(h1[n0 + d]));
        lemma_extends_refl(q1, h1);
        reveal(routes_read);
    }
    let mut out: Vec<RouteFact> = Vec::new();
    let mut k: usize = 0;
    while k < targets.len()
        invariant
            k <= targets.len(),
            q0 == old(exec).requests(),
            h0 == old(exec).replies(),
            n0 == q0.len(),
            d == h0.len() - n0,
            q1.len() == n0 + 1,
            h1.len() == q1.len() + d,
            extends(q0, h0, q1, h1),
            extends(q1, h1, exec.requests(), exec.replies()),
            tv == targets@.map_values(|p: (String, String)| (p.0@, p.1@)),
            route_pairs(out@) == tv.take(k as int),
            d >= 0 ==> routes_read(exec.requests(), exec.replies(), d, n0, inp.gateway_vmid, out@),
        decreases targets.len() - k,
    {
        let hp = crate::ops::fleetcheck::probe_hostport(targets[k].1.as_str());
        let mut probe = String::from_str("timeout 3 bash -c 'echo > /dev/tcp/");
        probe.append(hp.as_str());
        probe.append("' 2>/dev/null && echo up || echo down");
        let ghost qa = exec.requests();
        let ghost ha = exec.replies();
        let answer = pct_sh(exec, inp.gateway_vmid, probe.as_str(), 15);
        proof {
            lemma_pushed(qa, ha, exec.requests().last(), exec.replies().last());
            lemma_extends_trans(q1, h1, qa, ha, exec.requests(), exec.replies());
        }
        let answered = match answer {
            Ok(o) => str_contains(o.stdout.as_str(), "up"),
            Err(_) => false,
        };
        let f = RouteFact { file: targets[k].0.clone(), target: targets[k].1.clone(), answered };
        proof {
            if d >= 0 {
                lemma_routes_grows(qa, ha, exec.requests(), exec.replies(), d, n0, inp.gateway_vmid, out@);
                assert(exec.requests()[qa.len() as int] == route_probe(inp.gateway_vmid, f.target@));
                lemma_routes_added(exec.requests(), exec.replies(), d, n0, inp.gateway_vmid, out@, f, qa.len() as int);
            }
        }
        let ghost before = out@;
        out.push(f);
        proof {
            assert(route_pairs(out@) =~= route_pairs(before).push((f.file@, f.target@)));
            assert(tv.take(k + 1) =~= tv.take(k as int).push(tv[k as int]));
        }
        k += 1;
    }
    proof {
        assert(tv.take(targets.len() as int) =~= tv);
        lemma_extends_trans(q0, h0, q1, h1, exec.requests(), exec.replies());
        assert(exec.requests()[n0] == exec.requests().take(q1.len() as int)[n0]);
        assert(exec.replies()[n0 + d] == exec.replies().take(h1.len() as int)[n0 + d]);
    }
    out
}

/// Prometheus asked whether anything of the stack is scraped.
pub open spec fn scrape_request(base: Seq<char>, stack: Seq<char>) -> Request {
    Request::Run(
        "curl"@,
        seq!["-s"@, "-m"@, "10"@, trim_end_char(base, '/') + "/api/v1/query?query=max(up%7Bstack%3D%22"@ + stack + "%22%7D)"@],
        20,
    )
}

/// Loki asked how many labelled lines of the stack arrived in the window.
pub open spec fn logs_request(base: Seq<char>, stack: Seq<char>, window: Seq<char>) -> Request {
    Request::Run(
        "curl"@,
        seq![
            "-s"@,
            "-m"@,
            "10"@,
            trim_end_char(base, '/') + "/loki/api/v1/query?query=sum(count_over_time(%7Bstack%3D%22"@ + stack
                + "%22%2Ccontainer_name%3D~%22.%2B%22%7D%5B"@ + window + "%5D))"@,
        ],
        20,
    )
}

/// The stack ships logs: its manifest runs promtail.
pub open spec fn ships_logs(st: StackState) -> bool {
    st.manifest matches Some(m) && string_views(m.apps@).contains("promtail"@)
}

pub open spec fn opt_seq(o: Option<String>) -> Option<Seq<char>> {
    match o {
        Some(s) => Some(s@),
        None => None,
    }
}

/// The safety-net facts of the first stacks: each names its stack; each
/// question is asked only where its address is configured (logs only of a
/// stack that ships them), and its answer is what the reply says.
#[verifier::opaque]
pub open spec fn coverage_read(
    q: Seq<Request>,
    h: Seq<Option<OutputView>>,
    d: int,
    n0: int,
    stacks: Seq<(String, StackState)>,
    prom: Option<Seq<char>>,
    loki: Option<Seq<char>>,
    window: Seq<char>,
    uids: Option<Seq<Seq<char>>>,
    cov: Seq<CoverageFact>,
) -> bool {
    &&& cov.len() <= stacks.len()
    &&& forall|k: int|
        #![trigger cov[k]]
        0 <= k < cov.len() ==> cov[k].stack@ == stacks[k].0@ && (match prom {
            Some(b) => asked(
                q,
                h,
                d,
                n0,
                scrape_request(b, stacks[k].0@),
                |rep: Option<OutputView>| cov[k].scraped == Some(rep matches Some(o) && contains(o.stdout, "\"1\""@)),
            ),
            None => cov[k].scraped is None,
        }) && (match loki {
            Some(b) => if ships_logs(stacks[k].1) {
                asked(
                    q,
                    h,
                    d,
                    n0,
                    logs_request(b, stacks[k].0@, window),
                    |rep: Option<OutputView>| cov[k].logs_recent == Some(rep matches Some(o) && contains(o.stdout, "\"value\""@)),
                )
            } else {
                cov[k].logs_recent is None
            },
            None => cov[k].logs_recent is None,
        }) && cov[k].dashboard_provisioned == (match uids {
            Some(u) => Some(u.contains("homelab-"@ + stacks[k].0@)),
            None => None,
        })
}

proof fn lemma_coverage_grows(
    q1: Seq<Request>,
    h1: Seq<Option<OutputView>>,
    q2: Seq<Request>,
    h2: Seq<Option<OutputView>>,
    d: int,
    n0: int,
    stacks: Seq<(String, StackState)>,
    prom: Option<Seq<char>>,
    loki: Option<Seq<char>>,
    window: Seq<char>,
    uids: Option<Seq<Seq<char>>>,
    cov: Seq<CoverageFact>,
)
    requires
        coverage_read(q1, h1, d, n0, stacks, prom, loki, window, uids, cov),
        extends(q1, h1, q2, h2),
        h1.len() == q1.len() + d,
        0 <= n0,
        0 <= d,
    ensures
        coverage_read(q2, h2, d, n0, stacks, prom, loki, window, uids, cov),
{
    reveal(coverage_read);
    assert forall|k: int| #![trigger cov[k]] 0 <= k < cov.len() implies cov[k].stack@ == stacks[k].0@ && (match prom {
        Some(b) => asked(
            q2,
            h2,
            d,
            n0,
            scrape_request(b, stacks[k].0@),
            |rep: Option<OutputView>| cov[k].scraped == Some(rep matches Some(o) && contains(o.stdout, "\"1\""@)),
        ),
        None => cov[k].scraped is None,
    }) && (match loki {
        Some(b) => if ships_logs(stacks[k].1) {
            asked(
                q2,
                h2,
                d,
                n0,
                logs_request(b, stacks[k].0@, window),
                |rep: Option<OutputView>| cov[k].logs_recent == Some(rep matches Some(o) && contains(o.stdout, "\"value\""@)),
            )
        } else {
            cov[k].logs_recent is None
        },
        None => cov[k].logs_recent is None,
    }) && cov[k].dashboard_provisioned == (match uids {
        Some(u) => Some(u.contains("homelab-"@ + stacks[k].0@)),
        None => None,
    }) by {
        match prom {
            Some(b) => lemma_asked_grows(q1, h1, q2, h2, d, n0, scrape_request(b, stacks[k].0@), |rep: Option<OutputView>|
                cov[k].scraped == Some(rep matches Some(o) && contains(o.stdout, "\"1\""@))),
            None => {},
        }
        match loki {
            Some(b) => if ships_logs(stacks[k].1) {
                lemma_asked_grows(q1, h1, q2, h2, d, n0, logs_request(b, stacks[k].0@, window), |rep: Option<OutputView>|
                    cov[k].logs_recent == Some(rep matches Some(o) && contains(o.stdout, "\"value\""@)));
            },
            None => {},
        }
    }
}

proof fn lemma_coverage_added(
    q: Seq<Request>,
    h: Seq<Option<OutputView>>,
    d: int,
    n0: int,
    stacks: Seq<(String, StackState)>,
    prom: Option<Seq<char>>,
    loki: Option<Seq<char>>,
    window: Seq<char>,
    uids: Option<Seq<Seq<char>>>,
    cov: Seq<CoverageFact>,
    c: CoverageFact,
    si: int,
    li: int,
)
    requires
        coverage_read(q, h, d, n0, stacks, prom, loki, window, uids, cov),
        cov.len() < stacks.len(),
        c.stack@ == stacks[cov.len() as int].0@,
        match prom {
            Some(b) => n0 <= si < q.len() && q[si] == scrape_request(b, c.stack@) && c.scraped == Some(h[si + d] matches Some(o)
                && contains(o.stdout, "\"1\""@)),
            None => c.scraped is None,
        },
        match loki {
            Some(b) => if ships_logs(stacks[cov.len() as int].1) {
                n0 <= li < q.len() && q[li] == logs_request(b, c.stack@, window) && c.logs_recent == Some(h[li + d] matches Some(o)
                    && contains(o.stdout, "\"value\""@))
            } else {
                c.logs_recent is None
            },
            None => c.logs_recent is None,
        },
        c.dashboard_provisioned == (match uids {
            Some(u) => Some(u.contains("homelab-"@ + c.stack@)),
            None => None,
        }),
    ensures
        coverage_read(q, h, d, n0, stacks, prom, loki, window, uids, cov.push(c)),
{
    reveal(coverage_read);
    let cs = cov.push(c);
    assert forall|k: int| #![trigger cs[k]] 0 <= k < cs.len() implies cs[k].stack@ == stacks[k].0@ && (match prom {
        Some(b) => asked(
            q,
            h,
            d,
            n0,
            scrape_request(b, stacks[k].0@),
            |rep: Option<OutputView>| cs[k].scraped == Some(rep matches Some(o) && contains(o.stdout, "\"1\""@)),
        ),
        None => cs[k].scraped is None,
    }) && (match loki {
        Some(b) => if ships_logs(stacks[k].1) {
            asked(
                q,
                h,
                d,
                n0,
                logs_request(b, stacks[k].0@, window),
                |rep: Option<OutputView>| cs[k].logs_recent == Some(rep matches Some(o) && contains(o.stdout, "\"value\""@)),
            )
        } else {
            cs[k].logs_recent is None
        },
        None => cs[k].logs_recent is None,
    }) && cs[k].dashboard_provisioned == (match uids {
        Some(u) => Some(u.contains("homelab-"@ + stacks[k].0@)),
        None => None,
    }) by {
        if k < cov.len() {
            assert(cs[k] == cov[k]);
        } else {
            match prom {
                Some(b) => lemma_asked_here(q, h, d, n0, scrape_request(b, stacks[k].0@), |rep: Option<OutputView>|
                    cs[k].scraped == Some(rep matches Some(o) && contains(o.stdout, "\"1\""@)), si),
                None => {},
            }
            match loki {
                Some(b) => if ships_logs(stacks[k].1) {
                    lemma_asked_here(q, h, d, n0, logs_request(b, stacks[k].0@, window), |rep: Option<OutputView>|
                        cs[k].logs_recent == Some(rep matches Some(o) && contains(o.stdout, "\"value\""@)), li);
                },
                None => {},
            }
        }
    }
}

pub open spec fn uids_view(uids: Option<Vec<String>>) -> Option<Seq<Seq<char>>> {
    match uids {
        Some(v) => Some(string_views(v@)),
        None => None,
    }
}

fn ask_curl<E: Executor>(exec: &mut E, url: &str, needle: &str) -> (r: bool)
    ensures
        final(exec).requests() == old(exec).requests().push(Request::Run("curl"@, seq!["-s"@, "-m"@, "10"@, url@], 20)),
        final(exec).replies().len() == old(exec).replies().len() + 1,
        final(exec).replies().drop_last() == old(exec).replies(),
        r == (final(exec).replies().last() matches Some(o) && contains(o.stdout, needle@)),
{
    let mut args: Vec<&str> = Vec::new();
    args.push("-s");
    args.push("-m");
    args.push("10");
    args.push(url);
    proof {
        assert(args@.map_values(|a: &str| a@) =~= seq!["-s"@, "-m"@, "10"@, url@]);
    }
    let c = Cmd::new("curl", args.as_slice(), 20);
    let ghost h0 = exec.replies();
    let out = exec.run(&c);
    proof {
        assert(exec.replies().drop_last() =~= h0);
    }
    match out {
        Ok(o) => str_contains(o.stdout.as_str(), needle),
        Err(_) => false,
    }
}

/// The safety-net facts of every stack: is it scraped, do its logs arrive,
/// is its dashboard provisioned, each asked only where its address is
/// configured.
fn coverage_facts<E: Executor>(exec: &mut E, inp: &FactsInputs, stacks: &Vec<(String, StackState)>, uids: &Option<Vec<String>>) -> (r: Vec<CoverageFact>)
    ensures
        extends(old(exec).requests(), old(exec).replies(), final(exec).requests(), final(exec).replies()),
        r@.len() == stacks@.len(),
        old(exec).replies().len() >= old(exec).requests().len() ==> coverage_read(
            final(exec).requests(),
            final(exec).replies(),
            old(exec).replies().len() - old(exec).requests().len(),
            old(exec).requests().len() as int,
            stacks@,
            opt_seq(inp.prometheus_url),
            opt_seq(inp.loki_url),
            inp.logs_window@,
            uids_view(*uids),
            r@,
        ),
{
    let ghost q0 = exec.requests();
    let ghost h0 = exec.replies();
    let ghost n0 = q0.len() as int;
    let ghost d = h0.len() - n0;
    let ghost prom = opt_seq(inp.prometheus_url);
    let ghost loki = opt_seq(inp.loki_url);
    let ghost uv = uids_view(*uids);
    let mut out: Vec<CoverageFact> = Vec::new();
    proof {
        lemma_extends_refl(q0, h0);
        reveal(coverage_read);
    }
    let mut k: usize = 0;
    while k < stacks.len()
        invariant
            k <= stacks.len(),
            out@.len() == k,
            q0 == old(exec).requests(),
            h0 == old(exec).replies(),
            n0 == q0.len(),
            d == h0.len() - n0,
            prom == opt_seq(inp.prometheus_url),
            loki == opt_seq(inp.loki_url),
            uv == uids_view(*uids),
            extends(q0, h0, exec.requests(), exec.replies()),
            d >= 0 ==> coverage_read(exec.requests(), exec.replies(), d, n0, stacks@, prom, loki, inp.logs_window@, uv, out@),
        decreases stacks.len() - k,
    {
        let name = stacks[k].0.as_str();
        let ghost qk = exec.requests();
        let ghost hk = exec.replies();
        let ghost mut si: int = 0;
        let ghost mut li: int = 0;
        proof {
            lemma_extends_refl(qk, hk);
        }
        let scraped = match &inp.prometheus_url {
            Some(base) => {
                let mut url = String::from_str(str_trim_end_char(base.as_str(), '/'));
                url.append("/api/v1/query?query=max(up%7Bstack%3D%22");
                url.append(name);
                url.append("%22%7D)");
                let ghost qa = exec.requests();
                let ghost ha = exec.replies();
                let r = ask_curl(exec, url.as_str(), "\"1\"");
                proof {
                    si = qa.len() as int;
                    lemma_pushed(qa, ha, exec.requests().last(), exec.replies().last());
                    assert(exec.replies() =~= ha.push(exec.replies().last()));
                    lemma_extends_trans(qk, hk, qa, ha, exec.requests(), exec.replies());
                }
                Some(r)
            },
            None => None,
        };
        let ghost qp = exec.requests();
        let ghost hp = exec.replies();
        let ships = match &stacks[k].1.manifest {
            Some(m) => contains_string(&m.apps, "promtail"),
            None => false,
        };
        let logs = match &inp.loki_url {
            Some(base) => {
                if ships {
                    let mut url = String::from_str(str_trim_end_char(base.as_str(), '/'));
                    url.append("/loki/api/v1/query?query=sum(count_over_time(%7Bstack%3D%22");
                    url.append(name);
                    url.append("%22%2Ccontainer_name%3D~%22.%2B%22%7D%5B");
                    url.append(inp.logs_window.as_str());
                    url.append("%5D))");
                    let ghost qa = exec.requests();
                    let ghost ha = exec.replies();
                    let r = ask_curl(exec, url.as_str(), "\"value\"");
                    proof {
                        li = qa.len() as int;
                        lemma_pushed(qa, ha, exec.requests().last(), exec.replies().last());
                        assert(exec.replies() =~= ha.push(exec.replies().last()));
                    }
                    Some(r)
                } else {
                    None
                }
            },
            None => None,
        };
        proof {
            if exec.requests() == qp {
                lemma_extends_refl(qp, hp);
            }
        }
        let dash = match uids {
            Some(v) => {
                let mut uid = String::from_str("homelab-");
                uid.append(name);
                Some(contains_string(v, uid.as_str()))
            },
            None => None,
        };
        let c = CoverageFact { stack: stacks[k].0.clone(), scraped, logs_recent: logs, dashboard_provisioned: dash };
        proof {
            lemma_extends_trans(qk, hk, qp, hp, exec.requests(), exec.replies());
            lemma_extends_trans(q0, h0, qk, hk, exec.requests(), exec.replies());
            if d >= 0 {
                lemma_coverage_grows(qk, hk, exec.requests(), exec.replies(), d, n0, stacks@, prom, loki, inp.logs_window@, uv, out@);
                if prom is Some {
                    assert(exec.requests()[si] == exec.requests().take(qp.len() as int)[si]);
                    assert(exec.replies()[si + d] == exec.replies().take(hp.len() as int)[si + d]);
                }
                lemma_coverage_added(exec.requests(), exec.replies(), d, n0, stacks@, prom, loki, inp.logs_window@, uv, out@, c, si, li);
            }
        }
        out.push(c);
        k += 1;
    }
    out
}

proof fn lemma_asked_earlier(q: Seq<Request>, h: Seq<Option<OutputView>>, d: int, n1: int, n0: int, req: Request, p: spec_fn(Option<OutputView>) -> bool)
    requires
        asked(q, h, d, n1, req, p),
        n0 <= n1,
    ensures
        asked(q, h, d, n0, req, p),
{
    reveal(asked);
    let i = choose|i: int| #![trigger q[i]] n1 <= i < q.len() && q[i] == req && p(h[i + d]);
    assert(q[i] == req);
}

/// What the container reading established from its own start holds from
/// any earlier point.
proof fn lemma_containers_earlier(
    q: Seq<Request>,
    h: Seq<Option<OutputView>>,
    d: int,
    n1: int,
    n0: int,
    no_touch: Seq<u16>,
    containers: Seq<(u16, String)>,
    growth: Seq<GrowthFact>,
    boot: Seq<BootFact>,
)
    requires
        n0 <= n1,
        growth_facts_read(q, h, d, n1, no_touch, growth),
        boot_facts_read(q, h, d, n1, no_touch, boot),
        forall|k: int|
            0 <= k < containers.len() && !no_touch.contains(containers[k].0) ==> #[trigger] container_read(
                q,
                h,
                d,
                n1,
                growth,
                boot,
                containers[k].0,
                containers[k].1@,
            ),
    ensures
        growth_facts_read(q, h, d, n0, no_touch, growth),
        boot_facts_read(q, h, d, n0, no_touch, boot),
        forall|k: int|
            0 <= k < containers.len() && !no_touch.contains(containers[k].0) ==> #[trigger] container_read(
                q,
                h,
                d,
                n0,
                growth,
                boot,
                containers[k].0,
                containers[k].1@,
            ),
{
    reveal(growth_facts_read);
    reveal(boot_facts_read);
    reveal(container_read);
    assert forall|k: int| 0 <= k < growth.len() implies !no_touch.contains(#[trigger] growth[k].vmid) && exists|i: int|
        n0 < i < q.len() && q[i] == growth_request(growth[k].vmid) && (h[i + d] matches Some(o) && growth_reading(
            growth[k],
            o.stdout,
        )) by {
        let i = choose|i: int|
            n1 < i < q.len() && q[i] == growth_request(growth[k].vmid) && (h[i + d] matches Some(o) && growth_reading(
                growth[k],
                o.stdout,
            ));
        assert(q[i] == growth_request(growth[k].vmid));
    }
    assert forall|k: int| 0 <= k < boot.len() implies !no_touch.contains(#[trigger] boot[k].vmid) && exists|i: int|
        n0 < i < q.len() && q[i] == config_request(boot[k].vmid) && (h[i + d] matches Some(o) && o.code == 0
            && boot[k].live == live_config(o.stdout)) by {
        let i = choose|i: int|
            n1 < i < q.len() && q[i] == config_request(boot[k].vmid) && (h[i + d] matches Some(o) && o.code == 0
                && boot[k].live == live_config(o.stdout));
        assert(q[i] == config_request(boot[k].vmid));
    }
    assert forall|k: int|
        0 <= k < containers.len() && !no_touch.contains(containers[k].0) implies #[trigger] container_read(
        q,
        h,
        d,
        n0,
        growth,
        boot,
        containers[k].0,
        containers[k].1@,
    ) by {
        let v = containers[k].0;
        let hn = containers[k].1@;
        assert(container_read(q, h, d, n1, growth, boot, v, hn));
        let i = choose|i: int|
            #![trigger q[i]]
            n1 < i && i + 1 < q.len() && q[i] == growth_request(v) && q[i + 1] == config_request(v) && growth_given(
                growth,
                v,
                hn,
                h[i + d],
            ) && boot_given(boot, v, hn, h[i + 1 + d]);
        assert(q[i] == growth_request(v));
    }
}

proof fn lemma_routes_earlier(q: Seq<Request>, h: Seq<Option<OutputView>>, d: int, n1: int, n0: int, gateway: u16, routes: Seq<RouteFact>)
    requires
        routes_read(q, h, d, n1, gateway, routes),
        n0 <= n1,
    ensures
        routes_read(q, h, d, n0, gateway, routes),
{
    reveal(routes_read);
    assert forall|k: int| #![trigger routes[k]] 0 <= k < routes.len() implies asked(
        q,
        h,
        d,
        n0,
        route_probe(gateway, routes[k].target@),
        |rep: Option<OutputView>| routes[k].answered == (rep matches Some(o) && contains(o.stdout, "up"@)),
    ) by {
        lemma_asked_earlier(q, h, d, n1, n0, route_probe(gateway, routes[k].target@), |rep: Option<OutputView>|
            routes[k].answered == (rep matches Some(o) && contains(o.stdout, "up"@)));
    }
}

proof fn lemma_coverage_earlier(
    q: Seq<Request>,
    h: Seq<Option<OutputView>>,
    d: int,
    n1: int,
    n0: int,
    stacks: Seq<(String, StackState)>,
    prom: Option<Seq<char>>,
    loki: Option<Seq<char>>,
    window: Seq<char>,
    uids: Option<Seq<Seq<char>>>,
    cov: Seq<CoverageFact>,
)
    requires
        coverage_read(q, h, d, n1, stacks, prom, loki, window, uids, cov),
        n0 <= n1,
    ensures
        coverage_read(q, h, d, n0, stacks, prom, loki, window, uids, cov),
{
    reveal(coverage_read);
    assert forall|k: int| #![trigger cov[k]] 0 <= k < cov.len() implies cov[k].stack@ == stacks[k].0@ && (match prom {
        Some(b) => asked(
            q,
            h,
            d,
            n0,
            scrape_request(b, stacks[k].0@),
            |rep: Option<OutputView>| cov[k].scraped == Some(rep matches Some(o) && contains(o.stdout, "\"1\""@)),
        ),
        None => cov[k].scraped is None,
    }) && (match loki {
        Some(b) => if ships_logs(stacks[k].1) {
            asked(
                q,
                h,
                d,
                n0,
                logs_request(b, stacks[k].0@, window),
                |rep: Option<OutputView>| cov[k].logs_recent == Some(rep matches Some(o) && contains(o.stdout, "\"value\""@)),
            )
        } else {
            cov[k].logs_recent is None
        },
        None => cov[k].logs_recent is None,
    }) && cov[k].dashboard_provisioned == (match uids {
        Some(u) => Some(u.contains("homelab-"@ + stacks[k].0@)),
        None => None,
    }) by {
        match prom {
            Some(b) => lemma_asked_earlier(q, h, d, n1, n0, scrape_request(b, stacks[k].0@), |rep: Option<OutputView>|
                cov[k].scraped == Some(rep matches Some(o) && contains(o.stdout, "\"1\""@))),
            None => {},
        }
        match loki {
            Some(b) => if ships_logs(stacks[k].1) {
                lemma_asked_earlier(q, h, d, n1, n0, logs_request(b, stacks[k].0@, window), |rep: Option<OutputView>|
                    cov[k].logs_recent == Some(rep matches Some(o) && contains(o.stdout, "\"value\""@)));
            },
            None => {},
        }
    }
}

/// The seeder's verdict file as `serde_json` reads it: its `stale` entries
/// (each a string or not; None when `stale` is not an array), its `at`
/// time and its `judged` flag; or the parser's message when the text is
/// not JSON.
pub uninterp spec fn seed_json(text: Seq<char>) -> Result<(Option<Seq<Option<Seq<char>>>>, Option<u64>, Option<bool>), Seq<char>>;

pub open spec fn opt_strs(v: Seq<Option<String>>) -> Seq<Option<Seq<char>>> {
    v.map_values(|o: Option<String>| match o {
        Some(t) => Some(t@),
        None => None,
    })
}

/// `serde_json::from_str::<serde_json::Value>` on the verdict file, then
/// `stale` read as an array of optional strings, `at` as `u64` and
/// `judged` as `bool`; on a parse failure, the error's message. The result
/// is a function of the text alone; what it is for given text is not
/// stated here.
#[verifier::external_body]
fn seed_fields(text: &str) -> (r: Result<(Option<Vec<Option<String>>>, Option<u64>, Option<bool>), String>)
    ensures
        match r {
            Ok((stale, at, judged)) => seed_json(text@) == Ok::<_, Seq<char>>((
                match stale {
                    Some(v) => Some(opt_strs(v@)),
                    None => None,
                },
                at,
                judged,
            )),
            Err(m) => seed_json(text@) == Err::<(Option<Seq<Option<Seq<char>>>>, Option<u64>, Option<bool>), Seq<char>>(m@),
        },
{
    match serde_json::from_str::<serde_json::Value>(text) {
        Err(e) => Err(e.to_string()),
        Ok(v) => Ok((
            v["stale"].as_array().map(|a| a.iter().map(|x| x.as_str().map(str::to_string)).collect()),
            v["at"].as_u64(),
            v["judged"].as_bool(),
        )),
    }
}

/// The entries that are strings, in order.
pub open spec fn strings_only(v: Seq<Option<Seq<char>>>) -> Seq<Seq<char>>
    decreases v.len(),
{
    if v.len() == 0 {
        seq![]
    } else {
        let rest = strings_only(v.drop_last());
        match v.last() {
            Some(t) => rest.push(t),
            None => rest,
        }
    }
}

/// The verdict file's path: `last-seed.json` in the directory of the monitor list.
pub open spec fn seed_path(monitors: Seq<char>) -> Seq<char> {
    let dir = match rsplit_once(monitors, '/') {
        Some((d, _)) => d,
        None => "."@,
    };
    dir + "/last-seed.json"@
}

/// The seed fact for a read of `path`: the read's error, the parser's
/// message, or what the file says, its age counted from `now` (zero for a
/// time in the future).
pub open spec fn seed_is(s: SeedFact, path: Seq<char>, read: Result<String, CoreError>, now: u64) -> bool {
    match read {
        Err(e) => s.stale@.len() == 0 && s.age_s is None && !s.judged
            && (s.error matches Some(m) && m@ == path + ": "@ + display_of(&e)),
        Ok(t) => match seed_json(t@) {
            Err(m) => s.stale@.len() == 0 && s.age_s is None && !s.judged
                && (s.error matches Some(e) && e@ == path + " is not JSON: "@ + m),
            Ok((stale, at, judged)) => s.error is None
                && string_views(s.stale@) == (match stale {
                    Some(v) => strings_only(v),
                    None => seq![],
                })
                && s.age_s == (match at {
                    Some(a) => Some((if now >= a { now - a } else { 0 }) as u64),
                    None => None,
                })
                && s.judged == (judged == Some(true)),
        },
    }
}

/// The seeder's verdict out of a read of its file at `path`.
pub fn seed_from(path: &str, read: Result<String, CoreError>, now: u64) -> (s: SeedFact)
    ensures
        seed_is(s, path@, read, now),
{
    match read {
        Err(e) => {
            let mut m = String::from_str(path);
            m.append(": ");
            m.append(e.message().as_str());
            SeedFact { stale: Vec::new(), age_s: None, judged: false, error: Some(m) }
        },
        Ok(text) => match seed_fields(text.as_str()) {
            Err(msg) => {
                let mut m = String::from_str(path);
                m.append(" is not JSON: ");
                m.append(msg.as_str());
                SeedFact { stale: Vec::new(), age_s: None, judged: false, error: Some(m) }
            },
            Ok((stale, at, judged)) => {
                let mut names: Vec<String> = Vec::new();
                match stale {
                    Some(v) => {
                        let mut i: usize = 0;
                        while i < v.len()
                            invariant
                                i <= v.len(),
                                string_views(names@) == strings_only(opt_strs(v@).take(i as int)),
                            decreases v.len() - i,
                        {
                            let ghost before = names@;
                            proof {
                                assert(opt_strs(v@).take(i + 1).drop_last() =~= opt_strs(v@).take(i as int));
                            }
                            match &v[i] {
                                Some(t) => {
                                    names.push(t.clone());
                                    proof {
                                        assert(string_views(names@) =~= string_views(before).push(t@));
                                    }
                                },
                                None => {},
                            }
                            i += 1;
                        }
                        proof {
                            assert(opt_strs(v@).take(v.len() as int) =~= opt_strs(v@));
                        }
                    },
                    None => {
                        proof {
                            assert(string_views(names@) =~= seq![]);
                        }
                    },
                }
                let age_s = match at {
                    Some(a) => Some(if now >= a { now - a } else { 0 }),
                    None => None,
                };
                let judged = match judged {
                    Some(b) => b,
                    None => false,
                };
                SeedFact { stale: names, age_s, judged, error: None }
            },
        },
    }
}

/// The seed fact when no monitor list is configured: nothing to judge, and
/// nothing wrong.
pub open spec fn seed_unasked(s: SeedFact) -> bool {
    s.judged && s.age_s == Some(0u64) && s.stale@.len() == 0 && s.error is None
}

/// Read the seeder's verdict through the executor: nothing is asked when
/// no monitor list is configured; else the file beside it is read once.
pub fn read_seed<E: Executor>(exec: &mut E, inp: &FactsInputs) -> (s: SeedFact)
    ensures
        match inp.kuma_monitors_file {
            None => final(exec).requests() == old(exec).requests() && final(exec).replies() == old(exec).replies()
                && seed_unasked(s),
            Some(m) => final(exec).requests() == old(exec).requests().push(Request::ReadFile(seed_path(m@)))
                && final(exec).replies() == old(exec).replies().push(None)
                && exists|read: Result<String, CoreError>| #[trigger] seed_is(s, seed_path(m@), read, inp.now_unix),
        },
{
    match &inp.kuma_monitors_file {
        None => SeedFact { stale: Vec::new(), age_s: Some(0), judged: true, error: None },
        Some(monitors) => {
            let mut path = match str_rsplit_once(monitors.as_str(), '/') {
                Some((d, _)) => String::from_str(d),
                None => String::from_str("."),
            };
            path.append("/last-seed.json");
            let read = exec.read_file(path.as_str());
            let ghost r0 = read;
            let s = seed_from(path.as_str(), read, inp.now_unix);
            proof {
                assert(seed_is(s, seed_path(monitors@), r0, inp.now_unix));
            }
            s
        },
    }
}

pub open spec fn files_view(v: Seq<(String, u16)>) -> Seq<(Seq<char>, u16)> {
    v.map_values(|p: (String, u16)| (p.0@, p.1))
}

/// Everything the fleet check judges, read off the machine: the watched
/// backups, the host's memory, every container and, for each one that may
/// be touched, its growth and configured shape, the gateway's routes and
/// whether anything answers there, and each recorded stack's safety nets.
/// Nothing here judges: each fact is what the reply to its own request
/// says, and an unasked question leaves its fact absent. The notes are the
/// lines the host logs after the facts come back.
#[verifier::spinoff_prover]
#[verifier::rlimit(100)]
pub fn gather_live_facts<E: Executor>(
    exec: &mut E,
    inp: &FactsInputs,
    state: Option<&HostState>,
    stack_files: &[(String, u16)],
) -> (r: (LiveFacts, Vec<String>))
    requires
        forall|k: int| 0 <= k < inp.watched_backups@.len() ==> #[trigger] inp.watched_backups@[k].max_age_hours * 3600 <= u64::MAX,
    ensures
        extends(old(exec).requests(), old(exec).replies(), final(exec).requests(), final(exec).replies()),
        files_view(r.0.stack_files@) == files_view(stack_files@),
        r.0.watched_backups@.len() == inp.watched_backups@.len(),
        r.1@.len() == 0,
        ((inp.prometheus_url is None && inp.loki_url is None) || state is None) ==> r.0.coverage@.len() == 0,
        match inp.kuma_monitors_file {
            None => seed_unasked(r.0.seed),
            Some(m) => (exists|read: Result<String, CoreError>| #[trigger] seed_is(r.0.seed, seed_path(m@), read, inp.now_unix))
                && exists|i: int| old(exec).requests().len() <= i < final(exec).requests().len()
                    && #[trigger] final(exec).requests()[i] == Request::ReadFile(seed_path(m@)),
        },
        old(exec).replies().len() >= old(exec).requests().len() ==> ({
            let n0 = old(exec).requests().len() as int;
            let d = old(exec).replies().len() - n0;
            let q = final(exec).requests();
            let h = final(exec).replies();
            let f = r.0;
            &&& watched_read(q, h, d, n0, inp.watched_backups@, f.watched_backups@)
            &&& asked(q, h, d, n0, Request::Run("sh"@, seq!["-c"@, HOST_MEMORY_SCRIPT@], 60), |rep: Option<OutputView>|
                f.host_memory == match rep {
                    Some(o) => host_memory(o.stdout),
                    None => None,
                })
            &&& asked(q, h, d, n0, Request::Run("pct"@, seq!["list"@], 30), |rep: Option<OutputView>|
                containers_view(f.containers@) == listed(rep))
            &&& growth_facts_read(q, h, d, n0, inp.no_touch@, f.growth@)
            &&& boot_facts_read(q, h, d, n0, inp.no_touch@, f.boot@)
            &&& forall|k: int|
                0 <= k < f.containers@.len() && !inp.no_touch@.contains(f.containers@[k].0) ==> #[trigger] container_read(
                    q,
                    h,
                    d,
                    n0,
                    f.growth@,
                    f.boot@,
                    f.containers@[k].0,
                    f.containers@[k].1@,
                )
            &&& asked(q, h, d, n0, Request::Run("pct"@, pct_sh_args(inp.gateway_vmid, routes_script(inp.gateway_routes_dir@)), 60),
                |rep: Option<OutputView>| route_pairs(f.routes@) == listed_routes(rep))
            &&& routes_read(q, h, d, n0, inp.gateway_vmid, f.routes@)
            &&& match state {
                Some(s) => (inp.prometheus_url is Some || inp.loki_url is Some) ==> exists|u: Option<Seq<Seq<char>>>|
                (inp.grafana_dashboards_dir is None ==> u is None) && #[trigger] coverage_read(
                    q,
                    h,
                    d,
                    n0,
                    s.stacks@,
                    opt_seq(inp.prometheus_url),
                    opt_seq(inp.loki_url),
                    inp.logs_window@,
                    u,
                    f.coverage@,
                ) && f.coverage@.len() == s.stacks@.len(),
                None => true,
            }
        }),
{
    let ghost q0 = exec.requests();
    let ghost h0 = exec.replies();
    let ghost n0 = q0.len() as int;
    let ghost d = h0.len() - n0;

    let watched = watched_facts(exec, inp);
    let ghost qw = exec.requests();
    let ghost hw = exec.replies();

    let seed = read_seed(exec, inp);
    let ghost qs = exec.requests();
    let ghost hs = exec.replies();
    proof {
        match &inp.kuma_monitors_file {
            Some(m) => {
                lemma_pushed(qw, hw, Request::ReadFile(seed_path(m@)), None);
                assert(qs[qw.len() as int] == Request::ReadFile(seed_path(m@)));
            },
            None => lemma_extends_refl(qw, hw),
        }
    }

    let memory = read_host_memory(exec);
    let ghost qm = exec.requests();
    let ghost hm = exec.replies();
    proof {
        lemma_pushed(qs, hs, qm.last(), hm.last());
        assert(hm =~= hs.push(hm.last()));
        if d >= 0 {
            lemma_asked_here(qm, hm, d, n0, Request::Run("sh"@, seq!["-c"@, HOST_MEMORY_SCRIPT@], 60), |rep: Option<OutputView>|
                memory == match rep {
                    Some(o) => host_memory(o.stdout),
                    None => None,
                }, qs.len() as int);
        }
    }

    let (containers, growth, boot) = gather_container_facts(exec, inp);
    let ghost qc = exec.requests();
    let ghost hc = exec.replies();
    proof {
        if d >= 0 {
            lemma_asked_here(qc, hc, d, n0, Request::Run("pct"@, seq!["list"@], 30), |rep: Option<OutputView>|
                containers_view(containers@) == listed(rep), qm.len() as int);
        }
    }

    let routes = route_facts(exec, inp);
    let ghost qr = exec.requests();
    let ghost hr = exec.replies();
    proof {
        if d >= 0 {
            lemma_asked_here(qr, hr, d, n0, Request::Run("pct"@, pct_sh_args(inp.gateway_vmid, routes_script(inp.gateway_routes_dir@)), 60),
                |rep: Option<OutputView>| route_pairs(routes@) == listed_routes(rep), qc.len() as int);
        }
    }

    let uids: Option<Vec<String>> = match &inp.grafana_dashboards_dir {
        Some(dir) => grafana_generated_uids(exec, inp.gateway_vmid, dir.as_str()),
        None => None,
    };
    let ghost qg = exec.requests();
    let ghost hg = exec.replies();
    proof {
        if qg == qr {
            lemma_extends_refl(qr, hr);
        } else {
            assert(hg =~= hr.push(hg.last()));
            lemma_pushed(qr, hr, qg.last(), hg.last());
        }
    }

    let mut coverage: Vec<CoverageFact> = Vec::new();
    if inp.prometheus_url.is_some() || inp.loki_url.is_some() {
        match state {
            Some(s) => {
                coverage = coverage_facts(exec, inp, &s.stacks, &uids);
                proof {
                    if d >= 0 {
                        lemma_coverage_earlier(exec.requests(), exec.replies(), d, qg.len() as int, n0, s.stacks@, opt_seq(inp.prometheus_url), opt_seq(inp.loki_url), inp.logs_window@, uids_view(uids), coverage@);
                        assert(inp.grafana_dashboards_dir is None ==> uids_view(uids) is None);
                    }
                }
            },
            None => {},
        }
    }
    proof {
        if exec.requests() == qg {
            lemma_extends_refl(qg, hg);
        }
        lemma_extends_trans(qr, hr, qg, hg, exec.requests(), exec.replies());
        lemma_extends_trans(qc, hc, qr, hr, exec.requests(), exec.replies());
        lemma_extends_trans(qm, hm, qc, hc, exec.requests(), exec.replies());
        lemma_pushed(qs, hs, qm.last(), hm.last());
        lemma_extends_trans(qs, hs, qm, hm, exec.requests(), exec.replies());
        lemma_extends_trans(qw, hw, qs, hs, exec.requests(), exec.replies());
        lemma_extends_trans(q0, h0, qw, hw, exec.requests(), exec.replies());
        if d >= 0 {
            let q = exec.requests();
            let h = exec.replies();
            lemma_watched_grows(qw, hw, q, h, d, n0, inp.watched_backups@, watched@);
            lemma_asked_grows(qm, hm, q, h, d, n0, Request::Run("sh"@, seq!["-c"@, HOST_MEMORY_SCRIPT@], 60), |rep: Option<OutputView>|
                memory == match rep {
                    Some(o) => host_memory(o.stdout),
                    None => None,
                });
            lemma_asked_grows(qc, hc, q, h, d, n0, Request::Run("pct"@, seq!["list"@], 30), |rep: Option<OutputView>|
                containers_view(containers@) == listed(rep));
            let nc = qm.len() as int;
            lemma_facts_read_grow(qc, hc, q, h, d, nc, inp.no_touch@, growth@, boot@);
            assert(growth@.take(growth@.len() as int) =~= growth@);
            assert(boot@.take(boot@.len() as int) =~= boot@);
            assert forall|k: int|
                0 <= k < containers@.len() && !inp.no_touch@.contains(containers@[k].0) implies #[trigger] container_read(
                q,
                h,
                d,
                nc,
                growth@,
                boot@,
                containers@[k].0,
                containers@[k].1@,
            ) by {
                lemma_read_grows(qc, hc, q, h, d, nc, growth@, growth@, boot@, boot@, containers@[k].0, containers@[k].1@);
            }
            lemma_containers_earlier(q, h, d, nc, n0, inp.no_touch@, containers@, growth@, boot@);
            lemma_asked_grows(qr, hr, q, h, d, n0, Request::Run("pct"@, pct_sh_args(inp.gateway_vmid, routes_script(inp.gateway_routes_dir@)), 60),
                |rep: Option<OutputView>| route_pairs(routes@) == listed_routes(rep));
            lemma_routes_grows(qr, hr, q, h, d, qc.len() as int, inp.gateway_vmid, routes@);
            lemma_routes_earlier(q, h, d, qc.len() as int, n0, inp.gateway_vmid, routes@);
        }
    }
    let mut files: Vec<(String, u16)> = Vec::new();
    let mut i: usize = 0;
    while i < stack_files.len()
        invariant
            i <= stack_files.len(),
            files_view(files@) == files_view(stack_files@).take(i as int),
        decreases stack_files.len() - i,
    {
        let ghost before = files@;
        files.push((stack_files[i].0.clone(), stack_files[i].1));
        proof {
            assert(files_view(files@) =~= files_view(before).push((stack_files@[i as int].0@, stack_files@[i as int].1)));
            assert(files_view(stack_files@).take(i + 1) =~= files_view(stack_files@).take(i as int).push(files_view(stack_files@)[i as int]));
        }
        i += 1;
    }
    proof {
        assert(files_view(stack_files@).take(stack_files.len() as int) =~= files_view(stack_files@));
    }
    let facts = LiveFacts {
        seed,
        containers,
        routes,
        stack_files: files,
        growth,
        coverage,
        boot,
        host_memory: memory,
        watched_backups: watched,
    };
    proof {
        if d >= 0 {
            let q = exec.requests();
            let h = exec.replies();
            assert((|rep: Option<OutputView>| facts.host_memory == match rep {
                    Some(o) => host_memory(o.stdout),
                    None => None,
                }) =~= (|rep: Option<OutputView>| memory == match rep {
                    Some(o) => host_memory(o.stdout),
                    None => None,
                }));
            assert((|rep: Option<OutputView>| containers_view(facts.containers@) == listed(rep))
                =~= (|rep: Option<OutputView>| containers_view(containers@) == listed(rep)));
            assert((|rep: Option<OutputView>| route_pairs(facts.routes@) == listed_routes(rep))
                =~= (|rep: Option<OutputView>| route_pairs(routes@) == listed_routes(rep)));
            assert(watched_read(q, h, d, n0, inp.watched_backups@, facts.watched_backups@));
            assert(growth_facts_read(q, h, d, n0, inp.no_touch@, facts.growth@));
            assert(boot_facts_read(q, h, d, n0, inp.no_touch@, facts.boot@));
            assert(routes_read(q, h, d, n0, inp.gateway_vmid, facts.routes@));
            assert(asked(q, h, d, n0, Request::Run("sh"@, seq!["-c"@, HOST_MEMORY_SCRIPT@], 60), |rep: Option<OutputView>|
                facts.host_memory == match rep {
                    Some(o) => host_memory(o.stdout),
                    None => None,
                }));
            assert(asked(q, h, d, n0, Request::Run("pct"@, seq!["list"@], 30), |rep: Option<OutputView>|
                containers_view(facts.containers@) == listed(rep)));
            assert(asked(q, h, d, n0, Request::Run("pct"@, pct_sh_args(inp.gateway_vmid, routes_script(inp.gateway_routes_dir@)), 60),
                |rep: Option<OutputView>| route_pairs(facts.routes@) == listed_routes(rep)));
            assert(forall|k: int|
                0 <= k < facts.containers@.len() && !inp.no_touch@.contains(facts.containers@[k].0) ==> #[trigger] container_read(
                    q, h, d, n0, facts.growth@, facts.boot@, facts.containers@[k].0, facts.containers@[k].1@));
            match state {
                Some(s) => {
                    if inp.prometheus_url is Some || inp.loki_url is Some {
                        assert(coverage_read(q, h, d, n0, s.stacks@, opt_seq(inp.prometheus_url), opt_seq(inp.loki_url),
                            inp.logs_window@, uids_view(uids), facts.coverage@));
                    }
                },
                None => {},
            }
        }
    }
    (facts, Vec::new())
}

} // verus!
