//! ZFS snapshots and replication: jobs declared explicitly, the destructive
//! fallback refused rather than performed, and retention through the same
//! tiered engine as the backups.

use vstd::prelude::*;
use vstd::string::*;
use crate::error::CoreError;
use crate::executor::{
    extends, lemma_extends_refl, lemma_extends_trans, lemma_pushed, reply_of, run_ok, run_request, Cmd, CmdOutput,
    Executor, OutputView, Request,
};
use crate::ops::native::{dedup, dedup_strings};
use crate::order::{sort_by, sort_strings, str_order};
use crate::retention::{forget_list, forgotten, has_id, law_forgets_only_given_snapshots, snaps_view, RetentionTier};
use crate::runner::{Journal, OperationReport, Runner, StepOutcome};
use crate::sink::{Level, Sink};
use crate::text::{contains, str_contains,
    dec, dec_string, lines, lines_of, pad_left, pad_left_string, parse_i64, parse_signed,
    split_once, split_whitespace, starts_with, str_eq, str_split_once, str_starts_with,
    str_strip_prefix, string_views, strip_prefix, trim, trimmed, views, words,
};

verus! {

/// One replication job: snapshot `source` recursively, then send the
/// difference to `target`.
#[derive(Debug, Clone, PartialEq, Eq)]
pub struct ZfsJob {
    pub source: String,
    pub target: String,
}

/// The prefix of every snapshot this orchestrator makes.
pub open spec fn snap_prefix() -> Seq<char> {
    "homelab-"@
}

/// What is wrong with a job, if anything: a job may never take its own
/// target as source, and neither side may live inside the other —
/// recursive sends would eat themselves.
pub open spec fn job_problem(source: Seq<char>, target: Seq<char>) -> Option<Seq<char>> {
    let s = trimmed(source);
    let t = trimmed(target);
    if s.len() == 0 || t.len() == 0 {
        Some("source and target must both be set"@)
    } else if s == t {
        Some("source and target are the same dataset ("@ + s + ")"@)
    } else if starts_with(t, s + "/"@) {
        Some("target "@ + t + " lives inside source "@ + s)
    } else if starts_with(s, t + "/"@) {
        Some("source "@ + s + " lives inside target "@ + t)
    } else {
        None
    }
}

pub open spec fn opt_string(o: Option<String>) -> Option<Seq<char>> {
    match o {
        Some(s) => Some(s@),
        None => None,
    }
}

pub fn job_problems(job: &ZfsJob) -> (r: Option<String>)
    ensures
        opt_string(r) == job_problem(job.source@, job.target@),
{
    let s = trim(job.source.as_str());
    let t = trim(job.target.as_str());
    if s.unicode_len() == 0 || t.unicode_len() == 0 {
        return Some(String::from_str("source and target must both be set"));
    }
    if str_eq(s, t) {
        let mut m = String::from_str("source and target are the same dataset (");
        m.append(s);
        m.append(")");
        return Some(m);
    }
    let mut sp = String::from_str(s);
    sp.append("/");
    if str_starts_with(t, sp.as_str()) {
        let mut m = String::from_str("target ");
        m.append(t);
        m.append(" lives inside source ");
        m.append(s);
        return Some(m);
    }
    let mut tp = String::from_str(t);
    tp.append("/");
    if str_starts_with(s, tp.as_str()) {
        let mut m = String::from_str("source ");
        m.append(s);
        m.append(" lives inside target ");
        m.append(t);
        return Some(m);
    }
    None
}

/// The snapshot names (without the dataset part) in a `zfs list` output,
/// in the order listed — every snapshot of that dataset, not only ours: a
/// foreign snapshot is a good incremental base, and foreign snapshots are
/// what make a target "not empty".
pub open spec fn snap_names(ls: Seq<Seq<char>>, dataset: Seq<char>) -> Seq<Seq<char>>
    decreases ls.len(),
{
    if ls.len() == 0 {
        Seq::empty()
    } else {
        let w = words(ls.last());
        snap_names(ls.drop_last(), dataset) + if w.len() > 0 {
            match strip_prefix(w[0], dataset + "@"@) {
                Some(n) => seq![n],
                None => Seq::empty(),
            }
        } else {
            Seq::empty()
        }
    }
}

pub fn parse_snap_names(list_stdout: &str, dataset: &str) -> (r: Vec<String>)
    ensures
        string_views(r@) == snap_names(lines_of(list_stdout@), dataset@),
{
    let mut prefix = String::from_str(dataset);
    prefix.append("@");
    let ls = lines(list_stdout);
    let ghost lv = views(ls@);
    let mut out: Vec<String> = Vec::new();
    let mut i: usize = 0;
    while i < ls.len()
        invariant
            i <= ls.len(),
            lv == views(ls@),
            prefix@ == dataset@ + "@"@,
            string_views(out@) == snap_names(lv.take(i as int), dataset@),
        decreases ls.len() - i,
    {
        proof {
            assert(lv.take(i + 1).drop_last() =~= lv.take(i as int));
        }
        let w = split_whitespace(ls[i]);
        let ghost before = string_views(out@);
        if w.len() > 0 {
            proof {
                assert(views(w@)[0] == w@[0]@);
            }
            match str_strip_prefix(w[0], prefix.as_str()) {
                Some(n) => {
                    out.push(String::from_str(n));
                    proof {
                        assert(string_views(out@) =~= before.push(n@));
                    }
                },
                None => {
                    proof {
                        assert(before + Seq::<Seq<char>>::empty() =~= before);
                    }
                },
            }
        } else {
            proof {
                assert(before + Seq::<Seq<char>>::empty() =~= before);
            }
        }
        i += 1;
    }
    proof {
        assert(lv.take(ls.len() as int) =~= lv);
    }
    out
}

/// The newest snapshot both sides have: the last of `source` that `target`
/// also has. No fallback: with no shared point an incremental send is
/// impossible and the caller must decide, not guess.
pub open spec fn newest_common(source: Seq<Seq<char>>, target: Seq<Seq<char>>) -> Option<Seq<char>>
    decreases source.len(),
{
    if source.len() == 0 {
        None
    } else if target.contains(source.last()) {
        Some(source.last())
    } else {
        newest_common(source.drop_last(), target)
    }
}

pub fn common_base(source: &[String], target: &[String]) -> (r: Option<String>)
    ensures
        opt_string(r) == newest_common(string_views(source@), string_views(target@)),
{
    let ghost sv = string_views(source@);
    let ghost tv = string_views(target@);
    let mut i = source.len();
    proof {
        assert(sv.take(i as int) =~= sv);
    }
    while i > 0
        invariant
            i <= source.len(),
            sv == string_views(source@),
            tv == string_views(target@),
            newest_common(sv, tv) == newest_common(sv.take(i as int), tv),
        decreases i,
    {
        let s = &source[i - 1];
        proof {
            assert(sv.take(i as int).last() == s@);
            assert(sv.take(i as int).drop_last() =~= sv.take(i - 1));
        }
        let mut found = false;
        let mut j: usize = 0;
        while j < target.len()
            invariant
                j <= target.len(),
                tv == string_views(target@),
                found == tv.take(j as int).contains(s@),
            decreases target.len() - j,
        {
            proof {
                assert(tv.take(j + 1) =~= tv.take(j as int).push(target@[j as int]@));
                let a = tv.take(j as int);
                if a.contains(s@) {
                    let k = choose|k: int| 0 <= k < a.len() && a[k] == s@;
                    assert(a.push(target@[j as int]@)[k] == s@);
                }
            }
            if str_eq(target[j].as_str(), s.as_str()) {
                proof {
                    assert(tv.take(j + 1)[j as int] == s@);
                }
                found = true;
            } else {
                proof {
                    let a = tv.take(j as int);
                    if !found && a.push(target@[j as int]@).contains(s@) {
                        let k = choose|k: int| 0 <= k < j + 1 && a.push(target@[j as int]@)[k] == s@;
                        assert(a[k] == s@);
                    }
                }
            }
            j += 1;
        }
        proof {
            assert(tv.take(target.len() as int) =~= tv);
        }
        if found {
            return Some(s.clone());
        }
        i -= 1;
    }
    None
}

/// Truncating division, as Rust divides signed integers.
pub open spec fn tdiv(a: int, b: int) -> int {
    if a >= 0 {
        a / b
    } else {
        -((-a) / b)
    }
}

/// Days since the epoch of a civil date (the days-from-civil algorithm,
/// with Rust's truncating division).
pub open spec fn days_from_civil(y: int, mo: int, d: int) -> int {
    let y2 = if mo <= 2 { y - 1 } else { y };
    let era = tdiv(if y2 >= 0 { y2 } else { y2 - 399 }, 400);
    let yoe = y2 - era * 400;
    let mp = (mo + 9) - tdiv(mo + 9, 12) * 12;
    let doy = tdiv(153 * mp + 2, 5) + d - 1;
    let doe = yoe * 365 + tdiv(yoe, 4) - tdiv(yoe, 100) + doy;
    era * 146097 + doe - 719468
}

pub open spec fn all_ascii(s: Seq<char>) -> bool {
    forall|i: int| 0 <= i < s.len() ==> (s[i] as u32) < 128
}

/// `homelab-YYYYMMDD-HHMM` as unix time. Anything unparseable counts as
/// brand new (`now`), so retention keeps it rather than deleting blindly.
pub open spec fn snap_time_of(name: Seq<char>, now: u64) -> u64 {
    match strip_prefix(name, snap_prefix()) {
        None => now,
        Some(rest) => match split_once(rest, '-') {
            None => now,
            Some((date, time)) => if !all_ascii(date) || !all_ascii(time) || date.len() != 8
                || time.len() != 4 {
                now
            } else {
                match (
                    parse_signed(date.subrange(0, 4), i64::MAX as nat),
                    parse_signed(date.subrange(4, 6), i64::MAX as nat),
                    parse_signed(date.subrange(6, 8), i64::MAX as nat),
                    parse_signed(time.subrange(0, 2), i64::MAX as nat),
                    parse_signed(time.subrange(2, 4), i64::MAX as nat),
                ) {
                    (Some(y), Some(mo), Some(d), Some(h), Some(mi)) => {
                        let t = days_from_civil(y, mo, d) * 86400 + h * 3600 + mi * 60;
                        if t < 0 {
                            0
                        } else {
                            t as u64
                        }
                    },
                    _ => now,
                }
            },
        },
    }
}

pub fn ascii_only(s: &str) -> (r: bool)
    ensures
        r == all_ascii(s@),
{
    let n = s.unicode_len();
    let mut i: usize = 0;
    while i < n
        invariant
            i <= n,
            n == s@.len(),
            forall|k: int| 0 <= k < i ==> (s@[k] as u32) < 128,
        decreases n - i,
    {
        if (s.get_char(i) as u32) >= 128 {
            return false;
        }
        i += 1;
    }
    true
}

pub open spec fn pow10(n: nat) -> int
    decreases n,
{
    if n == 0 {
        1
    } else {
        10 * pow10((n - 1) as nat)
    }
}

proof fn lemma_digits_bound(s: Seq<char>)
    requires
        crate::text::all_digits(s),
    ensures
        crate::text::digits_value(s) < pow10(s.len()),
    decreases s.len(),
{
    if s.len() > 0 {
        assert(crate::text::all_digits(s.drop_last()));
        lemma_digits_bound(s.drop_last());
        assert(crate::text::is_digit(s.last()));
    }
}

/// A parsed field of `n <= 4` characters lies in `-(10^(n-1) - 1) ..= 10^n - 1`.
proof fn lemma_small_field(s: Seq<char>, v: int)
    requires
        1 <= s.len() <= 4,
        parse_signed(s, i64::MAX as nat) == Some(v),
    ensures
        -(pow10((s.len() - 1) as nat) - 1) <= v < pow10(s.len()),
{
    if s[0] == '-' {
        lemma_digits_bound(s.drop_first());
    } else {
        let d = crate::text::unsigned_body(s);
        lemma_digits_bound(d);
        if d.len() < s.len() {
            assert(pow10(d.len()) <= pow10(s.len()));
        }
    }
}

pub fn field(s: &str, from: usize, to: usize) -> (r: Option<i64>)
    requires
        from <= to <= s@.len(),
        to - from == 2 || to - from == 4,
    ensures
        match r {
            Some(v) => parse_signed(s@.subrange(from as int, to as int), i64::MAX as nat) == Some(v as int)
                && -999 <= v <= 9999 && (to - from == 2 ==> -9 <= v <= 99),
            None => parse_signed(s@.subrange(from as int, to as int), i64::MAX as nat) is None,
        },
{
    let part = s.substring_char(from, to);
    let r = parse_i64(part);
    proof {
        if let Some(v) = r {
            lemma_small_field(part@, v as int);
            reveal_with_fuel(pow10, 5);
            assert(pow10(1) == 10);
            assert(pow10(2) == 100);
            assert(pow10(3) == 1000);
            assert(pow10(4) == 10000);
        }
    }
    r
}

fn civil_days(y: i64, mo: i64, d: i64) -> (r: i64)
    requires
        -999 <= y <= 9999,
        -9 <= mo <= 99,
        -9 <= d <= 99,
    ensures
        r == days_from_civil(y as int, mo as int, d as int),
{
    let y2 = if mo <= 2 { y - 1 } else { y };
    let era = (if y2 >= 0 { y2 } else { y2 - 399 }) / 400;
    let yoe = y2 - era * 400;
    let mp = (mo + 9) % 12;
    let doy = (153 * mp + 2) / 5 + d - 1;
    let doe = yoe * 365 + yoe / 4 - yoe / 100 + doy;
    proof {
        assert(mp == (mo + 9) - tdiv(mo + 9, 12) * 12);
    }
    era * 146_097 + doe - 719_468
}

/// A snapshot's name as unix time.
pub fn snap_time(name: &str, now: u64) -> (r: u64)
    ensures
        r == snap_time_of(name@, now),
{
    let rest = match str_strip_prefix(name, "homelab-") {
        Some(r) => r,
        None => return now,
    };
    let (date, time) = match str_split_once(rest, '-') {
        Some(p) => p,
        None => return now,
    };
    if !ascii_only(date) || !ascii_only(time) || date.unicode_len() != 8 || time.unicode_len() != 4 {
        return now;
    }
    let (y, mo, d, h, mi) = match (field(date, 0, 4), field(date, 4, 6), field(date, 6, 8), field(time, 0, 2), field(time, 2, 4)) {
        (Some(y), Some(mo), Some(d), Some(h), Some(mi)) => (y, mo, d, h, mi),
        _ => return now,
    };
    let days = civil_days(y, mo, d);
    let t = days * 86_400 + h * 3600 + mi * 60;
    if t < 0 {
        0
    } else {
        t as u64
    }
}

/// The civil date of a day number: (year, month, day).
pub open spec fn civil_from_days(days: nat) -> (int, int, int) {
    let z = days + 719468;
    let era = z / 146097;
    let doe = z - era * 146097;
    let yoe = (doe - doe / 1460 + doe / 36524 - doe / 146096) / 365;
    let y = yoe + era * 400;
    let doy = doe - (365 * yoe + yoe / 4 - yoe / 100);
    let mp = (5 * doy + 2) / 153;
    let d = doy - (153 * mp + 2) / 5 + 1;
    let m = if mp < 10 { mp + 3 } else { mp - 9 };
    (if m <= 2 { y + 1 } else { y }, m, d)
}

/// `homelab-YYYYMMDD-HHMM` for a unix time: sortable, readable, and what
/// `snap_time` reads back.
pub open spec fn label_of(now: u64) -> Seq<char> {
    let (y, m, d) = civil_from_days((now / 86400) as nat);
    let secs = now % 86400;
    snap_prefix() + pad_left(dec(y as nat), '0', 4) + pad_left(dec(m as nat), '0', 2) + pad_left(
        dec(d as nat),
        '0',
        2,
    ) + "-"@ + pad_left(dec((secs / 3600) as nat), '0', 2) + pad_left(dec(((secs % 3600) / 60) as nat), '0', 2)
}

proof fn lemma_civil_ranges(doe: int)
    requires
        0 <= doe < 146097,
    ensures
        ({
            let yoe = (doe - doe / 1460 + doe / 36524 - doe / 146096) / 365;
            let doy = doe - (365 * yoe + yoe / 4 - yoe / 100);
            &&& 0 <= yoe <= 399
            &&& 0 <= doy <= 365
        }),
{
    let yoe = (doe - doe / 1460 + doe / 36524 - doe / 146096) / 365;
    let a = doe / 1460;
    let b = doe / 36524;
    let c = doe / 146096;
    assert(0 <= a <= 100);
    assert(0 <= b <= 4);
    assert(0 <= c <= 1);
    assert(c == 1 ==> doe == 146096);
    let n = doe - a + b - c;
    assert(0 <= n);
    assert(yoe == n / 365);
    assert(0 <= yoe <= 399) by {
        assert(n <= 146096 - 100 + 4) by {
            if doe == 146096 {
                assert(a == 100);
            }
        }
    }
    assert(yoe * 365 <= n);
    assert(n < yoe * 365 + 365);
    // doe in terms of yoe: 365 * yoe + yoe / 4 - yoe / 100 <= doe < the next year's start
    assert(doe - (365 * yoe + yoe / 4 - yoe / 100) >= 0) by (nonlinear_arith)
        requires
            0 <= doe < 146097,
            a == doe / 1460,
            b == doe / 36524,
            c == doe / 146096,
            n == doe - a + b - c,
            yoe * 365 <= n,
            n < yoe * 365 + 365,
            0 <= yoe <= 399,
    {
    }
    assert(doe - (365 * yoe + yoe / 4 - yoe / 100) <= 365) by (nonlinear_arith)
        requires
            0 <= doe < 146097,
            a == doe / 1460,
            b == doe / 36524,
            c == doe / 146096,
            n == doe - a + b - c,
            yoe * 365 <= n,
            n < yoe * 365 + 365,
            0 <= yoe <= 399,
    {
    }
}

fn two_digits(n: u64) -> (r: String)
    ensures
        r@ == pad_left(dec(n as nat), '0', 2),
{
    let d = dec_string(n);
    proof {
        reveal_strlit("0");
    }
    pad_left_string(d.as_str(), "0", 2)
}

pub fn snapshot_label(now_unix: u64) -> (r: String)
    ensures
        r@ == label_of(now_unix),
{
    let days = now_unix / 86_400;
    let secs = now_unix % 86_400;
    let z = days + 719_468;
    let era = z / 146_097;
    let doe = z - era * 146_097;
    proof {
        lemma_civil_ranges(doe as int);
    }
    let yoe = (doe - doe / 1460 + doe / 36_524 - doe / 146_096) / 365;
    let y = yoe + era * 400;
    let doy = doe - (365 * yoe + yoe / 4 - yoe / 100);
    let mp = (5 * doy + 2) / 153;
    let d = doy - (153 * mp + 2) / 5 + 1;
    let m = if mp < 10 { mp + 3 } else { mp - 9 };
    let y = if m <= 2 { y + 1 } else { y };
    let mut s = String::from_str("homelab-");
    let ys = dec_string(y);
    proof {
        reveal_strlit("0");
    }
    let yp = pad_left_string(ys.as_str(), "0", 4);
    s.append(yp.as_str());
    let mm = two_digits(m);
    s.append(mm.as_str());
    let dd = two_digits(d);
    s.append(dd.as_str());
    s.append("-");
    let hh = two_digits(secs / 3600);
    s.append(hh.as_str());
    let mi = two_digits((secs % 3600) / 60);
    s.append(mi.as_str());
    s
}

/// `'...'` for a shell, with every `'` inside closed, escaped and reopened.
pub open spec fn quote_body(s: Seq<char>) -> Seq<char>
    decreases s.len(),
{
    if s.len() == 0 {
        Seq::empty()
    } else {
        quote_body(s.drop_last()) + if s.last() == '\'' {
            "'\\''"@
        } else {
            seq![s.last()]
        }
    }
}

pub fn shell_quote(s: &str) -> (r: String)
    ensures
        r@ == "'"@ + quote_body(s@) + "'"@,
{
    let n = s.unicode_len();
    let mut out = String::from_str("'");
    let mut i: usize = 0;
    proof {
        reveal_strlit("'");
    }
    while i < n
        invariant
            i <= n,
            n == s@.len(),
            out@ == "'"@ + quote_body(s@.take(i as int)),
        decreases n - i,
    {
        proof {
            assert(s@.take(i + 1).drop_last() =~= s@.take(i as int));
        }
        let c = s.get_char(i);
        if c == '\'' {
            out.append("'\\''");
        } else {
            let one = s.substring_char(i, i + 1);
            proof {
                assert(one@ =~= seq![c]);
            }
            out.append(one);
        }
        i += 1;
    }
    proof {
        assert(s@.take(n as int) =~= s@);
    }
    out.append("'");
    out
}

// ── Reading a label back ────────────────────────────────────────────────────

proof fn lemma_dec_digits(n: nat)
    ensures
        crate::text::all_digits(dec(n)),
        crate::text::digits_value(dec(n)) == n,
        dec(n).len() >= 1,
        forall|k: nat| 1 <= k && n < pow10(k) ==> dec(n).len() <= k,
    decreases n,
{
    if n < 10 {
        let c = crate::text::digit_char(n);
        assert(c as nat == '0' as nat + n);
        assert(crate::text::is_digit(c));
        assert(dec(n) == seq![c]);
        assert(dec(n).drop_last() =~= Seq::<char>::empty());
        assert(dec(n).last() == c);
        assert(crate::text::digits_value(dec(n)) == crate::text::digits_value(Seq::<char>::empty()) * 10 + ((c as nat) - ('0' as nat)) as nat);
    } else {
        lemma_dec_digits(n / 10);
        let c = crate::text::digit_char(n % 10);
        assert(c as nat == '0' as nat + n % 10);
        assert(dec(n).drop_last() =~= dec(n / 10));
        assert(dec(n).last() == c);
        assert forall|i: int| 0 <= i < dec(n).len() implies crate::text::is_digit(#[trigger] dec(n)[i]) by {
            if i < dec(n).len() - 1 {
                assert(dec(n)[i] == dec(n / 10)[i]);
            }
        }
        assert forall|k: nat| 1 <= k && n < pow10(k) implies dec(n).len() <= k by {
            assert(pow10(k) == 10 * pow10((k - 1) as nat));
            assert(n / 10 < pow10((k - 1) as nat));
            if k == 1 {
                assert(pow10(0) == 1);
            }
        }
    }
}

proof fn lemma_zeros(k: nat)
    ensures
        crate::text::all_digits(crate::text::repeat('0', k)),
        crate::text::digits_value(crate::text::repeat('0', k)) == 0,
    decreases k,
{
    if k > 0 {
        lemma_zeros((k - 1) as nat);
        let r = crate::text::repeat('0', k);
        assert(r.drop_last() =~= crate::text::repeat('0', (k - 1) as nat));
        assert forall|i: int| 0 <= i < r.len() implies crate::text::is_digit(#[trigger] r[i]) by {
            if i < r.len() - 1 {
                assert(r[i] == crate::text::repeat('0', (k - 1) as nat)[i]);
            }
        }
    }
}

proof fn lemma_leading_zeros(k: nat, s: Seq<char>)
    requires
        crate::text::all_digits(s),
    ensures
        crate::text::all_digits(crate::text::repeat('0', k) + s),
        crate::text::digits_value(crate::text::repeat('0', k) + s) == crate::text::digits_value(s),
    decreases s.len(),
{
    let z = crate::text::repeat('0', k);
    lemma_zeros(k);
    crate::text::lemma_repeat_len('0', k);
    if s.len() == 0 {
        assert(z + s =~= z);
    } else {
        lemma_leading_zeros(k, s.drop_last());
        assert((z + s).drop_last() =~= z + s.drop_last());
        assert((z + s).last() == s.last());
    }
    assert forall|i: int| 0 <= i < (z + s).len() implies crate::text::is_digit(#[trigger] (z + s)[i]) by {
        if i < z.len() {
            assert((z + s)[i] == z[i]);
        } else {
            assert((z + s)[i] == s[i - z.len()]);
        }
    }
}

/// A number written with at least `w` digits reads back as itself.
proof fn lemma_padded_reads_back(n: nat, w: nat)
    requires
        1 <= w,
        n < pow10(w),
        n <= i64::MAX,
    ensures
        pad_left(dec(n), '0', w).len() == w,
        crate::text::all_digits(pad_left(dec(n), '0', w)),
        parse_signed(pad_left(dec(n), '0', w), i64::MAX as nat) == Some(n as int),
        all_ascii(pad_left(dec(n), '0', w)),
{
    lemma_dec_digits(n);
    let p = pad_left(dec(n), '0', w);
    if dec(n).len() < w {
        lemma_leading_zeros((w - dec(n).len()) as nat, dec(n));
        crate::text::lemma_repeat_len('0', (w - dec(n).len()) as nat);
    }
    assert(crate::text::is_digit(p[0]));
    assert(p[0] != '-' && p[0] != '+');
    assert(crate::text::unsigned_body(p) == p);
    assert forall|i: int| 0 <= i < p.len() implies (p[i] as u32) < 128 by {
        assert(crate::text::is_digit(p[i]));
    }
}

/// The day number of a civil date inverts `civil_from_days`, and the date
/// has a month and a day in range.
proof fn lemma_civil_round_trip(days: nat)
    ensures
        ({
            let (y, m, d) = civil_from_days(days);
            &&& 1 <= m <= 12
            &&& 1 <= d <= 31
            &&& 0 <= y
            &&& days_from_civil(y, m, d) == days
            &&& days <= 2932896 ==> y <= 9999
        }),
{
    let z = days + 719468;
    let era = z / 146097;
    let doe = z - era * 146097;
    assert(0 <= doe < 146097);
    lemma_civil_ranges(doe);
    let yoe = (doe - doe / 1460 + doe / 36524 - doe / 146096) / 365;
    let y = yoe + era * 400;
    let doy = doe - (365 * yoe + yoe / 4 - yoe / 100);
    let mp = (5 * doy + 2) / 153;
    let d = doy - (153 * mp + 2) / 5 + 1;
    let m = if mp < 10 { mp + 3 } else { mp - 9 };
    let yy = if m <= 2 { y + 1 } else { y };
    assert(civil_from_days(days) == (yy, m, d));
    assert(0 <= mp <= 11);
    assert(153 * mp <= 5 * doy + 2);
    assert(5 * doy + 2 < 153 * mp + 153);
    assert((153 * mp + 2) / 5 <= doy);
    assert(1 <= d <= 31);
    assert(0 <= era);
    assert(0 <= y);
    // Going back.
    let y2 = if m <= 2 { yy - 1 } else { yy };
    assert(y2 == y);
    assert(tdiv(y2, 400) == era);
    assert(y2 - era * 400 == yoe);
    assert(tdiv(m + 9, 12) == (if m + 9 >= 12 { 1int } else { 0int }));
    assert((m + 9) - tdiv(m + 9, 12) * 12 == mp);
    assert(tdiv(153 * mp + 2, 5) == (153 * mp + 2) / 5);
    assert(tdiv(yoe, 4) == yoe / 4);
    assert(tdiv(yoe, 100) == yoe / 100);
    assert(days_from_civil(yy, m, d) == era * 146097 + doe - 719468);
    if days <= 2932896 {
        assert(era <= 24);
        if era == 24 {
            assert(doe <= 146036);
            if yoe == 399 {
                assert(doy <= 305);
                assert(mp <= 9);
            }
        }
    }
}

/// A name that is not one of this suite's labels is dated now: without the
/// label prefix, or with a date and time that are not eight and four
/// characters.
pub proof fn law_foreign_name_reads_as_now(name: Seq<char>, now: u64)
    requires
        strip_prefix(name, snap_prefix()) matches Some(rest) ==> (split_once(rest, '-') matches Some((date, time))
            ==> date.len() != 8 || time.len() != 4),
    ensures
        snap_time_of(name, now) == now,
{
}

/// A snapshot's label reads back as the minute it was taken: `snap_time`
/// gives the labelled time without its seconds, for every time whose year
/// has four digits (before the year 10000).
pub proof fn law_label_reads_back(t: u64, now: u64)
    requires
        t < 253402300800,
    ensures
        snap_time_of(label_of(t), now) == t - t % 60,
{
    let days = (t / 86400) as nat;
    let secs = t % 86400;
    lemma_civil_round_trip(days);
    let (y, m, d) = civil_from_days(days);
    let h = secs / 3600;
    let mi = (secs % 3600) / 60;
    reveal_with_fuel(pow10, 5);
    assert(pow10(4) == 10000 && pow10(2) == 100);
    lemma_padded_reads_back(y as nat, 4);
    lemma_padded_reads_back(m as nat, 2);
    lemma_padded_reads_back(d as nat, 2);
    lemma_padded_reads_back(h as nat, 2);
    lemma_padded_reads_back(mi as nat, 2);
    let ys = pad_left(dec(y as nat), '0', 4);
    let ms = pad_left(dec(m as nat), '0', 2);
    let ds = pad_left(dec(d as nat), '0', 2);
    let hs = pad_left(dec(h as nat), '0', 2);
    let mis = pad_left(dec(mi as nat), '0', 2);
    reveal_strlit("homelab-");
    reveal_strlit("-");
    let label = label_of(t);
    assert(label == snap_prefix() + ys + ms + ds + "-"@ + hs + mis);
    let rest = ys + ms + ds + "-"@ + hs + mis;
    assert(label =~= snap_prefix() + rest);
    assert(starts_with(label, snap_prefix())) by {
        assert(label.take(8) =~= snap_prefix());
    }
    assert(label.skip(8) =~= rest);
    assert(strip_prefix(label, snap_prefix()) == Some(rest));
    let date = ys + ms + ds;
    let time = hs + mis;
    assert(rest =~= date + "-"@ + time);
    assert forall|k: int| 0 <= k < 8 implies rest[k] != '-' by {
        assert(rest[k] == date[k]);
        if k < 4 {
            assert(date[k] == ys[k]);
            assert(crate::text::is_digit(ys[k]));
        } else if k < 6 {
            assert(date[k] == ms[k - 4]);
            assert(crate::text::is_digit(ms[k - 4]));
        } else {
            assert(date[k] == ds[k - 6]);
            assert(crate::text::is_digit(ds[k - 6]));
        }
    }
    assert(rest[8] == '-');
    crate::text::lemma_index_of_at(rest, '-', 8);
    assert(rest.take(8) =~= date);
    assert(rest.skip(9) =~= time);
    assert(split_once(rest, '-') == Some((date, time)));
    assert(all_ascii(date)) by {
        assert forall|i: int| 0 <= i < date.len() implies (date[i] as u32) < 128 by {
            if i < 4 {
                assert(date[i] == ys[i]);
            } else if i < 6 {
                assert(date[i] == ms[i - 4]);
            } else {
                assert(date[i] == ds[i - 6]);
            }
        }
    }
    assert(all_ascii(time)) by {
        assert forall|i: int| 0 <= i < time.len() implies (time[i] as u32) < 128 by {
            if i < 2 {
                assert(time[i] == hs[i]);
            } else {
                assert(time[i] == mis[i - 2]);
            }
        }
    }
    assert(date.subrange(0, 4) =~= ys);
    assert(date.subrange(4, 6) =~= ms);
    assert(date.subrange(6, 8) =~= ds);
    assert(time.subrange(0, 2) =~= hs);
    assert(time.subrange(2, 4) =~= mis);
    assert(days_from_civil(y, m, d) == days);
    assert(days * 86400 + secs == t);
    assert(secs == h * 3600 + (secs % 3600));
    assert(secs % 3600 == mi * 60 + (secs % 3600) % 60);
    assert(t % 60 == (secs % 3600) % 60) by (nonlinear_arith)
        requires
            t == days * 86400 + secs,
            secs == h * 3600 + (secs % 3600),
            secs % 3600 == mi * 60 + (secs % 3600) % 60,
            0 <= (secs % 3600) % 60 < 60,
    ;
}

// ── How a replication sends ─────────────────────────────────────────────────

/// `'s'` for a shell.
pub open spec fn quoted_arg(s: Seq<char>) -> Seq<char> {
    "'"@ + quote_body(s) + "'"@
}

/// How many lines of a listing name a snapshot (hold an `@`).
pub open spec fn at_lines(ls: Seq<Seq<char>>) -> nat
    decreases ls.len(),
{
    if ls.len() == 0 {
        0
    } else {
        at_lines(ls.drop_last()) + if ls.last().contains('@') {
            1nat
        } else {
            0nat
        }
    }
}

/// What a replication of `source` into `target` sends, given the
/// snapshot just taken (`snap`, i.e. `source@label`), the source's
/// snapshot names and the target's listing: from the newest common
/// snapshot when there is one; a full seed when the target is new or holds
/// no snapshot at all; and otherwise nothing — a target with history that
/// shares none would lose it to a re-seed, so that is refused.
/// `Ok((script, timeout))` or the refusal's text.
pub open spec fn send_plan_of(
    source: Seq<char>,
    target: Seq<char>,
    snap: Seq<char>,
    src_snaps: Seq<Seq<char>>,
    tgt: crate::executor::OutputView,
) -> Result<(Seq<char>, u64), Seq<char>> {
    let tgt_snaps = snap_names(lines_of(tgt.stdout), target);
    let held = at_lines(lines_of(tgt.stdout));
    match newest_common(src_snaps, tgt_snaps) {
        Some(base) => Ok((
            "zfs send -RI "@ + quoted_arg(source + "@"@ + base) + " "@ + quoted_arg(snap)
                + " | zfs receive -F -x mountpoint "@ + quoted_arg(target),
            21600,
        )),
        None => if tgt.code != 0 || held == 0 {
            Ok(("zfs send -R "@ + quoted_arg(snap) + " | zfs receive -F -x mountpoint "@ + quoted_arg(target), 43200))
        } else {
            Err(
                source + " and "@ + target + " share no snapshot, but "@ + target + " already holds "@ + dec(held)
                    + " snapshot(s) (subtree included). Re-seeding would destroy that history, so this job stops here. Decide deliberately: investigate why the chain broke, or wipe the target yourself with `zfs destroy -r "@
                    + target + "` and re-run for a fresh seed."@,
            )
        },
    }
}

fn count_at_lines(s: &str) -> (r: usize)
    ensures
        r as nat == at_lines(lines_of(s@)),
{
    let ls = lines(s);
    let ghost lv = views(ls@);
    let mut n: usize = 0;
    let mut i: usize = 0;
    while i < ls.len()
        invariant
            i <= ls.len(),
            lv == views(ls@),
            lv == lines_of(s@),
            n as nat == at_lines(lv.take(i as int)),
            n <= i,
        decreases ls.len() - i,
    {
        proof {
            assert(lv.take(i + 1).drop_last() =~= lv.take(i as int));
            assert(lv.take(i + 1).last() == ls@[i as int]@);
        }
        let cs = crate::text::chars_of(ls[i]);
        let mut j: usize = 0;
        let mut has = false;
        while j < cs.len()
            invariant
                j <= cs.len(),
                cs@ == ls@[i as int]@,
                has == exists|k: int| 0 <= k < j && #[trigger] cs@[k] == '@',
            decreases cs.len() - j,
        {
            if cs[j] == '@' {
                has = true;
            }
            j += 1;
        }
        proof {
            if ls@[i as int]@.contains('@') {
                let k = choose|k: int| 0 <= k < ls@[i as int]@.len() && ls@[i as int]@[k] == '@';
                assert(cs@[k] == '@');
            }
        }
        if has {
            n += 1;
        }
        i += 1;
    }
    proof {
        assert(lv.take(ls.len() as int) =~= lv);
    }
    n
}

/// The send for one replication job; see [`send_plan_of`].
pub fn send_plan(
    source: &str,
    target: &str,
    snap: &str,
    src_snaps: &Vec<String>,
    tgt: &crate::executor::CmdOutput,
) -> (r: Result<(String, u64), crate::error::CoreError>)
    ensures
        match send_plan_of(source@, target@, snap@, string_views(src_snaps@), tgt@) {
            Ok((script, t)) => r matches Ok((s, u)) && s@ == script && u == t,
            Err(m) => r matches Err(crate::error::CoreError::SafetyAbort(x)) && x@ == m,
        },
{
    let tgt_snaps = parse_snap_names(tgt.stdout.as_str(), target);
    let held = count_at_lines(tgt.stdout.as_str());
    match common_base(src_snaps.as_slice(), tgt_snaps.as_slice()) {
        Some(base) => {
            let mut from = String::from_str(source);
            from.append("@");
            from.append(base.as_str());
            let mut s = String::from_str("zfs send -RI ");
            let a = shell_quote(from.as_str());
            s.append(a.as_str());
            s.append(" ");
            let b = shell_quote(snap);
            s.append(b.as_str());
            s.append(" | zfs receive -F -x mountpoint ");
            let c = shell_quote(target);
            s.append(c.as_str());
            Ok((s, 21600))
        },
        None => {
            if !tgt.success() || held == 0 {
                let mut s = String::from_str("zfs send -R ");
                let b = shell_quote(snap);
                s.append(b.as_str());
                s.append(" | zfs receive -F -x mountpoint ");
                let c = shell_quote(target);
                s.append(c.as_str());
                Ok((s, 43200))
            } else {
                let mut m = String::from_str(source);
                m.append(" and ");
                m.append(target);
                m.append(" share no snapshot, but ");
                m.append(target);
                m.append(" already holds ");
                let h = dec_string(held as u64);
                m.append(h.as_str());
                m.append(
                    " snapshot(s) (subtree included). Re-seeding would destroy that history, so this job stops here. Decide deliberately: investigate why the chain broke, or wipe the target yourself with `zfs destroy -r ",
                );
                m.append(target);
                m.append("` and re-run for a fresh seed.");
                Err(crate::error::CoreError::SafetyAbort(m))
            }
        },
    }
}

/// A replication never re-seeds a target that holds history it does not
/// share: whatever the listing, a plan that is a full seed comes only for a
/// target that is missing or holds no snapshot at all.
pub proof fn law_history_is_never_reseeded(
    source: Seq<char>,
    target: Seq<char>,
    snap: Seq<char>,
    src_snaps: Seq<Seq<char>>,
    tgt: crate::executor::OutputView,
)
    requires
        tgt.code == 0,
        at_lines(lines_of(tgt.stdout)) > 0,
        newest_common(src_snaps, snap_names(lines_of(tgt.stdout), target)) is None,
    ensures
        send_plan_of(source, target, snap, src_snaps, tgt) is Err,
{
}

// ── Running the jobs ────────────────────────────────────────────────────────

/// Whether `ds` exists.
pub open spec fn check_req(ds: Seq<char>) -> Request {
    Request::Run("zfs"@, seq!["list"@, "-H"@, "-o"@, "name"@, ds], 60)
}

/// The recursive snapshot `snap`.
pub open spec fn snapshot_req(snap: Seq<char>) -> Request {
    Request::Run("zfs"@, seq!["snapshot"@, "-r"@, snap], 300)
}

/// Every snapshot under `ds`, oldest first.
pub open spec fn listing_req(ds: Seq<char>) -> Request {
    Request::Run(
        "zfs"@,
        seq!["list"@, "-H"@, "-t"@, "snapshot"@, "-o"@, "name"@, "-s"@, "creation"@, "-r"@, ds],
        120,
    )
}

/// The send at `i` is the plan its two listings give: `q[i - 2]` lists the
/// source, `q[i - 1]` the target, both answered, and the send is exactly
/// what [`send_plan_of`] makes of those answers for the snapshot
/// `source@label`.
pub open spec fn sent_by_plan(label: Seq<char>, q: Seq<Request>, h: Seq<Option<OutputView>>, d: int, i: int) -> bool {
    &&& i >= 2
    &&& i - 2 + d >= 0
    &&& q[i - 2] matches Request::Run(_, b1, _)
    &&& q[i - 1] matches Request::Run(_, b2, _)
    &&& b1.len() == 10 && b2.len() == 10
    &&& q[i - 2] == listing_req(b1[9])
    &&& q[i - 1] == listing_req(b2[9])
    &&& h[i - 2 + d] matches Some(so)
    &&& h[i - 1 + d] matches Some(to)
    &&& send_plan_of(b1[9], b2[9], b1[9] + "@"@ + label, snap_names(lines_of(so.stdout), b1[9]), to) matches Ok(
        (script, t),
    )
    &&& q[i] == Request::Run("sh"@, seq!["-c"@, script], t)
}

/// Request `i` of a replication is sound: a destroy names exactly one
/// snapshot (never recursive); a snapshot comes right after the check that
/// found its dataset; a send is the plan its listings give.
pub open spec fn sound_at(label: Seq<char>, q: Seq<Request>, h: Seq<Option<OutputView>>, d: int, i: int) -> bool {
    match q[i] {
        Request::Run(p, a, _) => {
            &&& (p == "zfs"@ && a.len() > 0 && a[0] == "destroy"@ ==> a.len() == 2)
            &&& (p == "zfs"@ && a.len() > 0 && a[0] == "snapshot"@ ==> {
                &&& a.len() == 3
                &&& i >= 1
                &&& i - 1 + d >= 0
                &&& q[i - 1] matches Request::Run(_, b, _)
                &&& b.len() == 5
                &&& q[i - 1] == check_req(b[4])
                &&& a[2] == b[4] + "@"@ + label
                &&& h[i - 1 + d] matches Some(o)
                &&& o.code == 0
            })
            &&& (p == "sh"@ ==> sent_by_plan(label, q, h, d, i))
        },
        _ => true,
    }
}

/// Every request from `from` on is sound.
pub open spec fn all_sound(label: Seq<char>, q: Seq<Request>, h: Seq<Option<OutputView>>, d: int, from: int) -> bool {
    forall|i: int| from <= i < q.len() ==> #[trigger] sound_at(label, q, h, d, i)
}

/// A send: a shell pipeline.
pub open spec fn is_send(r: Request) -> bool {
    r matches Request::Run(p, _, _) && p == "sh"@
}

/// Request `i` is a send right after the listings of `source` and `target`.
pub open spec fn sends_at(q: Seq<Request>, i: int, source: Seq<char>, target: Seq<char>) -> bool {
    i >= 2 && is_send(q[i]) && q[i - 2] == listing_req(source) && q[i - 1] == listing_req(target)
}

/// `q` holds, from `from` on, the send of a job from `source` to `target`.
pub open spec fn job_sent(q: Seq<Request>, from: int, source: Seq<char>, target: Seq<char>) -> bool {
    exists|i: int| from + 2 <= i < q.len() && #[trigger] sends_at(q, i, source, target)
}

proof fn lemma_zfs_words()
    ensures
        "zfs"@ != "sh"@,
        "list"@ != "destroy"@,
        "list"@ != "snapshot"@,
        "destroy"@ != "snapshot"@,
{
    reveal_strlit("zfs");
    reveal_strlit("sh");
    reveal_strlit("list");
    reveal_strlit("destroy");
    reveal_strlit("snapshot");
    assert("zfs"@.len() == 3 && "sh"@.len() == 2);
    assert("list"@.len() == 4 && "destroy"@.len() == 7 && "snapshot"@.len() == 8);
}

/// One more request and its reply keep every earlier request sound, and the
/// record's requests and replies in step.
proof fn lemma_sound_push(
    label: Seq<char>,
    q: Seq<Request>,
    h: Seq<Option<OutputView>>,
    d: int,
    from: int,
    q2: Seq<Request>,
    h2: Seq<Option<OutputView>>,
)
    requires
        all_sound(label, q, h, d, from),
        0 <= from <= q.len(),
        from + d >= 0,
        h.len() == q.len() + d,
        q2.len() == q.len() + 1,
        q2.drop_last() == q,
        h2.len() == h.len() + 1,
        h2.drop_last() == h,
        sound_at(label, q2, h2, d, q.len() as int),
    ensures
        all_sound(label, q2, h2, d, from),
{
    assert forall|i: int| from <= i < q2.len() implies #[trigger] sound_at(label, q2, h2, d, i) by {
        if i < q.len() {
            assert(sound_at(label, q, h, d, i));
            assert(q2[i] == q[i]);
            if i >= 1 {
                assert(q2[i - 1] == q[i - 1]);
                if i - 1 + d >= 0 {
                    assert(h2[i - 1 + d] == h[i - 1 + d]);
                }
            }
            if i >= 2 {
                assert(q2[i - 2] == q[i - 2]);
                if i - 2 + d >= 0 {
                    assert(h2[i - 2 + d] == h[i - 2 + d]);
                }
            }
        }
    }
}

proof fn lemma_sent_push(q: Seq<Request>, q2: Seq<Request>, from: int, source: Seq<char>, target: Seq<char>)
    requires
        job_sent(q, from, source, target),
        q2.len() >= q.len(),
        q2.take(q.len() as int) == q,
    ensures
        job_sent(q2, from, source, target),
{
    let i = choose|i: int| from + 2 <= i < q.len() && #[trigger] sends_at(q, i, source, target);
    assert(q2.take(q.len() as int)[i] == q2[i]);
    assert(q2.take(q.len() as int)[i - 1] == q2[i - 1]);
    assert(q2.take(q.len() as int)[i - 2] == q2[i - 2]);
    assert(sends_at(q2, i, source, target));
}

/// Every name in `v` contains `pv`.
pub open spec fn all_ours(v: Seq<(String, u64)>, pv: Seq<char>) -> bool {
    forall|m: int| 0 <= m < v.len() ==> contains(#[trigger] v[m].0@, pv)
}

proof fn lemma_ours_push(v: Seq<(String, u64)>, x: (String, u64), pv: Seq<char>)
    requires
        all_ours(v, pv),
        contains(x.0@, pv),
    ensures
        all_ours(v.push(x), pv),
{
    assert forall|m: int| 0 <= m < v.push(x).len() implies contains(#[trigger] v.push(x)[m].0@, pv) by {
        if m < v.len() {
            assert(v.push(x)[m] == v[m]);
        }
    }
}

proof fn lemma_victim_ours(g: Seq<(Seq<char>, nat)>, tiers: Seq<RetentionTier>, now: nat, x: Seq<char>, pv: Seq<char>)
    requires
        forall|m: int| 0 <= m < g.len() ==> contains(#[trigger] g[m].0, pv),
        forgotten(g, tiers, now).contains(x),
    ensures
        contains(x, pv),
{
    law_forgets_only_given_snapshots(g, tiers, now, x);
    let w = choose|w: int| 0 <= w < g.len() && (#[trigger] g[w]).0 == x;
    assert(contains(g[w].0, pv));
}

/// Our snapshots in a listing, in listed order, as (dataset, full name,
/// time): the first word of each line that holds `@homelab-`, split at its
/// first `@`.
pub open spec fn our_entries(ls: Seq<Seq<char>>, now: u64) -> Seq<(Seq<char>, Seq<char>, u64)>
    decreases ls.len(),
{
    if ls.len() == 0 {
        Seq::empty()
    } else {
        let pre = our_entries(ls.drop_last(), now);
        let w = words(ls.last());
        if w.len() > 0 && contains(w[0], "@"@ + snap_prefix()) {
            match split_once(w[0], '@') {
                Some((d, sn)) => pre.push((d, w[0], snap_time_of(sn, now))),
                None => pre,
            }
        } else {
            pre
        }
    }
}

/// The snapshots of dataset `d` among the entries, as retention sees them.
pub open spec fn group_of(es: Seq<(Seq<char>, Seq<char>, u64)>, d: Seq<char>) -> Seq<(Seq<char>, nat)>
    decreases es.len(),
{
    if es.len() == 0 {
        Seq::empty()
    } else {
        let pre = group_of(es.drop_last(), d);
        if es.last().0 == d {
            pre.push((es.last().1, es.last().2 as nat))
        } else {
            pre
        }
    }
}

/// What the tiers let go, dataset by dataset in the given order.
pub open spec fn victims_of(
    es: Seq<(Seq<char>, Seq<char>, u64)>,
    order: Seq<Seq<char>>,
    tiers: Seq<RetentionTier>,
    now: nat,
) -> Seq<Seq<char>>
    decreases order.len(),
{
    if order.len() == 0 {
        Seq::empty()
    } else {
        victims_of(es, order.drop_last(), tiers, now) + forgotten(group_of(es, order.last()), tiers, now)
    }
}

/// The datasets of the entries, each once, in name order.
pub open spec fn dataset_order(es: Seq<(Seq<char>, Seq<char>, u64)>) -> Seq<Seq<char>> {
    dedup(sort_by(es.map_values(|e: (Seq<char>, Seq<char>, u64)| e.0), str_order()))
}

/// The snapshots a prune of this listing destroys.
pub open spec fn prune_victims_of(listing: Seq<char>, tiers: Seq<RetentionTier>, now: u64) -> Seq<Seq<char>> {
    let es = our_entries(lines_of(listing), now);
    victims_of(es, dataset_order(es), tiers, now as nat)
}

pub open spec fn triples_view(t: Seq<(String, String, u64)>) -> Seq<(Seq<char>, Seq<char>, u64)> {
    t.map_values(|x: (String, String, u64)| (x.0@, x.1@, x.2))
}

/// The snapshots a prune destroys in one listing: ours (named
/// `dataset@homelab-…`), grouped by dataset in name order, each group
/// through the retention tiers on its own — every one of them ours.
pub fn prune_victims(listing: &str, tiers: &[RetentionTier], now: u64) -> (r: Vec<String>)
    ensures
        crate::sink::strings(r@) == prune_victims_of(listing@, tiers@, now),
        forall|k: int| 0 <= k < r@.len() ==> contains(#[trigger] r@[k]@, "@"@ + snap_prefix()),
{
    let mut pat = String::from_str("@");
    pat.append("homelab-");
    let ghost pv = pat@;
    proof {
        assert(pv == "@"@ + snap_prefix());
    }
    let ls = lines(listing);
    let ghost lv = views(ls@);
    let mut triples: Vec<(String, String, u64)> = Vec::new();
    let mut datasets: Vec<String> = Vec::new();
    let mut i: usize = 0;
    while i < ls.len()
        invariant
            i <= ls.len(),
            pat@ == pv,
            pv == "@"@ + snap_prefix(),
            lv == views(ls@),
            lv == lines_of(listing@),
            triples_view(triples@) == our_entries(lv.take(i as int), now),
            string_views(datasets@) == triples_view(triples@).map_values(|e: (Seq<char>, Seq<char>, u64)| e.0),
            forall|k: int| 0 <= k < triples@.len() ==> contains(#[trigger] triples@[k].1@, pv),
        decreases ls.len() - i,
    {
        proof {
            assert(lv.take(i + 1).drop_last() =~= lv.take(i as int));
            assert(lv.take(i + 1).last() == ls@[i as int]@);
        }
        let ws = split_whitespace(ls[i]);
        if ws.len() > 0 && str_contains(ws[0], pat.as_str()) {
            proof {
                assert(views(ws@)[0] == ws@[0]@);
            }
            match str_split_once(ws[0], '@') {
                Some((d, sn)) => {
                    let t = snap_time(sn, now);
                    let ghost before = triples@;
                    let ghost before_d = datasets@;
                    triples.push((String::from_str(d), String::from_str(ws[0]), t));
                    datasets.push(String::from_str(d));
                    proof {
                        assert forall|k: int| 0 <= k < triples@.len() implies contains(#[trigger] triples@[k].1@, pv) by {
                            if k < before.len() {
                                assert(triples@[k] == before[k]);
                            }
                        }
                        assert(triples_view(triples@) =~= triples_view(before).push((d@, ws@[0]@, t)));
                        assert(string_views(datasets@) =~= string_views(before_d).push(d@));
                        assert(triples_view(triples@).map_values(|e: (Seq<char>, Seq<char>, u64)| e.0) =~= triples_view(
                            before,
                        ).map_values(|e: (Seq<char>, Seq<char>, u64)| e.0).push(d@));
                    }
                },
                None => {},
            }
        } else {
            proof {
                if ws.len() > 0 {
                    assert(views(ws@)[0] == ws@[0]@);
                }
            }
        }
        i += 1;
    }
    proof {
        assert(lv.take(i as int) =~= lv);
    }
    let ghost tv = triples_view(triples@);
    let order = dedup_strings(sort_strings(datasets));
    let ghost ov = string_views(order@);
    proof {
        assert(ov == dataset_order(tv));
    }
    let mut victims: Vec<String> = Vec::new();
    let mut g: usize = 0;
    proof {
        assert(crate::sink::strings(victims@) =~= victims_of(tv, ov.take(0), tiers@, now as nat));
    }
    while g < order.len()
        invariant
            g <= order.len(),
            tv == triples_view(triples@),
            ov == string_views(order@),
            crate::sink::strings(victims@) == victims_of(tv, ov.take(g as int), tiers@, now as nat),
            forall|k: int| 0 <= k < triples@.len() ==> contains(#[trigger] triples@[k].1@, pv),
            forall|k: int| 0 <= k < victims@.len() ==> contains(#[trigger] victims@[k]@, pv),
        decreases order.len() - g,
    {
        let mut group: Vec<(String, u64)> = Vec::new();
        let mut k: usize = 0;
        proof {
            assert(snaps_view(group@) =~= group_of(tv.take(0), ov[g as int]));
        }
        while k < triples.len()
            invariant
                k <= triples.len(),
                g < order.len(),
                tv == triples_view(triples@),
                ov == string_views(order@),
                snaps_view(group@) == group_of(tv.take(k as int), ov[g as int]),
                forall|m: int| 0 <= m < triples@.len() ==> contains(#[trigger] triples@[m].1@, pv),
                all_ours(group@, pv),
            decreases triples.len() - k,
        {
            proof {
                assert(tv.take(k + 1).drop_last() =~= tv.take(k as int));
                assert(tv.take(k + 1).last() == tv[k as int]);
                assert(tv[k as int] == (triples@[k as int].0@, triples@[k as int].1@, triples@[k as int].2));
                assert(ov[g as int] == order@[g as int]@);
            }
            if str_eq(triples[k].0.as_str(), order[g].as_str()) {
                let ghost before = group@;
                let name = String::from_str(triples[k].1.as_str());
                proof {
                    assert(name@ == triples@[k as int].1@);
                    assert(contains(name@, pv));
                }
                let t = triples[k].2;
                group.push((name, t));
                proof {
                    lemma_ours_push(before, (name, t), pv);
                    assert(snaps_view(group@) =~= snaps_view(before).push((name@, t as nat)));
                }
            }
            k += 1;
        }
        proof {
            assert(tv.take(k as int) =~= tv);
        }
        let f = forget_list(group.as_slice(), tiers, now);
        let ghost done = crate::sink::strings(victims@);
        let mut j: usize = 0;
        proof {
            assert(crate::sink::strings(victims@) =~= done + crate::sink::strings(f@).take(0));
        }
        while j < f.len()
            invariant
                j <= f.len(),
                crate::sink::strings(f@) == forgotten(snaps_view(group@), tiers@, now as nat),
                crate::sink::strings(victims@) == done + crate::sink::strings(f@).take(j as int),
                all_ours(group@, pv),
                forall|m: int| 0 <= m < victims@.len() ==> contains(#[trigger] victims@[m]@, pv),
            decreases f.len() - j,
        {
            proof {
                let x = f@[j as int]@;
                assert(crate::sink::strings(f@)[j as int] == x);
                assert forall|m: int| 0 <= m < snaps_view(group@).len() implies contains(
                    #[trigger] snaps_view(group@)[m].0,
                    pv,
                ) by {
                    assert(snaps_view(group@)[m].0 == group@[m].0@);
                }
                lemma_victim_ours(snaps_view(group@), tiers@, now as nat, x, pv);
            }
            let ghost before = victims@;
            let v = String::from_str(f[j].as_str());
            victims.push(v);
            proof {
                assert forall|m: int| 0 <= m < victims@.len() implies contains(#[trigger] victims@[m]@, pv) by {
                    if m < before.len() {
                        assert(victims@[m] == before[m]);
                    }
                }
                assert(crate::sink::strings(f@).take(j + 1) =~= crate::sink::strings(f@).take(j as int).push(
                    f@[j as int]@,
                ));
                assert(crate::sink::strings(victims@) =~= crate::sink::strings(before).push(v@));
            }
            j += 1;
        }
        proof {
            assert(crate::sink::strings(f@).take(j as int) =~= crate::sink::strings(f@));
            assert(ov.take(g + 1).drop_last() =~= ov.take(g as int));
            assert(ov.take(g + 1).last() == ov[g as int]);
        }
        g += 1;
    }
    proof {
        assert(ov.take(g as int) =~= ov);
    }
    victims
}

/// More of the record keeps every request already there sound.
proof fn lemma_sound_extend(
    label: Seq<char>,
    q1: Seq<Request>,
    h1: Seq<Option<OutputView>>,
    q2: Seq<Request>,
    h2: Seq<Option<OutputView>>,
    d: int,
    from: int,
)
    requires
        all_sound(label, q1, h1, d, from),
        extends(q1, h1, q2, h2),
        h1.len() == q1.len() + d,
        0 <= from <= q1.len(),
        from + d >= 0,
        all_sound(label, q2, h2, d, q1.len() as int),
    ensures
        all_sound(label, q2, h2, d, from),
{
    assert forall|i: int| from <= i < q2.len() implies #[trigger] sound_at(label, q2, h2, d, i) by {
        if i < q1.len() {
            assert(sound_at(label, q1, h1, d, i));
            assert(q2.take(q1.len() as int)[i] == q2[i]);
            if i >= 1 {
                assert(q2.take(q1.len() as int)[i - 1] == q2[i - 1]);
                if i - 1 + d >= 0 {
                    assert(h2.take(h1.len() as int)[i - 1 + d] == h2[i - 1 + d]);
                }
            }
            if i >= 2 {
                assert(q2.take(q1.len() as int)[i - 2] == q2[i - 2]);
                if i - 2 + d >= 0 {
                    assert(h2.take(h1.len() as int)[i - 2 + d] == h2[i - 2 + d]);
                }
            }
        }
    }
}

proof fn lemma_sent_widen(q: Seq<Request>, a: int, b: int, source: Seq<char>, target: Seq<char>)
    requires
        job_sent(q, a, source, target),
        b <= a,
    ensures
        job_sent(q, b, source, target),
{
    let i = choose|i: int| a + 2 <= i < q.len() && #[trigger] sends_at(q, i, source, target);
    assert(b + 2 <= i < q.len() && sends_at(q, i, source, target));
}

fn listing_cmd(ds: &str) -> (c: Cmd)
    ensures
        run_request(c) == listing_req(ds@),
{
    let c = Cmd::new("zfs", &["list", "-H", "-t", "snapshot", "-o", "name", "-s", "creation", "-r", ds], 120);
    proof {
        assert(string_views(c.args@) =~= seq!["list"@, "-H"@, "-t"@, "snapshot"@, "-o"@, "name"@, "-s"@, "creation"@, "-r"@, ds@]);
    }
    c
}

/// The listing at `l` was answered, and `v` is among the snapshots a prune
/// of that answer destroys (see [`prune_victims_of`]).
pub open spec fn victim_of_listing(
    tiers: Seq<RetentionTier>,
    now: u64,
    q: Seq<Request>,
    h: Seq<Option<OutputView>>,
    d: int,
    l: int,
    v: Seq<char>,
) -> bool {
    &&& 0 <= l
    &&& l + d >= 0
    &&& q[l] matches Request::Run(_, b, _)
    &&& b.len() == 10
    &&& q[l] == listing_req(b[9])
    &&& h[l + d] matches Some(o)
    &&& prune_victims_of(o.stdout, tiers, now).contains(v)
}

/// Request `i`, if it destroys a snapshot, destroys exactly one that the
/// retention tiers let go in a listing read before it.
pub open spec fn pruned_at(
    tiers: Seq<RetentionTier>,
    now: u64,
    q: Seq<Request>,
    h: Seq<Option<OutputView>>,
    d: int,
    i: int,
) -> bool {
    match q[i] {
        Request::Run(p, a, _) => (p == "zfs"@ && a.len() > 0 && a[0] == "destroy"@) ==> (a.len() == 2 && exists|l: int|
            l < i && #[trigger] victim_of_listing(tiers, now, q, h, d, l, a[1])),
        _ => true,
    }
}

/// Every request from `from` on destroys only what retention lets go.
pub open spec fn all_pruned(
    tiers: Seq<RetentionTier>,
    now: u64,
    q: Seq<Request>,
    h: Seq<Option<OutputView>>,
    d: int,
    from: int,
) -> bool {
    forall|i: int| from <= i < q.len() ==> #[trigger] pruned_at(tiers, now, q, h, d, i)
}

proof fn lemma_pruned_extend(
    tiers: Seq<RetentionTier>,
    now: u64,
    q1: Seq<Request>,
    h1: Seq<Option<OutputView>>,
    q2: Seq<Request>,
    h2: Seq<Option<OutputView>>,
    d: int,
    from: int,
)
    requires
        all_pruned(tiers, now, q1, h1, d, from),
        extends(q1, h1, q2, h2),
        h1.len() == q1.len() + d,
        0 <= from <= q1.len(),
        from + d >= 0,
        all_pruned(tiers, now, q2, h2, d, q1.len() as int),
    ensures
        all_pruned(tiers, now, q2, h2, d, from),
{
    assert forall|i: int| from <= i < q2.len() implies #[trigger] pruned_at(tiers, now, q2, h2, d, i) by {
        if i < q1.len() {
            assert(pruned_at(tiers, now, q1, h1, d, i));
            assert(q2.take(q1.len() as int)[i] == q2[i]);
            match q1[i] {
                Request::Run(p, a, _) => {
                    if p == "zfs"@ && a.len() > 0 && a[0] == "destroy"@ {
                        let l = choose|l: int| l < i && #[trigger] victim_of_listing(tiers, now, q1, h1, d, l, a[1]);
                        assert(q2.take(q1.len() as int)[l] == q2[l]);
                        assert(h2.take(h1.len() as int)[l + d] == h2[l + d]);
                        assert(victim_of_listing(tiers, now, q2, h2, d, l, a[1]));
                    }
                },
                _ => {},
            }
        }
    }
}

/// A request that destroys nothing keeps the record pruned.
proof fn lemma_pruned_other(
    tiers: Seq<RetentionTier>,
    now: u64,
    q: Seq<Request>,
    h: Seq<Option<OutputView>>,
    d: int,
)
    requires
        q.len() > 0,
        match q.last() {
            Request::Run(p, a, _) => !(p == "zfs"@ && a.len() > 0 && a[0] == "destroy"@),
            _ => true,
        },
    ensures
        all_pruned(tiers, now, q, h, d, q.len() - 1),
{
    assert(pruned_at(tiers, now, q, h, d, q.len() - 1));
}

/// The command at `j` could not run or exited non-zero.
pub open spec fn failed_at(q: Seq<Request>, h: Seq<Option<OutputView>>, d: int, j: int) -> bool {
    &&& q[j] is Run
    &&& !(h[j + d] matches Some(o) && o.code == 0)
}

/// The send plan made of the listings at `i - 1` (source) and `i`
/// (target) refused: the target holds history the source cannot continue.
pub open spec fn plan_refused_at(label: Seq<char>, q: Seq<Request>, h: Seq<Option<OutputView>>, d: int, i: int) -> bool {
    &&& i >= 1
    &&& i - 1 + d >= 0
    &&& q[i - 1] matches Request::Run(_, b1, _)
    &&& q[i] matches Request::Run(_, b2, _)
    &&& b1.len() == 10 && b2.len() == 10
    &&& q[i - 1] == listing_req(b1[9])
    &&& q[i] == listing_req(b2[9])
    &&& h[i - 1 + d] matches Some(so)
    &&& h[i + d] matches Some(to)
    &&& send_plan_of(b1[9], b2[9], b1[9] + "@"@ + label, snap_names(lines_of(so.stdout), b1[9]), to) is Err
}

/// From `from` on, some command failed or some send plan refused: what a
/// replication that did not succeed must have met.
pub open spec fn met_a_stop(label: Seq<char>, q: Seq<Request>, h: Seq<Option<OutputView>>, d: int, from: int) -> bool {
    ||| exists|j: int| from <= j < q.len() && #[trigger] failed_at(q, h, d, j)
    ||| exists|i: int| from <= i < q.len() && #[trigger] plan_refused_at(label, q, h, d, i)
}

proof fn lemma_stop_extend(
    label: Seq<char>,
    q1: Seq<Request>,
    h1: Seq<Option<OutputView>>,
    q2: Seq<Request>,
    h2: Seq<Option<OutputView>>,
    d: int,
    from: int,
)
    requires
        met_a_stop(label, q1, h1, d, from),
        extends(q1, h1, q2, h2),
        h1.len() == q1.len() + d,
        0 <= from,
        from + d >= 0,
    ensures
        met_a_stop(label, q2, h2, d, from),
{
    if exists|j: int| from <= j < q1.len() && #[trigger] failed_at(q1, h1, d, j) {
        let j = choose|j: int| from <= j < q1.len() && #[trigger] failed_at(q1, h1, d, j);
        assert(q2.take(q1.len() as int)[j] == q2[j]);
        assert(h2.take(h1.len() as int)[j + d] == h2[j + d]);
        assert(failed_at(q2, h2, d, j));
    } else {
        let i = choose|i: int| from <= i < q1.len() && #[trigger] plan_refused_at(label, q1, h1, d, i);
        assert(q2.take(q1.len() as int)[i] == q2[i]);
        assert(q2.take(q1.len() as int)[i - 1] == q2[i - 1]);
        assert(h2.take(h1.len() as int)[i + d] == h2[i + d]);
        assert(h2.take(h1.len() as int)[i - 1 + d] == h2[i - 1 + d]);
        assert(plan_refused_at(label, q2, h2, d, i));
    }
}

proof fn lemma_stop_widen(label: Seq<char>, q: Seq<Request>, h: Seq<Option<OutputView>>, d: int, from: int, later: int)
    requires
        met_a_stop(label, q, h, d, later),
        from <= later,
    ensures
        met_a_stop(label, q, h, d, from),
{
    if exists|j: int| later <= j < q.len() && #[trigger] failed_at(q, h, d, j) {
        let j = choose|j: int| later <= j < q.len() && #[trigger] failed_at(q, h, d, j);
        assert(from <= j < q.len() && failed_at(q, h, d, j));
    } else {
        let i = choose|i: int| later <= i < q.len() && #[trigger] plan_refused_at(label, q, h, d, i);
        assert(from <= i < q.len() && plan_refused_at(label, q, h, d, i));
    }
}

/// Retention on one dataset: list its snapshots, destroy the ones the
/// tiers let go, each by name — never recursively.
fn prune_dataset<E: Executor, S: Sink, J: Journal>(
    exec: &mut E,
    runner: &mut Runner<S, J>,
    ds: &str,
    tiers: &[RetentionTier],
    now: u64,
    Ghost(label): Ghost<Seq<char>>,
) -> (r: Result<(), (String, CoreError)>)
    ensures
        extends(old(exec).requests(), old(exec).replies(), final(exec).requests(), final(exec).replies()),
        all_sound(
            label,
            final(exec).requests(),
            final(exec).replies(),
            old(exec).replies().len() - old(exec).requests().len(),
            old(exec).requests().len() as int,
        ),
        all_pruned(
            tiers@,
            now,
            final(exec).requests(),
            final(exec).replies(),
            old(exec).replies().len() - old(exec).requests().len(),
            old(exec).requests().len() as int,
        ),
        final(runner).op_name() == old(runner).op_name(),
        r is Err ==> met_a_stop(
            label,
            final(exec).requests(),
            final(exec).replies(),
            old(exec).replies().len() - old(exec).requests().len(),
            old(exec).requests().len() as int,
        ),
{
    let ghost q0 = exec.requests();
    let ghost h0 = exec.replies();
    let ghost d = h0.len() - q0.len();
    let mut step = String::from_str("prune ");
    step.append(ds);
    runner.begin_step(step.as_str());
    let list = listing_cmd(ds);
    let out = exec.run(&list);
    proof {
        lemma_zfs_words();
        lemma_pushed(q0, h0, run_request(list), reply_of(out));
        assert(sound_at(label, exec.requests(), exec.replies(), d, q0.len() as int));
        lemma_sound_extend(label, q0, h0, exec.requests(), exec.replies(), d, q0.len() as int);
        lemma_pruned_other(tiers@, now, exec.requests(), exec.replies(), d);
    }
    let ghost ql = exec.requests();
    let ghost hl = exec.replies();
    proof {
        lemma_extends_refl(ql, hl);
        assert(ql[q0.len() as int] == listing_req(ds@));
        assert(hl[h0.len() as int] == reply_of(out));
    }
    let out = match out {
        Ok(o) => o,
        Err(e) => {
            proof {
                assert(failed_at(exec.requests(), exec.replies(), d, q0.len() as int));
            }
            let e2 = runner.step_failed(step.as_str(), e);
            return Err((step, e2));
        },
    };
    let victims = prune_victims(out.stdout.as_str(), tiers, now);
    let mut j: usize = 0;
    let mut failure: Option<CoreError> = None;
    while j < victims.len() && failure.is_none()
        invariant
            j <= victims.len(),
            d == h0.len() - q0.len(),
            extends(q0, h0, exec.requests(), exec.replies()),
            all_sound(label, exec.requests(), exec.replies(), d, q0.len() as int),
            all_pruned(tiers@, now, exec.requests(), exec.replies(), d, q0.len() as int),
            ql.len() == q0.len() + 1,
            hl.len() == h0.len() + 1,
            ql[q0.len() as int] == listing_req(ds@),
            hl[h0.len() as int] == Some(out@),
            extends(ql, hl, exec.requests(), exec.replies()),
            crate::sink::strings(victims@) == prune_victims_of(out.stdout@, tiers@, now),
            runner.op_name() == old(runner).op_name(),
            exec.replies().len() == exec.requests().len() + d,
            failure is Some ==> met_a_stop(label, exec.requests(), exec.replies(), d, q0.len() as int),
        decreases victims.len() - j,
    {
        let c = Cmd::new("zfs", &["destroy", victims[j].as_str()], 300);
        let ghost q1 = exec.requests();
        let ghost h1 = exec.replies();
        let res = exec.run(&c);
        proof {
            lemma_zfs_words();
            assert(string_views(c.args@) =~= seq!["destroy"@, victims@[j as int]@]);
            lemma_pushed(q1, h1, run_request(c), reply_of(res));
            assert(sound_at(label, exec.requests(), exec.replies(), d, q1.len() as int));
            lemma_sound_extend(label, q1, h1, exec.requests(), exec.replies(), d, q0.len() as int);
            lemma_extends_trans(q0, h0, q1, h1, exec.requests(), exec.replies());
            lemma_extends_trans(ql, hl, q1, h1, exec.requests(), exec.replies());
            let q = exec.requests();
            let h = exec.replies();
            let l = q0.len() as int;
            assert(q.take(ql.len() as int)[l] == q[l]);
            assert(h.take(hl.len() as int)[l + d] == h[l + d]);
            assert(crate::sink::strings(victims@)[j as int] == victims@[j as int]@);
            assert(prune_victims_of(out.stdout@, tiers@, now).contains(victims@[j as int]@));
            assert(listing_req(ds@) matches Request::Run(_, b, _) && b[9] == ds@);
            assert(victim_of_listing(tiers@, now, q, h, d, l, victims@[j as int]@));
            assert(pruned_at(tiers@, now, q, h, d, q1.len() as int));
            lemma_pruned_extend(tiers@, now, q1, h1, q, h, d, q0.len() as int);
        }
        match res {
            Ok(_) => {},
            Err(e) => {
                proof {
                    assert(failed_at(exec.requests(), exec.replies(), d, q1.len() as int));
                }
                failure = Some(e);
            },
        }
        j += 1;
    }
    match failure {
        Some(e) => {
            let e2 = runner.step_failed(step.as_str(), e);
            Err((step, e2))
        },
        None => {
            if victims.len() == 0 {
                runner.step_done(step.as_str(), StepOutcome::Unchanged);
            } else {
                runner.step_done(step.as_str(), StepOutcome::Changed);
            }
            Ok(())
        },
    }
}

/// `source → target`, as the steps name a job.
fn arrow(a: &str, b: &str) -> (r: String)
    ensures
        r@ == a@ + " → "@ + b@,
{
    let mut s = String::from_str(a);
    s.append(" → ");
    s.append(b);
    s
}

/// One job: check that the source exists, snapshot it recursively, send
/// the difference (or the first seed) to the target as [`send_plan_of`]
/// decides, then prune both sides.
fn replicate_job<E: Executor, S: Sink, J: Journal>(
    exec: &mut E,
    runner: &mut Runner<S, J>,
    job: &ZfsJob,
    label: &str,
    tiers: &[RetentionTier],
    now: u64,
) -> (r: Result<(), (String, CoreError)>)
    ensures
        extends(old(exec).requests(), old(exec).replies(), final(exec).requests(), final(exec).replies()),
        all_sound(
            label@,
            final(exec).requests(),
            final(exec).replies(),
            old(exec).replies().len() - old(exec).requests().len(),
            old(exec).requests().len() as int,
        ),
        r is Ok ==> job_sent(final(exec).requests(), old(exec).requests().len() as int, job.source@, job.target@),
        final(exec).requests().len() > old(exec).requests().len(),
        final(exec).requests()[old(exec).requests().len() as int] == check_req(job.source@),
        all_pruned(
            tiers@,
            now,
            final(exec).requests(),
            final(exec).replies(),
            old(exec).replies().len() - old(exec).requests().len(),
            old(exec).requests().len() as int,
        ),
        final(runner).op_name() == old(runner).op_name(),
        (final(exec).replies()[old(exec).replies().len() as int] matches Some(o) && o.code == 0) ==> final(exec).requests().len()
            >= old(exec).requests().len() + 2 && final(exec).requests()[old(exec).requests().len() + 1int] == snapshot_req(
            job.source@ + "@"@ + label@,
        ),
        r is Err ==> met_a_stop(
            label@,
            final(exec).requests(),
            final(exec).replies(),
            old(exec).replies().len() - old(exec).requests().len(),
            old(exec).requests().len() as int,
        ),
{
    let ghost q0 = exec.requests();
    let ghost h0 = exec.replies();
    let ghost d = h0.len() - q0.len();
    let ghost lb = label@;
    let src = job.source.as_str();
    let tgt = job.target.as_str();
    let mut snap = String::from_str(src);
    snap.append("@");
    snap.append(label);
    proof {
        lemma_extends_refl(q0, h0);
        lemma_zfs_words();
    }

    // Both datasets must exist before anything is created or sent.
    let mut step = String::from_str("check ");
    let a = arrow(src, tgt);
    step.append(a.as_str());
    runner.begin_step(step.as_str());
    let check = Cmd::new("zfs", &["list", "-H", "-o", "name", src], 60);
    proof {
        assert(string_views(check.args@) =~= seq!["list"@, "-H"@, "-o"@, "name"@, src@]);
    }
    let out = exec.run(&check);
    proof {
        lemma_pushed(q0, h0, run_request(check), reply_of(out));
        assert(sound_at(lb, exec.requests(), exec.replies(), d, q0.len() as int));
        lemma_sound_extend(lb, q0, h0, exec.requests(), exec.replies(), d, q0.len() as int);
        lemma_pruned_other(tiers@, now, exec.requests(), exec.replies(), d);
    }
    proof {
        assert(exec.replies()[h0.len() as int] == reply_of(out));
    }
    let out = match out {
        Ok(o) => o,
        Err(e) => {
            proof {
                assert(failed_at(exec.requests(), exec.replies(), d, q0.len() as int));
            }
            let e2 = runner.step_failed(step.as_str(), e);
            return Err((step, e2));
        },
    };
    if !out.success() {
        proof {
            assert(failed_at(exec.requests(), exec.replies(), d, q0.len() as int));
        }
        let mut m = String::from_str("source dataset ");
        m.append(src);
        m.append(" not found");
        let e2 = runner.step_failed(step.as_str(), CoreError::Other(m));
        return Err((step, e2));
    }
    runner.step_done(step.as_str(), StepOutcome::Unchanged);

    // The recursive snapshot, right after the check that found its source.
    let mut step = String::from_str("snapshot ");
    step.append(src);
    runner.begin_step(step.as_str());
    let take = Cmd::new("zfs", &["snapshot", "-r", snap.as_str()], 300);
    let ghost q1 = exec.requests();
    let ghost h1 = exec.replies();
    let res = run_ok(exec, &take);
    proof {
        assert(string_views(take.args@) =~= seq!["snapshot"@, "-r"@, snap@]);
        assert(exec.replies() =~= h1.push(exec.replies().last()));
        lemma_pushed(q1, h1, run_request(take), exec.replies().last());
        let q = exec.requests();
        let h = exec.replies();
        assert(q[q1.len() - 1] == check_req(src@));
        assert(h[q1.len() - 1 + d] == h1[h1.len() - 1]);
        assert(sound_at(lb, q, h, d, q1.len() as int));
        lemma_sound_extend(lb, q1, h1, q, h, d, q0.len() as int);
        lemma_extends_trans(q0, h0, q1, h1, q, h);
        assert(q1 == q0.push(check_req(src@)));
        lemma_pruned_other(tiers@, now, q, h, d);
        lemma_pruned_extend(tiers@, now, q1, h1, q, h, d, q0.len() as int);
    }
    proof {
        assert(exec.requests()[q0.len() + 1int] == snapshot_req(src@ + "@"@ + label@));
        assert(exec.replies()[h0.len() as int] == h1[h0.len() as int]);
    }
    match res {
        Ok(_) => {},
        Err(e) => {
            proof {
                assert(failed_at(exec.requests(), exec.replies(), d, q1.len() as int));
            }
            let e2 = runner.step_failed(step.as_str(), e);
            return Err((step, e2));
        },
    }
    runner.step_done(step.as_str(), StepOutcome::Changed);
    let ghost qs = exec.requests();
    let ghost hs = exec.replies();

    // The send: from the newest common snapshot, a first seed into an empty
    // target, or a refusal for a target whose history it would destroy.
    let mut step = String::from_str("replicate ");
    step.append(a.as_str());
    runner.begin_step(step.as_str());
    let ghost q2 = exec.requests();
    let ghost h2 = exec.replies();
    let ls = listing_cmd(src);
    let so = exec.run(&ls);
    proof {
        lemma_pushed(q2, h2, run_request(ls), reply_of(so));
        assert(sound_at(lb, exec.requests(), exec.replies(), d, q2.len() as int));
        lemma_sound_extend(lb, q2, h2, exec.requests(), exec.replies(), d, q0.len() as int);
        lemma_extends_trans(q0, h0, q2, h2, exec.requests(), exec.replies());
        lemma_pruned_other(tiers@, now, exec.requests(), exec.replies(), d);
        lemma_pruned_extend(tiers@, now, q2, h2, exec.requests(), exec.replies(), d, q0.len() as int);
        lemma_extends_trans(q1, h1, q2, h2, exec.requests(), exec.replies());
    }
    let so = match so {
        Ok(o) => o,
        Err(e) => {
            proof {
                assert(failed_at(exec.requests(), exec.replies(), d, q2.len() as int));
            }
            let e2 = runner.step_failed(step.as_str(), e);
            return Err((step, e2));
        },
    };
    let ghost q3 = exec.requests();
    let ghost h3 = exec.replies();
    let lt = listing_cmd(tgt);
    let to = exec.run(&lt);
    proof {
        lemma_pushed(q3, h3, run_request(lt), reply_of(to));
        assert(sound_at(lb, exec.requests(), exec.replies(), d, q3.len() as int));
        lemma_sound_extend(lb, q3, h3, exec.requests(), exec.replies(), d, q0.len() as int);
        lemma_extends_trans(q0, h0, q3, h3, exec.requests(), exec.replies());
        lemma_pruned_other(tiers@, now, exec.requests(), exec.replies(), d);
        lemma_pruned_extend(tiers@, now, q3, h3, exec.requests(), exec.replies(), d, q0.len() as int);
        lemma_extends_trans(q1, h1, q3, h3, exec.requests(), exec.replies());
    }
    let to = match to {
        Ok(o) => o,
        Err(e) => {
            proof {
                assert(failed_at(exec.requests(), exec.replies(), d, q3.len() as int));
            }
            let e2 = runner.step_failed(step.as_str(), e);
            return Err((step, e2));
        },
    };
    let src_snaps = parse_snap_names(so.stdout.as_str(), src);
    let (script, t) = match send_plan(src, tgt, snap.as_str(), &src_snaps, &to) {
        Ok(p) => p,
        Err(e) => {
            proof {
                let q = exec.requests();
                let h = exec.replies();
                let i = q3.len() as int;
                assert(q[i - 1] == listing_req(src@));
                assert(q[i] == listing_req(tgt@));
                assert(h[i - 1 + d] == Some(so@));
                assert(h[i + d] == Some(to@));
                assert(listing_req(src@) matches Request::Run(_, b, _) && b[9] == src@);
                assert(listing_req(tgt@) matches Request::Run(_, b, _) && b[9] == tgt@);
                assert(plan_refused_at(lb, q, h, d, i));
            }
            let e2 = runner.step_failed(step.as_str(), e);
            return Err((step, e2));
        },
    };
    let send = Cmd::new("sh", &["-c", script.as_str()], t);
    let ghost q4 = exec.requests();
    let ghost h4 = exec.replies();
    let res = run_ok(exec, &send);
    proof {
        assert(string_views(send.args@) =~= seq!["-c"@, script@]);
        assert(exec.replies() =~= h4.push(exec.replies().last()));
        lemma_pushed(q4, h4, run_request(send), exec.replies().last());
        let q = exec.requests();
        let h = exec.replies();
        let i = q4.len() as int;
        assert(q[i - 2] == listing_req(src@));
        assert(q[i - 1] == listing_req(tgt@));
        assert(h[i - 2 + d] == Some(so@));
        assert(h[i - 1 + d] == Some(to@));
        assert(listing_req(src@) matches Request::Run(_, b, _) && b[9] == src@);
        assert(listing_req(tgt@) matches Request::Run(_, b, _) && b[9] == tgt@);
        assert(sent_by_plan(lb, q, h, d, i));
        assert(sound_at(lb, q, h, d, i));
        lemma_sound_extend(lb, q4, h4, q, h, d, q0.len() as int);
        lemma_extends_trans(q0, h0, q4, h4, q, h);
        lemma_pruned_other(tiers@, now, q, h, d);
        lemma_pruned_extend(tiers@, now, q4, h4, q, h, d, q0.len() as int);
        lemma_extends_trans(q1, h1, q4, h4, q, h);
        assert(sends_at(q, i, src@, tgt@));
        assert(job_sent(q, q0.len() as int, src@, tgt@));
    }
    match res {
        Ok(_) => {},
        Err(e) => {
            proof {
                assert(failed_at(exec.requests(), exec.replies(), d, q4.len() as int));
            }
            let e2 = runner.step_failed(step.as_str(), e);
            return Err((step, e2));
        },
    }
    runner.step_done(step.as_str(), StepOutcome::Changed);

    // Retention on both sides.
    let ghost q5 = exec.requests();
    let ghost h5 = exec.replies();
    let pruned = prune_dataset(exec, runner, src, tiers, now, Ghost(lb));
    proof {
        lemma_sound_extend(lb, q5, h5, exec.requests(), exec.replies(), d, q0.len() as int);
        lemma_pruned_extend(tiers@, now, q5, h5, exec.requests(), exec.replies(), d, q0.len() as int);
        lemma_sent_push(q5, exec.requests(), q0.len() as int, src@, tgt@);
        lemma_extends_trans(q0, h0, q5, h5, exec.requests(), exec.replies());
        lemma_extends_trans(q1, h1, q5, h5, exec.requests(), exec.replies());
    }
    match pruned {
        Ok(()) => {},
        Err(x) => {
            proof {
                lemma_stop_widen(lb, exec.requests(), exec.replies(), d, q0.len() as int, q5.len() as int);
            }
            return Err(x);
        },
    }
    let ghost q6 = exec.requests();
    let ghost h6 = exec.replies();
    let pruned = prune_dataset(exec, runner, tgt, tiers, now, Ghost(lb));
    proof {
        lemma_sound_extend(lb, q6, h6, exec.requests(), exec.replies(), d, q0.len() as int);
        lemma_pruned_extend(tiers@, now, q6, h6, exec.requests(), exec.replies(), d, q0.len() as int);
        lemma_sent_push(q6, exec.requests(), q0.len() as int, src@, tgt@);
        lemma_extends_trans(q0, h0, q6, h6, exec.requests(), exec.replies());
        lemma_extends_trans(q1, h1, q6, h6, exec.requests(), exec.replies());
    }
    match pruned {
        Ok(()) => {},
        Err(x) => {
            proof {
                lemma_stop_widen(lb, exec.requests(), exec.replies(), d, q0.len() as int, q6.len() as int);
                assert(exec.requests().take(qs.len() as int)[q0.len() + 1int] == exec.requests()[q0.len() + 1int]);
                assert(exec.replies().take(hs.len() as int)[h0.len() as int] == exec.replies()[h0.len() as int]);
            }
            return Err(x);
        },
    }
    proof {
        let q = exec.requests();
        assert(q.take(q1.len() as int)[q0.len() as int] == q[q0.len() as int]);
        assert(exec.requests().take(qs.len() as int)[q0.len() + 1int] == exec.requests()[q0.len() + 1int]);
        assert(exec.replies().take(hs.len() as int)[h0.len() as int] == exec.replies()[h0.len() as int]);
    }
    let mut line = String::from_str("[zfs] ");
    line.append(a.as_str());
    line.append(" replicated at ");
    line.append(label);
    runner.log(Level::Info, line);
    Ok(())
}

/// The jobs cannot run: there are none, or one of them is malformed.
pub open spec fn jobs_refused(jobs: Seq<ZfsJob>) -> bool {
    jobs.len() == 0 || exists|j: int| 0 <= j < jobs.len() && (#[trigger] job_problem(jobs[j].source@, jobs[j].target@)) is Some
}

/// Run every configured job, one after the other. A run with no jobs, or
/// with a malformed one, asks nothing of the machine. Every request is
/// sound (see [`sound_at`]): nothing is snapshotted whose dataset was not
/// found, every send is exactly the plan its listings give — so a target
/// with history of its own is never re-seeded — and every destroy names
/// one snapshot, one that the retention tiers let go in a listing answered
/// before it (see [`all_pruned`]). A check that finds its dataset is
/// followed by that dataset's snapshot, and a run that does not succeed
/// met a command that failed or a send plan that refused (see
/// [`met_a_stop`]). The run succeeds only when every job was sent: a
/// half-replicated fleet must not read as success.
pub fn replicate<E: Executor, S: Sink, J: Journal>(
    exec: &mut E,
    sink: S,
    journal: J,
    now_unix: u64,
    jobs: &[ZfsJob],
    tiers: &[RetentionTier],
) -> (r: OperationReport)
    ensures
        r.op@ == "zfs-replicate"@,
        extends(old(exec).requests(), old(exec).replies(), final(exec).requests(), final(exec).replies()),
        jobs_refused(jobs@) ==> final(exec).requests() == old(exec).requests() && !r.ok,
        !jobs_refused(jobs@) ==> final(exec).requests().len() > old(exec).requests().len()
            && final(exec).requests()[old(exec).requests().len() as int] == check_req(jobs@[0].source@),
        all_sound(
            label_of(now_unix),
            final(exec).requests(),
            final(exec).replies(),
            old(exec).replies().len() - old(exec).requests().len(),
            old(exec).requests().len() as int,
        ),
        all_pruned(
            tiers@,
            now_unix,
            final(exec).requests(),
            final(exec).replies(),
            old(exec).replies().len() - old(exec).requests().len(),
            old(exec).requests().len() as int,
        ),
        !jobs_refused(jobs@) && (final(exec).replies()[old(exec).replies().len() as int] matches Some(o) && o.code == 0)
            ==> final(exec).requests().len() >= old(exec).requests().len() + 2 && final(exec).requests()[old(exec).requests().len()
            + 1int] == snapshot_req(jobs@[0].source@ + "@"@ + label_of(now_unix)),
        !r.ok && !jobs_refused(jobs@) ==> met_a_stop(
            label_of(now_unix),
            final(exec).requests(),
            final(exec).replies(),
            old(exec).replies().len() - old(exec).requests().len(),
            old(exec).requests().len() as int,
        ),
        r.ok ==> forall|j: int|
            0 <= j < jobs@.len() ==> job_sent(
                final(exec).requests(),
                old(exec).requests().len() as int,
                (#[trigger] jobs@[j]).source@,
                jobs@[j].target@,
            ),
{
    let ghost q0 = exec.requests();
    let ghost h0 = exec.replies();
    let ghost d = h0.len() - q0.len();
    let mut runner = Runner::new("zfs-replicate", sink, journal);
    let label = snapshot_label(now_unix);
    let ghost lb = label@;
    proof {
        lemma_extends_refl(q0, h0);
    }

    runner.begin_step("validate jobs");
    if jobs.len() == 0 {
        let e = runner.step_failed(
            "validate jobs",
            CoreError::Other(String::from_str("no zfs jobs configured (zfs_jobs in host.toml) — nothing to do")),
        );
        return runner.finish_err("validate jobs", &e).0;
    }
    let mut v: usize = 0;
    let mut problem: Option<String> = None;
    while v < jobs.len() && problem.is_none()
        invariant
            v <= jobs.len(),
            problem is None ==> forall|j: int| 0 <= j < v ==> (#[trigger] job_problem(jobs@[j].source@, jobs@[j].target@)) is None,
            problem is Some ==> jobs_refused(jobs@),
        decreases jobs.len() - v,
    {
        match job_problems(&jobs[v]) {
            Some(p) => {
                let mut m = String::from_str("zfs job ");
                let a = arrow(jobs[v].source.as_str(), jobs[v].target.as_str());
                m.append(a.as_str());
                m.append(": ");
                m.append(p.as_str());
                proof {
                    assert(job_problem(jobs@[v as int].source@, jobs@[v as int].target@) is Some);
                }
                problem = Some(m);
            },
            None => {},
        }
        v += 1;
    }
    match problem {
        Some(m) => {
            let e = runner.step_failed("validate jobs", CoreError::SafetyAbort(m));
            return runner.finish_err("validate jobs", &e).0;
        },
        None => {},
    }
    runner.step_done("validate jobs", StepOutcome::Unchanged);

    let mut k: usize = 0;
    let mut failure: Option<(String, CoreError)> = None;
    while k < jobs.len() && failure.is_none()
        invariant
            k <= jobs.len(),
            d == h0.len() - q0.len(),
            lb == label_of(now_unix),
            label@ == lb,
            extends(q0, h0, exec.requests(), exec.replies()),
            all_sound(lb, exec.requests(), exec.replies(), d, q0.len() as int),
            all_pruned(tiers@, now_unix, exec.requests(), exec.replies(), d, q0.len() as int),
            failure is None ==> forall|j: int|
                0 <= j < k ==> job_sent(exec.requests(), q0.len() as int, (#[trigger] jobs@[j]).source@, jobs@[j].target@),
            runner.op_name() == "zfs-replicate"@,
            !jobs_refused(jobs@),
            jobs.len() > 0,
            k > 0 ==> exec.requests().len() > q0.len() && exec.requests()[q0.len() as int] == check_req(jobs@[0].source@),
            k == 0 ==> exec.requests() == q0,
            failure is Some ==> k > 0,
            exec.replies().len() == exec.requests().len() + d,
            q0 == old(exec).requests(),
            h0 == old(exec).replies(),
            failure is Some ==> met_a_stop(lb, exec.requests(), exec.replies(), d, q0.len() as int),
            k > 0 ==> ((exec.replies()[h0.len() as int] matches Some(o) && o.code == 0) ==> exec.requests().len() >= q0.len() + 2
                && exec.requests()[q0.len() + 1int] == snapshot_req(jobs@[0].source@ + "@"@ + lb)),
        decreases jobs.len() - k,
    {
        let ghost q1 = exec.requests();
        let ghost h1 = exec.replies();
        let res = replicate_job(exec, &mut runner, &jobs[k], label.as_str(), tiers, now_unix);
        proof {
            lemma_sound_extend(lb, q1, h1, exec.requests(), exec.replies(), d, q0.len() as int);
            lemma_pruned_extend(tiers@, now_unix, q1, h1, exec.requests(), exec.replies(), d, q0.len() as int);
            lemma_extends_trans(q0, h0, q1, h1, exec.requests(), exec.replies());
            assert forall|j: int| 0 <= j < k && failure is None implies job_sent(
                exec.requests(),
                q0.len() as int,
                (#[trigger] jobs@[j]).source@,
                jobs@[j].target@,
            ) by {
                lemma_sent_push(q1, exec.requests(), q0.len() as int, jobs@[j].source@, jobs@[j].target@);
            }
            if k > 0 {
                assert(exec.requests().take(q1.len() as int)[q0.len() as int] == exec.requests()[q0.len() as int]);
            } else {
                assert(q1.len() == q0.len());
            }
            if k > 0 {
                assert(exec.requests().take(q1.len() as int)[q0.len() + 1int] == exec.requests()[q0.len() + 1int]);
                assert(exec.replies().take(h1.len() as int)[h0.len() as int] == exec.replies()[h0.len() as int]);
            }
            if res is Err {
                lemma_stop_widen(lb, exec.requests(), exec.replies(), d, q0.len() as int, q1.len() as int);
            }
            if res is Ok {
                lemma_sent_widen(exec.requests(), q1.len() as int, q0.len() as int, jobs@[k as int].source@, jobs@[k as int].target@);
            }
        }
        match res {
            Ok(()) => {},
            Err(f) => {
                failure = Some(f);
            },
        }
        k += 1;
    }
    match failure {
        Some((step, e)) => runner.finish_err(step.as_str(), &e).0,
        None => runner.finish_ok().0,
    }
}

/// No send in a replication's record re-seeds a target that holds history
/// of its own: wherever the target's listing answered with snapshots, the
/// send is incremental from a snapshot both sides share.
pub proof fn law_replication_never_reseeds_history(
    label: Seq<char>,
    q: Seq<Request>,
    h: Seq<Option<OutputView>>,
    d: int,
    i: int,
)
    requires
        sound_at(label, q, h, d, i),
        is_send(q[i]),
    ensures
        q[i - 2] matches Request::Run(_, b1, _) && q[i - 1] matches Request::Run(_, b2, _) && h[i - 2 + d] matches Some(
            so,
        ) && h[i - 1 + d] matches Some(to) && (to.code == 0 && at_lines(lines_of(to.stdout)) > 0 ==> newest_common(
            snap_names(lines_of(so.stdout), b1[9]),
            snap_names(lines_of(to.stdout), b2[9]),
        ) is Some),
{
    assert(sent_by_plan(label, q, h, d, i));
}

} // verus!

verus! {

/// The base for an incremental send is the newest snapshot both sides
/// hold: it is in both lists, and no snapshot after it in `source` is in
/// `target`. There is none only when the lists share no name.
pub proof fn law_common_base_is_newest_shared(source: Seq<Seq<char>>, target: Seq<Seq<char>>)
    ensures
        match newest_common(source, target) {
            Some(x) => exists|i: int| 0 <= i < source.len() && source[i] == x && target.contains(x)
                && forall|k: int| i < k < source.len() ==> !target.contains(#[trigger] source[k]),
            None => forall|k: int| 0 <= k < source.len() ==> !target.contains(#[trigger] source[k]),
        },
    decreases source.len(),
{
    if source.len() > 0 {
        let pre = source.drop_last();
        law_common_base_is_newest_shared(pre, target);
        if target.contains(source.last()) {
            assert(source[source.len() - 1] == source.last());
        } else {
            match newest_common(pre, target) {
                Some(x) => {
                    let i = choose|i: int| 0 <= i < pre.len() && pre[i] == x && target.contains(x)
                        && forall|k: int| i < k < pre.len() ==> !target.contains(#[trigger] pre[k]);
                    assert(source[i] == pre[i]);
                    assert forall|k: int| i < k < source.len() implies !target.contains(#[trigger] source[k]) by {
                        if k < pre.len() {
                            assert(source[k] == pre[k]);
                        }
                    }
                },
                None => {
                    assert forall|k: int| 0 <= k < source.len() implies !target.contains(#[trigger] source[k]) by {
                        if k < pre.len() {
                            assert(source[k] == pre[k]);
                        }
                    }
                },
            }
        }
    }
}

} // verus!
