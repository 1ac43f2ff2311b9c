//! The checks only a person can answer.
//!
//! A service's checks file gives it a `manual:` list — whether a film looks
//! right on the television, whether the front page shows what you expect.
//! The deploy already knows which questions it printed, so the deploy
//! registers them; a person answers one with a single command; anything
//! unanswered is a finding in the nightly round. Nothing to maintain, and no
//! way for the list to drift away from the stack files.

use vstd::prelude::*;
use vstd::string::*;
use vstd::utf8::encode_utf8;
use crate::checks::ServiceChecks;
use crate::keyed::{
    distinct_keys, entries_map, keys_of, lemma_ascending_distinct, lemma_entries_map,
    lemma_insert_sorted,
};
use crate::ops::fleetcheck::{fv, findings_view, push_finding, Finding, FindingView, Severity};
use crate::order::{insert_by, lemma_insert_at, lemma_sort_by, sort_by, sort_strings, sorted_by, str_order, total_preorder};
use crate::state::{clone_record, HostState, ManualCheckRecord, RecordView, StackState};
use crate::text::{
    dec, dec_string, join_strings, joined, pad_left, pad_left_string, radix, radix_string, str_eq,
    str_le, str_le_exec, str_lt, str_lt_exec, string_views, lemma_str_lt_transitive,
    lemma_str_lt_trichotomy, repeat,
};

verus! {

// ── Ids ─────────────────────────────────────────────────────────────────────

pub open spec fn fnv_step(h: u64, b: u8) -> u64 {
    (h ^ (b as u64)).wrapping_mul(0x0000_0100_0000_01b3u64)
}

/// FNV-1a over `bytes`, from the state `h`.
pub open spec fn fnv_fold(h: u64, bytes: Seq<u8>) -> u64
    decreases bytes.len(),
{
    if bytes.len() == 0 {
        h
    } else {
        fnv_step(fnv_fold(h, bytes.drop_last()), bytes.last())
    }
}

pub open spec fn fnv_offset() -> u64 {
    0xcbf2_9ce4_8422_2325u64
}

/// The bytes a check's id is computed over: `stack/app/text` in UTF-8.
pub open spec fn id_bytes(stack: Seq<char>, app: Seq<char>, text: Seq<char>) -> Seq<u8> {
    encode_utf8(stack) + seq![47u8] + encode_utf8(app) + seq![47u8] + encode_utf8(text)
}

/// A check's id: the high 32 bits of the 64-bit FNV-1a hash of
/// `stack/app/text`, as eight lower-case hex digits.
pub open spec fn check_id(stack: Seq<char>, app: Seq<char>, text: Seq<char>) -> Seq<char> {
    pad_left(radix((fnv_fold(fnv_offset(), id_bytes(stack, app, text)) as nat) / 0x1_0000_0000, 16), '0', 8)
}

/// A lowercase hexadecimal digit.
pub open spec fn is_lower_hex(c: char) -> bool {
    ('0' <= c && c <= '9') || ('a' <= c && c <= 'f')
}

spec fn p16(k: nat) -> nat
    decreases k,
{
    if k == 0 {
        1
    } else {
        16 * p16((k - 1) as nat)
    }
}

proof fn lemma_hex_char(d: nat)
    requires
        d < 16,
    ensures
        is_lower_hex(crate::text::hex_char(d)),
{
    if d < 10 {
        assert(('0' as nat) == 48);
        assert(crate::text::hex_char(d) == ((48 + d) as char));
    } else {
        assert(('a' as nat) == 97);
    }
}

proof fn lemma_radix_hex(n: nat, k: nat)
    requires
        k >= 1,
        n < p16(k),
    ensures
        radix(n, 16).len() <= k,
        forall|i: int| 0 <= i < radix(n, 16).len() ==> is_lower_hex(#[trigger] radix(n, 16)[i]),
    decreases n,
{
    if n < 16 {
        lemma_hex_char(n);
    } else {
        crate::text::lemma_div_smaller(n, 16);
        assert(k >= 2) by {
            if k == 1 {
                assert(p16(1) == 16 * p16(0));
            }
        }
        let k1 = (k - 1) as nat;
        assert(p16(k) == 16 * p16(k1));
        assert(n / 16 < p16(k1)) by (nonlinear_arith)
            requires
                n < 16 * p16(k1),
        ;
        lemma_radix_hex(n / 16, k1);
        lemma_hex_char(n % 16);
        let r = radix(n, 16);
        assert(r == radix(n / 16, 16) + seq![crate::text::hex_char(n % 16)]);
        assert forall|i: int| 0 <= i < r.len() implies is_lower_hex(#[trigger] r[i]) by {
            if i < r.len() - 1 {
                assert(r[i] == radix(n / 16, 16)[i]);
            }
        }
    }
}

proof fn lemma_repeat_zeros(n: nat)
    ensures
        repeat('0', n).len() == n,
        forall|i: int| 0 <= i < n ==> #[trigger] repeat('0', n)[i] == '0',
    decreases n,
{
    if n > 0 {
        lemma_repeat_zeros((n - 1) as nat);
    }
}

/// A check's id is eight lowercase hexadecimal digits.
pub proof fn law_check_id_is_eight_hex_digits(stack: Seq<char>, app: Seq<char>, text: Seq<char>)
    ensures
        check_id(stack, app, text).len() == 8,
        forall|i: int| 0 <= i < 8 ==> is_lower_hex(#[trigger] check_id(stack, app, text)[i]),
{
    let h = fnv_fold(fnv_offset(), id_bytes(stack, app, text));
    let n = (h as nat) / 0x1_0000_0000;
    reveal_with_fuel(p16, 9);
    assert(p16(8) == 0x1_0000_0000);
    assert(n < 0x1_0000_0000) by (nonlinear_arith)
        requires
            n == (h as nat) / 0x1_0000_0000,
            h < 0x1_0000_0000_0000_0000,
    ;
    lemma_radix_hex(n, 8);
    let r = radix(n, 16);
    if r.len() < 8 {
        let z = (8 - r.len()) as nat;
        lemma_repeat_zeros(z);
        let p = repeat('0', z) + r;
        assert forall|i: int| 0 <= i < 8 implies is_lower_hex(#[trigger] p[i]) by {
            if i < z {
                assert(p[i] == repeat('0', z)[i]);
            } else {
                assert(p[i] == r[i - z]);
            }
        }
    }
}

proof fn lemma_fnv_concat(h: u64, a: Seq<u8>, b: Seq<u8>)
    ensures
        fnv_fold(h, a + b) == fnv_fold(fnv_fold(h, a), b),
    decreases b.len(),
{
    if b.len() == 0 {
        assert(a + b =~= a);
    } else {
        lemma_fnv_concat(h, a, b.drop_last());
        assert((a + b).drop_last() =~= a + b.drop_last());
        assert((a + b).last() == b.last());
    }
}

proof fn lemma_fnv_five(a: Seq<u8>, sl: Seq<u8>, b: Seq<u8>, c: Seq<u8>)
    ensures
        fnv_fold(fnv_fold(fnv_fold(fnv_fold(fnv_fold(fnv_offset(), a), sl), b), sl), c)
            == fnv_fold(fnv_offset(), a + sl + b + sl + c),
{
    lemma_fnv_concat(fnv_offset(), a, sl);
    lemma_fnv_concat(fnv_offset(), a + sl, b);
    lemma_fnv_concat(fnv_offset(), a + sl + b, sl);
    lemma_fnv_concat(fnv_offset(), a + sl + b + sl, c);
}

fn fnv_feed(h: u64, bytes: &[u8]) -> (r: u64)
    ensures
        r == fnv_fold(h, bytes@),
{
    let mut x = h;
    let mut i: usize = 0;
    while i < bytes.len()
        invariant
            i <= bytes.len(),
            x == fnv_fold(h, bytes@.take(i as int)),
        decreases bytes.len() - i,
    {
        proof {
            assert(bytes@.take(i + 1).drop_last() =~= bytes@.take(i as int));
        }
        x = (x ^ (bytes[i] as u64)).wrapping_mul(0x0000_0100_0000_01b3u64);
        i += 1;
    }
    proof {
        assert(bytes@.take(bytes.len() as int) =~= bytes@);
    }
    x
}

/// A check is the same check as long as its wording is: change the question
/// and the old answer is about something else, so it gets a new id. FNV-1a
/// rather than a cryptographic hash — this names a line in a config file
/// and must be short enough to type.
pub fn id_for(stack: &str, app: &str, text: &str) -> (r: String)
    ensures
        r@ == check_id(stack@, app@, text@),
{
    let sb = stack.as_bytes();
    let ab = app.as_bytes();
    let tb = text.as_bytes();
    let slash: [u8; 1] = [47u8];
    let h0 = fnv_feed(0xcbf2_9ce4_8422_2325u64, sb);
    let h1 = fnv_feed(h0, &slash);
    let h2 = fnv_feed(h1, ab);
    let h3 = fnv_feed(h2, &slash);
    let h4 = fnv_feed(h3, tb);
    proof {
        lemma_fnv_five(sb@, slash@, ab@, tb@);
        assert(slash@ =~= seq![47u8]);
    }
    let high = h4 >> 32u64;
    proof {
        assert(h4 >> 32u64 == h4 / 0x1_0000_0000u64) by (bit_vector);
    }
    let hex = radix_string(high, 16);
    proof {
        reveal_strlit("0");
    }
    pad_left_string(hex.as_str(), "0", 8)
}

// ── The record of checks ────────────────────────────────────────────────────

pub open spec fn entries_view(v: Seq<(String, ManualCheckRecord)>) -> Seq<(Seq<char>, RecordView)> {
    v.map_values(|p: (String, ManualCheckRecord)| (p.0@, p.1@))
}

pub open spec fn ids_of(e: Seq<(Seq<char>, RecordView)>) -> Seq<Seq<char>> {
    keys_of(e)
}

pub open spec fn fresh_record(stack: Seq<char>, app: Seq<char>, text: Seq<char>, now: u64) -> RecordView {
    RecordView {
        stack,
        app,
        text,
        registered_at: now,
        answered_at: None,
        ok: None,
        note: Seq::empty(),
    }
}

pub open spec fn question_ids(stack: Seq<char>, qs: Seq<(Seq<char>, Seq<char>)>) -> Seq<Seq<char>> {
    qs.map_values(|q: (Seq<char>, Seq<char>)| check_id(stack, q.0, q.1))
}

/// A record stays unless it belongs to `stack` and its question is gone.
pub open spec fn kept(entry: (Seq<char>, RecordView), stack: Seq<char>, seen: Seq<Seq<char>>) -> bool {
    entry.1.stack != stack || seen.contains(entry.0)
}

pub open spec fn pruned(
    e: Seq<(Seq<char>, RecordView)>,
    stack: Seq<char>,
    seen: Seq<Seq<char>>,
) -> Seq<(Seq<char>, RecordView)>
    decreases e.len(),
{
    if e.len() == 0 {
        Seq::empty()
    } else {
        pruned(e.drop_last(), stack, seen) + if kept(e.last(), stack, seen) {
            seq![e.last()]
        } else {
            Seq::empty()
        }
    }
}

pub open spec fn question_views(qs: Seq<(String, String)>) -> Seq<(Seq<char>, Seq<char>)> {
    qs.map_values(|q: (String, String)| (q.0@, q.1@))
}

/// The first position of `id` among the entries.
pub open spec fn id_index(e: Seq<(Seq<char>, RecordView)>, id: Seq<char>) -> int
    decreases e.len(),
{
    if e.len() == 0 {
        -1
    } else if id_index(e.drop_last(), id) >= 0 {
        id_index(e.drop_last(), id)
    } else if e.last().0 == id {
        e.len() - 1
    } else {
        -1
    }
}

proof fn lemma_id_index(e: Seq<(Seq<char>, RecordView)>, id: Seq<char>)
    ensures
        id_index(e, id) >= 0 <==> ids_of(e).contains(id),
        id_index(e, id) >= 0 ==> id_index(e, id) < e.len() && e[id_index(e, id)].0 == id
            && forall|k: int| 0 <= k < id_index(e, id) ==> e[k].0 != id,
        id_index(e, id) < 0 ==> forall|k: int| 0 <= k < e.len() ==> e[k].0 != id,
    decreases e.len(),
{
    if e.len() > 0 {
        let p = e.drop_last();
        lemma_id_index(p, id);
        assert forall|k: int| 0 <= k < p.len() implies e[k] == p[k] && ids_of(e)[k] == e[k].0
            && ids_of(p)[k] == p[k].0 by {}
        assert(ids_of(e)[e.len() - 1] == e.last().0);
        let j = id_index(p, id);
        if j >= 0 {
            assert(ids_of(e)[j] == id);
        } else if e.last().0 == id {
        } else {
            assert forall|k: int| 0 <= k < e.len() implies e[k].0 != id by {
                if k < p.len() {
                    assert(e[k] == p[k]);
                }
            }
            if ids_of(e).contains(id) {
                let k = choose|k: int| 0 <= k < ids_of(e).len() && ids_of(e)[k] == id;
                assert(e[k].0 == id);
            }
        }
    }
}

fn find_id(v: &Vec<(String, ManualCheckRecord)>, id: &str) -> (r: Option<usize>)
    ensures
        match r {
            Some(i) => i as int == id_index(entries_view(v@), id@),
            None => id_index(entries_view(v@), id@) < 0,
        },
{
    let ghost e = entries_view(v@);
    proof {
        lemma_id_index(e, id@);
    }
    let mut i: usize = 0;
    while i < v.len()
        invariant
            i <= v.len(),
            e == entries_view(v@),
            forall|k: int| 0 <= k < i ==> e[k].0 != id@,
        decreases v.len() - i,
    {
        if str_eq(v[i].0.as_str(), id) {
            proof {
                lemma_id_index(e, id@);
                assert(e[i as int].0 == id@);
                assert(ids_of(e)[i as int] == id@);
                let j = id_index(e, id@);
                assert(j >= 0);
                if j < i {
                    assert(e[j].0 != id@);
                }
                if j > i {
                    assert(e[i as int].0 != id@);
                }
            }
            return Some(i);
        }
        i += 1;
    }
    proof {
        lemma_id_index(e, id@);
    }
    None
}

fn contains_str(v: &Vec<String>, s: &str) -> (r: bool)
    ensures
        r == string_views(v@).contains(s@),
{
    let mut i: usize = 0;
    while i < v.len()
        invariant
            i <= v.len(),
            forall|k: int| 0 <= k < i ==> v@[k]@ != s@,
        decreases v.len() - i,
    {
        if str_eq(v[i].as_str(), s) {
            proof {
                assert(string_views(v@)[i as int] == s@);
            }
            return true;
        }
        i += 1;
    }
    proof {
        if string_views(v@).contains(s@) {
            let k = choose|k: int| 0 <= k < string_views(v@).len() && string_views(v@)[k] == s@;
            assert(v@[k]@ == s@);
        }
    }
    false
}

// ── The checks as a map ─────────────────────────────────────────────────────

/// The manual checks of a state, by id.
pub open spec fn checks_of(state: HostState) -> Map<Seq<char>, RecordView> {
    entries_map(entries_view(state.manual_checks@))
}

/// The questions folded in, in order: each one whose id is not there yet is
/// added unanswered; one that is there is left exactly as it is.
pub open spec fn folded(
    m: Map<Seq<char>, RecordView>,
    stack: Seq<char>,
    qs: Seq<(Seq<char>, Seq<char>)>,
    now: u64,
) -> Map<Seq<char>, RecordView>
    decreases qs.len(),
{
    if qs.len() == 0 {
        m
    } else {
        let r = folded(m, stack, qs.drop_last(), now);
        let id = check_id(stack, qs.last().0, qs.last().1);
        if r.contains_key(id) {
            r
        } else {
            r.insert(id, fresh_record(stack, qs.last().0, qs.last().1, now))
        }
    }
}

/// A record stays unless it belongs to `stack` and its question is not
/// among `seen`.
pub open spec fn prune_map(
    m: Map<Seq<char>, RecordView>,
    stack: Seq<char>,
    seen: Seq<Seq<char>>,
) -> Map<Seq<char>, RecordView> {
    Map::new(
        |id: Seq<char>| m.contains_key(id) && (m[id].stack != stack || seen.contains(id)),
        |id: Seq<char>| m[id],
    )
}

/// What registering `qs` for `stack` makes of the checks `m`.
pub open spec fn after_register(
    m: Map<Seq<char>, RecordView>,
    stack: Seq<char>,
    qs: Seq<(Seq<char>, Seq<char>)>,
    now: u64,
) -> Map<Seq<char>, RecordView> {
    prune_map(folded(m, stack, qs, now), stack, question_ids(stack, qs))
}

/// Dropping the records that are not kept keeps the order and restricts
/// the map.
proof fn lemma_pruned(e: Seq<(Seq<char>, RecordView)>, stack: Seq<char>, seen: Seq<Seq<char>>)
    requires
        crate::state::ascending(ids_of(e)),
    ensures
        crate::state::ascending(ids_of(pruned(e, stack, seen))),
        entries_map(pruned(e, stack, seen)) == prune_map(entries_map(e), stack, seen),
        forall|a: int| 0 <= a < pruned(e, stack, seen).len() ==> exists|i: int| 0 <= i < e.len() && e[i]
            == #[trigger] pruned(e, stack, seen)[a],
    decreases e.len(),
{
    if e.len() == 0 {
        assert(prune_map(entries_map(e), stack, seen) =~= Map::empty());
    } else {
        let d = e.drop_last();
        let last = e.last();
        assert forall|a: int, b: int| 0 <= a < b < ids_of(d).len() implies str_lt(ids_of(d)[a], ids_of(d)[b]) by {
            assert(ids_of(d)[a] == ids_of(e)[a] && ids_of(d)[b] == ids_of(e)[b]);
        }
        lemma_pruned(d, stack, seen);
        lemma_ascending_distinct(e);
        lemma_ascending_distinct(d);
        lemma_entries_map(d);
        let pd = pruned(d, stack, seen);
        let md = entries_map(d);
        assert(!md.contains_key(last.0)) by {
            if ids_of(d).contains(last.0) {
                let i = choose|i: int| 0 <= i < ids_of(d).len() && ids_of(d)[i] == last.0;
                assert(e[i].0 == last.0);
            }
        }
        assert(entries_map(e) == md.insert(last.0, last.1));
        if kept(last, stack, seen) {
            assert(pruned(e, stack, seen) =~= pd.push(last));
            let p = pd.push(last);
            assert forall|a: int, b: int| 0 <= a < b < ids_of(p).len() implies str_lt(ids_of(p)[a], ids_of(p)[b]) by {
                if b < pd.len() {
                    assert(ids_of(p)[a] == ids_of(pd)[a] && ids_of(p)[b] == ids_of(pd)[b]);
                } else {
                    assert(p[a] == pd[a]);
                    let i = choose|i: int| 0 <= i < d.len() && d[i] == pd[a];
                    assert(e[i] == d[i]);
                    assert(str_lt(ids_of(e)[i], ids_of(e)[e.len() - 1]));
                }
            }
            assert(p.drop_last() =~= pd);
            assert(entries_map(p) =~= prune_map(entries_map(e), stack, seen));
            assert forall|a: int| 0 <= a < p.len() implies exists|i: int| 0 <= i < e.len() && e[i] == #[trigger] p[a] by {
                if a < pd.len() {
                    assert(p[a] == pd[a]);
                    let i = choose|i: int| 0 <= i < d.len() && d[i] == pd[a];
                    assert(e[i] == d[i]);
                } else {
                    assert(e[e.len() - 1] == p[a]);
                }
            }
        } else {
            assert(pruned(e, stack, seen) =~= pd);
            assert(prune_map(entries_map(e), stack, seen) =~= prune_map(md, stack, seen));
            assert forall|a: int| 0 <= a < pd.len() implies exists|i: int| 0 <= i < e.len() && e[i] == #[trigger] pd[a] by {
                let i = choose|i: int| 0 <= i < d.len() && d[i] == pd[a];
                assert(e[i] == d[i]);
            }
        }
    }
}

/// Fold the questions a deploy just printed into the state. Idempotent,
/// and it never touches a record that is already there, so never an
/// answer. Questions that disappeared from the stack files are dropped —
/// but only for the stack being deployed.
pub fn register(state: &mut HostState, stack: &str, questions: &[(String, String)], now: u64)
    requires
        old(state).wf(),
    ensures
        final(state).wf(),
        checks_of(*final(state)) == after_register(
            checks_of(*old(state)),
            stack@,
            question_views(questions@),
            now,
        ),
        *final(state) == (HostState { manual_checks: final(state).manual_checks, ..*old(state) }),
{
    let ghost qv = question_views(questions@);
    let ghost m0 = checks_of(*state);
    let ghost s0 = *state;
    let mut seen: Vec<String> = Vec::new();
    let mut i: usize = 0;
    proof {
        assert(qv.take(0) =~= Seq::<(Seq<char>, Seq<char>)>::empty());
        assert(ids_of(entries_view(state.manual_checks@)) =~= crate::state::check_ids(state.manual_checks@));
    }
    while i < questions.len()
        invariant
            i <= questions.len(),
            qv == question_views(questions@),
            crate::state::ascending(ids_of(entries_view(state.manual_checks@))),
            entries_map(entries_view(state.manual_checks@)) == folded(m0, stack@, qv.take(i as int), now),
            string_views(seen@) == question_ids(stack@, qv.take(i as int)),
            *state == (HostState { manual_checks: state.manual_checks, ..s0 }),
        decreases questions.len() - i,
    {
        let (app, text) = &questions[i];
        let id = id_for(stack, app.as_str(), text.as_str());
        proof {
            assert(qv.take(i + 1).drop_last() =~= qv.take(i as int));
            assert(qv.take(i + 1).last() == (app@, text@));
            assert(question_ids(stack@, qv.take(i + 1)) =~= question_ids(stack@, qv.take(i as int)).push(id@));
        }
        let ghost sv = string_views(seen@);
        seen.push(id.clone());
        proof {
            assert(string_views(seen@) =~= sv.push(id@));
        }
        let ghost ev = entries_view(state.manual_checks@);
        proof {
            lemma_ascending_distinct(ev);
            lemma_entries_map(ev);
            lemma_id_index(ev, id@);
        }
        match find_id(&state.manual_checks, id.as_str()) {
            Some(_) => {},
            None => {
                let mut j: usize = 0;
                while j < state.manual_checks.len() && str_lt_exec(state.manual_checks[j].0.as_str(), id.as_str())
                    invariant
                        j <= state.manual_checks.len(),
                        ev == entries_view(state.manual_checks@),
                        forall|k: int| 0 <= k < j ==> str_lt(#[trigger] ev[k].0, id@),
                    decreases state.manual_checks.len() - j,
                {
                    j += 1;
                }
                proof {
                    assert forall|k: int| j <= k < ev.len() implies str_lt(id@, #[trigger] ev[k].0) by {
                        assert(ev[j as int].0 != id@);
                        lemma_str_lt_trichotomy(id@, ev[j as int].0);
                        if k > j {
                            assert(str_lt(ids_of(ev)[j as int], ids_of(ev)[k]));
                            lemma_str_lt_transitive(id@, ev[j as int].0, ev[k].0);
                        }
                    }
                    lemma_insert_sorted(ev, j as int, id@, fresh_record(stack@, app@, text@, now));
                }
                let rec = ManualCheckRecord {
                    stack: String::from_str(stack),
                    app: app.clone(),
                    text: text.clone(),
                    registered_at: now,
                    answered_at: None,
                    ok: None,
                    note: String::new(),
                };
                state.manual_checks.insert(j, (id, rec));
                proof {
                    assert(entries_view(state.manual_checks@) =~= ev.insert(
                        j as int,
                        (id@, fresh_record(stack@, app@, text@, now)),
                    ));
                }
            },
        }
        i += 1;
    }
    proof {
        assert(qv.take(questions.len() as int) =~= qv);
    }
    let ghost reg = entries_view(state.manual_checks@);
    let ghost seen_v = string_views(seen@);
    let mut rest: Vec<(String, ManualCheckRecord)> = Vec::new();
    std::mem::swap(&mut rest, &mut state.manual_checks);
    let ghost all = rest@;
    let ghost mut k: int = 0;
    let mut keep_v: Vec<(String, ManualCheckRecord)> = Vec::new();
    while rest.len() > 0
        invariant
            0 <= k <= all.len(),
            k + rest@.len() == all.len(),
            rest@ == all.subrange(k, all.len() as int),
            entries_view(all) == reg,
            entries_view(keep_v@) == pruned(reg.take(k), stack@, seen_v),
            seen_v == string_views(seen@),
        decreases rest@.len(),
    {
        let entry = rest.remove(0);
        proof {
            assert(reg.take(k + 1).drop_last() =~= reg.take(k));
            assert(entry == all[k]);
            assert(reg.take(k + 1).last() == (entry.0@, entry.1@));
        }
        let keep = !str_eq(entry.1.stack.as_str(), stack) || contains_str(&seen, entry.0.as_str());
        if keep {
            let ghost before = entries_view(keep_v@);
            keep_v.push(entry);
            proof {
                assert(entries_view(keep_v@) =~= before.push(reg[k]));
            }
        } else {
            proof {
                assert(pruned(reg.take(k + 1), stack@, seen_v) =~= pruned(reg.take(k), stack@, seen_v));
            }
        }
        proof {
            k = k + 1;
        }
    }
    proof {
        assert(reg.take(k) =~= reg);
        lemma_pruned(reg, stack@, seen_v);
        assert(ids_of(entries_view(keep_v@)) =~= crate::state::check_ids(keep_v@));
    }
    state.manual_checks = keep_v;
}


proof fn lemma_folded_keeps(
    m: Map<Seq<char>, RecordView>,
    stack: Seq<char>,
    qs: Seq<(Seq<char>, Seq<char>)>,
    now: u64,
    id: Seq<char>,
)
    requires
        m.contains_key(id),
    ensures
        folded(m, stack, qs, now).contains_key(id),
        folded(m, stack, qs, now)[id] == m[id],
    decreases qs.len(),
{
    if qs.len() > 0 {
        lemma_folded_keeps(m, stack, qs.drop_last(), now, id);
    }
}

proof fn lemma_folded_has_questions(
    m: Map<Seq<char>, RecordView>,
    stack: Seq<char>,
    qs: Seq<(Seq<char>, Seq<char>)>,
    now: u64,
)
    ensures
        forall|i: int| 0 <= i < qs.len() ==> folded(m, stack, qs, now).contains_key(
            #[trigger] question_ids(stack, qs)[i],
        ),
    decreases qs.len(),
{
    if qs.len() > 0 {
        let d = qs.drop_last();
        lemma_folded_has_questions(m, stack, d, now);
        assert forall|i: int| 0 <= i < qs.len() implies folded(m, stack, qs, now).contains_key(
            #[trigger] question_ids(stack, qs)[i],
        ) by {
            if i < d.len() {
                assert(question_ids(stack, qs)[i] == question_ids(stack, d)[i]);
            }
        }
    }
}

proof fn lemma_folded_noop(
    m: Map<Seq<char>, RecordView>,
    stack: Seq<char>,
    qs: Seq<(Seq<char>, Seq<char>)>,
    now: u64,
)
    requires
        forall|i: int| 0 <= i < qs.len() ==> m.contains_key(#[trigger] question_ids(stack, qs)[i]),
    ensures
        folded(m, stack, qs, now) == m,
    decreases qs.len(),
{
    if qs.len() > 0 {
        let d = qs.drop_last();
        assert forall|i: int| 0 <= i < d.len() implies m.contains_key(#[trigger] question_ids(stack, d)[i]) by {
            assert(question_ids(stack, d)[i] == question_ids(stack, qs)[i]);
        }
        lemma_folded_noop(m, stack, d, now);
        assert(question_ids(stack, qs)[qs.len() - 1] == check_id(stack, qs.last().0, qs.last().1));
    }
}

/// Registering never changes a record that was already there: a check that
/// stays keeps its registration and, above all, its answer.
pub proof fn law_register_keeps_records(
    m: Map<Seq<char>, RecordView>,
    stack: Seq<char>,
    qs: Seq<(Seq<char>, Seq<char>)>,
    now: u64,
    id: Seq<char>,
)
    requires
        m.contains_key(id),
        after_register(m, stack, qs, now).contains_key(id),
    ensures
        after_register(m, stack, qs, now)[id] == m[id],
{
    lemma_folded_keeps(m, stack, qs, now, id);
}

/// A deploy of one stack says nothing about another stack's checks: each of
/// them stays, exactly as it was.
pub proof fn law_register_other_stacks_untouched(
    m: Map<Seq<char>, RecordView>,
    stack: Seq<char>,
    qs: Seq<(Seq<char>, Seq<char>)>,
    now: u64,
    id: Seq<char>,
)
    requires
        m.contains_key(id),
        m[id].stack != stack,
    ensures
        after_register(m, stack, qs, now).contains_key(id),
        after_register(m, stack, qs, now)[id] == m[id],
{
    lemma_folded_keeps(m, stack, qs, now, id);
}

/// Every question of the deploy is there afterwards, and the stack's
/// checks are exactly its questions: one that disappeared from the stack
/// file is gone.
pub proof fn law_register_tracks_questions(
    m: Map<Seq<char>, RecordView>,
    stack: Seq<char>,
    qs: Seq<(Seq<char>, Seq<char>)>,
    now: u64,
    id: Seq<char>,
)
    ensures
        question_ids(stack, qs).contains(id) ==> after_register(m, stack, qs, now).contains_key(id),
        after_register(m, stack, qs, now).contains_key(id) && after_register(m, stack, qs, now)[id].stack
            == stack ==> question_ids(stack, qs).contains(id),
{
    lemma_folded_has_questions(m, stack, qs, now);
    if question_ids(stack, qs).contains(id) {
        let i = choose|i: int| 0 <= i < question_ids(stack, qs).len() && question_ids(stack, qs)[i] == id;
        assert(folded(m, stack, qs, now).contains_key(question_ids(stack, qs)[i]));
    }
}

/// Registering the same questions again changes nothing, whenever it runs:
/// re-deploying a stack ten times does not make an answered check
/// unanswered.
pub proof fn law_register_idempotent(
    m: Map<Seq<char>, RecordView>,
    stack: Seq<char>,
    qs: Seq<(Seq<char>, Seq<char>)>,
    now: u64,
    later: u64,
)
    ensures
        after_register(after_register(m, stack, qs, now), stack, qs, later) == after_register(
            m,
            stack,
            qs,
            now,
        ),
{
    let once = after_register(m, stack, qs, now);
    let seen = question_ids(stack, qs);
    lemma_folded_has_questions(m, stack, qs, now);
    assert forall|i: int| 0 <= i < qs.len() implies once.contains_key(#[trigger] question_ids(stack, qs)[i]) by {
        assert(seen.contains(seen[i]));
    }
    lemma_folded_noop(once, stack, qs, later);
    assert(prune_map(once, stack, seen) =~= once);
}

pub open spec fn answered(r: RecordView, ok: bool, note: Seq<char>, now: u64) -> RecordView {
    RecordView { answered_at: Some(now), ok: Some(ok), note, ..r }
}

/// Record a person's answer. False when the id is unknown, so the caller
/// can say so instead of silently doing nothing. Nothing else in the state
/// changes.
pub fn answer(state: &mut HostState, id: &str, ok: bool, note: &str, now: u64) -> (r: bool)
    ensures
        r == (id_index(entries_view(old(state).manual_checks@), id@) >= 0),
        r ==> entries_view(final(state).manual_checks@) == entries_view(old(state).manual_checks@).update(
            id_index(entries_view(old(state).manual_checks@), id@),
            (id@, answered(entries_view(old(state).manual_checks@)[id_index(entries_view(old(state).manual_checks@), id@)].1, ok, note@, now)),
        ),
        !r ==> final(state).manual_checks@ == old(state).manual_checks@,
        old(state).wf() ==> final(state).wf(),
        *final(state) == (HostState { manual_checks: final(state).manual_checks, ..*old(state) }),
{
    let ghost e = entries_view(state.manual_checks@);
    proof {
        lemma_id_index(e, id@);
    }
    match find_id(&state.manual_checks, id) {
        Some(i) => {
            let mut rest: Vec<(String, ManualCheckRecord)> = Vec::new();
            std::mem::swap(&mut rest, &mut state.manual_checks);
            let (k, rec) = rest.remove(i);
            let updated = ManualCheckRecord {
                answered_at: Some(now),
                ok: Some(ok),
                note: String::from_str(note),
                ..rec
            };
            rest.insert(i, (k, updated));
            proof {
                assert(entries_view(rest@) =~= e.update(i as int, (id@, answered(e[i as int].1, ok, note@, now))));
                assert(crate::state::check_ids(rest@) =~= crate::state::check_ids(old(state).manual_checks@));
            }
            state.manual_checks = rest;
            true
        },
        None => false,
    }
}

/// The questions a deploy printed, flattened out of the checks of each app.
pub open spec fn manual_questions(checks: Seq<(String, ServiceChecks)>) -> Seq<(Seq<char>, Seq<char>)>
    decreases checks.len(),
{
    if checks.len() == 0 {
        Seq::empty()
    } else {
        manual_questions(checks.drop_last()) + checks.last().1.manual@.map_values(
            |t: String| (checks.last().0@, t@),
        )
    }
}

pub fn questions_of(checks: &Vec<(String, ServiceChecks)>) -> (r: Vec<(String, String)>)
    ensures
        question_views(r@) == manual_questions(checks@),
{
    let mut v: Vec<(String, String)> = Vec::new();
    let mut i: usize = 0;
    while i < checks.len()
        invariant
            i <= checks.len(),
            question_views(v@) == manual_questions(checks@.take(i as int)),
        decreases checks.len() - i,
    {
        proof {
            assert(checks@.take(i + 1).drop_last() =~= checks@.take(i as int));
        }
        let (app, sc) = &checks[i];
        let ghost base = question_views(v@);
        let mut j: usize = 0;
        while j < sc.manual.len()
            invariant
                j <= sc.manual.len(),
                question_views(v@) == base + sc.manual@.take(j as int).map_values(|t: String| (app@, t@)),
            decreases sc.manual.len() - j,
        {
            let ghost before = question_views(v@);
            v.push((app.clone(), sc.manual[j].clone()));
            proof {
                assert(question_views(v@) =~= before.push((app@, sc.manual@[j as int]@)));
                assert(sc.manual@.take(j + 1).map_values(|t: String| (app@, t@)) =~= sc.manual@.take(
                    j as int,
                ).map_values(|t: String| (app@, t@)).push((app@, sc.manual@[j as int]@)));
            }
            j += 1;
        }
        proof {
            assert(sc.manual@.take(sc.manual.len() as int) =~= sc.manual@);
            assert(question_views(v@) =~= manual_questions(checks@.take(i + 1)));
        }
        i += 1;
    }
    proof {
        assert(checks@.take(checks.len() as int) =~= checks@);
    }
    v
}

// ── What the record says ───────────────────────────────────────────────────

/// How long an answer stays good before the question is asked again:
/// ninety days.
pub const DEFAULT_ANSWER_MAX_AGE_S: u64 = 7776000;

/// Where one check stands.
#[derive(Debug, Clone, Copy, PartialEq, Eq)]
pub enum Standing {
    /// Answered ok, recently, after the last deploy.
    Settled,
    /// Somebody looked and said no.
    Refused,
    /// Never answered, or answered before the stack's last deploy.
    Open,
    /// Answered ok, but longer ago than the window.
    Aging,
}

/// When the stack was last deployed (0 when it has no record).
pub open spec fn deployed_at(stacks: Seq<(String, StackState)>, name: Seq<char>) -> u64
    decreases stacks.len(),
{
    if stacks.len() == 0 {
        0
    } else if stacks[0].0@ == name {
        stacks[0].1.applied_at
    } else {
        deployed_at(stacks.drop_first(), name)
    }
}

pub open spec fn standing(r: RecordView, deployed: u64, now: u64, max_age: u64) -> Standing {
    if r.ok == Some(false) {
        Standing::Refused
    } else {
        match r.answered_at {
            None => Standing::Open,
            Some(at) => if at < deployed {
                Standing::Open
            } else if (if now >= at { now - at } else { 0 }) > max_age {
                Standing::Aging
            } else {
                Standing::Settled
            },
        }
    }
}

/// Every check with where it stands.
pub open spec fn tagged(
    e: Seq<(Seq<char>, RecordView)>,
    stacks: Seq<(String, StackState)>,
    now: u64,
    max_age: u64,
) -> Seq<(Standing, RecordView)> {
    e.map_values(|p: (Seq<char>, RecordView)| (standing(p.1, deployed_at(stacks, p.1.stack), now, max_age), p.1))
}

pub open spec fn refusal(r: RecordView) -> FindingView {
    fv(
        Severity::Broken,
        r.stack + "/"@ + r.app,
        "somebody looked and said no: \""@ + r.text + "\""@ + if r.note.len() == 0 {
            Seq::empty()
        } else {
            " ("@ + r.note + ")"@
        },
        "fix it, then answer the check again — it stays a finding until somebody says it is right"@,
    )
}

/// One finding for each check somebody said no to.
pub open spec fn refusals(t: Seq<(Standing, RecordView)>) -> Seq<FindingView>
    decreases t.len(),
{
    if t.len() == 0 {
        Seq::empty()
    } else {
        refusals(t.drop_last()) + if t.last().0 == Standing::Refused {
            seq![refusal(t.last().1)]
        } else {
            Seq::empty()
        }
    }
}

/// The stacks that have checks standing as `c`, in order of first mention.
pub open spec fn group_stacks(t: Seq<(Standing, RecordView)>, c: Standing) -> Seq<Seq<char>>
    decreases t.len(),
{
    if t.len() == 0 {
        Seq::empty()
    } else {
        let g = group_stacks(t.drop_last(), c);
        if t.last().0 == c && !g.contains(t.last().1.stack) {
            g.push(t.last().1.stack)
        } else {
            g
        }
    }
}

/// The questions of `stack` standing as `c`, in order.
pub open spec fn group_texts(t: Seq<(Standing, RecordView)>, c: Standing, stack: Seq<char>) -> Seq<Seq<char>>
    decreases t.len(),
{
    if t.len() == 0 {
        Seq::empty()
    } else {
        group_texts(t.drop_last(), c, stack) + if t.last().0 == c && t.last().1.stack == stack {
            seq![t.last().1.text]
        } else {
            Seq::empty()
        }
    }
}

pub open spec fn quoted(t: Seq<char>) -> Seq<char> {
    "\""@ + t + "\""@
}

/// Two examples and a tail, so a one-line finding still says something
/// concrete about what is open.
pub open spec fn examples_of(texts: Seq<Seq<char>>) -> Seq<char> {
    let head = texts.take(if texts.len() < 2 { texts.len() as int } else { 2 }).map_values(
        |t: Seq<char>| quoted(t),
    );
    if texts.len() > 2 {
        joined(head, ", "@) + " and "@ + dec((texts.len() - 2) as nat) + " more"@
    } else {
        joined(head, ", "@)
    }
}

pub open spec fn group_finding(c: Standing, stack: Seq<char>, texts: Seq<Seq<char>>) -> FindingView {
    if c == Standing::Open {
        fv(
            Severity::Drift,
            stack,
            dec(texts.len()) + " check(s) only a person can answer are open, e.g. "@ + examples_of(texts),
            "`homelab checks` lists them with their ids; `homelab checks answer <id> ok|nok` records one. Printing the question at the end of a deploy was how they went unanswered"@,
        )
    } else {
        fv(
            Severity::Noted,
            stack,
            dec(texts.len()) + " answered check(s) are older than the window, e.g. "@ + examples_of(texts),
            "nothing is wrong; it is time to look again"@,
        )
    }
}

/// One finding per stack with checks standing as `c`, their questions sorted.
pub open spec fn group_findings(t: Seq<(Standing, RecordView)>, c: Standing) -> Seq<FindingView> {
    group_stacks(t, c).map_values(|s: Seq<char>| group_finding(c, s, sort_by(group_texts(t, c, s), str_order())))
}

/// Findings in report order: by subject, then by what they say.
pub open spec fn finding_order() -> spec_fn(FindingView, FindingView) -> bool {
    |a: FindingView, b: FindingView| str_lt(a.subject, b.subject) || (a.subject == b.subject && str_le(a.what, b.what))
}

/// What the record says about the questions nobody can measure: a refusal
/// is its own finding; open and aging checks are counted per stack, so a
/// nightly report stays one a person reads.
pub open spec fn manual_findings(state: HostState, now: u64, max_age: u64) -> Seq<FindingView> {
    let t = tagged(entries_view(state.manual_checks@), state.stacks@, now, max_age);
    sort_by(refusals(t) + group_findings(t, Standing::Open) + group_findings(t, Standing::Aging), finding_order())
}

proof fn lemma_absent_group(t: Seq<(Standing, RecordView)>, c: Standing, s: Seq<char>)
    requires
        !group_stacks(t, c).contains(s),
    ensures
        group_texts(t, c, s) == Seq::<Seq<char>>::empty(),
    decreases t.len(),
{
    if t.len() > 0 {
        let g = group_stacks(t.drop_last(), c);
        if g.contains(s) {
            let k = choose|k: int| 0 <= k < g.len() && g[k] == s;
            assert(group_stacks(t, c)[k] == s);
        }
        lemma_absent_group(t.drop_last(), c, s);
        if t.last().0 == c && t.last().1.stack == s {
            assert(group_stacks(t, c).last() == s);
        }
    }
}

proof fn lemma_groups_distinct(t: Seq<(Standing, RecordView)>, c: Standing)
    ensures
        forall|i: int, j: int| 0 <= i < j < group_stacks(t, c).len() ==> group_stacks(t, c)[i] != group_stacks(t, c)[j],
    decreases t.len(),
{
    if t.len() > 0 {
        let g = group_stacks(t.drop_last(), c);
        lemma_groups_distinct(t.drop_last(), c);
        if t.last().0 == c && !g.contains(t.last().1.stack) {
            let g2 = g.push(t.last().1.stack);
            assert forall|i: int, j: int| 0 <= i < j < g2.len() implies g2[i] != g2[j] by {
                if j == g.len() {
                    if g2[i] == g2[j] {
                        assert(g[i] == t.last().1.stack);
                    }
                }
            }
        }
    }
}

fn deployed_at_exec(stacks: &Vec<(String, StackState)>, name: &str) -> (r: u64)
    ensures
        r == deployed_at(stacks@, name@),
{
    let mut i: usize = 0;
    proof {
        assert(stacks@.subrange(0, stacks@.len() as int) =~= stacks@);
    }
    while i < stacks.len()
        invariant
            i <= stacks.len(),
            deployed_at(stacks@, name@) == deployed_at(stacks@.subrange(i as int, stacks@.len() as int), name@),
        decreases stacks.len() - i,
    {
        proof {
            assert(stacks@.subrange(i as int, stacks@.len() as int).drop_first() =~= stacks@.subrange(i + 1, stacks@.len() as int));
        }
        if str_eq(stacks[i].0.as_str(), name) {
            return stacks[i].1.applied_at;
        }
        i += 1;
    }
    0
}

fn standing_exec(r: &ManualCheckRecord, deployed: u64, now: u64, max_age: u64) -> (s: Standing)
    ensures
        s == standing(r@, deployed, now, max_age),
{
    if r.ok == Some(false) {
        return Standing::Refused;
    }
    match r.answered_at {
        None => Standing::Open,
        Some(at) => {
            let since = if now >= at { now - at } else { 0 };
            if at < deployed {
                Standing::Open
            } else if since > max_age {
                Standing::Aging
            } else {
                Standing::Settled
            }
        },
    }
}

pub open spec fn groups_view(g: Seq<(String, Vec<String>)>) -> Seq<(Seq<char>, Seq<Seq<char>>)> {
    g.map_values(|p: (String, Vec<String>)| (p.0@, string_views(p.1@)))
}

/// The groups as the record up to `t` has them.
pub open spec fn groups_match(g: Seq<(Seq<char>, Seq<Seq<char>>)>, t: Seq<(Standing, RecordView)>, c: Standing) -> bool {
    &&& g.len() == group_stacks(t, c).len()
    &&& forall|k: int| 0 <= k < g.len() ==> (#[trigger] g[k]).0 == group_stacks(t, c)[k] && g[k].1 == group_texts(t, c, g[k].0)
}

fn add_to_group(
    groups: &mut Vec<(String, Vec<String>)>,
    r: &ManualCheckRecord,
    c: Standing,
    Ghost(t): Ghost<Seq<(Standing, RecordView)>>,
)
    requires
        groups_match(groups_view(old(groups)@), t, c),
    ensures
        groups_match(groups_view(final(groups)@), t.push((c, r@)), c),
{
    let ghost t2 = t.push((c, r@));
    proof {
        assert(t2.drop_last() =~= t);
        lemma_groups_distinct(t, c);
    }
    let ghost gv = groups_view(groups@);
    let mut j: usize = 0;
    while j < groups.len()
        invariant
            j <= groups.len(),
            gv == groups_view(groups@),
            groups_match(gv, t, c),
            forall|k: int| 0 <= k < j ==> gv[k].0 != r.stack@,
        ensures
            j <= groups.len(),
            gv == groups_view(groups@),
            groups_match(gv, t, c),
            forall|k: int| 0 <= k < j ==> gv[k].0 != r.stack@,
            j < groups.len() ==> gv[j as int].0 == r.stack@,
        decreases groups.len() - j,
    {
        if str_eq(groups[j].0.as_str(), r.stack.as_str()) {
            break;
        }
        j += 1;
    }
    if j < groups.len() && str_eq(groups[j].0.as_str(), r.stack.as_str()) {
        proof {
            assert(gv[j as int].0 == group_stacks(t, c)[j as int]);
            assert(gv[j as int].1 == group_texts(t, c, gv[j as int].0));
        }
        let (s, mut ts) = groups.remove(j);
        let ghost tv = string_views(ts@);
        ts.push(r.text.clone());
        groups.insert(j, (s, ts));
        proof {
            assert(string_views(ts@) =~= tv.push(r.text@));
            assert(group_stacks(t, c).contains(r.stack@)) by {
                assert(group_stacks(t, c)[j as int] == r.stack@);
            }
            assert(group_stacks(t2, c) =~= group_stacks(t, c));
            let g2 = groups_view(groups@);
            assert forall|k: int| 0 <= k < g2.len() implies (#[trigger] g2[k]).0 == group_stacks(t2, c)[k]
                && g2[k].1 == group_texts(t2, c, g2[k].0) by {
                if k == j {
                    assert(g2[k].1 =~= group_texts(t, c, r.stack@).push(r.text@));
                } else {
                    assert(g2[k] == gv[k]);
                    assert(group_stacks(t, c)[k] != group_stacks(t, c)[j as int]);
                    assert(group_texts(t2, c, gv[k].0) =~= group_texts(t, c, gv[k].0));
                }
            }
        }
    } else {
        proof {
            assert(!group_stacks(t, c).contains(r.stack@)) by {
                if group_stacks(t, c).contains(r.stack@) {
                    let k = choose|k: int| 0 <= k < group_stacks(t, c).len() && group_stacks(t, c)[k] == r.stack@;
                    assert(gv[k].0 == r.stack@);
                }
            }
            lemma_absent_group(t, c, r.stack@);
        }
        let mut ts: Vec<String> = Vec::new();
        ts.push(r.text.clone());
        groups.push((r.stack.clone(), ts));
        proof {
            assert(string_views(ts@) =~= seq![r.text@]);
            assert(group_stacks(t2, c) =~= group_stacks(t, c).push(r.stack@));
            let g2 = groups_view(groups@);
            assert forall|k: int| 0 <= k < g2.len() implies (#[trigger] g2[k]).0 == group_stacks(t2, c)[k]
                && g2[k].1 == group_texts(t2, c, g2[k].0) by {
                if k == gv.len() {
                    assert(group_texts(t2, c, r.stack@) =~= seq![r.text@]);
                } else {
                    assert(g2[k] == gv[k]);
                    assert(gv[k].0 != r.stack@);
                    assert(group_texts(t2, c, gv[k].0) =~= group_texts(t, c, gv[k].0));
                }
            }
        }
    }
}

fn examples(texts: &Vec<String>) -> (r: String)
    ensures
        r@ == examples_of(string_views(texts@)),
{
    let mut head: Vec<String> = Vec::new();
    let n: usize = if texts.len() < 2 { texts.len() } else { 2 };
    let mut i: usize = 0;
    while i < n
        invariant
            i <= n,
            n <= texts.len(),
            head@.len() == i,
            forall|k: int| 0 <= k < i ==> (#[trigger] head@[k])@ == quoted(texts@[k]@),
        decreases n - i,
    {
        let mut q = String::from_str("\"");
        q.append(texts[i].as_str());
        q.append("\"");
        head.push(q);
        i += 1;
    }
    proof {
        assert(string_views(head@) =~= string_views(texts@).take(n as int).map_values(|t: Seq<char>| quoted(t)));
    }
    let mut s = join_strings(head.as_slice(), ", ");
    if texts.len() > 2 {
        s.append(" and ");
        let d = dec_string((texts.len() - 2) as u64);
        s.append(d.as_str());
        s.append(" more");
    }
    s
}

fn push_group_findings(groups: Vec<(String, Vec<String>)>, c: Standing, out: &mut Vec<Finding>, Ghost(t): Ghost<Seq<(Standing, RecordView)>>)
    requires
        groups_match(groups_view(groups@), t, c),
        c == Standing::Open || c == Standing::Aging,
    ensures
        findings_view(final(out)@) == findings_view(old(out)@) + group_findings(t, c),
{
    let ghost o0 = findings_view(out@);
    let ghost gv = groups_view(groups@);
    let mut i: usize = 0;
    while i < groups.len()
        invariant
            i <= groups.len(),
            gv == groups_view(groups@),
            groups_match(gv, t, c),
            c == Standing::Open || c == Standing::Aging,
            findings_view(out@) == o0 + group_findings(t, c).take(i as int),
        decreases groups.len() - i,
    {
        let sorted = sort_strings(groups[i].1.clone());
        proof {
            assert(gv[i as int].1 == string_views(groups@[i as int].1@));
        }
        let ex = examples(&sorted);
        let d = dec_string(sorted.len() as u64);
        let mut what = String::from_str(d.as_str());
        match c {
            Standing::Open => {
                what.append(" check(s) only a person can answer are open, e.g. ");
                what.append(ex.as_str());
                push_finding(out, Severity::Drift, groups[i].0.clone(), what, String::from_str(
                    "`homelab checks` lists them with their ids; `homelab checks answer <id> ok|nok` records one. Printing the question at the end of a deploy was how they went unanswered",
                ));
            },
            _ => {
                what.append(" answered check(s) are older than the window, e.g. ");
                what.append(ex.as_str());
                push_finding(out, Severity::Noted, groups[i].0.clone(), what, String::from_str(
                    "nothing is wrong; it is time to look again",
                ));
            },
        }
        proof {
            let s = gv[i as int].0;
            assert(group_findings(t, c)[i as int] == group_finding(c, s, sort_by(group_texts(t, c, s), str_order())));
            assert(group_findings(t, c).take(i + 1) =~= group_findings(t, c).take(i as int).push(group_findings(t, c)[i as int]));
        }
        i += 1;
    }
    proof {
        assert(group_findings(t, c).take(groups.len() as int) =~= group_findings(t, c));
    }
}

fn finding_le(a: &Finding, b: &Finding) -> (r: bool)
    ensures
        r == (finding_order())(a@, b@),
{
    if str_eq(a.subject.as_str(), b.subject.as_str()) {
        str_le_exec(a.what.as_str(), b.what.as_str())
    } else {
        crate::text::str_lt_exec(a.subject.as_str(), b.subject.as_str())
    }
}

/// The findings in report order (a stable sort by subject, then by what).
pub fn sort_findings(v: Vec<Finding>) -> (r: Vec<Finding>)
    ensures
        findings_view(r@) == sort_by(findings_view(v@), finding_order()),
{
    let mut out: Vec<Finding> = Vec::new();
    let ghost vs = findings_view(v@);
    let mut v = v;
    let ghost all = v@;
    let ghost mut i: int = 0;
    while v.len() > 0
        invariant
            0 <= i <= all.len(),
            i + v@.len() == all.len(),
            v@ == all.subrange(i, all.len() as int),
            vs == findings_view(all),
            findings_view(out@) == sort_by(vs.take(i), finding_order()),
        decreases v@.len(),
    {
        let x = v.remove(0);
        let ghost sv = findings_view(out@);
        let mut j = out.len();
        while j > 0 && !finding_le(&out[j - 1], &x)
            invariant
                j <= out.len(),
                sv == findings_view(out@),
                forall|k: int| j <= k < sv.len() ==> !(finding_order())(#[trigger] sv[k], x@),
            decreases j,
        {
            j -= 1;
        }
        proof {
            assert(vs.take(i + 1).drop_last() =~= vs.take(i));
            assert(x == all[i]);
            assert(vs.take(i + 1).last() == x@);
            lemma_insert_at(sv, x@, finding_order(), j as int);
        }
        out.insert(j, x);
        proof {
            assert(findings_view(out@) =~= sv.take(j as int).push(x@) + sv.skip(j as int));
            i = i + 1;
        }
    }
    proof {
        assert(vs.take(i) =~= vs);
    }
    out
}

/// What the state says about the questions nobody can measure.
pub fn evaluate_manual(state: &HostState, now: u64, answer_max_age_s: u64) -> (r: Vec<Finding>)
    ensures
        findings_view(r@) == manual_findings(*state, now, answer_max_age_s),
{
    let ghost t = tagged(entries_view(state.manual_checks@), state.stacks@, now, answer_max_age_s);
    let mut broken: Vec<Finding> = Vec::new();
    let mut pending: Vec<(String, Vec<String>)> = Vec::new();
    let mut aging: Vec<(String, Vec<String>)> = Vec::new();
    let mut i: usize = 0;
    proof {
        assert(t.take(0) =~= Seq::<(Standing, RecordView)>::empty());
        assert(groups_view(pending@) =~= Seq::<(Seq<char>, Seq<Seq<char>>)>::empty());
        assert(groups_view(aging@) =~= Seq::<(Seq<char>, Seq<Seq<char>>)>::empty());
    }
    while i < state.manual_checks.len()
        invariant
            i <= state.manual_checks.len(),
            t == tagged(entries_view(state.manual_checks@), state.stacks@, now, answer_max_age_s),
            findings_view(broken@) == refusals(t.take(i as int)),
            groups_match(groups_view(pending@), t.take(i as int), Standing::Open),
            groups_match(groups_view(aging@), t.take(i as int), Standing::Aging),
        decreases state.manual_checks.len() - i,
    {
        let r = &state.manual_checks[i].1;
        let deployed = deployed_at_exec(&state.stacks, r.stack.as_str());
        let c = standing_exec(r, deployed, now, answer_max_age_s);
        proof {
            assert(t.take(i + 1).drop_last() =~= t.take(i as int));
            assert(t[i as int] == (c, r@));
            assert(t.take(i + 1) =~= t.take(i as int).push((c, r@)));
        }
        match c {
            Standing::Refused => {
                let mut what = String::from_str("somebody looked and said no: \"");
                what.append(r.text.as_str());
                what.append("\"");
                if r.note.unicode_len() > 0 {
                    what.append(" (");
                    what.append(r.note.as_str());
                    what.append(")");
                }
                let mut subject = r.stack.clone();
                subject.append("/");
                subject.append(r.app.as_str());
                proof {
                    assert(what@ =~= refusal(r@).what);
                    assert(subject@ =~= refusal(r@).subject);
                }
                push_finding(&mut broken, Severity::Broken, subject, what, String::from_str(
                    "fix it, then answer the check again — it stays a finding until somebody says it is right",
                ));
                proof {
                    assert(refusals(t.take(i + 1)) =~= refusals(t.take(i as int)).push(refusal(r@)));
                    assert(group_stacks(t.take(i + 1), Standing::Open) =~= group_stacks(t.take(i as int), Standing::Open));
                    assert(group_stacks(t.take(i + 1), Standing::Aging) =~= group_stacks(t.take(i as int), Standing::Aging));
                    assert(forall|s: Seq<char>| group_texts(t.take(i + 1), Standing::Open, s) =~= group_texts(t.take(i as int), Standing::Open, s));
                    assert(forall|s: Seq<char>| group_texts(t.take(i + 1), Standing::Aging, s) =~= group_texts(t.take(i as int), Standing::Aging, s));
                }
            },
            Standing::Open => {
                add_to_group(&mut pending, r, Standing::Open, Ghost(t.take(i as int)));
                proof {
                    assert(group_stacks(t.take(i + 1), Standing::Aging) =~= group_stacks(t.take(i as int), Standing::Aging));
                    assert(forall|s: Seq<char>| group_texts(t.take(i + 1), Standing::Aging, s) =~= group_texts(t.take(i as int), Standing::Aging, s));
                    assert(refusals(t.take(i + 1)) =~= refusals(t.take(i as int)));
                }
            },
            Standing::Aging => {
                add_to_group(&mut aging, r, Standing::Aging, Ghost(t.take(i as int)));
                proof {
                    assert(group_stacks(t.take(i + 1), Standing::Open) =~= group_stacks(t.take(i as int), Standing::Open));
                    assert(forall|s: Seq<char>| group_texts(t.take(i + 1), Standing::Open, s) =~= group_texts(t.take(i as int), Standing::Open, s));
                    assert(refusals(t.take(i + 1)) =~= refusals(t.take(i as int)));
                }
            },
            Standing::Settled => {
                proof {
                    assert(group_stacks(t.take(i + 1), Standing::Open) =~= group_stacks(t.take(i as int), Standing::Open));
                    assert(group_stacks(t.take(i + 1), Standing::Aging) =~= group_stacks(t.take(i as int), Standing::Aging));
                    assert(forall|s: Seq<char>| group_texts(t.take(i + 1), Standing::Open, s) =~= group_texts(t.take(i as int), Standing::Open, s));
                    assert(forall|s: Seq<char>| group_texts(t.take(i + 1), Standing::Aging, s) =~= group_texts(t.take(i as int), Standing::Aging, s));
                    assert(refusals(t.take(i + 1)) =~= refusals(t.take(i as int)));
                }
            },
        }
        i += 1;
    }
    proof {
        assert(t.take(state.manual_checks.len() as int) =~= t);
    }
    let mut all = broken;
    push_group_findings(pending, Standing::Open, &mut all, Ghost(t));
    push_group_findings(aging, Standing::Aging, &mut all, Ghost(t));
    sort_findings(all)
}

// ── The list a person answers from ──────────────────────────────────────────

/// Rows in listing order: by stack, and within a stack the newest question
/// (the latest registration) first.
pub open spec fn listing_order() -> spec_fn((Seq<char>, RecordView), (Seq<char>, RecordView)) -> bool {
    |a: (Seq<char>, RecordView), b: (Seq<char>, RecordView)|
        str_lt(a.1.stack, b.1.stack) || (a.1.stack == b.1.stack && a.1.registered_at >= b.1.registered_at)
}

proof fn lemma_listing_order_total()
    ensures
        total_preorder(listing_order()),
{
    let le = listing_order();
    assert forall|a: (Seq<char>, RecordView), b: (Seq<char>, RecordView)| #[trigger] le(a, b) || le(b, a) by {
        if a.1.stack != b.1.stack {
            crate::text::lemma_str_lt_trichotomy(a.1.stack, b.1.stack);
        }
    }
    assert forall|a: (Seq<char>, RecordView), b: (Seq<char>, RecordView), c: (Seq<char>, RecordView)|
        #[trigger] le(a, b) && #[trigger] le(b, c) implies le(a, c) by {
        if str_lt(a.1.stack, b.1.stack) && str_lt(b.1.stack, c.1.stack) {
            crate::text::lemma_str_lt_transitive(a.1.stack, b.1.stack, c.1.stack);
        }
    }
}

/// The listing is the records themselves, each as often as it is held, in
/// listing order: by stack, newest registration first within a stack.
pub proof fn law_listing_sorted_permutation(records: Seq<(Seq<char>, RecordView)>)
    ensures
        sorted_by(sort_by(records, listing_order()), listing_order()),
        sort_by(records, listing_order()).to_multiset() == records.to_multiset(),
{
    lemma_listing_order_total();
    lemma_sort_by(records, listing_order());
}

fn listing_le(a: &(String, ManualCheckRecord), b: &(String, ManualCheckRecord)) -> (r: bool)
    ensures
        r == (listing_order())((a.0@, a.1@), (b.0@, b.1@)),
{
    if !str_eq(a.1.stack.as_str(), b.1.stack.as_str()) {
        crate::text::str_lt_exec(a.1.stack.as_str(), b.1.stack.as_str())
    } else {
        a.1.registered_at >= b.1.registered_at
    }
}

/// The list a person answers from: grouped by stack, newest question first
/// within a stack.
pub fn listing(state: &HostState) -> (r: Vec<(String, ManualCheckRecord)>)
    ensures
        entries_view(r@) == sort_by(entries_view(state.manual_checks@), listing_order()),
{
    let ghost vs = entries_view(state.manual_checks@);
    let mut out: Vec<(String, ManualCheckRecord)> = Vec::new();
    let mut i: usize = 0;
    while i < state.manual_checks.len()
        invariant
            i <= state.manual_checks.len(),
            vs == entries_view(state.manual_checks@),
            entries_view(out@) == sort_by(vs.take(i as int), listing_order()),
        decreases state.manual_checks.len() - i,
    {
        let x = (state.manual_checks[i].0.clone(), clone_record(&state.manual_checks[i].1));
        let ghost sv = entries_view(out@);
        let mut j = out.len();
        while j > 0 && !listing_le(&out[j - 1], &x)
            invariant
                j <= out.len(),
                sv == entries_view(out@),
                forall|k: int| j <= k < sv.len() ==> !(listing_order())(#[trigger] sv[k], (x.0@, x.1@)),
            decreases j,
        {
            j -= 1;
        }
        proof {
            assert(vs.take(i + 1).drop_last() =~= vs.take(i as int));
            assert(vs.take(i + 1).last() == (x.0@, x.1@));
            lemma_insert_at(sv, (x.0@, x.1@), listing_order(), j as int);
        }
        out.insert(j, x);
        proof {
            assert(entries_view(out@) =~= sv.take(j as int).push((x.0@, x.1@)) + sv.skip(j as int));
        }
        i += 1;
    }
    proof {
        assert(vs.take(state.manual_checks.len() as int) =~= vs);
    }
    out
}

/// How one row's answer reads.
pub open spec fn status_of(r: RecordView, now: u64) -> Seq<char> {
    match (r.ok, r.answered_at) {
        (Some(true), Some(at)) => "ok, "@ + dec(((if now >= at { now - at } else { 0 }) / 86400) as nat) + "d ago"@,
        (Some(false), _) => "NOT OK"@,
        _ => "unanswered"@,
    }
}

/// One row more: a stack heading when the stack changes, then the row.
pub open spec fn render_step(acc: (Seq<char>, Seq<char>, nat, nat), row: (Seq<char>, RecordView), now: u64) -> (Seq<char>, Seq<char>, nat, nat) {
    let (s, stack, open, done) = acc;
    let (id, r) = row;
    let head = if r.stack != stack {
        s + "\n"@ + r.stack + "\n"@
    } else {
        s
    };
    let line = "  "@ + id + "  ["@ + pad_left(status_of(r, now), ' ', 11) + "]  "@ + r.text + "\n"@;
    (head + line, r.stack, if r.ok == Some(true) { open } else { open + 1 }, if r.ok == Some(true) { done + 1 } else { done })
}

/// The listing rendered row by row: the text so far, the stack of the last
/// row, and the counts of open and settled checks.
pub open spec fn render_rows(rows: Seq<(Seq<char>, RecordView)>, now: u64) -> (Seq<char>, Seq<char>, nat, nat)
    decreases rows.len(),
{
    if rows.len() == 0 {
        (Seq::empty(), Seq::empty(), 0, 0)
    } else {
        render_step(render_rows(rows.drop_last(), now), rows.last(), now)
    }
}

fn render_row(s: &mut String, stack: &mut String, open: &mut usize, done: &mut usize, id: &String, r: &ManualCheckRecord, now: u64)
    requires
        *old(open) + *old(done) < usize::MAX,
    ensures
        render_step((old(s)@, old(stack)@, *old(open) as nat, *old(done) as nat), (id@, r@), now)
            == (final(s)@, final(stack)@, *final(open) as nat, *final(done) as nat),
        *final(open) + *final(done) == *old(open) + *old(done) + 1,
{
    if !str_eq(r.stack.as_str(), stack.as_str()) {
        *stack = r.stack.clone();
        s.append("\n");
        s.append(stack.as_str());
        s.append("\n");
    }
    let status = match (r.ok, r.answered_at) {
        (Some(true), Some(at)) => {
            let since = if now >= at { now - at } else { 0 };
            let mut t = String::from_str("ok, ");
            let d = dec_string(since / 86400);
            t.append(d.as_str());
            t.append("d ago");
            t
        },
        (Some(false), _) => String::from_str("NOT OK"),
        _ => String::from_str("unanswered"),
    };
    proof {
        assert(status@ == status_of(r@, now));
        reveal_strlit(" ");
    }
    if r.ok == Some(true) {
        *done = *done + 1;
    } else {
        *open = *open + 1;
    }
    s.append("  ");
    s.append(id.as_str());
    s.append("  [");
    let padded = pad_left_string(status.as_str(), " ", 11);
    s.append(padded.as_str());
    s.append("]  ");
    s.append(r.text.as_str());
    s.append("\n");
}

pub open spec fn rendered_listing(rows: Seq<(Seq<char>, RecordView)>, now: u64) -> Seq<char> {
    if rows.len() == 0 {
        "no manual checks are registered — deploy a stack that has them"@
    } else {
        let (s, _, open, done) = render_rows(rows, now);
        s + "\n"@ + dec(done) + " answered ok, "@ + dec(open) + " open. Answer one with:\n  homelab checks answer <id> ok|nok [note]\n"@
    }
}

/// How many of the rows are answered ok.
pub open spec fn answered_ok(rows: Seq<(Seq<char>, RecordView)>) -> nat
    decreases rows.len(),
{
    if rows.len() == 0 {
        0
    } else {
        answered_ok(rows.drop_last()) + if rows.last().1.ok == Some(true) { 1nat } else { 0nat }
    }
}

proof fn lemma_render_counts(rows: Seq<(Seq<char>, RecordView)>, now: u64)
    ensures
        render_rows(rows, now).3 == answered_ok(rows),
        render_rows(rows, now).2 + render_rows(rows, now).3 == rows.len(),
    decreases rows.len(),
{
    if rows.len() > 0 {
        lemma_render_counts(rows.drop_last(), now);
    }
}

/// The listing of no rows says so; any other ends with the count of checks
/// answered ok, the count of the rest, and how to answer one.
pub proof fn law_listing_text(rows: Seq<(Seq<char>, RecordView)>, now: u64)
    ensures
        rows.len() == 0 ==> rendered_listing(rows, now) == "no manual checks are registered — deploy a stack that has them"@,
        rows.len() > 0 ==> rendered_listing(rows, now) == render_rows(rows, now).0 + "\n"@ + dec(answered_ok(rows))
            + " answered ok, "@ + dec((rows.len() - answered_ok(rows)) as nat)
            + " open. Answer one with:\n  homelab checks answer <id> ok|nok [note]\n"@,
{
    lemma_render_counts(rows, now);
}

/// The listing rendered for a terminal.
pub fn render_listing(rows: &[(String, ManualCheckRecord)], now: u64) -> (r: String)
    ensures
        r@ == rendered_listing(entries_view(rows@), now),
{
    let ghost rv = entries_view(rows@);
    if rows.len() == 0 {
        return String::from_str("no manual checks are registered — deploy a stack that has them");
    }
    let mut s = String::new();
    let mut stack = String::new();
    let mut open: usize = 0;
    let mut done: usize = 0;
    let mut i: usize = 0;
    proof {
        assert(rv.take(0) =~= Seq::<(Seq<char>, RecordView)>::empty());
    }
    while i < rows.len()
        invariant
            i <= rows.len(),
            rv == entries_view(rows@),
            render_rows(rv.take(i as int), now) == (s@, stack@, open as nat, done as nat),
            open + done == i,
        decreases rows.len() - i,
    {
        let (id, r) = &rows[i];
        proof {
            assert(rv.take(i + 1).drop_last() =~= rv.take(i as int));
            assert(rv.take(i + 1).last() == (id@, r@));
        }
        render_row(&mut s, &mut stack, &mut open, &mut done, id, r, now);
        i += 1;
    }
    proof {
        assert(rv.take(rows.len() as int) =~= rv);
    }
    s.append("\n");
    let d = dec_string(done as u64);
    s.append(d.as_str());
    s.append(" answered ok, ");
    let o = dec_string(open as u64);
    s.append(o.as_str());
    s.append(" open. Answer one with:\n  homelab checks answer <id> ok|nok [note]\n");
    s
}

} // verus!
