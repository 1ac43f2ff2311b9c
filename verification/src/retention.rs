//! Tiered snapshot retention. Restic's own `forget` only knows
//! daily/weekly/monthly buckets; this computes the keep-set for arbitrary
//! tiers ("daily for a week, then every 14 days for 2 months, then every 60
//! days forever") and hands back an explicit forget list.

use vstd::prelude::*;

verus! {

/// One tier: within its age window, keep one snapshot per `every_days`.
/// Tiers are ordered newest-first; each starts where the previous ended.
/// `span_days: None` = this tier extends forever (must be the last).
#[derive(Debug, Clone, PartialEq, Eq)]
pub struct RetentionTier {
    pub every_days: u32,
    pub span_days: Option<u32>,
}

/// Daily for a week, every 2 weeks for 2 months, then every 2 months forever.
pub fn default_tiers() -> (r: Vec<RetentionTier>)
    ensures
        r@ == seq![
            RetentionTier { every_days: 1, span_days: Some(7) },
            RetentionTier { every_days: 14, span_days: Some(60) },
            RetentionTier { every_days: 60, span_days: None },
        ],
{
    let mut v = Vec::new();
    v.push(RetentionTier { every_days: 1, span_days: Some(7) });
    v.push(RetentionTier { every_days: 14, span_days: Some(60) });
    v.push(RetentionTier { every_days: 60, span_days: None });
    proof {
        assert(v@ =~= seq![
            RetentionTier { every_days: 1, span_days: Some(7) },
            RetentionTier { every_days: 14, span_days: Some(60) },
            RetentionTier { every_days: 60, span_days: None },
        ]);
    }
    v
}

pub const DAY: u64 = 86_400;

/// An age window `[start, end)` in days (`end: None` = unbounded), and the
/// bucket width in days.
pub type Window = (nat, Option<nat>, nat);

/// The windows the tiers describe, the first starting at `cursor`. An
/// unbounded tier ends the list: it swallows everything older.
pub open spec fn windows_from(tiers: Seq<RetentionTier>, cursor: nat) -> Seq<Window>
    decreases tiers.len(),
{
    if tiers.len() == 0 {
        Seq::empty()
    } else {
        let t = tiers[0];
        let every: nat = if t.every_days == 0 {
            1
        } else {
            t.every_days as nat
        };
        match t.span_days {
            Some(span) => {
                let end: nat = cursor + span as nat;
                seq![(cursor, Some(end), every)] + windows_from(tiers.drop_first(), end)
            },
            None => seq![(cursor, None::<nat>, every)],
        }
    }
}

pub open spec fn windows(tiers: Seq<RetentionTier>) -> Seq<Window> {
    windows_from(tiers, 0)
}

pub open spec fn in_window(w: Window, age: nat) -> bool {
    age >= w.0 && (w.1 matches Some(e) ==> age < e)
}

/// The first window (from `i` on) that holds `age`, with the bucket inside it.
pub open spec fn place_from(ws: Seq<Window>, age: nat, i: int) -> Option<(nat, nat)>
    decreases ws.len() - i,
{
    if i < 0 || i >= ws.len() {
        None
    } else if in_window(ws[i], age) {
        Some((i as nat, ((age - ws[i].0) as nat) / ws[i].2))
    } else {
        place_from(ws, age, i + 1)
    }
}

pub open spec fn place(ws: Seq<Window>, age: nat) -> Option<(nat, nat)> {
    place_from(ws, age, 0)
}

/// Age in whole days, as `now.saturating_sub(t) / DAY`.
pub open spec fn age_days(now: nat, t: nat) -> nat {
    if now >= t {
        ((now - t) as nat) / 86400
    } else {
        0
    }
}

/// One kept snapshot per bucket: ((window, bucket), (id, time)).
pub type Kept = ((nat, nat), (Seq<char>, nat));

/// Position of the entry for `key`, or -1.
pub open spec fn find_key(entries: Seq<Kept>, key: (nat, nat)) -> int
    decreases entries.len(),
{
    if entries.len() == 0 {
        -1
    } else if entries.last().0 == key {
        entries.len() - 1
    } else {
        find_key(entries.drop_last(), key)
    }
}

/// The bucket state and forget list after one more snapshot.
pub open spec fn step(
    state: (Seq<Kept>, Seq<Seq<char>>),
    id: Seq<char>,
    t: nat,
    ws: Seq<Window>,
    now: nat,
) -> (Seq<Kept>, Seq<Seq<char>>) {
    let (entries, forget) = state;
    match place(ws, age_days(now, t)) {
        None => (entries, forget.push(id)),
        Some(key) => {
            let k = find_key(entries, key);
            if k < 0 {
                (entries.push((key, (id, t))), forget)
            } else if t > entries[k].1.1 {
                (entries.update(k, (key, (id, t))), forget.push(entries[k].1.0))
            } else {
                (entries, forget.push(id))
            }
        },
    }
}

/// Walk the snapshots in order, keeping the newest per bucket.
pub open spec fn walk(snaps: Seq<(Seq<char>, nat)>, ws: Seq<Window>, now: nat) -> (
    Seq<Kept>,
    Seq<Seq<char>>,
)
    decreases snaps.len(),
{
    if snaps.len() == 0 {
        (Seq::empty(), Seq::empty())
    } else {
        step(walk(snaps.drop_last(), ws, now), snaps.last().0, snaps.last().1, ws, now)
    }
}

/// Index of the newest snapshot; among equally new ones, the last.
pub open spec fn newest_index(snaps: Seq<(Seq<char>, nat)>) -> int
    decreases snaps.len(),
{
    if snaps.len() <= 1 {
        0
    } else {
        let j = newest_index(snaps.drop_last());
        if snaps.last().1 >= snaps[j].1 {
            snaps.len() - 1
        } else {
            j
        }
    }
}

/// `s` without any occurrence of `x`, order kept.
pub open spec fn without(s: Seq<Seq<char>>, x: Seq<char>) -> Seq<Seq<char>>
    decreases s.len(),
{
    if s.len() == 0 {
        s
    } else if s.last() == x {
        without(s.drop_last(), x)
    } else {
        without(s.drop_last(), x).push(s.last())
    }
}

pub open spec fn snaps_view(s: Seq<(String, u64)>) -> Seq<(Seq<char>, nat)> {
    s.map_values(|p: (String, u64)| (p.0@, p.1 as nat))
}

/// The ids to forget: everything the walk forgot, except the newest snapshot.
pub open spec fn forgotten(snaps: Seq<(Seq<char>, nat)>, tiers: Seq<RetentionTier>, now: nat) -> Seq<
    Seq<char>,
> {
    if snaps.len() == 0 {
        Seq::empty()
    } else {
        without(walk(snaps, windows(tiers), now).1, snaps[newest_index(snaps)].0)
    }
}

pub open spec fn strings(v: Seq<String>) -> Seq<Seq<char>> {
    v.map_values(|s: String| s@)
}

type ExecWindow = (u128, Option<u128>, u128);

pub open spec fn window_view(w: ExecWindow) -> Window {
    (
        w.0 as nat,
        match w.1 {
            Some(e) => Some(e as nat),
            None => None,
        },
        w.2 as nat,
    )
}

fn exec_windows(tiers: &[RetentionTier]) -> (r: Vec<ExecWindow>)
    ensures
        r@.map_values(|w: ExecWindow| window_view(w)) == windows(tiers@),
        forall|i: int| 0 <= i < r.len() ==> (#[trigger] r@[i]).2 >= 1,
{
    let mut out: Vec<ExecWindow> = Vec::new();
    let mut cursor: u128 = 0;
    let mut i: usize = 0;
    proof {
        assert(tiers@.skip(0) =~= tiers@);
    }
    while i < tiers.len()
        invariant
            i <= tiers.len(),
            cursor <= i * 0x1_0000_0000,
            out@.map_values(|w: ExecWindow| window_view(w)) + windows_from(
                tiers@.skip(i as int),
                cursor as nat,
            ) == windows(tiers@),
            forall|k: int| 0 <= k < out.len() ==> (#[trigger] out@[k]).2 >= 1,
            tiers.len() <= usize::MAX,
        decreases tiers.len() - i,
    {
        let t = &tiers[i];
        let every: u128 = if t.every_days == 0 {
            1
        } else {
            t.every_days as u128
        };
        let ghost rest = tiers@.skip(i as int);
        proof {
            assert(rest[0] == tiers@[i as int]);
            assert(rest.drop_first() =~= tiers@.skip(i + 1));
        }
        match t.span_days {
            Some(span) => {
                proof {
                    assert(i * 0x1_0000_0000 + 0x1_0000_0000 <= 0x1_0000_0000_0000_0000_0000_0000)
                        by (nonlinear_arith)
                        requires
                            i <= usize::MAX,
                    ;
                }
                let w: ExecWindow = (cursor, Some(cursor + span as u128), every);
                proof {
                    let ov = out@.map_values(|w: ExecWindow| window_view(w));
                    assert(out@.push(w).map_values(|w: ExecWindow| window_view(w)) =~= ov.push(
                        window_view(w),
                    ));
                    assert(ov.push(window_view(w)) + windows_from(
                        tiers@.skip(i + 1),
                        (cursor + span as nat) as nat,
                    ) =~= ov + windows_from(rest, cursor as nat));
                }
                out.push(w);
                cursor = cursor + span as u128;
                proof {
                    assert(cursor <= (i + 1) * 0x1_0000_0000) by (nonlinear_arith)
                        requires
                            cursor <= i * 0x1_0000_0000 + span,
                            span < 0x1_0000_0000,
                    ;
                }
            },
            None => {
                let w: ExecWindow = (cursor, None, every);
                proof {
                    let ov = out@.map_values(|w: ExecWindow| window_view(w));
                    assert(out@.push(w).map_values(|w: ExecWindow| window_view(w)) =~= ov.push(
                        window_view(w),
                    ));
                    assert(ov.push(window_view(w)) =~= ov + windows_from(rest, cursor as nat));
                }
                out.push(w);
                return out;
            },
        }
        i += 1;
    }
    proof {
        assert(tiers@.skip(i as int).len() == 0);
        assert(out@.map_values(|w: ExecWindow| window_view(w)) + Seq::<Window>::empty()
            =~= out@.map_values(|w: ExecWindow| window_view(w)));
    }
    out
}

fn exec_place(ws: &Vec<ExecWindow>, age: u64) -> (r: Option<(usize, u128)>)
    requires
        forall|i: int| 0 <= i < ws.len() ==> (#[trigger] ws@[i]).2 >= 1,
    ensures
        r matches Some((w, b)) ==> place(ws@.map_values(|w: ExecWindow| window_view(w)), age as nat)
            == Some((w as nat, b as nat)),
        r is None ==> place(ws@.map_values(|w: ExecWindow| window_view(w)), age as nat) is None,
{
    let ghost sv = ws@.map_values(|w: ExecWindow| window_view(w));
    let mut i: usize = 0;
    while i < ws.len()
        invariant
            i <= ws.len(),
            sv == ws@.map_values(|w: ExecWindow| window_view(w)),
            place(sv, age as nat) == place_from(sv, age as nat, i as int),
            forall|k: int| 0 <= k < ws.len() ==> (#[trigger] ws@[k]).2 >= 1,
        decreases ws.len() - i,
    {
        let (start, end, every) = ws[i];
        let age128 = age as u128;
        let inside = age128 >= start && match end {
            Some(e) => age128 < e,
            None => true,
        };
        proof {
            assert(sv[i as int] == window_view(ws@[i as int]));
        }
        if inside {
            return Some((i, (age128 - start) / every));
        }
        i += 1;
    }
    None
}

fn exec_find_key(entries: &Vec<((usize, u128), (String, u64))>, key: (usize, u128)) -> (r: Option<
    usize,
>)
    ensures
        r matches Some(k) ==> find_key(kept_view(entries@), key_view(key)) == k && k
            < entries.len(),
        r is None ==> find_key(kept_view(entries@), key_view(key)) == -1,
{
    let mut j = entries.len();
    proof {
        assert(entries@.take(j as int) =~= entries@);
    }
    while j > 0
        invariant
            j <= entries.len(),
            find_key(kept_view(entries@), key_view(key)) == find_key(
                kept_view(entries@.take(j as int)),
                key_view(key),
            ),
        decreases j,
    {
        let ghost pre = kept_view(entries@.take(j as int));
        proof {
            assert(kept_view(entries@.take(j as int)).drop_last() =~= kept_view(
                entries@.take(j - 1),
            ));
            assert(pre.last() == kept_entry_view(entries@[j - 1]));
        }
        if entries[j - 1].0.0 == key.0 && entries[j - 1].0.1 == key.1 {
            return Some(j - 1);
        }
        j -= 1;
    }
    None
}

pub open spec fn key_view(k: (usize, u128)) -> (nat, nat) {
    (k.0 as nat, k.1 as nat)
}

pub open spec fn kept_entry_view(e: ((usize, u128), (String, u64))) -> Kept {
    (key_view(e.0), (e.1.0@, e.1.1 as nat))
}

pub open spec fn kept_view(v: Seq<((usize, u128), (String, u64))>) -> Seq<Kept> {
    v.map_values(|e: ((usize, u128), (String, u64))| kept_entry_view(e))
}

/// Given `(id, unix_time)` snapshots and the tier policy, return the ids to
/// FORGET. The newest snapshot is always kept, whatever the policy says.
///
/// Bucketing: each tier's age window is divided into `every_days` buckets
/// (aligned to `now`); the newest snapshot in each bucket is kept. Snapshots
/// older than the last bounded tier fall into the unbounded tier if present,
/// otherwise they are forgotten.
pub fn forget_list(snapshots: &[(String, u64)], tiers: &[RetentionTier], now: u64) -> (r: Vec<
    String,
>)
    ensures
        strings(r@) == forgotten(snaps_view(snapshots@), tiers@, now as nat),
{
    let ghost sv = snaps_view(snapshots@);
    if snapshots.len() == 0 {
        return Vec::new();
    }
    // The newest snapshot: the last of the equally newest.
    let mut newest: usize = 0;
    let mut i: usize = 1;
    while i < snapshots.len()
        invariant
            1 <= i <= snapshots.len(),
            sv == snaps_view(snapshots@),
            newest < i,
            newest == newest_index(sv.take(i as int)),
        decreases snapshots.len() - i,
    {
        proof {
            assert(sv.take(i + 1).drop_last() =~= sv.take(i as int));
        }
        if snapshots[i].1 >= snapshots[newest].1 {
            newest = i;
        }
        i += 1;
    }
    proof {
        assert(sv.take(snapshots.len() as int) =~= sv);
    }
    let newest_id = snapshots[newest].0.clone();

    let ws = exec_windows(tiers);
    let ghost wsv = windows(tiers@);
    let mut keep: Vec<((usize, u128), (String, u64))> = Vec::new();
    let mut forget: Vec<String> = Vec::new();
    let mut i: usize = 0;
    while i < snapshots.len()
        invariant
            i <= snapshots.len(),
            sv == snaps_view(snapshots@),
            wsv == ws@.map_values(|w: ExecWindow| window_view(w)),
            forall|k: int| 0 <= k < ws.len() ==> (#[trigger] ws@[k]).2 >= 1,
            (kept_view(keep@), strings(forget@)) == walk(sv.take(i as int), wsv, now as nat),
        decreases snapshots.len() - i,
    {
        let (id, t) = (&snapshots[i].0, snapshots[i].1);
        let age = if now >= t {
            (now - t) / DAY
        } else {
            0
        };
        let ghost before = (kept_view(keep@), strings(forget@));
        proof {
            assert(sv.take(i + 1).drop_last() =~= sv.take(i as int));
            assert(sv.take(i + 1).last() == (id@, t as nat));
            assert(age as nat == age_days(now as nat, t as nat));
        }
        match exec_place(&ws, age) {
            None => {
                forget.push(id.clone());
                proof {
                    assert(strings(forget@) =~= before.1.push(id@));
                }
            },
            Some(key) => {
                match exec_find_key(&keep, key) {
                    None => {
                        keep.push((key, (id.clone(), t)));
                        proof {
                            assert(kept_view(keep@) =~= before.0.push((key_view(key), (id@, t as nat))));
                        }
                    },
                    Some(k) => {
                        proof {
                            assert(before.0[k as int] == kept_entry_view(keep@[k as int]));
                        }
                        if t > keep[k].1.1 {
                            let old_id = keep[k].1.0.clone();
                            forget.push(old_id);
                            keep.set(k, (key, (id.clone(), t)));
                            proof {
                                assert(strings(forget@) =~= before.1.push(before.0[k as int].1.0));
                                assert(kept_view(keep@) =~= before.0.update(
                                    k as int,
                                    (key_view(key), (id@, t as nat)),
                                ));
                            }
                        } else {
                            forget.push(id.clone());
                            proof {
                                assert(strings(forget@) =~= before.1.push(id@));
                            }
                        }
                    },
                }
            },
        }
        i += 1;
    }
    proof {
        assert(sv.take(snapshots.len() as int) =~= sv);
    }
    // The newest snapshot is sacred.
    let ghost walked = strings(forget@);
    let mut out: Vec<String> = Vec::new();
    let mut j: usize = 0;
    while j < forget.len()
        invariant
            j <= forget.len(),
            walked == strings(forget@),
            strings(out@) == without(walked.take(j as int), newest_id@),
        decreases forget.len() - j,
    {
        proof {
            assert(walked.take(j + 1).drop_last() =~= walked.take(j as int));
            assert(walked.take(j + 1).last() == forget@[j as int]@);
        }
        if !crate::text::str_eq(forget[j].as_str(), newest_id.as_str()) {
            out.push(forget[j].clone());
            proof {
                assert(strings(out@) =~= without(walked.take(j as int), newest_id@).push(
                    forget@[j as int]@,
                ));
            }
        }
        j += 1;
    }
    proof {
        assert(walked.take(forget.len() as int) =~= walked);
    }
    out
}

pub open spec fn has_id(snaps: Seq<(Seq<char>, nat)>, id: Seq<char>) -> bool {
    exists|i: int| 0 <= i < snaps.len() && (#[trigger] snaps[i]).0 == id
}

proof fn lemma_without(s: Seq<Seq<char>>, x: Seq<char>)
    ensures
        !without(s, x).contains(x),
        forall|y: Seq<char>| #[trigger] without(s, x).contains(y) ==> s.contains(y),
    decreases s.len(),
{
    if s.len() > 0 {
        let t = s.drop_last();
        lemma_without(t, x);
        assert forall|y: Seq<char>| #[trigger] without(s, x).contains(y) implies s.contains(y) by {
            if without(t, x).contains(y) {
                let k = choose|k: int| 0 <= k < without(t, x).len() && without(t, x)[k] == y;
                assert(t.contains(y));
                let j = choose|j: int| 0 <= j < t.len() && t[j] == y;
                assert(s[j] == y);
            } else {
                assert(y == s.last());
                assert(s[s.len() - 1] == y);
            }
        }
        if s.last() != x {
            assert(!without(t, x).push(s.last()).contains(x)) by {
                if without(t, x).push(s.last()).contains(x) {
                    let k = choose|k: int|
                        0 <= k < without(t, x).push(s.last()).len() && without(t, x).push(
                            s.last(),
                        )[k] == x;
                    if k < without(t, x).len() {
                        assert(without(t, x)[k] == x);
                    }
                }
            }
        }
    }
}

proof fn lemma_walk_ids(snaps: Seq<(Seq<char>, nat)>, ws: Seq<Window>, now: nat)
    ensures
        forall|y: Seq<char>| #[trigger] walk(snaps, ws, now).1.contains(y) ==> has_id(snaps, y),
        forall|k: int|
            0 <= k < walk(snaps, ws, now).0.len() ==> has_id(
                snaps,
                (#[trigger] walk(snaps, ws, now).0[k]).1.0,
            ),
    decreases snaps.len(),
{
    if snaps.len() > 0 {
        let pre = snaps.drop_last();
        lemma_walk_ids(pre, ws, now);
        let st = walk(pre, ws, now);
        let last = snaps.last();
        assert(has_id(snaps, last.0)) by {
            assert(snaps[snaps.len() - 1].0 == last.0);
        }
        assert forall|y: Seq<char>| has_id(pre, y) implies has_id(snaps, y) by {
            let i = choose|i: int| 0 <= i < pre.len() && (#[trigger] pre[i]).0 == y;
            assert(snaps[i] == pre[i]);
        }
        let now_st = walk(snaps, ws, now);
        assert forall|y: Seq<char>| #[trigger] now_st.1.contains(y) implies has_id(snaps, y) by {
            let k = choose|k: int| 0 <= k < now_st.1.len() && now_st.1[k] == y;
            if k < st.1.len() {
                assert(st.1[k] == y);
                assert(st.1.contains(y));
            } else {
                match place(ws, age_days(now, last.1)) {
                    None => {},
                    Some(key) => {
                        let j = find_key(st.0, key);
                        lemma_find_key(st.0, key);
                        if j >= 0 && last.1 > st.0[j].1.1 {
                            assert(has_id(pre, st.0[j].1.0));
                        }
                    },
                }
            }
        }
        assert forall|k: int| 0 <= k < now_st.0.len() implies has_id(
            snaps,
            (#[trigger] now_st.0[k]).1.0,
        ) by {
            match place(ws, age_days(now, last.1)) {
                None => {
                    assert(has_id(pre, st.0[k].1.0));
                },
                Some(key) => {
                    let j = find_key(st.0, key);
                    lemma_find_key(st.0, key);
                    if j < 0 {
                        if k < st.0.len() {
                            assert(now_st.0[k] == st.0[k]);
                            assert(has_id(pre, st.0[k].1.0));
                        } else {
                            assert(now_st.0[k].1.0 == last.0);
                        }
                    } else if last.1 > st.0[j].1.1 {
                        if k == j {
                            assert(now_st.0[k].1.0 == last.0);
                        } else {
                            assert(now_st.0[k] == st.0[k]);
                            assert(has_id(pre, st.0[k].1.0));
                        }
                    } else {
                        assert(has_id(pre, st.0[k].1.0));
                    }
                },
            }
        }
    }
}

proof fn lemma_find_key(entries: Seq<Kept>, key: (nat, nat))
    ensures
        -1 <= find_key(entries, key) < entries.len(),
    decreases entries.len(),
{
    if entries.len() > 0 && entries.last().0 != key {
        lemma_find_key(entries.drop_last(), key);
    }
}

/// The newest snapshot is never forgotten, whatever the policy says.
pub proof fn law_newest_is_kept(
    snapshots: Seq<(Seq<char>, nat)>,
    tiers: Seq<RetentionTier>,
    now: nat,
)
    requires
        snapshots.len() > 0,
    ensures
        !forgotten(snapshots, tiers, now).contains(snapshots[newest_index(snapshots)].0),
{
    lemma_without(walk(snapshots, windows(tiers), now).1, snapshots[newest_index(snapshots)].0);
}

/// The newest snapshot really is the newest: no snapshot is strictly newer.
pub proof fn law_newest_is_newest(snapshots: Seq<(Seq<char>, nat)>)
    requires
        snapshots.len() > 0,
    ensures
        0 <= newest_index(snapshots) < snapshots.len(),
        forall|i: int|
            0 <= i < snapshots.len() ==> (#[trigger] snapshots[i]).1 <= snapshots[newest_index(
                snapshots,
            )].1,
    decreases snapshots.len(),
{
    if snapshots.len() > 1 {
        let pre = snapshots.drop_last();
        law_newest_is_newest(pre);
        assert forall|i: int| 0 <= i < snapshots.len() implies (#[trigger] snapshots[i]).1
            <= snapshots[newest_index(snapshots)].1 by {
            if i < snapshots.len() - 1 {
                assert(snapshots[i] == pre[i]);
            }
        }
    }
}

/// Only snapshots that were handed in are ever forgotten.
pub proof fn law_forgets_only_given_snapshots(
    snapshots: Seq<(Seq<char>, nat)>,
    tiers: Seq<RetentionTier>,
    now: nat,
    id: Seq<char>,
)
    requires
        forgotten(snapshots, tiers, now).contains(id),
    ensures
        has_id(snapshots, id),
{
    let w = walk(snapshots, windows(tiers), now).1;
    lemma_without(w, snapshots[newest_index(snapshots)].0);
    lemma_walk_ids(snapshots, windows(tiers), now);
}

/// Nothing to forget when there is nothing.
pub proof fn law_empty_forgets_nothing(tiers: Seq<RetentionTier>, now: nat)
    ensures
        forgotten(Seq::empty(), tiers, now) == Seq::<Seq<char>>::empty(),
{
}

} // verus!

verus! {

/// The (window, bucket) snapshot `i` falls in, if any.
pub open spec fn bucket_of(snaps: Seq<(Seq<char>, nat)>, ws: Seq<Window>, now: nat, i: int) -> Option<(nat, nat)> {
    place(ws, age_days(now, snaps[i].1))
}

/// Snapshot `j` wins over snapshot `i` in their shared bucket: it is newer,
/// or as new and listed earlier.
pub open spec fn beats(snaps: Seq<(Seq<char>, nat)>, ws: Seq<Window>, now: nat, j: int, i: int) -> bool {
    &&& j != i
    &&& bucket_of(snaps, ws, now, j) is Some
    &&& bucket_of(snaps, ws, now, j) == bucket_of(snaps, ws, now, i)
    &&& (snaps[j].1 > snaps[i].1 || (snaps[j].1 == snaps[i].1 && j < i))
}

/// Snapshot `i` falls in a bucket and nothing in that bucket wins over it.
pub open spec fn kept_in_bucket(snaps: Seq<(Seq<char>, nat)>, ws: Seq<Window>, now: nat, i: int) -> bool {
    &&& bucket_of(snaps, ws, now, i) is Some
    &&& forall|j: int| 0 <= j < snaps.len() ==> !#[trigger] beats(snaps, ws, now, j, i)
}

pub open spec fn distinct_ids(snaps: Seq<(Seq<char>, nat)>) -> bool {
    forall|a: int, b: int| 0 <= a < b < snaps.len() ==> (#[trigger] snaps[a]).0 != (#[trigger] snaps[b]).0
}

pub open spec fn no_repeats(s: Seq<Seq<char>>) -> bool {
    forall|a: int, b: int| 0 <= a < b < s.len() ==> #[trigger] s[a] != #[trigger] s[b]
}

proof fn lemma_find_key_found(e: Seq<Kept>, key: (nat, nat))
    ensures
        find_key(e, key) >= 0 ==> find_key(e, key) < e.len() && e[find_key(e, key)].0 == key,
        find_key(e, key) < 0 ==> forall|x: int| 0 <= x < e.len() ==> (#[trigger] e[x]).0 != key,
    decreases e.len(),
{
    if e.len() > 0 && e.last().0 != key {
        let p = e.drop_last();
        lemma_find_key_found(p, key);
        if find_key(e, key) >= 0 {
            assert(p[find_key(e, key)] == e[find_key(e, key)]);
        } else {
            assert forall|x: int| 0 <= x < e.len() implies (#[trigger] e[x]).0 != key by {
                if x < p.len() {
                    assert(p[x] == e[x]);
                }
            }
        }
    }
}

proof fn lemma_kept_extend(snaps: Seq<(Seq<char>, nat)>, ws: Seq<Window>, now: nat, i: int)
    requires
        0 <= i < snaps.len() - 1,
    ensures
        kept_in_bucket(snaps, ws, now, i) == (kept_in_bucket(snaps.drop_last(), ws, now, i) && !beats(
            snaps,
            ws,
            now,
            snaps.len() - 1,
            i,
        )),
{
    let pre = snaps.drop_last();
    assert(pre[i] == snaps[i]);
    assert forall|j: int| 0 <= j < pre.len() implies beats(pre, ws, now, j, i) == beats(snaps, ws, now, j, i) by {
        assert(pre[j] == snaps[j]);
    }
    if kept_in_bucket(snaps, ws, now, i) {
        assert forall|j: int| 0 <= j < pre.len() implies !#[trigger] beats(pre, ws, now, j, i) by {
            assert(!beats(snaps, ws, now, j, i));
        }
    }
    if kept_in_bucket(pre, ws, now, i) && !beats(snaps, ws, now, snaps.len() - 1, i) {
        assert forall|j: int| 0 <= j < snaps.len() implies !#[trigger] beats(snaps, ws, now, j, i) by {
            if j < pre.len() {
                assert(!beats(pre, ws, now, j, i));
            }
        }
    }
}

proof fn lemma_kept_unique(snaps: Seq<(Seq<char>, nat)>, ws: Seq<Window>, now: nat, i: int, w: int)
    requires
        0 <= i < snaps.len(),
        0 <= w < snaps.len(),
        kept_in_bucket(snaps, ws, now, i),
        kept_in_bucket(snaps, ws, now, w),
        bucket_of(snaps, ws, now, i) == bucket_of(snaps, ws, now, w),
    ensures
        i == w,
{
    if i != w {
        assert(!beats(snaps, ws, now, i, w));
        assert(!beats(snaps, ws, now, w, i));
    }
}

/// The entry holds a snapshot kept in the entry's bucket.
pub open spec fn entry_held(snaps: Seq<(Seq<char>, nat)>, ws: Seq<Window>, now: nat, k: Kept) -> bool {
    exists|i: int| 0 <= i < snaps.len() && #[trigger] kept_in_bucket(snaps, ws, now, i) && bucket_of(snaps, ws, now, i) == Some(k.0)
        && k.1 == snaps[i]
}

/// Some entry is for bucket `b`.
pub open spec fn bucket_listed(e: Seq<Kept>, b: (nat, nat)) -> bool {
    exists|x: int| 0 <= x < e.len() && (#[trigger] e[x]).0 == b
}

/// What a walk state keeps and forgets, per bucket: no id forgotten twice,
/// a snapshot forgotten exactly when it is not kept in its bucket, one
/// entry per bucket, each holding the bucket's kept snapshot.
pub open spec fn sound_for(snaps: Seq<(Seq<char>, nat)>, ws: Seq<Window>, now: nat, e: Seq<Kept>, f: Seq<Seq<char>>) -> bool {
    &&& no_repeats(f)
    &&& forall|i: int| 0 <= i < snaps.len() ==> (f.contains(#[trigger] snaps[i].0) <==> !kept_in_bucket(snaps, ws, now, i))
    &&& forall|a: int, b: int| 0 <= a < b < e.len() ==> (#[trigger] e[a]).0 != (#[trigger] e[b]).0
    &&& forall|x: int| 0 <= x < e.len() ==> entry_held(snaps, ws, now, #[trigger] e[x])
    &&& forall|i: int| 0 <= i < snaps.len() && (#[trigger] bucket_of(snaps, ws, now, i)) is Some ==> bucket_listed(
        e,
        bucket_of(snaps, ws, now, i)->Some_0,
    )
}

pub open spec fn walk_sound(snaps: Seq<(Seq<char>, nat)>, ws: Seq<Window>, now: nat) -> bool {
    sound_for(snaps, ws, now, walk(snaps, ws, now).0, walk(snaps, ws, now).1)
}

/// The facts every case of one more walk step starts from.
pub open spec fn step_setting(snaps: Seq<(Seq<char>, nat)>, ws: Seq<Window>, now: nat, e: Seq<Kept>, f: Seq<Seq<char>>) -> bool {
    let pre = snaps.drop_last();
    let l = snaps.len() - 1;
    &&& snaps.len() > 0
    &&& distinct_ids(snaps)
    &&& sound_for(pre, ws, now, e, f)
    &&& !f.contains(snaps[l].0)
    &&& forall|i: int| 0 <= i < l ==> #[trigger] bucket_of(snaps, ws, now, i) == bucket_of(pre, ws, now, i) && snaps[i] == pre[i]
}

proof fn lemma_push_contains(f: Seq<Seq<char>>, x: Seq<char>, y: Seq<char>)
    ensures
        f.push(x).contains(y) == (f.contains(y) || y == x),
{
    if f.contains(y) {
        let k = choose|k: int| 0 <= k < f.len() && f[k] == y;
        assert(f.push(x)[k] == y);
    }
    if y == x {
        assert(f.push(x)[f.len() as int] == y);
    }
    if f.push(x).contains(y) {
        let k = choose|k: int| 0 <= k < f.push(x).len() && f.push(x)[k] == y;
        if k < f.len() {
            assert(f[k] == y);
        }
    }
}

proof fn lemma_push_no_repeats(f: Seq<Seq<char>>, x: Seq<char>)
    requires
        no_repeats(f),
        !f.contains(x),
    ensures
        no_repeats(f.push(x)),
{
    let g = f.push(x);
    assert forall|a: int, b: int| 0 <= a < b < g.len() implies #[trigger] g[a] != #[trigger] g[b] by {
        assert(g[a] == f[a]);
        if b < f.len() {
            assert(g[b] == f[b]);
        } else {
            if g[a] == g[b] {
                assert(f[a] == x);
            }
        }
    }
}

proof fn lemma_case_unplaced(snaps: Seq<(Seq<char>, nat)>, ws: Seq<Window>, now: nat, e: Seq<Kept>, f: Seq<Seq<char>>)
    requires
        step_setting(snaps, ws, now, e, f),
        bucket_of(snaps, ws, now, snaps.len() - 1) is None,
    ensures
        sound_for(snaps, ws, now, e, f.push(snaps[snaps.len() - 1].0)),
{
    let pre = snaps.drop_last();
    let l = snaps.len() - 1;
    let id = snaps[l].0;
    let f2 = f.push(id);
    lemma_push_no_repeats(f, id);
    assert forall|i: int| 0 <= i < snaps.len() implies (f2.contains(#[trigger] snaps[i].0) <==> !kept_in_bucket(snaps, ws, now, i)) by {
        lemma_push_contains(f, id, snaps[i].0);
        if i < l {
            lemma_kept_extend(snaps, ws, now, i);
            assert(bucket_of(snaps, ws, now, i) == bucket_of(pre, ws, now, i) && snaps[i] == pre[i]);
            assert(!beats(snaps, ws, now, l, i));
            assert(f.contains(pre[i].0) <==> !kept_in_bucket(pre, ws, now, i));
            assert(snaps[i].0 != snaps[l].0);
        }
    }
    assert forall|x: int| 0 <= x < e.len() implies entry_held(snaps, ws, now, #[trigger] e[x]) by {
        assert(entry_held(pre, ws, now, e[x]));
        let i = choose|i: int| 0 <= i < pre.len() && #[trigger] kept_in_bucket(pre, ws, now, i) && bucket_of(pre, ws, now, i) == Some(
            e[x].0,
        ) && e[x].1 == pre[i];
        lemma_kept_extend(snaps, ws, now, i);
        assert(bucket_of(snaps, ws, now, i) == bucket_of(pre, ws, now, i) && snaps[i] == pre[i]);
        assert(!beats(snaps, ws, now, l, i));
    }
    assert forall|i: int| 0 <= i < snaps.len() && (#[trigger] bucket_of(snaps, ws, now, i)) is Some implies bucket_listed(
        e,
        bucket_of(snaps, ws, now, i)->Some_0,
    ) by {
        assert(i < l);
        assert(bucket_of(snaps, ws, now, i) == bucket_of(pre, ws, now, i));
    }
}

proof fn lemma_case_new_bucket(snaps: Seq<(Seq<char>, nat)>, ws: Seq<Window>, now: nat, e: Seq<Kept>, f: Seq<Seq<char>>, key: (nat, nat))
    requires
        step_setting(snaps, ws, now, e, f),
        bucket_of(snaps, ws, now, snaps.len() - 1) == Some(key),
        forall|x: int| 0 <= x < e.len() ==> (#[trigger] e[x]).0 != key,
    ensures
        sound_for(snaps, ws, now, e.push((key, snaps[snaps.len() - 1])), f),
{
    let pre = snaps.drop_last();
    let l = snaps.len() - 1;
    let e2 = e.push((key, snaps[l]));
    assert forall|i: int| 0 <= i < l implies #[trigger] bucket_of(pre, ws, now, i) != Some(key) by {
        if bucket_of(pre, ws, now, i) == Some(key) {
            assert(bucket_listed(e, key));
        }
    }
    assert(kept_in_bucket(snaps, ws, now, l)) by {
        assert forall|j: int| 0 <= j < snaps.len() implies !#[trigger] beats(snaps, ws, now, j, l) by {
            if j < l {
                assert(bucket_of(snaps, ws, now, j) == bucket_of(pre, ws, now, j));
                assert(bucket_of(pre, ws, now, j) != Some(key));
            }
        }
    }
    assert forall|i: int| 0 <= i < snaps.len() implies (f.contains(#[trigger] snaps[i].0) <==> !kept_in_bucket(snaps, ws, now, i)) by {
        if i < l {
            lemma_kept_extend(snaps, ws, now, i);
            assert(bucket_of(snaps, ws, now, i) == bucket_of(pre, ws, now, i) && snaps[i] == pre[i]);
            assert(bucket_of(pre, ws, now, i) != Some(key));
            assert(!beats(snaps, ws, now, l, i));
            assert(f.contains(pre[i].0) <==> !kept_in_bucket(pre, ws, now, i));
        }
    }
    assert forall|a: int, b: int| 0 <= a < b < e2.len() implies (#[trigger] e2[a]).0 != (#[trigger] e2[b]).0 by {
        assert(e2[a] == e[a]);
        if b < e.len() {
            assert(e2[b] == e[b]);
        }
    }
    assert forall|x: int| 0 <= x < e2.len() implies entry_held(snaps, ws, now, #[trigger] e2[x]) by {
        if x < e.len() {
            assert(e2[x] == e[x]);
            assert(entry_held(pre, ws, now, e[x]));
            let i = choose|i: int| 0 <= i < pre.len() && #[trigger] kept_in_bucket(pre, ws, now, i) && bucket_of(pre, ws, now, i) == Some(
                e[x].0,
            ) && e[x].1 == pre[i];
            lemma_kept_extend(snaps, ws, now, i);
            assert(bucket_of(snaps, ws, now, i) == bucket_of(pre, ws, now, i) && snaps[i] == pre[i]);
            assert(bucket_of(pre, ws, now, i) != Some(key));
            assert(!beats(snaps, ws, now, l, i));
        } else {
            assert(e2[x] == (key, snaps[l]));
        }
    }
    assert forall|i: int| 0 <= i < snaps.len() && (#[trigger] bucket_of(snaps, ws, now, i)) is Some implies bucket_listed(
        e2,
        bucket_of(snaps, ws, now, i)->Some_0,
    ) by {
        if i < l {
            assert(bucket_of(snaps, ws, now, i) == bucket_of(pre, ws, now, i));
            assert(bucket_listed(e, bucket_of(pre, ws, now, i)->Some_0));
            let x = choose|x: int| 0 <= x < e.len() && (#[trigger] e[x]).0 == bucket_of(pre, ws, now, i)->Some_0;
            assert(e2[x] == e[x]);
        } else {
            assert(e2[e.len() as int] == (key, snaps[l]));
        }
    }
}

/// The walk's entry `fk` for the last snapshot's bucket holds `w`, kept
/// among the earlier snapshots.
pub open spec fn bucket_holder(snaps: Seq<(Seq<char>, nat)>, ws: Seq<Window>, now: nat, e: Seq<Kept>, key: (nat, nat), fk: int, w: int) -> bool {
    let pre = snaps.drop_last();
    &&& bucket_of(snaps, ws, now, snaps.len() - 1) == Some(key)
    &&& 0 <= fk < e.len()
    &&& e[fk].0 == key
    &&& 0 <= w < pre.len()
    &&& kept_in_bucket(pre, ws, now, w)
    &&& bucket_of(pre, ws, now, w) == Some(key)
    &&& e[fk].1 == pre[w]
}

proof fn lemma_case_replace(snaps: Seq<(Seq<char>, nat)>, ws: Seq<Window>, now: nat, e: Seq<Kept>, f: Seq<Seq<char>>, key: (nat, nat), fk: int, w: int)
    requires
        step_setting(snaps, ws, now, e, f),
        bucket_holder(snaps, ws, now, e, key, fk, w),
        snaps[snaps.len() - 1].1 > e[fk].1.1,
    ensures
        sound_for(snaps, ws, now, e.update(fk, (key, snaps[snaps.len() - 1])), f.push(e[fk].1.0)),
{
    let pre = snaps.drop_last();
    let l = snaps.len() - 1;
    let id = snaps[l].0;
    let idw = e[fk].1.0;
    let e2 = e.update(fk, (key, snaps[l]));
    let f2 = f.push(idw);
    assert(pre[w] == snaps[w]);
    assert(bucket_of(snaps, ws, now, w) == bucket_of(pre, ws, now, w));
    assert(!f.contains(pre[w].0));
    lemma_push_no_repeats(f, idw);
    assert(beats(snaps, ws, now, l, w));
    assert(!kept_in_bucket(snaps, ws, now, w));
    assert(kept_in_bucket(snaps, ws, now, l)) by {
        assert forall|j: int| 0 <= j < snaps.len() implies !#[trigger] beats(snaps, ws, now, j, l) by {
            if j < l && j != w {
                assert(pre[j] == snaps[j]);
                assert(bucket_of(snaps, ws, now, j) == bucket_of(pre, ws, now, j));
                assert(!beats(pre, ws, now, j, w));
            }
        }
    }
    assert forall|i: int| 0 <= i < snaps.len() implies (f2.contains(#[trigger] snaps[i].0) <==> !kept_in_bucket(snaps, ws, now, i)) by {
        lemma_push_contains(f, idw, snaps[i].0);
        if i < l {
            lemma_kept_extend(snaps, ws, now, i);
            assert(bucket_of(snaps, ws, now, i) == bucket_of(pre, ws, now, i) && snaps[i] == pre[i]);
            assert(f.contains(pre[i].0) <==> !kept_in_bucket(pre, ws, now, i));
            if i != w {
                if i < w {
                    assert(snaps[i].0 != snaps[w].0);
                } else {
                    assert(snaps[w].0 != snaps[i].0);
                }
                if bucket_of(pre, ws, now, i) == Some(key) && kept_in_bucket(pre, ws, now, i) {
                    lemma_kept_unique(pre, ws, now, i, w);
                }
            }
        } else {
            assert(snaps[w].0 != snaps[l].0);
        }
    }
    assert forall|a: int, b: int| 0 <= a < b < e2.len() implies (#[trigger] e2[a]).0 != (#[trigger] e2[b]).0 by {
        assert(e2[a].0 == e[a].0 && e2[b].0 == e[b].0);
    }
    assert forall|x: int| 0 <= x < e2.len() implies entry_held(snaps, ws, now, #[trigger] e2[x]) by {
        if x != fk {
            assert(e2[x] == e[x]);
            assert(entry_held(pre, ws, now, e[x]));
            let i = choose|i: int| 0 <= i < pre.len() && #[trigger] kept_in_bucket(pre, ws, now, i) && bucket_of(pre, ws, now, i) == Some(
                e[x].0,
            ) && e[x].1 == pre[i];
            lemma_kept_extend(snaps, ws, now, i);
            assert(bucket_of(snaps, ws, now, i) == bucket_of(pre, ws, now, i) && snaps[i] == pre[i]);
            if x < fk {
                assert(e[x].0 != e[fk].0);
            } else {
                assert(e[fk].0 != e[x].0);
            }
            assert(!beats(snaps, ws, now, l, i));
        } else {
            assert(e2[x] == (key, snaps[l]));
        }
    }
    assert forall|i: int| 0 <= i < snaps.len() && (#[trigger] bucket_of(snaps, ws, now, i)) is Some implies bucket_listed(
        e2,
        bucket_of(snaps, ws, now, i)->Some_0,
    ) by {
        if i < l {
            assert(bucket_of(snaps, ws, now, i) == bucket_of(pre, ws, now, i));
            assert(bucket_listed(e, bucket_of(pre, ws, now, i)->Some_0));
            let x = choose|x: int| 0 <= x < e.len() && (#[trigger] e[x]).0 == bucket_of(pre, ws, now, i)->Some_0;
            assert(e2[x].0 == e[x].0);
        } else {
            assert(e2[fk].0 == key);
        }
    }
}

proof fn lemma_case_beaten(snaps: Seq<(Seq<char>, nat)>, ws: Seq<Window>, now: nat, e: Seq<Kept>, f: Seq<Seq<char>>, key: (nat, nat), fk: int, w: int)
    requires
        step_setting(snaps, ws, now, e, f),
        bucket_holder(snaps, ws, now, e, key, fk, w),
        snaps[snaps.len() - 1].1 <= e[fk].1.1,
    ensures
        sound_for(snaps, ws, now, e, f.push(snaps[snaps.len() - 1].0)),
{
    let pre = snaps.drop_last();
    let l = snaps.len() - 1;
    let id = snaps[l].0;
    let f2 = f.push(id);
    assert(pre[w] == snaps[w]);
    assert(bucket_of(snaps, ws, now, w) == bucket_of(pre, ws, now, w));
    lemma_push_no_repeats(f, id);
    assert(beats(snaps, ws, now, w, l));
    assert(!kept_in_bucket(snaps, ws, now, l));
    assert(!beats(snaps, ws, now, l, w));
    assert forall|i: int| 0 <= i < snaps.len() implies (f2.contains(#[trigger] snaps[i].0) <==> !kept_in_bucket(snaps, ws, now, i)) by {
        lemma_push_contains(f, id, snaps[i].0);
        if i < l {
            lemma_kept_extend(snaps, ws, now, i);
            assert(bucket_of(snaps, ws, now, i) == bucket_of(pre, ws, now, i) && snaps[i] == pre[i]);
            assert(f.contains(pre[i].0) <==> !kept_in_bucket(pre, ws, now, i));
            assert(snaps[i].0 != snaps[l].0);
            if i != w && bucket_of(pre, ws, now, i) == Some(key) && kept_in_bucket(pre, ws, now, i) {
                lemma_kept_unique(pre, ws, now, i, w);
            }
        }
    }
    assert forall|x: int| 0 <= x < e.len() implies entry_held(snaps, ws, now, #[trigger] e[x]) by {
        assert(entry_held(pre, ws, now, e[x]));
        let i = choose|i: int| 0 <= i < pre.len() && #[trigger] kept_in_bucket(pre, ws, now, i) && bucket_of(pre, ws, now, i) == Some(
            e[x].0,
        ) && e[x].1 == pre[i];
        lemma_kept_extend(snaps, ws, now, i);
        assert(bucket_of(snaps, ws, now, i) == bucket_of(pre, ws, now, i) && snaps[i] == pre[i]);
        if bucket_of(pre, ws, now, i) == Some(key) {
            lemma_kept_unique(pre, ws, now, i, w);
        }
        assert(!beats(snaps, ws, now, l, i));
    }
    assert forall|i: int| 0 <= i < snaps.len() && (#[trigger] bucket_of(snaps, ws, now, i)) is Some implies bucket_listed(
        e,
        bucket_of(snaps, ws, now, i)->Some_0,
    ) by {
        if i < l {
            assert(bucket_of(snaps, ws, now, i) == bucket_of(pre, ws, now, i));
        } else {
            assert(e[fk].0 == key);
        }
    }
}

proof fn lemma_walk_sound(snaps: Seq<(Seq<char>, nat)>, ws: Seq<Window>, now: nat)
    requires
        distinct_ids(snaps),
    ensures
        walk_sound(snaps, ws, now),
    decreases snaps.len(),
{
    if snaps.len() == 0 {
        return;
    }
    let pre = snaps.drop_last();
    let l = snaps.len() - 1;
    assert(distinct_ids(pre)) by {
        assert forall|a: int, b: int| 0 <= a < b < pre.len() implies (#[trigger] pre[a]).0 != (#[trigger] pre[b]).0 by {
            assert(pre[a] == snaps[a] && pre[b] == snaps[b]);
        }
    }
    lemma_walk_sound(pre, ws, now);
    lemma_walk_ids(pre, ws, now);
    let e = walk(pre, ws, now).0;
    let f = walk(pre, ws, now).1;
    let id = snaps[l].0;
    let t = snaps[l].1;
    assert(snaps.last() == snaps[l]);
    assert(!f.contains(id)) by {
        if f.contains(id) {
            assert(has_id(pre, id));
            let i = choose|i: int| 0 <= i < pre.len() && (#[trigger] pre[i]).0 == id;
            assert(pre[i] == snaps[i]);
        }
    }
    assert forall|i: int| 0 <= i < l implies #[trigger] bucket_of(snaps, ws, now, i) == bucket_of(pre, ws, now, i)
        && snaps[i] == pre[i] by {
        assert(pre[i] == snaps[i]);
    }
    assert(step_setting(snaps, ws, now, e, f));
    let w2 = walk(snaps, ws, now);
    assert(w2 == step((e, f), id, t, ws, now));
    match place(ws, age_days(now, t)) {
        None => {
            lemma_case_unplaced(snaps, ws, now, e, f);
        },
        Some(key) => {
            let fk = find_key(e, key);
            lemma_find_key_found(e, key);
            if fk < 0 {
                lemma_case_new_bucket(snaps, ws, now, e, f, key);
                assert(w2.0 == e.push((key, snaps[l])));
            } else {
                assert(entry_held(pre, ws, now, e[fk]));
                let w = choose|i: int| 0 <= i < pre.len() && #[trigger] kept_in_bucket(pre, ws, now, i) && bucket_of(pre, ws, now, i)
                    == Some(e[fk].0) && e[fk].1 == pre[i];
                assert(bucket_holder(snaps, ws, now, e, key, fk, w));
                if t > e[fk].1.1 {
                    lemma_case_replace(snaps, ws, now, e, f, key, fk, w);
                    assert(w2.0 == e.update(fk, (key, snaps[l])));
                } else {
                    lemma_case_beaten(snaps, ws, now, e, f, key, fk, w);
                }
            }
        },
    }
}

proof fn lemma_without_contains(s: Seq<Seq<char>>, x: Seq<char>, y: Seq<char>)
    ensures
        without(s, x).contains(y) == (s.contains(y) && y != x),
    decreases s.len(),
{
    lemma_without(s, x);
    if s.len() > 0 {
        let t = s.drop_last();
        lemma_without_contains(t, x, y);
        if s.contains(y) && y != x {
            let k = choose|k: int| 0 <= k < s.len() && s[k] == y;
            if k < t.len() {
                assert(t[k] == y);
                if s.last() != x {
                    let j = choose|j: int| 0 <= j < without(t, x).len() && without(t, x)[j] == y;
                    assert(without(t, x).push(s.last())[j] == y);
                }
            } else {
                assert(s.last() == y);
                assert(without(t, x).push(s.last())[without(t, x).len() as int] == y);
            }
        }
    }
}

proof fn lemma_without_no_repeats(s: Seq<Seq<char>>, x: Seq<char>)
    requires
        no_repeats(s),
    ensures
        no_repeats(without(s, x)),
    decreases s.len(),
{
    if s.len() > 0 {
        let t = s.drop_last();
        assert(no_repeats(t)) by {
            assert forall|a: int, b: int| 0 <= a < b < t.len() implies #[trigger] t[a] != #[trigger] t[b] by {
                assert(t[a] == s[a] && t[b] == s[b]);
            }
        }
        lemma_without_no_repeats(t, x);
        if s.last() != x {
            assert(!t.contains(s.last())) by {
                if t.contains(s.last()) {
                    let k = choose|k: int| 0 <= k < t.len() && t[k] == s.last();
                    assert(s[k] == t[k] && s[s.len() - 1] == s.last());
                }
            }
            lemma_without_contains(t, x, s.last());
            lemma_push_no_repeats(without(t, x), s.last());
        }
    }
}

/// Retention keeps the newest snapshot of each bucket and forgets the rest
/// of it. For snapshots with distinct ids: a snapshot is forgotten exactly
/// when it is not the newest of all and either falls in no window, or
/// another snapshot of its (window, bucket) is newer — or as new and listed
/// before it; and no id is forgotten twice.
pub proof fn law_newest_per_bucket_kept(snapshots: Seq<(Seq<char>, nat)>, tiers: Seq<RetentionTier>, now: nat)
    requires
        distinct_ids(snapshots),
    ensures
        no_repeats(forgotten(snapshots, tiers, now)),
        forall|i: int| 0 <= i < snapshots.len() ==> (forgotten(snapshots, tiers, now).contains(#[trigger] snapshots[i].0) <==> (
            i != newest_index(snapshots) && !kept_in_bucket(snapshots, windows(tiers), now, i))),
{
    if snapshots.len() > 0 {
        let ws = windows(tiers);
        lemma_walk_sound(snapshots, ws, now);
        let f = walk(snapshots, ws, now).1;
        let nx = newest_index(snapshots);
        law_newest_is_newest(snapshots);
        lemma_without_no_repeats(f, snapshots[nx].0);
        assert forall|i: int| 0 <= i < snapshots.len() implies (forgotten(snapshots, tiers, now).contains(#[trigger] snapshots[i].0) <==> (
            i != nx && !kept_in_bucket(snapshots, ws, now, i))) by {
            lemma_without_contains(f, snapshots[nx].0, snapshots[i].0);
            if i < nx {
                assert(snapshots[i].0 != snapshots[nx].0);
            } else if i > nx {
                assert(snapshots[nx].0 != snapshots[i].0);
            }
        }
    }
}

} // verus!
