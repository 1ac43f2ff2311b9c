//! Lists of `(key, value)` kept in strictly ascending key order: the shape
//! the state file gives its maps. What such a list means as a map, and the
//! facts that let a sorted insert be proved.

use vstd::prelude::*;
use vstd::string::*;
use crate::text::{lemma_str_lt_transitive, lemma_str_lt_trichotomy, str_eq, str_lt, str_lt_exec};

verus! {

/// The keys of the entries, in order.
pub open spec fn keys_of<V>(e: Seq<(Seq<char>, V)>) -> Seq<Seq<char>> {
    e.map_values(|p: (Seq<char>, V)| p.0)
}

/// Keys in strictly ascending order (so also without repeats).
pub open spec fn ascending(keys: Seq<Seq<char>>) -> bool {
    forall|i: int, j: int| 0 <= i < j < keys.len() ==> str_lt(keys[i], keys[j])
}

/// Entries as a map from key to value; a later entry wins.
pub open spec fn entries_map<V>(e: Seq<(Seq<char>, V)>) -> Map<Seq<char>, V>
    decreases e.len(),
{
    if e.len() == 0 {
        Map::empty()
    } else {
        entries_map(e.drop_last()).insert(e.last().0, e.last().1)
    }
}

pub open spec fn distinct_keys<V>(e: Seq<(Seq<char>, V)>) -> bool {
    forall|i: int, j: int| 0 <= i < j < e.len() ==> e[i].0 != e[j].0
}

pub proof fn lemma_ascending_distinct<V>(e: Seq<(Seq<char>, V)>)
    requires
        ascending(keys_of(e)),
    ensures
        distinct_keys(e),
{
    assert forall|i: int, j: int| 0 <= i < j < e.len() implies e[i].0 != e[j].0 by {
        assert(str_lt(keys_of(e)[i], keys_of(e)[j]));
    }
}

pub proof fn lemma_entries_map<V>(e: Seq<(Seq<char>, V)>)
    requires
        distinct_keys(e),
    ensures
        forall|k: Seq<char>| #[trigger] entries_map(e).contains_key(k) <==> keys_of(e).contains(k),
        forall|i: int| 0 <= i < e.len() ==> entries_map(e)[#[trigger] e[i].0] == e[i].1,
    decreases e.len(),
{
    if e.len() > 0 {
        let d = e.drop_last();
        assert forall|i: int, j: int| 0 <= i < j < d.len() implies d[i].0 != d[j].0 by {
            assert(d[i] == e[i] && d[j] == e[j]);
        }
        lemma_entries_map(d);
        assert(keys_of(e)[e.len() - 1] == e.last().0);
        assert(entries_map(e) == entries_map(d).insert(e.last().0, e.last().1));
        assert forall|k: Seq<char>| #[trigger] entries_map(e).contains_key(k) <==> keys_of(e).contains(k) by {
            if keys_of(e).contains(k) {
                let i = choose|i: int| 0 <= i < keys_of(e).len() && keys_of(e)[i] == k;
                if i < d.len() {
                    assert(keys_of(d)[i] == k);
                    assert(keys_of(d).contains(k));
                    assert(entries_map(d).contains_key(k));
                } else {
                    assert(k == e.last().0);
                }
            }
            if entries_map(e).contains_key(k) {
                if k == e.last().0 {
                    assert(keys_of(e)[e.len() - 1] == k);
                } else {
                    assert(entries_map(d).contains_key(k));
                    assert(keys_of(d).contains(k));
                    let i = choose|i: int| 0 <= i < keys_of(d).len() && keys_of(d)[i] == k;
                    assert(keys_of(e)[i] == k);
                }
            }
        }
        assert forall|i: int| 0 <= i < e.len() implies entries_map(e)[#[trigger] e[i].0] == e[i].1 by {
            if i < e.len() - 1 {
                assert(e[i] == d[i]);
                assert(e[i].0 != e.last().0);
            }
        }
    }
}

pub proof fn lemma_keys_membership<V>(e: Seq<(Seq<char>, V)>, j: int, x: (Seq<char>, V), k: Seq<char>)
    requires
        0 <= j <= e.len(),
    ensures
        keys_of(e.insert(j, x)).contains(k) <==> (k == x.0 || keys_of(e).contains(k)),
{
    let w = e.insert(j, x);
    if keys_of(w).contains(k) {
        let i = choose|i: int| 0 <= i < keys_of(w).len() && keys_of(w)[i] == k;
        if i < j {
            assert(keys_of(e)[i] == k);
        } else if i > j {
            assert(keys_of(e)[i - 1] == k);
        }
    }
    if keys_of(e).contains(k) {
        let i = choose|i: int| 0 <= i < keys_of(e).len() && keys_of(e)[i] == k;
        if i < j {
            assert(keys_of(w)[i] == k);
        } else {
            assert(keys_of(w)[i + 1] == k);
        }
    }
    if k == x.0 {
        assert(keys_of(w)[j] == k);
    }
}

/// Inserting at the place where the order wants it keeps the order and
/// adds one key to the map.
pub proof fn lemma_insert_sorted<V>(e: Seq<(Seq<char>, V)>, j: int, id: Seq<char>, r: V)
    requires
        ascending(keys_of(e)),
        0 <= j <= e.len(),
        forall|k: int| 0 <= k < j ==> str_lt(#[trigger] e[k].0, id),
        forall|k: int| j <= k < e.len() ==> str_lt(id, #[trigger] e[k].0),
    ensures
        ascending(keys_of(e.insert(j, (id, r)))),
        entries_map(e.insert(j, (id, r))) == entries_map(e).insert(id, r),
{
    let w = e.insert(j, (id, r));
    assert forall|a: int, b: int| 0 <= a < b < keys_of(w).len() implies str_lt(keys_of(w)[a], keys_of(w)[b]) by {
        if b < j {
            assert(str_lt(keys_of(e)[a], keys_of(e)[b]));
        } else if b == j {
            assert(w[a] == e[a]);
        } else if a == j {
            assert(w[b] == e[b - 1]);
        } else if a < j {
            assert(w[a] == e[a] && w[b] == e[b - 1]);
            assert(str_lt(keys_of(e)[a], keys_of(e)[b - 1]));
        } else {
            assert(w[a] == e[a - 1] && w[b] == e[b - 1]);
            assert(str_lt(keys_of(e)[a - 1], keys_of(e)[b - 1]));
        }
    }
    lemma_ascending_distinct(e);
    lemma_ascending_distinct(w);
    lemma_entries_map(e);
    lemma_entries_map(w);
    let m = entries_map(e).insert(id, r);
    assert forall|k: Seq<char>| #[trigger] entries_map(w).contains_key(k) <==> m.contains_key(k) by {
        lemma_keys_membership(e, j, (id, r), k);
    }
    assert forall|k: Seq<char>| entries_map(w).contains_key(k) implies entries_map(w)[k] == m[k] by {
        lemma_keys_membership(e, j, (id, r), k);
        let i = choose|i: int| 0 <= i < keys_of(w).len() && keys_of(w)[i] == k;
        assert(entries_map(w)[w[i].0] == w[i].1);
        if i < j {
            assert(w[i] == e[i]);
            assert(entries_map(e)[e[i].0] == e[i].1);
        } else if i > j {
            assert(w[i] == e[i - 1]);
            assert(entries_map(e)[e[i - 1].0] == e[i - 1].1);
        }
    }
    assert(entries_map(w) =~= m);
}


/// A list of `(String, value)` entries with its keys as characters.
pub open spec fn entry_views<V>(v: Seq<(String, V)>) -> Seq<(Seq<char>, V)> {
    v.map_values(|p: (String, V)| (p.0@, p.1))
}

/// Replacing the value at a key keeps the order and updates the map.
pub proof fn lemma_update_sorted<V>(e: Seq<(Seq<char>, V)>, j: int, val: V)
    requires
        ascending(keys_of(e)),
        0 <= j < e.len(),
    ensures
        ascending(keys_of(e.update(j, (e[j].0, val)))),
        entries_map(e.update(j, (e[j].0, val))) == entries_map(e).insert(e[j].0, val),
{
    let w = e.update(j, (e[j].0, val));
    assert(keys_of(w) =~= keys_of(e));
    lemma_ascending_distinct(e);
    lemma_ascending_distinct(w);
    lemma_entries_map(e);
    lemma_entries_map(w);
    let m = entries_map(e).insert(e[j].0, val);
    assert forall|k: Seq<char>| #[trigger] entries_map(w).contains_key(k) <==> m.contains_key(k) by {
        if k == e[j].0 {
            assert(keys_of(e)[j] == k);
        }
    }
    assert forall|k: Seq<char>| entries_map(w).contains_key(k) implies entries_map(w)[k] == m[k] by {
        let i = choose|i: int| 0 <= i < keys_of(w).len() && keys_of(w)[i] == k;
        assert(entries_map(w)[w[i].0] == w[i].1);
        if i != j {
            assert(entries_map(e)[e[i].0] == e[i].1);
        }
    }
    assert(entries_map(w) =~= m);
}

/// Where `key` is among entries in ascending order, if it is there.
pub fn find_key<V>(v: &Vec<(String, V)>, key: &str) -> (r: Option<usize>)
    requires
        ascending(keys_of(entry_views(v@))),
    ensures
        match r {
            Some(i) => i < v@.len() && v@[i as int].0@ == key@ && entries_map(entry_views(v@)).contains_key(key@)
                && entries_map(entry_views(v@))[key@] == v@[i as int].1,
            None => !entries_map(entry_views(v@)).contains_key(key@),
        },
{
    let ghost e = entry_views(v@);
    proof {
        lemma_ascending_distinct(e);
        lemma_entries_map(e);
    }
    let mut i: usize = 0;
    while i < v.len()
        invariant
            i <= v.len(),
            e == entry_views(v@),
            ascending(keys_of(e)),
            forall|k: int| 0 <= k < i ==> e[k].0 != key@,
        decreases v.len() - i,
    {
        if str_eq(v[i].0.as_str(), key) {
            proof {
                lemma_ascending_distinct(e);
                lemma_entries_map(e);
                assert(e[i as int].0 == key@);
                assert(keys_of(e)[i as int] == key@);
                assert(keys_of(e).contains(key@));
                assert(entries_map(e)[e[i as int].0] == e[i as int].1);
                assert(e[i as int].1 == v@[i as int].1);
            }
            return Some(i);
        }
        i += 1;
    }
    proof {
        if keys_of(e).contains(key@) {
            let k = choose|k: int| 0 <= k < keys_of(e).len() && keys_of(e)[k] == key@;
            assert(e[k].0 == key@);
        }
    }
    None
}

/// Set `key` to `val`, keeping the entries in ascending key order.
pub fn upsert<V>(v: &mut Vec<(String, V)>, key: String, val: V)
    requires
        ascending(keys_of(entry_views(old(v)@))),
    ensures
        ascending(keys_of(entry_views(final(v)@))),
        entries_map(entry_views(final(v)@)) == entries_map(entry_views(old(v)@)).insert(key@, val),
{
    let ghost e = entry_views(v@);
    let mut j: usize = 0;
    while j < v.len() && str_lt_exec(v[j].0.as_str(), key.as_str())
        invariant
            j <= v.len(),
            e == entry_views(v@),
            forall|k: int| 0 <= k < j ==> str_lt(#[trigger] e[k].0, key@),
        decreases v.len() - j,
    {
        j += 1;
    }
    if j < v.len() && str_eq(v[j].0.as_str(), key.as_str()) {
        proof {
            lemma_update_sorted(e, j as int, val);
        }
        v.set(j, (key, val));
        proof {
            assert(entry_views(v@) =~= e.update(j as int, (e[j as int].0, val)));
        }
    } else {
        proof {
            assert forall|k: int| j <= k < e.len() implies str_lt(key@, #[trigger] e[k].0) by {
                lemma_str_lt_trichotomy(key@, e[j as int].0);
                if k > j {
                    assert(str_lt(keys_of(e)[j as int], keys_of(e)[k]));
                    lemma_str_lt_transitive(key@, e[j as int].0, e[k].0);
                }
            }
            lemma_insert_sorted(e, j as int, key@, val);
        }
        v.insert(j, (key, val));
        proof {
            assert(entry_views(v@) =~= e.insert(j as int, (key@, val)));
        }
    }
}

/// Removing an entry keeps the order and drops its key from the map.
pub proof fn lemma_remove_sorted<V>(e: Seq<(Seq<char>, V)>, j: int)
    requires
        ascending(keys_of(e)),
        0 <= j < e.len(),
    ensures
        ascending(keys_of(e.remove(j))),
        entries_map(e.remove(j)) == entries_map(e).remove(e[j].0),
{
    let w = e.remove(j);
    assert forall|a: int, b: int| 0 <= a < b < keys_of(w).len() implies str_lt(keys_of(w)[a], keys_of(w)[b]) by {
        let a2 = if a < j { a } else { a + 1 };
        let b2 = if b < j { b } else { b + 1 };
        assert(w[a] == e[a2] && w[b] == e[b2]);
        assert(str_lt(keys_of(e)[a2], keys_of(e)[b2]));
    }
    lemma_ascending_distinct(e);
    lemma_ascending_distinct(w);
    lemma_entries_map(e);
    lemma_entries_map(w);
    let m = entries_map(e).remove(e[j].0);
    assert forall|k: Seq<char>| #[trigger] entries_map(w).contains_key(k) <==> m.contains_key(k) by {
        if keys_of(w).contains(k) {
            let i = choose|i: int| 0 <= i < keys_of(w).len() && keys_of(w)[i] == k;
            let i2 = if i < j { i } else { i + 1 };
            assert(w[i] == e[i2]);
            assert(keys_of(e)[i2] == k);
            assert(e[i2].0 != e[j].0);
        }
        if keys_of(e).contains(k) && k != e[j].0 {
            let i = choose|i: int| 0 <= i < keys_of(e).len() && keys_of(e)[i] == k;
            if i < j {
                assert(keys_of(w)[i] == k);
            } else {
                assert(i != j);
                assert(keys_of(w)[i - 1] == k);
            }
        }
    }
    assert forall|k: Seq<char>| entries_map(w).contains_key(k) implies entries_map(w)[k] == m[k] by {
        let i = choose|i: int| 0 <= i < keys_of(w).len() && keys_of(w)[i] == k;
        let i2 = if i < j { i } else { i + 1 };
        assert(w[i] == e[i2]);
        assert(entries_map(w)[w[i].0] == w[i].1);
        assert(entries_map(e)[e[i2].0] == e[i2].1);
    }
    assert(entries_map(w) =~= m);
}

} // verus!
