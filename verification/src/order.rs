//! Stable insertion order: what a stable sort by a "less or equal" relation
//! produces, stated as a function of the input, and the step that places
//! one element.

use vstd::prelude::*;
use vstd::string::*;
use crate::text::{lemma_str_le_total, lemma_str_le_transitive, str_le, str_le_exec, string_views};

verus! {

/// `x` placed into `s` after every element that is `le` it, scanning from
/// the end: for a sorted `s` this keeps equal elements in arrival order.
pub open spec fn insert_by<T>(s: Seq<T>, x: T, le: spec_fn(T, T) -> bool) -> Seq<T>
    decreases s.len(),
{
    if s.len() == 0 {
        seq![x]
    } else if le(s.last(), x) {
        s.push(x)
    } else {
        insert_by(s.drop_last(), x, le).push(s.last())
    }
}

/// The stable sort of `s` by `le`.
pub open spec fn sort_by<T>(s: Seq<T>, le: spec_fn(T, T) -> bool) -> Seq<T>
    decreases s.len(),
{
    if s.len() == 0 {
        Seq::empty()
    } else {
        insert_by(sort_by(s.drop_last(), le), s.last(), le)
    }
}

/// Where the scan from the end stops is where the element goes.
pub proof fn lemma_insert_at<T>(s: Seq<T>, x: T, le: spec_fn(T, T) -> bool, j: int)
    requires
        0 <= j <= s.len(),
        forall|k: int| j <= k < s.len() ==> !le(#[trigger] s[k], x),
        j == 0 || le(s[j - 1], x),
    ensures
        insert_by(s, x, le) == s.take(j).push(x) + s.skip(j),
    decreases s.len(),
{
    if s.len() == 0 {
        assert(s.take(j).push(x) + s.skip(j) =~= seq![x]);
    } else if j == s.len() {
        assert(s.take(j).push(x) + s.skip(j) =~= s.push(x));
    } else {
        assert(!le(s[s.len() - 1], x));
        lemma_insert_at(s.drop_last(), x, le, j);
        assert(s.drop_last().take(j) =~= s.take(j));
        assert((s.take(j).push(x) + s.drop_last().skip(j)).push(s.last()) =~= s.take(j).push(x)
            + s.skip(j));
    }
}

/// `s` is in order by `le`: each element is `le` every later one.
pub open spec fn sorted_by<T>(s: Seq<T>, le: spec_fn(T, T) -> bool) -> bool {
    forall|i: int, j: int| 0 <= i < j < s.len() ==> le(#[trigger] s[i], #[trigger] s[j])
}

/// `le` relates any two elements one way or the other, and chains.
pub open spec fn total_preorder<T>(le: spec_fn(T, T) -> bool) -> bool {
    &&& forall|a: T, b: T| #[trigger] le(a, b) || le(b, a)
    &&& forall|a: T, b: T, c: T| #[trigger] le(a, b) && #[trigger] le(b, c) ==> le(a, c)
}

/// Placing an element into a sorted sequence keeps it sorted and adds
/// exactly that element.
pub proof fn lemma_insert_by<T>(s: Seq<T>, x: T, le: spec_fn(T, T) -> bool)
    requires
        sorted_by(s, le),
        total_preorder(le),
    ensures
        sorted_by(insert_by(s, x, le), le),
        insert_by(s, x, le).to_multiset() == s.to_multiset().insert(x),
    decreases s.len(),
{
    broadcast use vstd::seq_lib::group_to_multiset_ensures;

    if s.len() == 0 {
        assert(seq![x] =~= Seq::<T>::empty().push(x));
        assert(s =~= Seq::<T>::empty());
    } else if le(s.last(), x) {
        assert forall|i: int, j: int| 0 <= i < j < s.push(x).len() implies le(#[trigger] s.push(x)[i], #[trigger] s.push(x)[j]) by {
            if j == s.len() && i < s.len() - 1 {
                assert(le(s[i], s[s.len() - 1]));
            }
        }
    } else {
        let d = s.drop_last();
        assert(sorted_by(d, le)) by {
            assert forall|i: int, j: int| 0 <= i < j < d.len() implies le(#[trigger] d[i], #[trigger] d[j]) by {
                assert(le(s[i], s[j]));
            }
        }
        lemma_insert_by(d, x, le);
        let r = insert_by(d, x, le);
        assert(le(x, s.last()));
        assert forall|i: int| 0 <= i < r.len() implies le(#[trigger] r[i], s.last()) by {
            assert(r.contains(r[i]));
            assert(r.to_multiset().count(r[i]) > 0);
            if r[i] != x {
                assert(d.to_multiset().count(r[i]) > 0);
                assert(d.contains(r[i]));
                let k = choose|k: int| 0 <= k < d.len() && d[k] == r[i];
                assert(le(s[k], s[s.len() - 1]));
            }
        }
        assert forall|i: int, j: int| 0 <= i < j < r.push(s.last()).len() implies le(
            #[trigger] r.push(s.last())[i],
            #[trigger] r.push(s.last())[j],
        ) by {
            if j == r.len() {
                assert(le(r[i], s.last()));
            } else {
                assert(le(r[i], r[j]));
            }
        }
        assert(d.push(s.last()) =~= s);
        assert(r.push(s.last()).to_multiset() =~= s.to_multiset().insert(x));
    }
}

/// The stable sort puts the elements in order and keeps every one of them,
/// as often as it occurs.
pub proof fn lemma_sort_by<T>(s: Seq<T>, le: spec_fn(T, T) -> bool)
    requires
        total_preorder(le),
    ensures
        sorted_by(sort_by(s, le), le),
        sort_by(s, le).to_multiset() == s.to_multiset(),
    decreases s.len(),
{
    broadcast use vstd::seq_lib::group_to_multiset_ensures;

    if s.len() == 0 {
        assert(sort_by(s, le) =~= s);
    } else {
        lemma_sort_by(s.drop_last(), le);
        lemma_insert_by(sort_by(s.drop_last(), le), s.last(), le);
        assert(s.drop_last().push(s.last()) =~= s);
    }
}

/// The order of strings as `str` compares them.
pub open spec fn str_order() -> spec_fn(Seq<char>, Seq<char>) -> bool {
    |a: Seq<char>, b: Seq<char>| str_le(a, b)
}

/// Strings as `str` compares them are totally preordered.
pub proof fn lemma_str_order_total()
    ensures
        total_preorder(str_order()),
{
    assert forall|a: Seq<char>, b: Seq<char>| #[trigger] (str_order())(a, b) || (str_order())(b, a) by {
        lemma_str_le_total(a, b);
    }
    assert forall|a: Seq<char>, b: Seq<char>, c: Seq<char>|
        #[trigger] (str_order())(a, b) && #[trigger] (str_order())(b, c) implies (str_order())(a, c) by {
        lemma_str_le_transitive(a, b, c);
    }
}

/// `Vec::sort` on strings.
pub fn sort_strings(v: Vec<String>) -> (r: Vec<String>)
    ensures
        string_views(r@) == sort_by(string_views(v@), str_order()),
{
    let mut out: Vec<String> = Vec::new();
    let mut i: usize = 0;
    let ghost vs = string_views(v@);
    while i < v.len()
        invariant
            i <= v.len(),
            vs == string_views(v@),
            string_views(out@) == sort_by(vs.take(i as int), str_order()),
        decreases v.len() - i,
    {
        let x = v[i].clone();
        let ghost sv = string_views(out@);
        let mut j = out.len();
        while j > 0 && !str_le_exec(out[j - 1].as_str(), x.as_str())
            invariant
                j <= out.len(),
                sv == string_views(out@),
                forall|k: int| j <= k < sv.len() ==> !str_le(#[trigger] sv[k], x@),
            decreases j,
        {
            j -= 1;
        }
        proof {
            assert(vs.take(i + 1).drop_last() =~= vs.take(i as int));
            assert(vs.take(i + 1).last() == x@);
            assert forall|k: int| j <= k < sv.len() implies !(str_order())(#[trigger] sv[k], x@) by {
            }
            lemma_insert_at(sv, x@, str_order(), j as int);
        }
        out.insert(j, x);
        proof {
            assert(string_views(out@) =~= sv.take(j as int).push(x@) + sv.skip(j as int));
        }
        i += 1;
    }
    proof {
        assert(vs.take(v.len() as int) =~= vs);
    }
    out
}

} // verus!
