//! Text primitives with their meaning stated over `Seq<char>`.
//!
//! Each spec function below says what the matching `str` method of the
//! standard library computes (`trim`, `lines`, `split`, `starts_with`,
//! `parse`, ...), and each executable function is proved to compute it.

use vstd::prelude::*;
use vstd::string::*;

verus! {

broadcast use vstd::string::group_string_axioms;

// ── Characters ──────────────────────────────────────────────────────────────

/// `char::is_whitespace`: the Unicode White_Space property.
pub open spec fn is_ws(c: char) -> bool {
    ||| '\t' <= c <= '\r'
    ||| c == ' '
    ||| c == '\u{85}'
    ||| c == '\u{A0}'
    ||| c == '\u{1680}'
    ||| '\u{2000}' <= c <= '\u{200A}'
    ||| c == '\u{2028}'
    ||| c == '\u{2029}'
    ||| c == '\u{202F}'
    ||| c == '\u{205F}'
    ||| c == '\u{3000}'
}

/// `char::is_ascii_digit`.
pub open spec fn is_digit(c: char) -> bool {
    '0' <= c <= '9'
}

/// `[a-z0-9-]`: the alphabet of names that end up in shell paths.
pub open spec fn is_name_char(c: char) -> bool {
    ||| 'a' <= c <= 'z'
    ||| is_digit(c)
    ||| c == '-'
}

/// `char::is_ascii_hexdigit`.
pub open spec fn is_hex_digit(c: char) -> bool {
    ||| is_digit(c)
    ||| 'a' <= c <= 'f'
    ||| 'A' <= c <= 'F'
}

pub fn is_whitespace(c: char) -> (r: bool)
    ensures
        r == is_ws(c),
{
    ('\t' <= c && c <= '\r') || c == ' ' || c == '\u{85}' || c == '\u{A0}' || c == '\u{1680}'
        || ('\u{2000}' <= c && c <= '\u{200A}') || c == '\u{2028}' || c == '\u{2029}' || c
        == '\u{202F}' || c == '\u{205F}' || c == '\u{3000}'
}

pub fn is_ascii_digit(c: char) -> (r: bool)
    ensures
        r == is_digit(c),
{
    '0' <= c && c <= '9'
}

/// Number of bytes `c` takes in UTF-8.
pub open spec fn utf8_width(c: char) -> nat {
    if (c as u32) < 0x80 {
        1
    } else if (c as u32) < 0x800 {
        2
    } else if (c as u32) < 0x10000 {
        3
    } else {
        4
    }
}

/// `str::len`: the length in bytes.
pub open spec fn byte_len(s: Seq<char>) -> nat
    decreases s.len(),
{
    if s.len() == 0 {
        0
    } else {
        byte_len(s.drop_last()) + utf8_width(s.last())
    }
}

// ── Whole-string predicates ─────────────────────────────────────────────────

pub open spec fn all_name_chars(s: Seq<char>) -> bool {
    forall|i: int| 0 <= i < s.len() ==> is_name_char(#[trigger] s[i])
}

/// Non-empty and only `[a-z0-9-]`.
pub open spec fn is_lower_dashed(s: Seq<char>) -> bool {
    s.len() > 0 && all_name_chars(s)
}

pub fn lower_dashed_str(s: &str) -> (r: bool)
    ensures
        r == is_lower_dashed(s@),
{
    let cs = chars_of(s);
    if cs.len() == 0 {
        return false;
    }
    let mut i: usize = 0;
    while i < cs.len()
        invariant
            cs@ == s@,
            0 <= i <= cs.len(),
            forall|k: int| 0 <= k < i ==> is_name_char(#[trigger] s@[k]),
        decreases cs.len() - i,
    {
        let c = cs[i];
        if !(('a' <= c && c <= 'z') || ('0' <= c && c <= '9') || c == '-') {
            return false;
        }
        i += 1;
    }
    true
}

pub open spec fn starts_with(s: Seq<char>, p: Seq<char>) -> bool {
    p.len() <= s.len() && s.take(p.len() as int) == p
}

pub open spec fn ends_with(s: Seq<char>, p: Seq<char>) -> bool {
    p.len() <= s.len() && s.skip(s.len() - p.len()) == p
}

/// `p` occurs in `s` starting at `i`.
pub open spec fn occurs_at(s: Seq<char>, p: Seq<char>, i: int) -> bool {
    0 <= i && i + p.len() <= s.len() && s.subrange(i, i + p.len()) == p
}

pub open spec fn contains(s: Seq<char>, p: Seq<char>) -> bool {
    exists|i: int| occurs_at(s, p, i)
}

/// The characters of `s`, in order, in a vector that can be indexed cheaply.
pub fn chars_of(s: &str) -> (v: Vec<char>)
    ensures
        v@ == s@,
{
    let mut v: Vec<char> = Vec::new();
    for c in it: s.chars()
        invariant
            it.seq() == s@,
            v@ == it.seq().take(it.index() as int),
    {
        v.push(c);
    }
    v
}

fn matches_at(cs: &Vec<char>, p: &Vec<char>, i: usize) -> (r: bool)
    ensures
        r == occurs_at(cs@, p@, i as int),
{
    if i > cs.len() || p.len() > cs.len() - i {
        return false;
    }
    let mut k: usize = 0;
    while k < p.len()
        invariant
            i + p.len() <= cs.len(),
            0 <= k <= p.len(),
            forall|j: int| 0 <= j < k ==> cs@[i + j] == p@[j],
        decreases p.len() - k,
    {
        if cs[i + k] != p[k] {
            assert(cs@.subrange(i as int, i + p.len())[k as int] != p@[k as int]);
            return false;
        }
        k += 1;
    }
    assert(cs@.subrange(i as int, i + p.len()) =~= p@);
    true
}

/// `str == str`.
pub fn str_eq(a: &str, b: &str) -> (r: bool)
    ensures
        r == (a@ == b@),
{
    let x = chars_of(a);
    let y = chars_of(b);
    if x.len() != y.len() {
        return false;
    }
    let r = matches_at(&x, &y, 0);
    proof {
        if r {
            assert(x@.subrange(0, y@.len() as int) =~= x@);
        } else {
            if a@ == b@ {
                assert(x@.subrange(0, y@.len() as int) =~= y@);
            }
        }
    }
    r
}

/// `str::starts_with`.
pub fn str_starts_with(s: &str, p: &str) -> (r: bool)
    ensures
        r == starts_with(s@, p@),
{
    let x = chars_of(s);
    let y = chars_of(p);
    let r = matches_at(&x, &y, 0);
    proof {
        if p@.len() <= s@.len() {
            assert(s@.take(p@.len() as int) =~= s@.subrange(0, p@.len() as int));
        }
    }
    r
}

/// `str::ends_with`.
pub fn str_ends_with(s: &str, p: &str) -> (r: bool)
    ensures
        r == ends_with(s@, p@),
{
    let x = chars_of(s);
    let y = chars_of(p);
    if y.len() > x.len() {
        return false;
    }
    let r = matches_at(&x, &y, x.len() - y.len());
    proof {
        assert(s@.skip(s@.len() - p@.len()) =~= s@.subrange(
            s@.len() - p@.len(),
            s@.len() - p@.len() + p@.len(),
        ));
    }
    r
}

/// First position at which `p` occurs in `s` at or after `from`, if any.
pub open spec fn first_occurrence_from(s: Seq<char>, p: Seq<char>, from: int) -> Option<int>
    decreases s.len() + 1 - from,
{
    if from < 0 || from + p.len() > s.len() {
        None
    } else if occurs_at(s, p, from) {
        Some(from)
    } else {
        first_occurrence_from(s, p, from + 1)
    }
}

pub proof fn lemma_first_occurrence(s: Seq<char>, p: Seq<char>, from: int)
    requires
        0 <= from,
    ensures
        first_occurrence_from(s, p, from) matches Some(i) ==> from <= i && occurs_at(s, p, i)
            && forall|j: int| from <= j < i ==> !occurs_at(s, p, j),
        first_occurrence_from(s, p, from) is None ==> forall|j: int|
            from <= j ==> !occurs_at(s, p, j),
    decreases s.len() + 1 - from,
{
    if from + p.len() > s.len() {
    } else if occurs_at(s, p, from) {
    } else {
        lemma_first_occurrence(s, p, from + 1);
    }
}

/// `str::find` with a string pattern, from `from` on.
pub fn find_from(cs: &Vec<char>, p: &Vec<char>, from: usize) -> (r: Option<usize>)
    ensures
        r matches Some(i) ==> first_occurrence_from(cs@, p@, from as int) == Some(i as int),
        r is None ==> first_occurrence_from(cs@, p@, from as int) is None,
{
    if from > cs.len() || p.len() > cs.len() - from {
        return None;
    }
    let last = cs.len() - p.len();
    let mut i = from;
    while i <= last
        invariant
            from <= i <= last + 1,
            last + p.len() == cs.len(),
            first_occurrence_from(cs@, p@, from as int) == first_occurrence_from(
                cs@,
                p@,
                i as int,
            ),
        decreases last + 1 - i,
    {
        if matches_at(cs, p, i) {
            return Some(i);
        }
        if i == last {
            assert(first_occurrence_from(cs@, p@, i + 1) is None);
            return None;
        }
        i += 1;
    }
    None
}

/// `str::split_once` with a string pattern.
pub open spec fn split_once_str(s: Seq<char>, p: Seq<char>) -> Option<(Seq<char>, Seq<char>)> {
    match first_occurrence_from(s, p, 0) {
        Some(i) => Some((s.take(i), s.skip(i + p.len()))),
        None => None,
    }
}

pub fn str_split_once_str<'a>(s: &'a str, p: &str) -> (r: Option<(&'a str, &'a str)>)
    ensures
        r matches Some((a, b)) ==> split_once_str(s@, p@) == Some((a@, b@)),
        r is None ==> split_once_str(s@, p@) is None,
{
    let x = chars_of(s);
    let y = chars_of(p);
    match find_from(&x, &y, 0) {
        Some(i) => {
            proof {
                lemma_first_occurrence(s@, p@, 0);
            }
            let n = x.len();
            let a = s.substring_char(0, i);
            let b = s.substring_char(i + y.len(), n);
            proof {
                assert(a@ =~= s@.take(i as int));
                assert(b@ =~= s@.skip(i + p@.len()));
            }
            Some((a, b))
        },
        None => None,
    }
}

/// `str::contains` with a string pattern.
pub fn str_contains(s: &str, p: &str) -> (r: bool)
    ensures
        r == contains(s@, p@),
{
    let x = chars_of(s);
    let y = chars_of(p);
    let r = find_from(&x, &y, 0);
    proof {
        lemma_first_occurrence(s@, p@, 0);
    }
    r.is_some()
}

// ── Trimming ────────────────────────────────────────────────────────────────

/// `str::trim_start`.
pub open spec fn trimmed_start(s: Seq<char>) -> Seq<char>
    decreases s.len(),
{
    if s.len() > 0 && is_ws(s[0]) {
        trimmed_start(s.drop_first())
    } else {
        s
    }
}

/// `str::trim_end`.
pub open spec fn trimmed_end(s: Seq<char>) -> Seq<char>
    decreases s.len(),
{
    if s.len() > 0 && is_ws(s.last()) {
        trimmed_end(s.drop_last())
    } else {
        s
    }
}

/// `str::trim`.
pub open spec fn trimmed(s: Seq<char>) -> Seq<char> {
    trimmed_end(trimmed_start(s))
}

pub proof fn lemma_trim_start(s: Seq<char>, i: int)
    requires
        0 <= i <= s.len(),
        forall|k: int| 0 <= k < i ==> is_ws(#[trigger] s[k]),
        i == s.len() || !is_ws(s[i]),
    ensures
        trimmed_start(s) == s.subrange(i, s.len() as int),
    decreases i,
{
    if i > 0 {
        let t = s.drop_first();
        assert forall|k: int| 0 <= k < i - 1 implies is_ws(#[trigger] t[k]) by {
            assert(t[k] == s[k + 1]);
        }
        lemma_trim_start(t, i - 1);
        assert(t.subrange(i - 1, t.len() as int) =~= s.subrange(i, s.len() as int));
    } else {
        assert(s.subrange(0, s.len() as int) =~= s);
    }
}

pub proof fn lemma_trim_end(s: Seq<char>, j: int)
    requires
        0 <= j <= s.len(),
        forall|k: int| j <= k < s.len() ==> is_ws(#[trigger] s[k]),
        j == 0 || !is_ws(s[j - 1]),
    ensures
        trimmed_end(s) == s.subrange(0, j),
    decreases s.len() - j,
{
    if j < s.len() {
        let t = s.drop_last();
        assert forall|k: int| j <= k < t.len() implies is_ws(#[trigger] t[k]) by {
            assert(t[k] == s[k]);
        }
        lemma_trim_end(t, j);
        assert(t.subrange(0, j) =~= s.subrange(0, j));
    } else {
        assert(s.subrange(0, s.len() as int) =~= s);
    }
}

/// Index of the first non-whitespace character of `cs[from..to]`, or `to`.
fn skip_ws(cs: &Vec<char>, from: usize, to: usize) -> (i: usize)
    requires
        from <= to <= cs.len(),
    ensures
        from <= i <= to,
        forall|k: int| from <= k < i ==> is_ws(#[trigger] cs@[k]),
        i == to || !is_ws(cs@[i as int]),
{
    let mut i = from;
    while i < to && is_whitespace(cs[i])
        invariant
            from <= i <= to,
            to <= cs.len(),
            forall|k: int| from <= k < i ==> is_ws(#[trigger] cs@[k]),
        decreases to - i,
    {
        i += 1;
    }
    i
}

/// One past the last non-whitespace character of `cs[from..to]`, or `from`.
fn skip_ws_back(cs: &Vec<char>, from: usize, to: usize) -> (j: usize)
    requires
        from <= to <= cs.len(),
    ensures
        from <= j <= to,
        forall|k: int| j <= k < to ==> is_ws(#[trigger] cs@[k]),
        j == from || !is_ws(cs@[j - 1]),
{
    let mut j = to;
    while j > from && is_whitespace(cs[j - 1])
        invariant
            from <= j <= to,
            to <= cs.len(),
            forall|k: int| j <= k < to ==> is_ws(#[trigger] cs@[k]),
        decreases j - from,
    {
        j -= 1;
    }
    j
}

/// Where `trim` cuts `s`: `trimmed(s) == s[i..j]`.
pub fn trim_bounds(cs: &Vec<char>) -> (r: (usize, usize))
    ensures
        r.0 <= r.1 <= cs.len(),
        trimmed(cs@) == cs@.subrange(r.0 as int, r.1 as int),
        trimmed_start(cs@) == cs@.subrange(r.0 as int, cs.len() as int),
{
    let i = skip_ws(cs, 0, cs.len());
    let j = skip_ws_back(cs, i, cs.len());
    proof {
        lemma_trim_start(cs@, i as int);
        let t = cs@.subrange(i as int, cs.len() as int);
        assert forall|k: int| j - i <= k < t.len() implies is_ws(#[trigger] t[k]) by {
            assert(t[k] == cs@[k + i]);
        }
        if j > i {
            assert(t[j - i - 1] == cs@[j - 1]);
        }
        lemma_trim_end(t, j - i);
        assert(t.subrange(0, j - i) =~= cs@.subrange(i as int, j as int));
    }
    (i, j)
}

/// `str::trim`.
pub fn trim(s: &str) -> (r: &str)
    ensures
        r@ == trimmed(s@),
{
    let cs = chars_of(s);
    let (i, j) = trim_bounds(&cs);
    s.substring_char(i, j)
}

/// `str::trim_start`.
pub fn trim_start(s: &str) -> (r: &str)
    ensures
        r@ == trimmed_start(s@),
{
    let cs = chars_of(s);
    let i = skip_ws(&cs, 0, cs.len());
    proof {
        lemma_trim_start(s@, i as int);
    }
    s.substring_char(i, cs.len())
}

/// `str::trim_end`.
pub fn trim_end(s: &str) -> (r: &str)
    ensures
        r@ == trimmed_end(s@),
{
    let cs = chars_of(s);
    let j = skip_ws_back(&cs, 0, cs.len());
    proof {
        lemma_trim_end(s@, j as int);
    }
    s.substring_char(0, j)
}

// ── Splitting on one character ──────────────────────────────────────────────

/// Position of the first `c` in `s`, or `s.len()` when there is none.
pub open spec fn index_of(s: Seq<char>, c: char) -> nat
    decreases s.len(),
{
    if s.len() == 0 {
        0
    } else if s[0] == c {
        0
    } else {
        index_of(s.drop_first(), c) + 1
    }
}

pub proof fn lemma_index_of(s: Seq<char>, c: char)
    ensures
        index_of(s, c) <= s.len(),
        index_of(s, c) < s.len() ==> s[index_of(s, c) as int] == c,
        forall|k: int| 0 <= k < index_of(s, c) ==> s[k] != c,
    decreases s.len(),
{
    if s.len() > 0 && s[0] != c {
        lemma_index_of(s.drop_first(), c);
        assert forall|k: int| 0 <= k < index_of(s, c) implies s[k] != c by {
            if k > 0 {
                assert(s[k] == s.drop_first()[k - 1]);
            }
        }
    }
}

pub proof fn lemma_index_of_at(s: Seq<char>, c: char, i: int)
    requires
        0 <= i <= s.len(),
        forall|k: int| 0 <= k < i ==> s[k] != c,
        i == s.len() || s[i] == c,
    ensures
        index_of(s, c) == i,
{
    lemma_index_of(s, c);
    if index_of(s, c) < i {
        assert(s[index_of(s, c) as int] == c);
    }
    if index_of(s, c) > i {
        assert(s[i] != c);
    }
}

/// `str::split(c)`: the pieces between occurrences of `c`.
pub open spec fn split_on(s: Seq<char>, c: char) -> Seq<Seq<char>>
    decreases s.len(),
{
    let i = index_of(s, c);
    if i >= s.len() {
        seq![s]
    } else {
        seq![s.take(i as int)] + split_on(s.skip((i + 1) as int), c)
    }
}

/// `str::split_once(c)`.
pub open spec fn split_once(s: Seq<char>, c: char) -> Option<(Seq<char>, Seq<char>)> {
    let i = index_of(s, c);
    if i >= s.len() {
        None
    } else {
        Some((s.take(i as int), s.skip((i + 1) as int)))
    }
}

/// Position of the last `c` in `s`, or `-1`.
pub open spec fn last_index_of(s: Seq<char>, c: char) -> int
    decreases s.len(),
{
    if s.len() == 0 {
        -1
    } else if s.last() == c {
        s.len() - 1
    } else {
        last_index_of(s.drop_last(), c)
    }
}

pub proof fn lemma_last_index_of(s: Seq<char>, c: char)
    ensures
        -1 <= last_index_of(s, c) < s.len(),
        last_index_of(s, c) >= 0 ==> s[last_index_of(s, c)] == c,
        forall|k: int| last_index_of(s, c) < k < s.len() ==> s[k] != c,
    decreases s.len(),
{
    if s.len() > 0 && s.last() != c {
        lemma_last_index_of(s.drop_last(), c);
        assert forall|k: int| last_index_of(s, c) < k < s.len() implies s[k] != c by {
            if k < s.len() - 1 {
                assert(s[k] == s.drop_last()[k]);
            }
        }
    }
}

/// `str::rsplit_once(c)`.
pub open spec fn rsplit_once(s: Seq<char>, c: char) -> Option<(Seq<char>, Seq<char>)> {
    let i = last_index_of(s, c);
    if i < 0 {
        None
    } else {
        Some((s.take(i), s.skip(i + 1)))
    }
}

/// `s.rsplit(c).next()`: what follows the last `c` (all of `s` without one).
pub open spec fn after_last(s: Seq<char>, c: char) -> Seq<char> {
    s.skip(last_index_of(s, c) + 1)
}

/// Index of the first `c` in `cs[from..]`, or `cs.len()`.
pub fn find_char(cs: &Vec<char>, c: char, from: usize) -> (i: usize)
    requires
        from <= cs.len(),
    ensures
        from <= i <= cs.len(),
        forall|k: int| from <= k < i ==> cs@[k] != c,
        i == cs.len() || cs@[i as int] == c,
        index_of(cs@.skip(from as int), c) == i - from,
{
    let mut i = from;
    while i < cs.len() && cs[i] != c
        invariant
            from <= i <= cs.len(),
            forall|k: int| from <= k < i ==> cs@[k] != c,
        decreases cs.len() - i,
    {
        i += 1;
    }
    proof {
        let t = cs@.skip(from as int);
        assert forall|k: int| 0 <= k < i - from implies t[k] != c by {
            assert(t[k] == cs@[k + from]);
        }
        lemma_index_of_at(t, c, i - from);
    }
    i
}

/// Index of the last `c` in `cs`, or `-1`.
pub fn rfind_char(cs: &Vec<char>, c: char) -> (r: Option<usize>)
    ensures
        r matches Some(i) ==> last_index_of(cs@, c) == i && i < cs.len() && cs@[i as int] == c,
        r is None ==> last_index_of(cs@, c) == -1,
{
    let mut j = cs.len();
    while j > 0 && cs[j - 1] != c
        invariant
            j <= cs.len(),
            forall|k: int| j <= k < cs.len() ==> cs@[k] != c,
        decreases j,
    {
        j -= 1;
    }
    proof {
        lemma_last_index_at(cs@, c, j as int - 1);
    }
    if j == 0 {
        None
    } else {
        Some(j - 1)
    }
}

pub proof fn lemma_last_index_at(s: Seq<char>, c: char, i: int)
    requires
        -1 <= i < s.len(),
        forall|k: int| i < k < s.len() ==> s[k] != c,
        i == -1 || s[i] == c,
    ensures
        last_index_of(s, c) == i,
    decreases s.len(),
{
    if s.len() > 0 && i < s.len() - 1 {
        let t = s.drop_last();
        lemma_last_index_at(t, c, i);
    }
}

/// `str::split_once(c)`.
pub fn str_split_once(s: &str, c: char) -> (r: Option<(&str, &str)>)
    ensures
        r matches Some((a, b)) ==> split_once(s@, c) == Some((a@, b@)),
        r is None ==> split_once(s@, c) is None,
{
    let cs = chars_of(s);
    let i = find_char(&cs, c, 0);
    proof {
        assert(cs@.skip(0) =~= cs@);
    }
    if i == cs.len() {
        None
    } else {
        Some((s.substring_char(0, i), s.substring_char(i + 1, cs.len())))
    }
}

/// `str::rsplit_once(c)`.
pub fn str_rsplit_once(s: &str, c: char) -> (r: Option<(&str, &str)>)
    ensures
        r matches Some((a, b)) ==> rsplit_once(s@, c) == Some((a@, b@)),
        r is None ==> rsplit_once(s@, c) is None,
{
    let cs = chars_of(s);
    match rfind_char(&cs, c) {
        None => None,
        Some(i) => Some((s.substring_char(0, i), s.substring_char(i + 1, cs.len()))),
    }
}

/// `s.rsplit(c).next()`.
pub fn str_after_last(s: &str, c: char) -> (r: &str)
    ensures
        r@ == after_last(s@, c),
{
    let cs = chars_of(s);
    match rfind_char(&cs, c) {
        None => {
            proof {
                assert(s@.skip(0) =~= s@);
            }
            s
        },
        Some(i) => s.substring_char(i + 1, cs.len()),
    }
}

/// `s.split(c).next()`: what comes before the first `c` (all of `s` without one).
pub open spec fn before_first(s: Seq<char>, c: char) -> Seq<char> {
    s.take(index_of(s, c) as int)
}

pub fn str_before_first(s: &str, c: char) -> (r: &str)
    ensures
        r@ == before_first(s@, c),
{
    let cs = chars_of(s);
    let i = find_char(&cs, c, 0);
    proof {
        assert(cs@.skip(0) =~= cs@);
    }
    s.substring_char(0, i)
}

pub proof fn lemma_split_step(s: Seq<char>, c: char, start: int, i: int)
    requires
        0 <= start <= i < s.len(),
        forall|k: int| start <= k < i ==> s[k] != c,
        s[i] == c,
    ensures
        split_on(s.skip(start), c) == seq![s.subrange(start, i)] + split_on(s.skip(i + 1), c),
{
    let t = s.skip(start);
    assert forall|k: int| 0 <= k < i - start implies t[k] != c by {
        assert(t[k] == s[k + start]);
    }
    assert(t[i - start] == s[i]);
    lemma_index_of_at(t, c, i - start);
    assert(t.take(i - start) =~= s.subrange(start, i));
    assert(t.skip(i - start + 1) =~= s.skip(i + 1));
}

pub proof fn lemma_split_last(s: Seq<char>, c: char, start: int)
    requires
        0 <= start <= s.len(),
        forall|k: int| start <= k < s.len() ==> s[k] != c,
    ensures
        split_on(s.skip(start), c) == seq![s.skip(start)],
{
    let t = s.skip(start);
    assert forall|k: int| 0 <= k < t.len() implies t[k] != c by {
        assert(t[k] == s[k + start]);
    }
    lemma_index_of_at(t, c, t.len() as int);
}

pub open spec fn views(v: Seq<&str>) -> Seq<Seq<char>> {
    v.map_values(|x: &str| x@)
}

/// `str::split(c)`.
pub fn split_char<'a>(s: &'a str, c: char) -> (r: Vec<&'a str>)
    ensures
        views(r@) == split_on(s@, c),
{
    let cs = chars_of(s);
    let mut out: Vec<&'a str> = Vec::new();
    let mut start: usize = 0;
    let mut i: usize = 0;
    proof {
        assert(s@.skip(0) =~= s@);
        assert(views(out@) + split_on(s@.skip(0), c) =~= split_on(s@, c));
    }
    while i < cs.len()
        invariant
            cs@ == s@,
            start <= i <= cs.len(),
            forall|k: int| start <= k < i ==> s@[k] != c,
            views(out@) + split_on(s@.skip(start as int), c) == split_on(s@, c),
        decreases cs.len() - i,
    {
        if cs[i] == c {
            let piece = s.substring_char(start, i);
            proof {
                lemma_split_step(s@, c, start as int, i as int);
                assert(views(out@.push(piece)) =~= views(out@).push(piece@));
                assert(views(out@.push(piece)) + split_on(s@.skip(i + 1), c) =~= views(out@)
                    + (seq![piece@] + split_on(s@.skip(i + 1), c)));
            }
            out.push(piece);
            start = i + 1;
        }
        i += 1;
    }
    let piece = s.substring_char(start, cs.len());
    proof {
        lemma_split_last(s@, c, start as int);
        assert(views(out@.push(piece)) =~= views(out@).push(piece@));
        assert(views(out@) + seq![s@.skip(start as int)] =~= views(out@).push(piece@));
    }
    out.push(piece);
    out
}

// ── Lines ───────────────────────────────────────────────────────────────────

/// Drops one trailing `'\r'`.
pub open spec fn strip_cr(l: Seq<char>) -> Seq<char> {
    if l.len() > 0 && l.last() == '\r' {
        l.drop_last()
    } else {
        l
    }
}

/// `str::lines`: split on `'\n'`, no final empty line after a trailing
/// newline, and one `'\r'` removed from the end of each line.
pub open spec fn lines_of(s: Seq<char>) -> Seq<Seq<char>> {
    let pieces = if s.len() == 0 {
        Seq::<Seq<char>>::empty()
    } else if s.last() == '\n' {
        split_on(s, '\n').drop_last()
    } else {
        split_on(s, '\n')
    };
    pieces.map_values(|l: Seq<char>| strip_cr(l))
}

pub proof fn lemma_split_nonempty(s: Seq<char>, c: char)
    ensures
        split_on(s, c).len() >= 1,
    decreases s.len(),
{
    lemma_index_of(s, c);
    if index_of(s, c) < s.len() {
        lemma_split_nonempty(s.skip((index_of(s, c) + 1) as int), c);
    }
}

pub proof fn lemma_split_ends_empty(s: Seq<char>, c: char)
    requires
        s.len() > 0,
        s.last() == c,
    ensures
        split_on(s, c).last() == Seq::<char>::empty(),
    decreases s.len(),
{
    lemma_index_of(s, c);
    let i = index_of(s, c);
    let t = s.skip((i + 1) as int);
    if t.len() > 0 {
        assert(t.last() == s.last());
        lemma_split_ends_empty(t, c);
        lemma_split_nonempty(t, c);
    } else {
        lemma_index_of(t, c);
        assert(split_on(t, c) == seq![t]);
        assert(t =~= Seq::<char>::empty());
    }
}

/// `str::lines`.
pub fn lines<'a>(s: &'a str) -> (r: Vec<&'a str>)
    ensures
        views(r@) == lines_of(s@),
{
    let pieces = split_char(s, '\n');
    let n = s.unicode_len();
    let mut count = pieces.len();
    proof {
        lemma_split_nonempty(s@, '\n');
    }
    if n == 0 {
        count = 0;
    } else if s.get_char(n - 1) == '\n' {
        proof {
            lemma_split_ends_empty(s@, '\n');
        }
        count = count - 1;
    }
    let ghost base: Seq<Seq<char>> = views(pieces@).take(count as int);
    proof {
        if n != 0 && s@.last() == '\n' {
            assert(base =~= split_on(s@, '\n').drop_last());
        } else if n != 0 {
            assert(base =~= split_on(s@, '\n'));
        } else {
            assert(base =~= Seq::<Seq<char>>::empty());
        }
    }
    let mut out: Vec<&'a str> = Vec::new();
    let mut k: usize = 0;
    while k < count
        invariant
            count <= pieces.len(),
            base == views(pieces@).take(count as int),
            0 <= k <= count,
            out@.len() == k,
            forall|j: int| 0 <= j < k ==> (#[trigger] out@[j])@ == strip_cr(base[j]),
        decreases count - k,
    {
        let p = pieces[k];
        let m = p.unicode_len();
        let line = if m > 0 && p.get_char(m - 1) == '\r' {
            p.substring_char(0, m - 1)
        } else {
            p
        };
        proof {
            assert(p@ == base[k as int]);
            if m > 0 && p@.last() == '\r' {
                assert(line@ =~= p@.drop_last());
            }
        }
        out.push(line);
        k += 1;
    }
    proof {
        assert(views(out@) =~= base.map_values(|l: Seq<char>| strip_cr(l)));
    }
    out
}

// ── Whitespace-separated words ──────────────────────────────────────────────

/// Index of the first whitespace character of `s`, or `s.len()`.
pub open spec fn word_len(s: Seq<char>) -> nat
    decreases s.len(),
{
    if s.len() == 0 || is_ws(s[0]) {
        0
    } else {
        word_len(s.drop_first()) + 1
    }
}

pub proof fn lemma_word_len(s: Seq<char>, i: int)
    requires
        0 <= i <= s.len(),
        forall|k: int| 0 <= k < i ==> !is_ws(#[trigger] s[k]),
        i == s.len() || is_ws(s[i]),
    ensures
        word_len(s) == i,
    decreases i,
{
    if i > 0 {
        let t = s.drop_first();
        assert forall|k: int| 0 <= k < i - 1 implies !is_ws(#[trigger] t[k]) by {
            assert(t[k] == s[k + 1]);
        }
        lemma_word_len(t, i - 1);
    }
}

pub proof fn lemma_word_len_bound(s: Seq<char>)
    ensures
        word_len(s) <= s.len(),
        s.len() > 0 && !is_ws(s[0]) ==> word_len(s) >= 1,
    decreases s.len(),
{
    if s.len() > 0 && !is_ws(s[0]) {
        lemma_word_len_bound(s.drop_first());
    }
}

pub proof fn lemma_trim_start_len(s: Seq<char>)
    ensures
        trimmed_start(s).len() <= s.len(),
        trimmed_start(s).len() > 0 ==> !is_ws(trimmed_start(s)[0]),
    decreases s.len(),
{
    if s.len() > 0 && is_ws(s[0]) {
        lemma_trim_start_len(s.drop_first());
    }
}

proof fn lemma_trim_end_prefix(u: Seq<char>)
    ensures
        trimmed_end(u).len() <= u.len(),
        trimmed_end(u) == u.take(trimmed_end(u).len() as int),
        trimmed_end(u).len() > 0 ==> !is_ws(trimmed_end(u).last()),
    decreases u.len(),
{
    if u.len() > 0 && is_ws(u.last()) {
        lemma_trim_end_prefix(u.drop_last());
        assert(u.drop_last().take(trimmed_end(u).len() as int) =~= u.take(trimmed_end(u).len() as int));
    } else {
        assert(u.take(u.len() as int) =~= u);
    }
}

/// Trimming twice is trimming once.
pub proof fn lemma_trimmed_idempotent(s: Seq<char>)
    ensures
        trimmed(trimmed(s)) == trimmed(s),
{
    let u = trimmed_start(s);
    lemma_trim_start_len(s);
    lemma_trim_end_prefix(u);
    let t = trimmed_end(u);
    if t.len() > 0 {
        assert(t[0] == u.take(t.len() as int)[0]);
        assert(trimmed_start(t) == t);
        assert(trimmed_end(t) == t);
    } else {
        assert(trimmed_start(t) == t);
        assert(trimmed_end(t) == t);
    }
}

/// `str::split_whitespace`.
pub open spec fn words(s: Seq<char>) -> Seq<Seq<char>>
    decreases s.len(),
{
    let t = trimmed_start(s);
    if t.len() == 0 {
        Seq::empty()
    } else {
        let n = word_len(t);
        proof {
            lemma_trim_start_len(s);
            lemma_word_len_bound(t);
        }
        seq![t.take(n as int)] + words(t.skip(n as int))
    }
}

/// `str::split_whitespace`.
pub fn split_whitespace<'a>(s: &'a str) -> (r: Vec<&'a str>)
    ensures
        views(r@) == words(s@),
{
    let cs = chars_of(s);
    let mut out: Vec<&'a str> = Vec::new();
    let mut i: usize = 0;
    proof {
        assert(s@.skip(0) =~= s@);
    }
    while i < cs.len()
        invariant
            cs@ == s@,
            i <= cs.len(),
            views(out@) + words(s@.skip(i as int)) == words(s@),
        decreases cs.len() - i,
    {
        let a = skip_ws(&cs, i, cs.len());
        proof {
            let t = s@.skip(i as int);
            assert forall|k: int| 0 <= k < a - i implies is_ws(#[trigger] t[k]) by {
                assert(t[k] == s@[k + i]);
            }
            lemma_trim_start(t, a - i);
            assert(t.subrange(a - i, t.len() as int) =~= s@.skip(a as int));
        }
        if a == cs.len() {
            proof {
                assert(words(s@.skip(i as int)) =~= Seq::<Seq<char>>::empty());
                assert(views(out@) + Seq::<Seq<char>>::empty() =~= views(out@));
            }
            i = a;
        } else {
            let mut b = a;
            while b < cs.len() && !is_whitespace(cs[b])
                invariant
                    cs@ == s@,
                    a <= b <= cs.len(),
                    forall|k: int| a <= k < b ==> !is_ws(#[trigger] cs@[k]),
                decreases cs.len() - b,
            {
                b += 1;
            }
            let w = s.substring_char(a, b);
            proof {
                let t = s@.skip(a as int);
                assert forall|k: int| 0 <= k < b - a implies !is_ws(#[trigger] t[k]) by {
                    assert(t[k] == s@[k + a]);
                }
                lemma_word_len(t, b - a);
                assert(t.take(b - a) =~= w@);
                assert(t.skip(b - a) =~= s@.skip(b as int));
                assert(views(out@.push(w)) =~= views(out@).push(w@));
                assert(views(out@.push(w)) + words(s@.skip(b as int)) =~= views(out@) + (seq![
                    w@,
                ] + words(s@.skip(b as int))));
            }
            out.push(w);
            i = b;
        }
    }
    proof {
        assert(s@.skip(i as int) =~= Seq::<char>::empty());
        assert(views(out@) + Seq::<Seq<char>>::empty() =~= views(out@));
    }
    out
}

// ── Prefixes ────────────────────────────────────────────────────────────────

/// `str::strip_prefix`.
pub open spec fn strip_prefix(s: Seq<char>, p: Seq<char>) -> Option<Seq<char>> {
    if starts_with(s, p) {
        Some(s.skip(p.len() as int))
    } else {
        None
    }
}

pub fn str_strip_prefix<'a>(s: &'a str, p: &str) -> (r: Option<&'a str>)
    ensures
        r matches Some(t) ==> strip_prefix(s@, p@) == Some(t@),
        r is None ==> strip_prefix(s@, p@) is None,
{
    if str_starts_with(s, p) {
        let n = s.unicode_len();
        let m = p.unicode_len();
        Some(s.substring_char(m, n))
    } else {
        None
    }
}

/// The rest of the first of `ls` that starts with `p` (`find_map` over
/// `strip_prefix`).
pub open spec fn find_prefixed(ls: Seq<Seq<char>>, p: Seq<char>) -> Option<Seq<char>>
    decreases ls.len(),
{
    if ls.len() == 0 {
        None
    } else {
        match strip_prefix(ls[0], p) {
            Some(r) => Some(r),
            None => find_prefixed(ls.drop_first(), p),
        }
    }
}

pub fn find_prefixed_exec<'a>(ls: &Vec<&'a str>, p: &str) -> (r: Option<&'a str>)
    ensures
        r matches Some(t) ==> find_prefixed(views(ls@), p@) == Some(t@),
        r is None ==> find_prefixed(views(ls@), p@) is None,
{
    let ghost lv = views(ls@);
    let mut i: usize = 0;
    proof {
        assert(lv.subrange(0, lv.len() as int) =~= lv);
    }
    while i < ls.len()
        invariant
            i <= ls.len(),
            lv == views(ls@),
            find_prefixed(lv, p@) == find_prefixed(lv.subrange(i as int, lv.len() as int), p@),
        decreases ls.len() - i,
    {
        proof {
            assert(lv.subrange(i as int, lv.len() as int).drop_first() =~= lv.subrange(
                i + 1,
                lv.len() as int,
            ));
            assert(lv.subrange(i as int, lv.len() as int)[0] == ls@[i as int]@);
        }
        match str_strip_prefix(ls[i], p) {
            Some(t) => {
                return Some(t);
            },
            None => {},
        }
        i += 1;
    }
    proof {
        assert(lv.subrange(i as int, lv.len() as int) =~= Seq::<Seq<char>>::empty());
    }
    None
}

/// Every piece trimmed.
pub open spec fn all_trimmed(v: Seq<Seq<char>>) -> Seq<Seq<char>> {
    v.map_values(|x: Seq<char>| trimmed(x))
}

pub fn trim_all<'a>(v: &Vec<&'a str>) -> (r: Vec<&'a str>)
    ensures
        views(r@) == all_trimmed(views(v@)),
{
    let mut out: Vec<&'a str> = Vec::new();
    let mut i: usize = 0;
    while i < v.len()
        invariant
            i <= v.len(),
            out@.len() == i,
            forall|k: int| 0 <= k < i ==> (#[trigger] out@[k])@ == trimmed(v@[k]@),
        decreases v.len() - i,
    {
        out.push(trim(v[i]));
        i += 1;
    }
    proof {
        assert(views(out@) =~= all_trimmed(views(v@)));
    }
    out
}

/// `str::strip_suffix`.
pub open spec fn strip_suffix(s: Seq<char>, p: Seq<char>) -> Option<Seq<char>> {
    if ends_with(s, p) {
        Some(s.take(s.len() - p.len()))
    } else {
        None
    }
}

pub fn str_strip_suffix<'a>(s: &'a str, p: &str) -> (r: Option<&'a str>)
    ensures
        r matches Some(t) ==> strip_suffix(s@, p@) == Some(t@),
        r is None ==> strip_suffix(s@, p@) is None,
{
    if str_ends_with(s, p) {
        let n = s.unicode_len();
        let m = p.unicode_len();
        Some(s.substring_char(0, n - m))
    } else {
        None
    }
}

/// `str::trim_end_matches(c)`: every trailing `c` removed.
pub open spec fn trim_end_char(s: Seq<char>, c: char) -> Seq<char>
    decreases s.len(),
{
    if s.len() > 0 && s.last() == c {
        trim_end_char(s.drop_last(), c)
    } else {
        s
    }
}

/// `str::trim_start_matches(c)`: every leading `c` removed.
pub open spec fn trim_start_char(s: Seq<char>, c: char) -> Seq<char>
    decreases s.len(),
{
    if s.len() > 0 && s[0] == c {
        trim_start_char(s.drop_first(), c)
    } else {
        s
    }
}

pub fn str_trim_end_char(s: &str, c: char) -> (r: &str)
    ensures
        r@ == trim_end_char(s@, c),
{
    let cs = chars_of(s);
    let mut j = cs.len();
    proof {
        assert(s@.take(j as int) =~= s@);
    }
    while j > 0 && cs[j - 1] == c
        invariant
            j <= cs.len(),
            cs@ == s@,
            trim_end_char(s@, c) == trim_end_char(s@.take(j as int), c),
        decreases j,
    {
        proof {
            assert(s@.take(j as int).drop_last() =~= s@.take(j - 1));
        }
        j -= 1;
    }
    proof {
        assert(s@.take(j as int) =~= s@.subrange(0, j as int));
    }
    s.substring_char(0, j)
}

pub fn str_trim_start_char(s: &str, c: char) -> (r: &str)
    ensures
        r@ == trim_start_char(s@, c),
{
    let cs = chars_of(s);
    let mut i: usize = 0;
    proof {
        assert(s@.skip(0) =~= s@);
    }
    while i < cs.len() && cs[i] == c
        invariant
            i <= cs.len(),
            cs@ == s@,
            trim_start_char(s@, c) == trim_start_char(s@.skip(i as int), c),
        decreases cs.len() - i,
    {
        proof {
            assert(s@.skip(i as int).drop_first() =~= s@.skip(i + 1));
        }
        i += 1;
    }
    s.substring_char(i, cs.len())
}

// ── Numbers ─────────────────────────────────────────────────────────────────

pub open spec fn all_digits(s: Seq<char>) -> bool {
    forall|i: int| 0 <= i < s.len() ==> is_digit(#[trigger] s[i])
}

/// The value of a run of decimal digits.
pub open spec fn digits_value(s: Seq<char>) -> nat
    decreases s.len(),
{
    if s.len() == 0 {
        0
    } else {
        digits_value(s.drop_last()) * 10 + ((s.last() as nat) - ('0' as nat)) as nat
    }
}

/// `s` without one leading `'+'`.
pub open spec fn unsigned_body(s: Seq<char>) -> Seq<char> {
    if s.len() > 0 && s[0] == '+' {
        s.drop_first()
    } else {
        s
    }
}

/// `str::parse` for an unsigned integer type whose largest value is `max`.
pub open spec fn parse_unsigned(s: Seq<char>, max: nat) -> Option<nat> {
    let d = unsigned_body(s);
    if d.len() > 0 && all_digits(d) && digits_value(d) <= max {
        Some(digits_value(d))
    } else {
        None
    }
}

/// `str::parse` for a signed integer type with range `-(max+1) ..= max`.
pub open spec fn parse_signed(s: Seq<char>, max: nat) -> Option<int> {
    if s.len() > 0 && s[0] == '-' {
        let d = s.drop_first();
        if d.len() > 0 && all_digits(d) && digits_value(d) <= max + 1 {
            Some(-(digits_value(d) as int))
        } else {
            None
        }
    } else {
        match parse_unsigned(s, max) {
            Some(v) => Some(v as int),
            None => None,
        }
    }
}

pub proof fn lemma_digits_prefix(s: Seq<char>, k: int)
    requires
        0 <= k <= s.len(),
        all_digits(s),
    ensures
        digits_value(s.take(k)) <= digits_value(s),
    decreases s.len() - k,
{
    if k < s.len() {
        lemma_digits_prefix(s.drop_last(), k);
        assert(s.drop_last().take(k) =~= s.take(k));
    } else {
        assert(s.take(k) =~= s);
    }
}

/// Value of the digits `cs[from..to]`, when they are all digits and the
/// value is at most `max`.
fn digits_in(cs: &Vec<char>, from: usize, to: usize, max: u64) -> (r: Option<u64>)
    requires
        from <= to <= cs.len(),
    ensures
        r matches Some(v) ==> all_digits(cs@.subrange(from as int, to as int)) && v
            == digits_value(cs@.subrange(from as int, to as int)) && v <= max,
        r is None ==> !(all_digits(cs@.subrange(from as int, to as int)) && digits_value(
            cs@.subrange(from as int, to as int),
        ) <= max),
{
    let ghost d = cs@.subrange(from as int, to as int);
    let mut v: u64 = 0;
    let mut i = from;
    while i < to
        invariant
            from <= i <= to <= cs.len(),
            d == cs@.subrange(from as int, to as int),
            all_digits(d.take(i - from)),
            v == digits_value(d.take(i - from)),
            v <= max,
        decreases to - i,
    {
        let c = cs[i];
        proof {
            assert(d.take(i - from + 1).drop_last() =~= d.take(i - from));
            assert(d.take(i - from + 1).last() == c);
        }
        if !('0' <= c && c <= '9') {
            proof {
                assert(d[i - from] == c);
            }
            return None;
        }
        let digit = (c as u32 - '0' as u32) as u64;
        if v > max / 10 || digit > max - v * 10 {
            proof {
                assert(v * 10 + digit > max) by (nonlinear_arith)
                    requires
                        v > max / 10 || digit > max - v * 10,
                        v <= max,
                ;
                assert(all_digits(d) ==> digits_value(d) > max) by {
                    if all_digits(d) {
                        lemma_digits_prefix(d, i - from + 1);
                    }
                }
            }
            return None;
        }
        v = v * 10 + digit;
        i += 1;
    }
    proof {
        assert(d.take(to - from) =~= d);
    }
    Some(v)
}

/// `str::parse::<uN>()`, where `max` is the type's largest value.
pub fn parse_uint(s: &str, max: u64) -> (r: Option<u64>)
    ensures
        r matches Some(v) ==> parse_unsigned(s@, max as nat) == Some(v as nat),
        r is None ==> parse_unsigned(s@, max as nat) is None,
{
    let cs = chars_of(s);
    let from: usize = if cs.len() > 0 && cs[0] == '+' {
        1
    } else {
        0
    };
    proof {
        assert(unsigned_body(s@) =~= cs@.subrange(from as int, cs.len() as int));
    }
    if from == cs.len() {
        return None;
    }
    digits_in(&cs, from, cs.len(), max)
}

/// `str::parse::<i64>()`.
pub fn parse_i64(s: &str) -> (r: Option<i64>)
    ensures
        r matches Some(v) ==> parse_signed(s@, i64::MAX as nat) == Some(v as int),
        r is None ==> parse_signed(s@, i64::MAX as nat) is None,
{
    let cs = chars_of(s);
    if cs.len() > 0 && cs[0] == '-' {
        proof {
            assert(s@.drop_first() =~= cs@.subrange(1, cs.len() as int));
        }
        if cs.len() == 1 {
            return None;
        }
        match digits_in(&cs, 1, cs.len(), 9_223_372_036_854_775_808u64) {
            Some(v) => {
                if v == 9_223_372_036_854_775_808u64 {
                    Some(i64::MIN)
                } else {
                    Some(-(v as i64))
                }
            },
            None => None,
        }
    } else {
        match parse_uint(s, i64::MAX as u64) {
            Some(v) => Some(v as i64),
            None => None,
        }
    }
}

/// Decimal digit `d` as a character.
pub open spec fn digit_char(d: nat) -> char {
    (('0' as nat) + d) as char
}

/// The decimal rendering of `n`, as `format!("{}", n)` writes it.
pub open spec fn dec(n: nat) -> Seq<char>
    decreases n,
{
    if n < 10 {
        seq![digit_char(n)]
    } else {
        dec(n / 10) + seq![digit_char(n % 10)]
    }
}

/// A signed integer as `format!("{}", n)` writes it.
pub open spec fn dec_int(n: int) -> Seq<char> {
    if n < 0 {
        seq!['-'] + dec((-n) as nat)
    } else {
        dec(n as nat)
    }
}

/// The one-character string holding digit `d`.
fn digit_str(d: u64) -> (r: &'static str)
    requires
        d < 10,
    ensures
        r@ == seq![digit_char(d as nat)],
{
    proof {
        reveal_strlit("0123456789");
    }
    let r = "0123456789".substring_char(d as usize, d as usize + 1);
    proof {
        assert(r@[0] == "0123456789"@[d as int]);
        assert(r@ =~= seq![digit_char(d as nat)]);
    }
    r
}

/// `format!("{}", n)`.
pub fn dec_string(n: u64) -> (r: String)
    ensures
        r@ == dec(n as nat),
    decreases n,
{
    if n < 10 {
        String::from_str(digit_str(n))
    } else {
        let mut s = dec_string(n / 10);
        s.append(digit_str(n % 10));
        s
    }
}

/// `format!("{}", n)` for a signed value.
pub fn dec_string_i64(n: i64) -> (r: String)
    ensures
        r@ == dec_int(n as int),
{
    if n < 0 {
        let m: u64 = if n == i64::MIN {
            9_223_372_036_854_775_808u64
        } else {
            (-n) as u64
        };
        let mut s = String::from_str("-");
        let d = dec_string(m);
        s.append(d.as_str());
        proof {
            reveal_strlit("-");
        }
        s
    } else {
        dec_string(n as u64)
    }
}

/// `c` repeated `n` times.
pub open spec fn repeat(c: char, n: nat) -> Seq<char>
    decreases n,
{
    if n == 0 {
        Seq::empty()
    } else {
        repeat(c, (n - 1) as nat).push(c)
    }
}

pub proof fn lemma_repeat_len(c: char, n: nat)
    ensures
        repeat(c, n).len() == n,
    decreases n,
{
    if n > 0 {
        lemma_repeat_len(c, (n - 1) as nat);
    }
}

/// Left-pad `s` with `c` to at least `width` characters (`{:>w}`, `{:0w}`).
pub open spec fn pad_left(s: Seq<char>, c: char, width: nat) -> Seq<char> {
    if s.len() >= width {
        s
    } else {
        repeat(c, (width - s.len()) as nat) + s
    }
}

pub fn pad_left_string(s: &str, c: &str, width: usize) -> (r: String)
    requires
        c@.len() == 1,
    ensures
        r@ == pad_left(s@, c@[0], width as nat),
{
    let n = s.unicode_len();
    let mut out = String::new();
    if n < width {
        let mut k: usize = 0;
        while k < width - n
            invariant
                n < width,
                c@.len() == 1,
                k <= width - n,
                out@ == repeat(c@[0], k as nat),
            decreases width - n - k,
        {
            out.append(c);
            proof {
                assert(out@ =~= repeat(c@[0], k as nat).push(c@[0]));
            }
            k += 1;
        }
    }
    out.append(s);
    proof {
        if n >= width {
            assert(out@ =~= s@);
        }
    }
    out
}

// ── Joining ─────────────────────────────────────────────────────────────────

/// `[String]::join(sep)`.
pub open spec fn joined(parts: Seq<Seq<char>>, sep: Seq<char>) -> Seq<char>
    decreases parts.len(),
{
    if parts.len() == 0 {
        Seq::empty()
    } else if parts.len() == 1 {
        parts[0]
    } else {
        joined(parts.drop_last(), sep) + sep + parts.last()
    }
}

pub open spec fn string_views(v: Seq<String>) -> Seq<Seq<char>> {
    v.map_values(|s: String| s@)
}

/// `parts.join(sep)` over owned strings.
pub fn join_strings(parts: &[String], sep: &str) -> (r: String)
    ensures
        r@ == joined(string_views(parts@), sep@),
{
    let mut out = String::new();
    let mut i: usize = 0;
    while i < parts.len()
        invariant
            i <= parts.len(),
            out@ == joined(string_views(parts@.take(i as int)), sep@),
        decreases parts.len() - i,
    {
        proof {
            assert(string_views(parts@.take(i + 1)).drop_last() =~= string_views(
                parts@.take(i as int),
            ));
            assert(string_views(parts@.take(i + 1)).last() == parts@[i as int]@);
            if i == 0 {
                assert(string_views(parts@.take(1))[0] == parts@[0]@);
            }
        }
        if i > 0 {
            out.append(sep);
        } else {
            proof {
                assert(out@ =~= Seq::<char>::empty());
            }
        }
        out.append(parts[i].as_str());
        proof {
            if i == 0 {
                assert(out@ =~= parts@[0]@);
            }
        }
        i += 1;
    }
    proof {
        assert(parts@.take(parts.len() as int) =~= parts@);
    }
    out
}

/// `parts.join(sep)` over borrowed strings.
pub fn join_strs(parts: &Vec<&str>, sep: &str) -> (r: String)
    ensures
        r@ == joined(views(parts@), sep@),
{
    let mut out = String::new();
    let mut i: usize = 0;
    while i < parts.len()
        invariant
            i <= parts.len(),
            out@ == joined(views(parts@.take(i as int)), sep@),
        decreases parts.len() - i,
    {
        proof {
            assert(views(parts@.take(i + 1)).drop_last() =~= views(parts@.take(i as int)));
            assert(views(parts@.take(i + 1)).last() == parts@[i as int]@);
            if i == 0 {
                assert(views(parts@.take(1))[0] == parts@[0]@);
            }
        }
        if i > 0 {
            out.append(sep);
        } else {
            proof {
                assert(out@ =~= Seq::<char>::empty());
            }
        }
        out.append(parts[i]);
        proof {
            if i == 0 {
                assert(out@ =~= parts@[0]@);
            }
        }
        i += 1;
    }
    proof {
        assert(parts@.take(parts.len() as int) =~= parts@);
    }
    out
}

pub proof fn lemma_div_smaller(n: nat, b: nat)
    requires
        b >= 2,
        n >= b,
    ensures
        n / b < n,
{
    assert(n / b < n) by (nonlinear_arith)
        requires
            b >= 2,
            n >= b,
    ;
}

/// Lower-case hexadecimal digit `d` (0..16) as a character.
pub open spec fn hex_char(d: nat) -> char {
    if d < 10 {
        digit_char(d)
    } else {
        (('a' as nat) + (d - 10)) as char
    }
}

/// `n` written in base `b` (2..=16), as `{:o}` / `{:x}` write it.
pub open spec fn radix(n: nat, b: nat) -> Seq<char>
    decreases n,
{
    if b < 2 || n < b {
        seq![hex_char(n)]
    } else {
        proof {
            lemma_div_smaller(n, b);
        }
        radix(n / b, b) + seq![hex_char(n % b)]
    }
}

fn hex_digit_str(d: u64) -> (r: &'static str)
    requires
        d < 16,
    ensures
        r@ == seq![hex_char(d as nat)],
{
    proof {
        reveal_strlit("0123456789abcdef");
    }
    let r = "0123456789abcdef".substring_char(d as usize, d as usize + 1);
    proof {
        assert(r@[0] == "0123456789abcdef"@[d as int]);
        assert(r@ =~= seq![hex_char(d as nat)]);
    }
    r
}

/// `format!("{:o}", n)` (base 8) or `format!("{:x}", n)` (base 16).
pub fn radix_string(n: u64, b: u64) -> (r: String)
    requires
        2 <= b <= 16,
    ensures
        r@ == radix(n as nat, b as nat),
    decreases n,
{
    if n < b {
        String::from_str(hex_digit_str(n))
    } else {
        proof {
            lemma_div_smaller(n as nat, b as nat);
        }
        let mut s = radix_string(n / b, b);
        s.append(hex_digit_str(n % b));
        s
    }
}

/// `v.contains(s)` over owned strings.
pub fn contains_string(v: &Vec<String>, s: &str) -> (r: bool)
    ensures
        r == string_views(v@).contains(s@),
{
    let mut i: usize = 0;
    while i < v.len()
        invariant
            i <= v.len(),
            forall|k: int| 0 <= k < i ==> (#[trigger] v@[k])@ != s@,
        decreases v.len() - i,
    {
        if str_eq(v[i].as_str(), s) {
            proof {
                assert(string_views(v@)[i as int] == s@);
            }
            return true;
        }
        i += 1;
    }
    proof {
        if string_views(v@).contains(s@) {
            let k = choose|k: int| 0 <= k < string_views(v@).len() && string_views(v@)[k] == s@;
            assert(v@[k]@ == s@);
        }
    }
    false
}

/// `str::trim_start_matches(p)` for a string pattern: every leading copy
/// of `p` removed.
pub open spec fn trim_start_str(s: Seq<char>, p: Seq<char>) -> Seq<char>
    decreases s.len(),
{
    if p.len() > 0 && starts_with(s, p) {
        trim_start_str(s.skip(p.len() as int), p)
    } else {
        s
    }
}

pub fn str_trim_start_str<'a>(s: &'a str, p: &str) -> (r: &'a str)
    ensures
        r@ == trim_start_str(s@, p@),
{
    let n = s.unicode_len();
    let m = p.unicode_len();
    if m == 0 {
        return s;
    }
    let mut cur = s;
    while str_starts_with(cur, p)
        invariant
            m == p@.len(),
            m > 0,
            trim_start_str(s@, p@) == trim_start_str(cur@, p@),
        decreases cur@.len(),
    {
        let k = cur.unicode_len();
        cur = cur.substring_char(m, k);
    }
    cur
}

pub open spec fn is_quote(c: char) -> bool {
    c == '"' || c == '\''
}

/// `str::trim_matches(['"', '\''])`: quotes removed from both ends.
pub open spec fn trim_quotes(s: Seq<char>) -> Seq<char> {
    trim_end_quotes(trim_start_quotes(s))
}

pub open spec fn trim_start_quotes(s: Seq<char>) -> Seq<char>
    decreases s.len(),
{
    if s.len() > 0 && is_quote(s[0]) {
        trim_start_quotes(s.drop_first())
    } else {
        s
    }
}

pub open spec fn trim_end_quotes(s: Seq<char>) -> Seq<char>
    decreases s.len(),
{
    if s.len() > 0 && is_quote(s.last()) {
        trim_end_quotes(s.drop_last())
    } else {
        s
    }
}

pub fn str_trim_quotes<'a>(s: &'a str) -> (r: &'a str)
    ensures
        r@ == trim_quotes(s@),
{
    let mut cur = s;
    while cur.unicode_len() > 0 && (cur.get_char(0) == '"' || cur.get_char(0) == '\'')
        invariant
            trim_start_quotes(s@) == trim_start_quotes(cur@),
        decreases cur@.len(),
    {
        let k = cur.unicode_len();
        proof {
            assert(cur@.drop_first() =~= cur@.subrange(1, k as int));
        }
        cur = cur.substring_char(1, k);
    }
    let ghost mid = cur@;
    while cur.unicode_len() > 0 && (cur.get_char(cur.unicode_len() - 1) == '"' || cur.get_char(
        cur.unicode_len() - 1,
    ) == '\'')
        invariant
            trim_start_quotes(s@) == mid,
            trim_end_quotes(mid) == trim_end_quotes(cur@),
        decreases cur@.len(),
    {
        let k = cur.unicode_len();
        proof {
            assert(cur@.drop_last() =~= cur@.subrange(0, k - 1));
        }
        cur = cur.substring_char(0, k - 1);
    }
    cur
}

/// `a <= b` as `str` compares: lexicographically by code point (which is
/// the byte order of UTF-8).
pub open spec fn str_le(a: Seq<char>, b: Seq<char>) -> bool
    decreases a.len(),
{
    if a.len() == 0 {
        true
    } else if b.len() == 0 {
        false
    } else if a[0] < b[0] {
        true
    } else if a[0] > b[0] {
        false
    } else {
        str_le(a.drop_first(), b.drop_first())
    }
}

/// `a < b` as `str` compares.
pub open spec fn str_lt(a: Seq<char>, b: Seq<char>) -> bool {
    str_le(a, b) && a != b
}

pub fn str_le_exec(a: &str, b: &str) -> (r: bool)
    ensures
        r == str_le(a@, b@),
{
    let x = chars_of(a);
    let y = chars_of(b);
    let mut i: usize = 0;
    proof {
        assert(a@.skip(0) =~= a@);
        assert(b@.skip(0) =~= b@);
    }
    while i < x.len() && i < y.len() && x[i] == y[i]
        invariant
            x@ == a@,
            y@ == b@,
            i <= x.len(),
            i <= y.len(),
            str_le(a@, b@) == str_le(a@.skip(i as int), b@.skip(i as int)),
        decreases x.len() - i,
    {
        proof {
            assert(a@.skip(i as int).drop_first() =~= a@.skip(i + 1));
            assert(b@.skip(i as int).drop_first() =~= b@.skip(i + 1));
        }
        i += 1;
    }
    if i == x.len() {
        true
    } else if i == y.len() {
        false
    } else {
        proof {
            assert(a@.skip(i as int)[0] == x@[i as int]);
            assert(b@.skip(i as int)[0] == y@[i as int]);
        }
        x[i] < y[i]
    }
}

/// `a < b` as `str` compares.
pub fn str_lt_exec(a: &str, b: &str) -> (r: bool)
    ensures
        r == str_lt(a@, b@),
{
    str_le_exec(a, b) && !str_eq(a, b)
}

/// Any two strings compare one way or the other.
pub proof fn lemma_str_le_total(a: Seq<char>, b: Seq<char>)
    ensures
        str_le(a, b) || str_le(b, a),
    decreases a.len(),
{
    if a.len() > 0 && b.len() > 0 && a[0] == b[0] {
        lemma_str_le_total(a.drop_first(), b.drop_first());
    }
}

/// Strings that compare both ways are equal.
pub proof fn lemma_str_le_antisymmetric(a: Seq<char>, b: Seq<char>)
    requires
        str_le(a, b),
        str_le(b, a),
    ensures
        a == b,
    decreases a.len(),
{
    if a.len() == 0 {
        assert(a =~= b);
    } else {
        lemma_str_le_antisymmetric(a.drop_first(), b.drop_first());
        assert forall|i: int| 0 <= i < a.len() implies a[i] == b[i] by {
            if i > 0 {
                assert(a[i] == a.drop_first()[i - 1]);
                assert(b[i] == b.drop_first()[i - 1]);
            }
        }
        assert(a =~= b);
    }
}

/// The order is transitive.
pub proof fn lemma_str_le_transitive(a: Seq<char>, b: Seq<char>, c: Seq<char>)
    requires
        str_le(a, b),
        str_le(b, c),
    ensures
        str_le(a, c),
    decreases a.len(),
{
    if a.len() > 0 && b.len() > 0 && c.len() > 0 && a[0] == b[0] && b[0] == c[0] {
        lemma_str_le_transitive(a.drop_first(), b.drop_first(), c.drop_first());
    }
}

/// The strict order is transitive.
pub proof fn lemma_str_lt_transitive(a: Seq<char>, b: Seq<char>, c: Seq<char>)
    requires
        str_lt(a, b),
        str_lt(b, c),
    ensures
        str_lt(a, c),
{
    lemma_str_le_transitive(a, b, c);
    if a == c {
        lemma_str_le_antisymmetric(a, b);
    }
}

/// Two different strings: one is strictly before the other.
pub proof fn lemma_str_lt_trichotomy(a: Seq<char>, b: Seq<char>)
    requires
        a != b,
    ensures
        str_lt(a, b) || str_lt(b, a),
{
    lemma_str_le_total(a, b);
}

} // verus!
