//! Notification building and repeat-damping. The payload is built here so
//! its shape is fixed in one place — the receiving automation parses these
//! fields, and a silent rename would break its events log.

use vstd::prelude::*;
use vstd::string::*;
use crate::text::{dec, dec_string, parse_unsigned, parse_uint, string_views, str_eq, trim, trimmed};

verus! {

/// A lowercase hexadecimal digit.
pub open spec fn hex_digit(n: nat) -> char {
    if n < 10 {
        (48 + n) as char
    } else {
        (87 + n) as char
    }
}

/// How `serde_json` writes one character inside a string: the quote and the
/// backslash escaped with a backslash; backspace, form feed, line feed,
/// carriage return and tab by their short escapes; every other character
/// below U+0020 as `\u00` and two lowercase hex digits; everything else
/// as it is.
pub open spec fn json_char(c: char) -> Seq<char> {
    if c == '"' {
        seq!['\\', '"']
    } else if c == '\\' {
        seq!['\\', '\\']
    } else if c == '\u{8}' {
        seq!['\\', 'b']
    } else if c == '\u{c}' {
        seq!['\\', 'f']
    } else if c == '\n' {
        seq!['\\', 'n']
    } else if c == '\r' {
        seq!['\\', 'r']
    } else if c == '\t' {
        seq!['\\', 't']
    } else if (c as u32) < 32 {
        seq!['\\', 'u', '0', '0', hex_digit((c as u32 / 16) as nat), hex_digit((c as u32 % 16) as nat)]
    } else {
        seq![c]
    }
}

/// The characters of a string as `serde_json` writes them inside quotes.
pub open spec fn json_escaped(s: Seq<char>) -> Seq<char>
    decreases s.len(),
{
    if s.len() == 0 {
        Seq::empty()
    } else {
        json_escaped(s.drop_last()) + json_char(s.last())
    }
}

/// The JSON text `serde_json` writes for a string: the string quoted, with
/// its special characters escaped.
pub open spec fn json_string(s: Seq<char>) -> Seq<char> {
    seq!['"'] + json_escaped(s) + seq!['"']
}

/// `serde_json::to_string` on a `&str`: the string in quotes, each
/// character written as [`json_char`] says (the escape table of the
/// serializer). Serialising a string into memory cannot fail (the source
/// writes into a `Vec<u8>` and only a failing writer or a failing
/// `Serialize` impl produces an error), so the error arm is never taken.
#[verifier::external_body]
pub(crate) fn json_quote(s: &str) -> (r: String)
    ensures
        r@ == json_string(s@),
{
    match serde_json::to_string(s) {
        Ok(j) => j,
        Err(_) => String::new(),
    }
}

/// The payload of one event, with its keys in the order `serde_json` writes
/// an object's keys (sorted).
pub open spec fn payload(
    op: Seq<char>,
    label: Seq<char>,
    ok: bool,
    error: Option<Seq<char>>,
    version: Seq<char>,
) -> Seq<char> {
    "{\"error\":"@ + match error {
        Some(e) => json_string(e),
        None => "null"@,
    } + ",\"label\":"@ + json_string(label) + ",\"ok\":"@ + (if ok {
        "true"@
    } else {
        "false"@
    }) + ",\"op\":"@ + json_string(op) + ",\"source\":"@ + json_string("homelab-host"@)
        + ",\"version\":"@ + json_string(version) + "}"@
}

pub open spec fn opt_str(o: Option<&str>) -> Option<Seq<char>> {
    match o {
        Some(s) => Some(s@),
        None => None,
    }
}

/// One event, exactly as POSTed to the webhook — and the only place a
/// payload is built, so every event has the same fields.
pub fn op_payload(op: &str, label: &str, ok: bool, error: Option<&str>, version: &str) -> (r:
    String)
    ensures
        r@ == payload(op@, label@, ok, opt_str(error), version@),
{
    let mut s = String::from_str("{\"error\":");
    match error {
        Some(e) => {
            let j = json_quote(e);
            s.append(j.as_str());
        },
        None => {
            s.append("null");
        },
    }
    s.append(",\"label\":");
    let j = json_quote(label);
    s.append(j.as_str());
    s.append(",\"ok\":");
    if ok {
        s.append("true");
    } else {
        s.append("false");
    }
    s.append(",\"op\":");
    let j = json_quote(op);
    s.append(j.as_str());
    s.append(",\"source\":");
    let j = json_quote("homelab-host");
    s.append(j.as_str());
    s.append(",\"version\":");
    let j = json_quote(version);
    s.append(j.as_str());
    s.append("}");
    s
}

/// The key a failure is damped under: the operation and its error text.
pub open spec fn damper_key(op: Seq<char>, error: Option<Seq<char>>) -> Seq<char> {
    op + "|"@ + match error {
        Some(e) => e,
        None => Seq::empty(),
    }
}

/// `now - then`, or 0 when the clock went backwards.
pub open spec fn elapsed(now: u64, then: u64) -> int {
    if now >= then {
        now - then
    } else {
        0
    }
}

/// Decide-and-record: whether to send, and what the damper remembers after.
pub open spec fn damp(
    window: u64,
    sent: Map<Seq<char>, u64>,
    op: Seq<char>,
    ok: bool,
    error: Option<Seq<char>>,
    now: u64,
) -> (bool, Map<Seq<char>, u64>) {
    let key = damper_key(op, error);
    if ok {
        (true, sent)
    } else if sent.contains_key(key) && elapsed(now, sent[key]) < window {
        (false, sent)
    } else {
        (true, sent.insert(key, now))
    }
}

/// The map a list of keys and times stands for.
pub open spec fn pairs_map(ks: Seq<Seq<char>>, ts: Seq<u64>) -> Map<Seq<char>, u64>
    decreases ks.len(),
{
    if ks.len() == 0 {
        Map::empty()
    } else {
        pairs_map(ks.drop_last(), ts.take(ks.len() - 1)).insert(ks.last(), ts[ks.len() - 1])
    }
}

pub open spec fn no_repeats(ks: Seq<Seq<char>>) -> bool {
    forall|i: int, j: int| 0 <= i < j < ks.len() ==> ks[i] != ks[j]
}

/// Failure-repeat damping: an identical failing event inside the window is
/// suppressed; successes are never suppressed, and a changed error text
/// passes through (it is new information).
pub struct NotifyDamper {
    window_s: u64,
    keys: Vec<String>,
    times: Vec<u64>,
}

impl NotifyDamper {
    pub closed spec fn window(&self) -> u64 {
        self.window_s
    }

    /// When each damped key was last sent.
    pub closed spec fn sent(&self) -> Map<Seq<char>, u64> {
        pairs_map(string_views(self.keys@), self.times@)
    }

    pub closed spec fn wf(&self) -> bool {
        &&& self.keys@.len() == self.times@.len()
        &&& no_repeats(string_views(self.keys@))
    }

    pub fn new(window_s: u64) -> (r: Self)
        ensures
            r.wf(),
            r.window() == window_s,
            r.sent() == Map::<Seq<char>, u64>::empty(),
    {
        let r = NotifyDamper { window_s, keys: Vec::new(), times: Vec::new() };
        proof {
            assert(string_views(r.keys@) =~= Seq::<Seq<char>>::empty());
        }
        r
    }

    /// Decide-and-record. `now` is handed in: this library reads no clock.
    pub fn should_send(&mut self, op: &str, ok: bool, error: Option<&str>, now: u64) -> (r: bool)
        requires
            old(self).wf(),
        ensures
            final(self).wf(),
            final(self).window() == old(self).window(),
            (r, final(self).sent()) == damp(
                old(self).window(),
                old(self).sent(),
                op@,
                ok,
                opt_str(error),
                now,
            ),
    {
        if ok {
            return true;
        }
        let mut key = String::from_str(op);
        key.append("|");
        match error {
            Some(e) => {
                key.append(e);
            },
            None => {},
        }
        proof {
            assert(key@ =~= damper_key(op@, opt_str(error)));
        }
        let ghost ks = string_views(self.keys@);
        let ghost ts = self.times@;
        let mut i: usize = 0;
        while i < self.keys.len()
            invariant
                i <= self.keys.len(),
                ks == string_views(self.keys@),
                forall|j: int| 0 <= j < i ==> ks[j] != key@,
            ensures
                i <= self.keys.len(),
                forall|j: int| 0 <= j < i ==> ks[j] != key@,
                i < self.keys.len() ==> ks[i as int] == key@,
            decreases self.keys.len() - i,
        {
            if str_eq(self.keys[i].as_str(), key.as_str()) {
                break;
            }
            i += 1;
        }
        if i < self.keys.len() {
            let t = self.times[i];
            proof {
                assert(ks[i as int] == key@);
                lemma_pairs_get(ks, ts, i as int);
            }
            let since = if now >= t {
                now - t
            } else {
                0
            };
            if since < self.window_s {
                return false;
            }
            self.times.set(i, now);
            proof {
                lemma_pairs_update(ks, ts, i as int, now);
                assert(self.times@ =~= ts.update(i as int, now));
            }
            true
        } else {
            proof {
                lemma_pairs_absent(ks, ts, key@);
            }
            self.keys.push(key);
            self.times.push(now);
            proof {
                assert(string_views(self.keys@) =~= ks.push(key@));
                assert(ks.push(key@).drop_last() =~= ks);
                assert(self.times@.take(ks.len() as int) =~= ts);
            }
            true
        }
    }
}

proof fn lemma_pairs_absent(ks: Seq<Seq<char>>, ts: Seq<u64>, k: Seq<char>)
    requires
        forall|j: int| 0 <= j < ks.len() ==> ks[j] != k,
    ensures
        !pairs_map(ks, ts).contains_key(k),
    decreases ks.len(),
{
    if ks.len() > 0 {
        lemma_pairs_absent(ks.drop_last(), ts.take(ks.len() - 1), k);
    }
}

proof fn lemma_pairs_get(ks: Seq<Seq<char>>, ts: Seq<u64>, i: int)
    requires
        no_repeats(ks),
        ks.len() == ts.len(),
        0 <= i < ks.len(),
    ensures
        pairs_map(ks, ts).contains_key(ks[i]),
        pairs_map(ks, ts)[ks[i]] == ts[i],
    decreases ks.len(),
{
    if i < ks.len() - 1 {
        lemma_pairs_get(ks.drop_last(), ts.take(ks.len() - 1), i);
    }
}

proof fn lemma_pairs_update(ks: Seq<Seq<char>>, ts: Seq<u64>, i: int, v: u64)
    requires
        no_repeats(ks),
        ks.len() == ts.len(),
        0 <= i < ks.len(),
    ensures
        pairs_map(ks, ts.update(i, v)) == pairs_map(ks, ts).insert(ks[i], v),
    decreases ks.len(),
{
    let n = ks.len() - 1;
    if i == n {
        assert(ts.update(i, v).take(n) =~= ts.take(n));
        lemma_pairs_absent(ks.drop_last(), ts.take(n), ks[i]);
        assert(pairs_map(ks, ts.update(i, v)) =~= pairs_map(ks, ts).insert(ks[i], v));
    } else {
        assert(ts.update(i, v).take(n) =~= ts.take(n).update(i, v));
        lemma_pairs_update(ks.drop_last(), ts.take(n), i, v);
        assert(ks[n] != ks[i]);
        assert(pairs_map(ks, ts.update(i, v)) =~= pairs_map(ks, ts).insert(ks[i], v));
    }
}

/// A success is never suppressed and leaves what the damper remembers as it
/// was.
pub proof fn law_success_always_sent(
    window: u64,
    sent: Map<Seq<char>, u64>,
    op: Seq<char>,
    error: Option<Seq<char>>,
    now: u64,
)
    ensures
        damp(window, sent, op, true, error, now) == (true, sent),
{
}

/// A failure that was just sent is suppressed when it repeats, with the same
/// error text, before the window has passed.
pub proof fn law_repeat_within_window_suppressed(
    window: u64,
    sent: Map<Seq<char>, u64>,
    op: Seq<char>,
    error: Option<Seq<char>>,
    t0: u64,
    t1: u64,
)
    requires
        damp(window, sent, op, false, error, t0).0,
        t0 <= t1,
        t1 - t0 < window,
    ensures
        !damp(window, damp(window, sent, op, false, error, t0).1, op, false, error, t1).0,
{
    let key = damper_key(op, error);
    assert(damp(window, sent, op, false, error, t0).1 == sent.insert(key, t0));
}

/// Once the window has passed since it was sent, the same failure is sent
/// again (still broken: a reminder).
pub proof fn law_repeat_after_window_sent(
    window: u64,
    sent: Map<Seq<char>, u64>,
    op: Seq<char>,
    error: Option<Seq<char>>,
    t0: u64,
    t1: u64,
)
    requires
        damp(window, sent, op, false, error, t0).0,
        t1 >= t0 + window,
    ensures
        damp(window, damp(window, sent, op, false, error, t0).1, op, false, error, t1).0,
{
    let key = damper_key(op, error);
    assert(damp(window, sent, op, false, error, t0).1 == sent.insert(key, t0));
}

/// A failure with a different error text is new information: what was sent
/// under another text does not hold it back.
pub proof fn law_changed_error_passes(
    window: u64,
    sent: Map<Seq<char>, u64>,
    op: Seq<char>,
    e1: Option<Seq<char>>,
    e2: Option<Seq<char>>,
    t0: u64,
    t1: u64,
)
    requires
        damper_key(op, e1) != damper_key(op, e2),
        !sent.contains_key(damper_key(op, e2)),
    ensures
        damp(window, damp(window, sent, op, false, e1, t0).1, op, false, e2, t1).0,
{
}

/// Whether the POST arrived.
#[derive(Debug, Clone, PartialEq, Eq)]
pub enum Delivery {
    /// The far end answered 2xx.
    Delivered,
    /// It did not, and this is what curl said about it.
    Failed(String),
}

/// The text `{:?}` writes for a string: quoted, with `escape_debug` applied.
pub uninterp spec fn debug_string(s: Seq<char>) -> Seq<char>;

/// `format!("{:?}", s)` for a `&str`: a function of the string alone.
#[verifier::external_body]
pub(crate) fn debug_quote(s: &str) -> (r: String)
    ensures
        r@ == debug_string(s@),
{
    format!("{:?}", s)
}

pub open spec fn delivery_view(d: Delivery) -> Option<Seq<char>> {
    match d {
        Delivery::Delivered => None,
        Delivery::Failed(m) => Some(m@),
    }
}

/// curl's verdict read off its exit status and the code it printed: `None`
/// for delivered, else the failure message. Only 2xx counts.
pub open spec fn delivery(ran: bool, http_code: Seq<char>) -> Option<Seq<char>> {
    if !ran {
        Some("curl did not run or timed out"@)
    } else {
        match parse_unsigned(trimmed(http_code), 65535) {
            Some(c) => if 200 <= c < 300 {
                None
            } else if c == 0 {
                Some("no answer (connection refused, DNS, or timeout)"@)
            } else {
                Some("HTTP "@ + dec(c))
            },
            None => Some("unreadable status "@ + debug_string(trimmed(http_code))),
        }
    }
}

/// Read curl's verdict off its exit status and the code it printed.
/// Deliberately strict: only 2xx counts as delivered.
pub fn verdict(ran: bool, http_code: &str) -> (r: Delivery)
    ensures
        delivery_view(r) == delivery(ran, http_code@),
{
    if !ran {
        return Delivery::Failed(String::from_str("curl did not run or timed out"));
    }
    let t = trim(http_code);
    match parse_uint(t, 65535) {
        Some(c) => {
            if 200 <= c && c < 300 {
                Delivery::Delivered
            } else if c == 0 {
                Delivery::Failed(
                    String::from_str("no answer (connection refused, DNS, or timeout)"),
                )
            } else {
                let mut s = String::from_str("HTTP ");
                let d = dec_string(c);
                s.append(d.as_str());
                Delivery::Failed(s)
            }
        },
        None => {
            let mut s = String::from_str("unreadable status ");
            let q = debug_quote(t);
            s.append(q.as_str());
            Delivery::Failed(s)
        },
    }
}

pub open spec fn route_of(primary: Option<Seq<char>>, fallback: Option<Seq<char>>) -> Seq<
    Seq<char>,
> {
    (match primary {
        Some(p) => seq![p],
        None => Seq::empty(),
    }) + match fallback {
        Some(f) => if Some(f) != primary {
            seq![f]
        } else {
            Seq::empty()
        },
        None => Seq::empty(),
    }
}

/// Where a notification goes, in order: the primary hub, then the direct
/// fallback — which is tried only when it is a different place.
pub fn route<'a>(primary: Option<&'a str>, fallback: Option<&'a str>) -> (r: Vec<&'a str>)
    ensures
        crate::text::views(r@) == route_of(opt_str(primary), opt_str(fallback)),
{
    let mut v: Vec<&'a str> = Vec::new();
    if let Some(p) = primary {
        v.push(p);
    }
    if let Some(f) = fallback {
        let same = match primary {
            Some(p) => str_eq(f, p),
            None => false,
        };
        if !same {
            v.push(f);
        }
    }
    proof {
        assert(crate::text::views(v@) =~= route_of(opt_str(primary), opt_str(fallback)));
    }
    v
}

} // verus!
