//! OPNsense Kea DHCP reservations. Static IPs in the manifests remain the
//! source of truth; the reservation makes the DHCP server never hand the
//! address to anyone else. What stands here is the input validation: these
//! values are interpolated into a root shell on the host, so only
//! provably-inert characters pass.

use vstd::prelude::*;
use vstd::string::*;
use crate::error::CoreError;
use crate::notify::{json_quote, json_string};
use crate::executor::{Cmd, Executor, OutputView, Request};
use crate::text::{
    str_trim_end_char, trim_end_char, trim, trimmed, string_views,
    all_digits, digits_value, is_hex_digit, is_lower_dashed, lower_dashed_str, parse_uint,
    parse_unsigned, split_char, split_on, split_once, str_split_once, chars_of, views, str_eq,
};

verus! {

#[derive(Debug, Clone)]
pub struct KeaCfg {
    /// e.g. "https://10.10.10.1" (the OPNsense web UI base).
    pub base_url: String,
    /// Host-side file containing `key:secret` for basic auth.
    pub cred_file: String,
}

/// One dotted-quad part that `valid_ipv4` accepts: one to three digits,
/// value at most 255.
pub open spec fn good_octet(p: Seq<char>) -> bool {
    0 < p.len() <= 3 && all_digits(p) && digits_value(p) <= 255
}

/// Exactly four dot-separated parts, each one to three digits up to 255.
pub open spec fn is_valid_ipv4(s: Seq<char>) -> bool {
    let ps = split_on(s, '.');
    ps.len() == 4 && forall|i: int| 0 <= i < ps.len() ==> good_octet(#[trigger] ps[i])
}

/// 17 characters, six colon-separated parts, only hex digits and colons.
pub open spec fn is_valid_mac(s: Seq<char>) -> bool {
    &&& s.len() == 17
    &&& split_on(s, ':').len() == 6
    &&& forall|i: int| 0 <= i < s.len() ==> is_hex_digit(#[trigger] s[i]) || s[i] == ':'
}

/// Strict input validation: a dotted-quad IPv4 address and nothing else.
pub fn valid_ipv4(s: &str) -> (r: bool)
    ensures
        r == is_valid_ipv4(s@),
{
    let parts = split_char(s, '.');
    let ghost ps = views(parts@);
    let mut i: usize = 0;
    while i < parts.len()
        invariant
            ps == views(parts@),
            ps == split_on(s@, '.'),
            i <= parts.len(),
            forall|k: int| 0 <= k < i ==> good_octet(#[trigger] ps[k]),
        decreases parts.len() - i,
    {
        let p = parts[i];
        let n = p.unicode_len();
        proof {
            assert(ps[i as int] == p@);
        }
        if n == 0 || n > 3 {
            return false;
        }
        match parse_uint(p, 999) {
            Some(v) => {
                if v > 255 {
                    return false;
                }
                proof {
                    if p@.len() > 0 && p@[0] == '+' {
                        assert(!crate::text::is_digit(p@[0]));
                    }
                    assert(crate::text::unsigned_body(p@) == p@ || (p@.len() > 0 && p@[0] == '+'));
                }
                if p.get_char(0) == '+' {
                    return false;
                }
                proof {
                    assert(crate::text::unsigned_body(p@) == p@);
                }
            },
            None => {
                proof {
                    if all_digits(p@) {
                        assert(crate::text::unsigned_body(p@) == p@) by {
                            if p@[0] == '+' {
                                assert(crate::text::is_digit(p@[0]));
                            }
                        }
                        lemma_three_digits(p@);
                    }
                }
                return false;
            },
        }
        i += 1;
    }
    parts.len() == 4
}

proof fn lemma_three_digits(p: Seq<char>)
    requires
        p.len() <= 3,
        all_digits(p),
    ensures
        digits_value(p) <= 999,
{
    reveal_with_fuel(crate::text::digits_value, 4);
    if p.len() >= 1 {
        assert(crate::text::is_digit(p[0]));
    }
    if p.len() >= 2 {
        assert(crate::text::is_digit(p[1]));
    }
    if p.len() >= 3 {
        assert(crate::text::is_digit(p[2]));
    }
    if p.len() == 3 {
        assert(p.drop_last().drop_last().drop_last().len() == 0);
        assert(p.drop_last().last() == p[1]);
        assert(p.drop_last().drop_last().last() == p[0]);
    } else if p.len() == 2 {
        assert(p.drop_last().drop_last().len() == 0);
        assert(p.drop_last().last() == p[0]);
    }
}

/// A MAC address: `BC:24:11:AA:BB:CC`, nothing else.
pub fn valid_mac(s: &str) -> (r: bool)
    ensures
        r == is_valid_mac(s@),
{
    let cs = chars_of(s);
    if cs.len() != 17 {
        return false;
    }
    let pieces = split_char(s, ':');
    proof {
        assert(views(pieces@).len() == pieces@.len());
    }
    if pieces.len() != 6 {
        return false;
    }
    let mut i: usize = 0;
    while i < cs.len()
        invariant
            cs@ == s@,
            i <= cs.len(),
            forall|k: int| 0 <= k < i ==> is_hex_digit(#[trigger] s@[k]) || s@[k] == ':',
        decreases cs.len() - i,
    {
        let c = cs[i];
        if !(('0' <= c && c <= '9') || ('a' <= c && c <= 'f') || ('A' <= c && c <= 'F') || c
            == ':') {
            return false;
        }
        i += 1;
    }
    true
}

/// A hostname made only of `[a-z0-9-]`, and not empty.
pub fn valid_hostname(s: &str) -> (r: bool)
    ensures
        r == is_lower_dashed(s@),
{
    lower_dashed_str(s)
}

pub open spec fn octet_ok(v: Option<nat>) -> bool {
    v matches Some(x) && x < 256
}

/// The 32-bit value of a dotted quad whose parts each parse below 256.
pub open spec fn v4_value(s: Seq<char>) -> Option<nat> {
    let ps = split_on(s, '.');
    if ps.len() == 4 && forall|i: int|
        0 <= i < 4 ==> octet_ok(#[trigger] parse_unsigned(ps[i], u32::MAX as nat)) {
        Some(
            parse_unsigned(ps[0], u32::MAX as nat)->0 * 0x100_0000 + parse_unsigned(
                ps[1],
                u32::MAX as nat,
            )->0 * 0x1_0000 + parse_unsigned(ps[2], u32::MAX as nat)->0 * 0x100
                + parse_unsigned(ps[3], u32::MAX as nat)->0,
        )
    } else {
        None
    }
}

/// `ip` lies inside `cidr` (`10.10.10.0/24`): both are dotted quads, the
/// prefix length is 1 to 32, and the first `bits` bits agree.
pub open spec fn in_cidr(ip: Seq<char>, cidr: Seq<char>) -> bool {
    match split_once(cidr, '/') {
        None => false,
        Some((net, bits)) => match (v4_value(ip), v4_value(net), parse_unsigned(bits, u32::MAX as nat)) {
            (Some(a), Some(b), Some(n)) => 1 <= n <= 32 && a / pow2((32 - n) as nat) == b / pow2(
                (32 - n) as nat,
            ),
            _ => false,
        },
    }
}

pub open spec fn pow2(n: nat) -> nat
    decreases n,
{
    if n == 0 {
        1
    } else {
        2 * pow2((n - 1) as nat)
    }
}

fn v4(s: &str) -> (r: Option<u64>)
    ensures
        r matches Some(v) ==> v4_value(s@) == Some(v as nat),
        r is None ==> v4_value(s@) is None,
{
    let parts = split_char(s, '.');
    let ghost ps = views(parts@);
    if parts.len() != 4 {
        return None;
    }
    let mut vals: Vec<u64> = Vec::new();
    let mut i: usize = 0;
    while i < 4
        invariant
            ps == views(parts@),
            ps == split_on(s@, '.'),
            parts.len() == 4,
            i <= 4,
            vals.len() == i,
            forall|k: int|
                0 <= k < i ==> (#[trigger] parse_unsigned(ps[k], u32::MAX as nat)) == Some(
                    vals@[k] as nat,
                ) && vals@[k] < 256,
        decreases 4 - i,
    {
        proof {
            assert(ps[i as int] == parts@[i as int]@);
        }
        match parse_uint(parts[i], 0xFFFF_FFFF) {
            Some(v) => {
                if v >= 256 {
                    return None;
                }
                vals.push(v);
            },
            None => {
                return None;
            },
        }
        i += 1;
    }
    let r = vals[0] * 0x100_0000 + vals[1] * 0x1_0000 + vals[2] * 0x100 + vals[3];
    proof {
        assert(parse_unsigned(ps[0], u32::MAX as nat) == Some(vals@[0] as nat));
        assert(parse_unsigned(ps[1], u32::MAX as nat) == Some(vals@[1] as nat));
        assert(parse_unsigned(ps[2], u32::MAX as nat) == Some(vals@[2] as nat));
        assert(parse_unsigned(ps[3], u32::MAX as nat) == Some(vals@[3] as nat));
    }
    Some(r)
}

fn div_pow2(v: u64, n: u32) -> (r: u64)
    requires
        n <= 32,
    ensures
        r as nat == (v as nat) / pow2(n as nat),
{
    let mut r = v;
    let mut k: u32 = 0;
    proof {
        assert(pow2(0) == 1);
        assert((v as nat) / 1 == v as nat);
    }
    while k < n
        invariant
            k <= n <= 32,
            r as nat == (v as nat) / pow2(k as nat),
        decreases n - k,
    {
        proof {
            lemma_pow2_pos(k as nat);
            vstd::arithmetic::div_mod::lemma_div_denominator(v as int, pow2(k as nat) as int, 2);
            assert(pow2((k + 1) as nat) == pow2(k as nat) * 2) by (nonlinear_arith)
                requires pow2((k + 1) as nat) == 2 * pow2(k as nat);
        }
        r = r / 2;
        k += 1;
    }
    r
}

proof fn lemma_pow2_pos(n: nat)
    ensures
        pow2(n) > 0,
    decreases n,
{
    if n > 0 {
        lemma_pow2_pos((n - 1) as nat);
    }
}

/// `10.10.10.8` in `10.10.10.0/24`?
pub fn ip_in_cidr(ip: &str, cidr: &str) -> (r: bool)
    ensures
        r == in_cidr(ip@, cidr@),
{
    let (net, bits) = match str_split_once(cidr, '/') {
        Some(p) => p,
        None => return false,
    };
    let a = v4(ip);
    let b = v4(net);
    let n = parse_uint(bits, 0xFFFF_FFFF);
    match (a, b, n) {
        (Some(a), Some(b), Some(n)) => {
            if n == 0 || n > 32 {
                return false;
            }
            let shift = (32 - n) as u32;
            div_pow2(a, shift) == div_pow2(b, shift)
        },
        _ => false,
    }
}

// ── A reservation ───────────────────────────────────────────────────────────

/// What `reserve` refuses before it asks the firewall anything.
pub open spec fn reservation_refusal(ip: Seq<char>, mac: Seq<char>, hostname: Seq<char>) -> Option<Seq<char>> {
    if !is_valid_ipv4(ip) {
        Some("kea: '"@ + ip + "' is not an IPv4 address"@)
    } else if !is_valid_mac(mac) {
        Some("kea: '"@ + mac + "' is not a MAC address"@)
    } else if !is_lower_dashed(hostname) {
        Some("kea: hostname '"@ + hostname + "' contains non-inert characters"@)
    } else {
        None
    }
}

pub fn check_reservation(ip: &str, mac: &str, hostname: &str) -> (r: Result<(), CoreError>)
    ensures
        match reservation_refusal(ip@, mac@, hostname@) {
            None => r is Ok,
            Some(m) => r matches Err(CoreError::Validation(x)) && x@ == m,
        },
{
    if !valid_ipv4(ip) {
        let mut s = String::from_str("kea: '");
        s.append(ip);
        s.append("' is not an IPv4 address");
        return Err(CoreError::Validation(s));
    }
    if !valid_mac(mac) {
        let mut s = String::from_str("kea: '");
        s.append(mac);
        s.append("' is not a MAC address");
        return Err(CoreError::Validation(s));
    }
    if !valid_hostname(hostname) {
        let mut s = String::from_str("kea: hostname '");
        s.append(hostname);
        s.append("' contains non-inert characters");
        return Err(CoreError::Validation(s));
    }
    Ok(())
}

/// One row of a firewall answer: its key field and its `uuid`, each
/// present only as a string.
pub type KeaRow = (Option<String>, Option<String>);

pub open spec fn row_views(v: Seq<KeaRow>) -> Seq<(Option<Seq<char>>, Option<Seq<char>>)> {
    v.map_values(|p: KeaRow| (opt_view(p.0), opt_view(p.1)))
}

pub open spec fn opt_view(o: Option<String>) -> Option<Seq<char>> {
    match o {
        Some(s) => Some(s@),
        None => None,
    }
}

/// The uuid of the first row whose subnet holds the address.
pub open spec fn first_subnet(ip: Seq<char>, rows: Seq<(Option<Seq<char>>, Option<Seq<char>>)>) -> Option<Seq<char>>
    decreases rows.len(),
{
    if rows.len() == 0 {
        None
    } else if rows[0].0 matches Some(c) && in_cidr(ip, c) {
        rows[0].1
    } else {
        first_subnet(ip, rows.drop_first())
    }
}

/// The uuid of the first row reserving the address.
pub open spec fn first_reservation(ip: Seq<char>, rows: Seq<(Option<Seq<char>>, Option<Seq<char>>)>) -> Option<Seq<char>>
    decreases rows.len(),
{
    if rows.len() == 0 {
        None
    } else if rows[0].0 == Some(ip) {
        rows[0].1
    } else {
        first_reservation(ip, rows.drop_first())
    }
}

fn clone_opt(o: &Option<String>) -> (r: Option<String>)
    ensures
        opt_view(r) == opt_view(*o),
{
    match o {
        Some(s) => Some(s.clone()),
        None => None,
    }
}

/// The subnet the address belongs to, from the firewall's `(subnet, uuid)`
/// rows; an error when none matches.
pub fn pick_subnet(ip: &str, rows: &Vec<KeaRow>) -> (r: Result<String, CoreError>)
    ensures
        match first_subnet(ip@, row_views(rows@)) {
            Some(u) => r matches Ok(x) && x@ == u,
            None => r matches Err(CoreError::Other(m)) && m@ == "no Kea subnet matches "@ + ip@,
        },
{
    let ghost rv = row_views(rows@);
    let mut i: usize = 0;
    proof {
        assert(rv.subrange(0, rv.len() as int) =~= rv);
    }
    while i < rows.len()
        invariant
            i <= rows.len(),
            rv == row_views(rows@),
            first_subnet(ip@, rv) == first_subnet(ip@, rv.subrange(i as int, rv.len() as int)),
        decreases rows.len() - i,
    {
        proof {
            assert(rv.subrange(i as int, rv.len() as int).drop_first() =~= rv.subrange(i + 1, rv.len() as int));
            assert(rv.subrange(i as int, rv.len() as int)[0] == (opt_view(rows@[i as int].0), opt_view(rows@[i as int].1)));
        }
        let hit = match &rows[i].0 {
            Some(c) => ip_in_cidr(ip, c.as_str()),
            None => false,
        };
        if hit {
            match &rows[i].1 {
                Some(u) => return Ok(u.clone()),
                None => {
                    let mut m = String::from_str("no Kea subnet matches ");
                    m.append(ip);
                    return Err(CoreError::Other(m));
                },
            }
        }
        i += 1;
    }
    proof {
        assert(rv.subrange(i as int, rv.len() as int) =~= Seq::<(Option<Seq<char>>, Option<Seq<char>>)>::empty());
    }
    let mut m = String::from_str("no Kea subnet matches ");
    m.append(ip);
    Err(CoreError::Other(m))
}

/// The reservation already holding the address, from `(ip, uuid)` rows.
pub fn existing_reservation(ip: &str, rows: &Vec<KeaRow>) -> (r: Option<String>)
    ensures
        opt_view(r) == first_reservation(ip@, row_views(rows@)),
{
    let ghost rv = row_views(rows@);
    let mut i: usize = 0;
    proof {
        assert(rv.subrange(0, rv.len() as int) =~= rv);
    }
    while i < rows.len()
        invariant
            i <= rows.len(),
            rv == row_views(rows@),
            first_reservation(ip@, rv) == first_reservation(ip@, rv.subrange(i as int, rv.len() as int)),
        decreases rows.len() - i,
    {
        proof {
            assert(rv.subrange(i as int, rv.len() as int).drop_first() =~= rv.subrange(i + 1, rv.len() as int));
            assert(rv.subrange(i as int, rv.len() as int)[0] == (opt_view(rows@[i as int].0), opt_view(rows@[i as int].1)));
        }
        let hit = match &rows[i].0 {
            Some(x) => str_eq(x.as_str(), ip),
            None => false,
        };
        if hit {
            return clone_opt(&rows[i].1);
        }
        i += 1;
    }
    proof {
        assert(rv.subrange(i as int, rv.len() as int) =~= Seq::<(Option<Seq<char>>, Option<Seq<char>>)>::empty());
    }
    None
}

/// The reservation as the firewall's API takes it.
pub open spec fn reservation_body_of(subnet: Seq<char>, ip: Seq<char>, mac: Seq<char>, hostname: Seq<char>) -> Seq<char> {
    "{\"reservation\":{\"hostname\":"@ + json_string(hostname) + ",\"hw_address\":"@ + json_string(mac)
        + ",\"ip_address\":"@ + json_string(ip) + ",\"subnet\":"@ + json_string(subnet) + "}}"@
}

pub fn reservation_body(subnet: &str, ip: &str, mac: &str, hostname: &str) -> (r: String)
    ensures
        r@ == reservation_body_of(subnet@, ip@, mac@, hostname@),
{
    let mut s = String::from_str("{\"reservation\":{\"hostname\":");
    let h = json_quote(hostname);
    s.append(h.as_str());
    s.append(",\"hw_address\":");
    let m = json_quote(mac);
    s.append(m.as_str());
    s.append(",\"ip_address\":");
    let i = json_quote(ip);
    s.append(i.as_str());
    s.append(",\"subnet\":");
    let n = json_quote(subnet);
    s.append(n.as_str());
    s.append("}}");
    s
}

/// Where the reservation goes: an update of the one holding the address,
/// or a new one.
pub fn reservation_endpoint(existing: &Option<String>) -> (r: String)
    ensures
        match existing {
            Some(u) => r@ == "/api/kea/dhcpv4/set_reservation/"@ + u@,
            None => r@ == "/api/kea/dhcpv4/add_reservation"@,
        },
{
    match existing {
        Some(u) => {
            let mut s = String::from_str("/api/kea/dhcpv4/set_reservation/");
            s.append(u.as_str());
            s
        },
        None => String::from_str("/api/kea/dhcpv4/add_reservation"),
    }
}

/// The shell line that asks the firewall's API. The credentials are read
/// inside the shell, so the secret never appears in an argument list.
pub open spec fn api_script(cfg: KeaCfg, method: Seq<char>, path: Seq<char>, body: Option<Seq<char>>) -> Seq<char> {
    "curl -sk -m 20 -u \"$(cat "@ + cfg.cred_file@ + ")\" -X "@ + method + (match body {
        Some(b) => " -H 'Content-Type: application/json' -d '"@ + b + "'"@,
        None => Seq::empty(),
    }) + " "@ + trim_end_char(cfg.base_url@, '/') + path
}

pub open spec fn api_request(cfg: KeaCfg, method: Seq<char>, path: Seq<char>, body: Option<Seq<char>>) -> Request {
    Request::Run("sh"@, seq!["-c"@, api_script(cfg, method, path, body)], 30)
}

/// What the firewall's answer `body` holds, read as JSON: for each entry of
/// its `rows`, the string field `key` and the string `uuid`, each where
/// present; or, for text that is not JSON, the parser's message.
pub uninterp spec fn kea_answer(body: Seq<char>, key: Seq<char>) -> Result<Seq<(Option<Seq<char>>, Option<Seq<char>>)>, Seq<char>>;

/// `serde_json::from_str` into a `Value`, then `rows` read off it: each
/// row's `key` and `uuid` taken by `as_str`. The contract names the result
/// (`kea_answer` of the text and the key) and says nothing more of it.
#[verifier::external_body]
fn answer_rows(body: &str, key: &str) -> (r: Result<Vec<KeaRow>, String>)
    ensures
        match r {
            Ok(v) => kea_answer(body@, key@) == Ok::<Seq<(Option<Seq<char>>, Option<Seq<char>>)>, Seq<char>>(row_views(v@)),
            Err(e) => kea_answer(body@, key@) == Err::<Seq<(Option<Seq<char>>, Option<Seq<char>>)>, Seq<char>>(e@),
        },
{
    let v: serde_json::Value = serde_json::from_str(body).map_err(|e| e.to_string())?;
    Ok(v["rows"].as_array().into_iter().flatten().map(|r| (r[key].as_str().map(str::to_string), r["uuid"].as_str().map(str::to_string))).collect())
}

pub open spec fn body_view(body: Option<&str>) -> Option<Seq<char>> {
    match body {
        Some(b) => Some(b@),
        None => None,
    }
}

/// The rows the answer at `j` of the record gives, when the call succeeded
/// and the answer read.
pub open spec fn rows_at(h: Seq<Option<OutputView>>, j: int, key: Seq<char>) -> Option<Seq<(Option<Seq<char>>, Option<Seq<char>>)>> {
    match h[j] {
        Some(o) => if o.code == 0 {
            match kea_answer(trimmed(o.stdout), key) {
                Ok(rows) => Some(rows),
                Err(_) => None,
            }
        } else {
            None
        },
        None => None,
    }
}

/// One call of the firewall's API: a call that failed, or whose answer is
/// not JSON, is an error.
fn api<E: Executor>(exec: &mut E, cfg: &KeaCfg, method: &str, path: &str, body: Option<&str>, key: &str) -> (r: Result<Vec<KeaRow>, CoreError>)
    ensures
        final(exec).requests() == old(exec).requests().push(api_request(*cfg, method@, path@, body_view(body))),
        final(exec).replies().len() == old(exec).replies().len() + 1,
        final(exec).replies().drop_last() == old(exec).replies(),
        match rows_at(final(exec).replies(), final(exec).replies().len() - 1, key@) {
            Some(rows) => r matches Ok(v) && row_views(v@) == rows,
            None => r is Err,
        },
{
    let mut script = String::from_str("curl -sk -m 20 -u \"$(cat ");
    script.append(cfg.cred_file.as_str());
    script.append(")\" -X ");
    script.append(method);
    match body {
        Some(b) => {
            script.append(" -H 'Content-Type: application/json' -d '");
            script.append(b);
            script.append("'");
        },
        None => {},
    }
    script.append(" ");
    script.append(str_trim_end_char(cfg.base_url.as_str(), '/'));
    script.append(path);
    proof {
        reveal_strlit("");
        assert(script@ =~= api_script(*cfg, method@, path@, body_view(body)));
    }
    let mut args: Vec<String> = Vec::new();
    args.push(String::from_str("-c"));
    args.push(script);
    let c = Cmd { program: String::from_str("sh"), args, timeout_s: 30 };
    proof {
        assert(string_views(c.args@) =~= seq!["-c"@, api_script(*cfg, method@, path@, body_view(body))]);
    }
    let ghost h0 = exec.replies();
    let out = exec.run(&c);
    proof {
        assert(exec.replies().drop_last() =~= h0);
    }
    let out = out?;
    if !out.success() {
        let mut m = String::from_str("opnsense ");
        m.append(method);
        m.append(" ");
        m.append(path);
        m.append(": ");
        m.append(trim(out.stderr.as_str()));
        return Err(CoreError::Other(m));
    }
    match answer_rows(trim(out.stdout.as_str()), key) {
        Ok(rows) => Ok(rows),
        Err(e) => {
            let mut m = String::from_str("opnsense ");
            m.append(path);
            m.append(": bad json: ");
            m.append(e.as_str());
            Err(CoreError::Other(m))
        },
    }
}

/// Register, or update, the firewall's reservation of `ip` (no CIDR
/// suffix) for `mac`: find the subnet that holds the address, find a
/// reservation already holding it, set that one or add a new one, and
/// apply. Refused before anything is asked for values that are not
/// provably inert in the host's shell. It succeeds only by asking exactly
/// that, in that order, with the body naming the subnet found.
pub fn reserve<E: Executor>(exec: &mut E, cfg: &KeaCfg, ip: &str, mac: &str, hostname: &str) -> (r: Result<(), CoreError>)
    ensures
        reservation_refusal(ip@, mac@, hostname@) matches Some(m) ==> (r matches Err(CoreError::Validation(x)) && x@ == m
            && final(exec).requests() == old(exec).requests()),
        reservation_refusal(ip@, mac@, hostname@) is None ==> final(exec).requests().len() > old(exec).requests().len()
            && final(exec).requests()[old(exec).requests().len() as int] == api_request(
            *cfg,
            "GET"@,
            "/api/kea/dhcpv4/search_subnet"@,
            None,
        ),
        r is Ok ==> ({
            let n0 = old(exec).requests().len() as int;
            let d = old(exec).replies().len() - n0;
            let q = final(exec).requests();
            let h = final(exec).replies();
            &&& q.len() == n0 + 4
            &&& rows_at(h, n0 + d, "subnet"@) matches Some(subnets)
            &&& first_subnet(ip@, subnets) matches Some(subnet)
            &&& q[n0 + 1] == api_request(*cfg, "GET"@, "/api/kea/dhcpv4/search_reservation"@, None)
            &&& rows_at(h, n0 + 1 + d, "ip_address"@) matches Some(held)
            &&& q[n0 + 2] == api_request(
                *cfg,
                "POST"@,
                match first_reservation(ip@, held) {
                    Some(u) => "/api/kea/dhcpv4/set_reservation/"@ + u,
                    None => "/api/kea/dhcpv4/add_reservation"@,
                },
                Some(reservation_body_of(subnet, ip@, mac@, hostname@)),
            )
            &&& q[n0 + 3] == api_request(*cfg, "POST"@, "/api/kea/service/reconfigure"@, Some("{}"@))
        }),
        r is Err ==> reservation_refusal(ip@, mac@, hostname@) is Some || ({
            let k = final(exec).requests().len() - old(exec).requests().len();
            let h = final(exec).replies();
            ||| (k == 1 && (rows_at(h, h.len() - 1, "subnet"@) matches Some(s) ==> first_subnet(ip@, s) is None))
            ||| (k == 2 && rows_at(h, h.len() - 1, "ip_address"@) is None)
            ||| (3 <= k <= 4 && rows_at(h, h.len() - 1, "uuid"@) is None)
        }),
{
    let ghost q0 = exec.requests();
    let ghost h0 = exec.replies();
    check_reservation(ip, mac, hostname)?;
    let subnets = api(exec, cfg, "GET", "/api/kea/dhcpv4/search_subnet", None, "subnet")?;
    let ghost h1 = exec.replies();
    let subnet = pick_subnet(ip, &subnets)?;
    let held = api(exec, cfg, "GET", "/api/kea/dhcpv4/search_reservation", None, "ip_address")?;
    let ghost h2 = exec.replies();
    let existing = existing_reservation(ip, &held);
    let body = reservation_body(subnet.as_str(), ip, mac, hostname);
    let endpoint = reservation_endpoint(&existing);
    api(exec, cfg, "POST", endpoint.as_str(), Some(body.as_str()), "uuid")?;
    let ghost h3 = exec.replies();
    api(exec, cfg, "POST", "/api/kea/service/reconfigure", Some("{}"), "uuid")?;
    proof {
        let n0 = q0.len() as int;
        let d = h0.len() - n0;
        let h = exec.replies();
        assert(h.drop_last() == h3);
        assert(h3.drop_last() == h2);
        assert(h2.drop_last() == h1);
        assert(h[n0 + d] == h1[n0 + d]);
        assert(h[n0 + 1 + d] == h2[n0 + 1 + d]);
    }
    Ok(())
}

} // verus!
