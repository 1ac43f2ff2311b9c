//! Doctor / self-diagnosis: each check is a pure function over injected
//! probe data. The host gathers the probes; this decides healthy/warn/fail
//! and the remediation hint.

use vstd::prelude::*;
use vstd::string::*;
use crate::text::{dec, dec_string, join_strings, joined, string_views};

verus! {

#[derive(Debug, Clone, Copy, PartialEq, Eq)]
pub enum Health {
    Good,
    Warn,
    Fail,
}

#[derive(Debug, Clone)]
pub struct Check {
    pub name: String,
    pub health: Health,
    pub detail: String,
    pub remedy: Option<String>,
}

/// A doctor check with its texts as characters.
pub struct CheckView {
    pub name: Seq<char>,
    pub health: Health,
    pub detail: Seq<char>,
    pub remedy: Option<Seq<char>>,
}

pub open spec fn opt_view(o: Option<String>) -> Option<Seq<char>> {
    match o {
        Some(s) => Some(s@),
        None => None,
    }
}

impl View for Check {
    type V = CheckView;

    open spec fn view(&self) -> CheckView {
        CheckView {
            name: self.name@,
            health: self.health,
            detail: self.detail@,
            remedy: opt_view(self.remedy),
        }
    }
}

/// Everything doctor needs, gathered by the host.
#[derive(Debug, Clone)]
pub struct Probes {
    pub host_disk_free_pct: Option<u64>,
    pub state_parses: bool,
    pub managed_stacks: Vec<StackProbe>,
    pub offsite_configured: bool,
    pub offsite_token_valid: bool,
    pub mirror_behind: Option<u32>,
    pub interrupted_ops: Vec<String>,
}

#[derive(Debug, Clone)]
pub struct StackProbe {
    pub name: String,
    /// Hours since the last successful backup, if any.
    pub backup_age_h: Option<u64>,
    /// Container exists at the expected vmid.
    pub container_present: bool,
    pub env_sealed: bool,
}

pub open spec fn cv(name: Seq<char>, health: Health, detail: Seq<char>, remedy: Option<Seq<char>>) -> CheckView {
    CheckView { name, health, detail, remedy }
}

pub open spec fn disk_check(free: Option<u64>) -> CheckView {
    match free {
        Some(f) => if f < 10 {
            cv("host disk"@, Health::Fail, dec(f as nat) + "% free"@, Some("free space on pve-root; runaway guards (B2) cap logs but check backups/images"@))
        } else if f < 20 {
            cv("host disk"@, Health::Warn, dec(f as nat) + "% free"@, Some("getting tight — review disk usage soon"@))
        } else {
            cv("host disk"@, Health::Good, dec(f as nat) + "% free"@, None)
        },
        None => cv("host disk"@, Health::Warn, "unknown"@, Some("could not read host disk usage"@)),
    }
}

pub open spec fn state_check(parses: bool) -> CheckView {
    if parses {
        cv("state file"@, Health::Good, "parses"@, None)
    } else {
        cv("state file"@, Health::Fail, "unreadable/corrupt"@, Some("inspect /var/lib/homelab/state.json; restore from a backup if corrupt"@))
    }
}

pub open spec fn backup_check(name: Seq<char>, age: Option<u64>) -> CheckView {
    let n = "stack "@ + name + " backup"@;
    match age {
        Some(h) => if h > 48 {
            cv(n, Health::Warn, "last backup "@ + dec(h as nat) + "h ago"@, Some("run a backup; the scheduler (E4) may be stalled"@))
        } else {
            cv(n, Health::Good, "last backup "@ + dec(h as nat) + "h ago"@, None)
        },
        None => cv(n, Health::Warn, "never backed up"@, Some("run the first backup for this stack"@)),
    }
}

/// What doctor says about one managed stack.
pub open spec fn stack_checks(s: StackProbe) -> Seq<CheckView> {
    if !s.container_present {
        seq![cv("stack "@ + s.name@, Health::Fail, "container missing"@, Some("redeploy "@ + s.name@ + " — auto-restore (E3) refills config"@))]
    } else if !s.env_sealed {
        seq![
            cv("stack "@ + s.name@ + " env"@, Health::Fail, "no sealed .env"@, Some("provide "@ + s.name@ + "'s .env; deploy fails closed without it (A3)"@)),
            backup_check(s.name@, s.backup_age_h),
        ]
    } else {
        seq![backup_check(s.name@, s.backup_age_h)]
    }
}

pub open spec fn all_stack_checks(ss: Seq<StackProbe>) -> Seq<CheckView>
    decreases ss.len(),
{
    if ss.len() == 0 {
        Seq::empty()
    } else {
        all_stack_checks(ss.drop_last()) + stack_checks(ss.last())
    }
}

pub open spec fn offsite_checks(configured: bool, valid: bool) -> Seq<CheckView> {
    if !configured {
        Seq::empty()
    } else if valid {
        seq![cv("offsite (Drive)"@, Health::Good, "token valid"@, None)]
    } else {
        seq![cv("offsite (Drive)"@, Health::Fail, "token invalid/expired"@, Some("refresh the rclone Google Drive token (E5); local backups still run"@))]
    }
}

pub open spec fn mirror_checks(behind: Option<u32>) -> Seq<CheckView> {
    match behind {
        None => Seq::empty(),
        Some(b) => if b == 0 {
            seq![cv("github mirror"@, Health::Good, "up to date"@, None)]
        } else {
            seq![cv("github mirror"@, Health::Warn, dec(b as nat) + " commit(s) behind"@, Some("mirror push is retrying in the background (non-blocking)"@))]
        },
    }
}

pub open spec fn interrupted_checks(ops: Seq<Seq<char>>) -> Seq<CheckView> {
    if ops.len() == 0 {
        Seq::empty()
    } else {
        seq![cv("interrupted operations"@, Health::Warn, joined(ops, ", "@), Some("re-run the listed operation(s); re-running is always safe (B1)"@))]
    }
}

/// The whole health matrix, in the order it is shown.
pub open spec fn diagnosis(p: Probes) -> Seq<CheckView> {
    seq![disk_check(p.host_disk_free_pct), state_check(p.state_parses)]
        + all_stack_checks(p.managed_stacks@)
        + offsite_checks(p.offsite_configured, p.offsite_token_valid)
        + mirror_checks(p.mirror_behind)
        + interrupted_checks(string_views(p.interrupted_ops@))
}

pub open spec fn check_views(v: Seq<Check>) -> Seq<CheckView> {
    v.map_values(|c: Check| c@)
}

fn mk(name: String, health: Health, detail: String, remedy: Option<&str>) -> (c: Check)
    ensures
        c.name@ == name@,
        c.health == health,
        c.detail@ == detail@,
        c.remedy matches Some(r) ==> remedy matches Some(x) && r@ == x@,
        c.remedy is None ==> remedy is None,
{
    Check {
        name,
        health,
        detail,
        remedy: match remedy {
            Some(r) => Some(String::from_str(r)),
            None => None,
        },
    }
}

fn push_check(out: &mut Vec<Check>, c: Check)
    ensures
        check_views(final(out)@) == check_views(old(out)@).push(c@),
{
    out.push(c);
    proof {
        assert(check_views(out@) =~= check_views(old(out)@).push(c@));
    }
}

fn cat2(a: &str, b: &str) -> (r: String)
    ensures
        r@ == a@ + b@,
{
    let mut s = String::from_str(a);
    s.append(b);
    s
}

fn cat3(a: &str, b: &str, c: &str) -> (r: String)
    ensures
        r@ == a@ + b@ + c@,
{
    let mut s = String::from_str(a);
    s.append(b);
    s.append(c);
    s
}

fn backup_exec(name: &str, age: Option<u64>) -> (c: Check)
    ensures
        c@ == backup_check(name@, age),
{
    let n = cat3("stack ", name, " backup");
    match age {
        Some(h) => {
            let d = dec_string(h);
            let detail = cat3("last backup ", d.as_str(), "h ago");
            if h > 48 {
                mk(n, Health::Warn, detail, Some("run a backup; the scheduler (E4) may be stalled"))
            } else {
                mk(n, Health::Good, detail, None)
            }
        },
        None => mk(n, Health::Warn, String::from_str("never backed up"), Some("run the first backup for this stack")),
    }
}

pub fn diagnose(p: &Probes) -> (r: Vec<Check>)
    ensures
        check_views(r@) == diagnosis(*p),
{
    let mut checks: Vec<Check> = Vec::new();

    let disk = match p.host_disk_free_pct {
        Some(free) => {
            let d = dec_string(free);
            let detail = cat2(d.as_str(), "% free");
            if free < 10 {
                mk(String::from_str("host disk"), Health::Fail, detail, Some("free space on pve-root; runaway guards (B2) cap logs but check backups/images"))
            } else if free < 20 {
                mk(String::from_str("host disk"), Health::Warn, detail, Some("getting tight — review disk usage soon"))
            } else {
                mk(String::from_str("host disk"), Health::Good, detail, None)
            }
        },
        None => mk(String::from_str("host disk"), Health::Warn, String::from_str("unknown"), Some("could not read host disk usage")),
    };
    push_check(&mut checks, disk);

    let state = if p.state_parses {
        mk(String::from_str("state file"), Health::Good, String::from_str("parses"), None)
    } else {
        mk(String::from_str("state file"), Health::Fail, String::from_str("unreadable/corrupt"), Some("inspect /var/lib/homelab/state.json; restore from a backup if corrupt"))
    };
    push_check(&mut checks, state);
    proof {
        assert(check_views(checks@) =~= seq![disk_check(p.host_disk_free_pct), state_check(p.state_parses)]);
    }

    let ghost head = check_views(checks@);
    let mut i: usize = 0;
    while i < p.managed_stacks.len()
        invariant
            i <= p.managed_stacks.len(),
            check_views(checks@) == head + all_stack_checks(p.managed_stacks@.take(i as int)),
        decreases p.managed_stacks.len() - i,
    {
        let s = &p.managed_stacks[i];
        let ghost before = check_views(checks@);
        proof {
            assert(p.managed_stacks@.take(i + 1).drop_last() =~= p.managed_stacks@.take(i as int));
            assert(p.managed_stacks@.take(i + 1).last() == *s);
        }
        if !s.container_present {
            let c = mk(
                cat2("stack ", s.name.as_str()),
                Health::Fail,
                String::from_str("container missing"),
                None,
            );
            let c = Check { remedy: Some(cat3("redeploy ", s.name.as_str(), " — auto-restore (E3) refills config")), ..c };
            push_check(&mut checks, c);
            proof {
                assert(check_views(checks@) =~= before + stack_checks(*s));
            }
        } else {
            if !s.env_sealed {
                let c = mk(
                    cat3("stack ", s.name.as_str(), " env"),
                    Health::Fail,
                    String::from_str("no sealed .env"),
                    None,
                );
                let c = Check { remedy: Some(cat3("provide ", s.name.as_str(), "'s .env; deploy fails closed without it (A3)")), ..c };
                push_check(&mut checks, c);
            }
            let b = backup_exec(s.name.as_str(), s.backup_age_h);
            push_check(&mut checks, b);
            proof {
                assert(check_views(checks@) =~= before + stack_checks(*s));
            }
        }
        proof {
            assert(head + all_stack_checks(p.managed_stacks@.take(i + 1)) =~= head
                + all_stack_checks(p.managed_stacks@.take(i as int)) + stack_checks(*s));
        }
        i += 1;
    }
    proof {
        assert(p.managed_stacks@.take(p.managed_stacks.len() as int) =~= p.managed_stacks@);
    }
    let ghost mid = check_views(checks@);

    if p.offsite_configured {
        let c = if p.offsite_token_valid {
            mk(String::from_str("offsite (Drive)"), Health::Good, String::from_str("token valid"), None)
        } else {
            mk(String::from_str("offsite (Drive)"), Health::Fail, String::from_str("token invalid/expired"), Some("refresh the rclone Google Drive token (E5); local backups still run"))
        };
        push_check(&mut checks, c);
    }
    proof {
        assert(check_views(checks@) =~= mid + offsite_checks(p.offsite_configured, p.offsite_token_valid));
    }
    let ghost mid2 = check_views(checks@);

    if let Some(behind) = p.mirror_behind {
        let c = if behind == 0 {
            mk(String::from_str("github mirror"), Health::Good, String::from_str("up to date"), None)
        } else {
            let d = dec_string(behind as u64);
            mk(String::from_str("github mirror"), Health::Warn, cat2(d.as_str(), " commit(s) behind"), Some("mirror push is retrying in the background (non-blocking)"))
        };
        push_check(&mut checks, c);
    }
    proof {
        assert(check_views(checks@) =~= mid2 + mirror_checks(p.mirror_behind));
    }
    let ghost mid3 = check_views(checks@);

    if p.interrupted_ops.len() > 0 {
        let detail = join_strings(p.interrupted_ops.as_slice(), ", ");
        let c = mk(String::from_str("interrupted operations"), Health::Warn, detail, Some("re-run the listed operation(s); re-running is always safe (B1)"));
        push_check(&mut checks, c);
    }
    proof {
        assert(check_views(checks@) =~= mid3 + interrupted_checks(string_views(p.interrupted_ops@)));
    }
    checks
}

/// The worst health among the checks.
pub open spec fn worst(cs: Seq<CheckView>) -> Health {
    if exists|i: int| 0 <= i < cs.len() && (#[trigger] cs[i]).health == Health::Fail {
        Health::Fail
    } else if exists|i: int| 0 <= i < cs.len() && (#[trigger] cs[i]).health == Health::Warn {
        Health::Warn
    } else {
        Health::Good
    }
}

pub fn overall(checks: &[Check]) -> (h: Health)
    ensures
        h == worst(check_views(checks@)),
{
    let ghost cv = check_views(checks@);
    let mut fail = false;
    let mut warn = false;
    let mut i: usize = 0;
    while i < checks.len()
        invariant
            i <= checks.len(),
            cv == check_views(checks@),
            fail == exists|k: int| 0 <= k < i && (#[trigger] cv[k]).health == Health::Fail,
            warn == exists|k: int| 0 <= k < i && (#[trigger] cv[k]).health == Health::Warn,
        decreases checks.len() - i,
    {
        proof {
            assert(cv[i as int].health == checks@[i as int].health);
        }
        match checks[i].health {
            Health::Fail => fail = true,
            Health::Warn => warn = true,
            Health::Good => {},
        }
        i += 1;
    }
    if fail {
        Health::Fail
    } else if warn {
        Health::Warn
    } else {
        Health::Good
    }
}

/// The overall health is the worst of the checks: good only when every
/// check is good, failed as soon as one check fails.
pub proof fn law_overall_is_worst(cs: Seq<CheckView>)
    ensures
        (worst(cs) == Health::Good) == (forall|i: int| 0 <= i < cs.len() ==> (#[trigger] cs[i]).health == Health::Good),
        (worst(cs) == Health::Fail) == (exists|i: int| 0 <= i < cs.len() && (#[trigger] cs[i]).health == Health::Fail),
{
    if forall|i: int| 0 <= i < cs.len() ==> (#[trigger] cs[i]).health == Health::Good {
        if exists|i: int| 0 <= i < cs.len() && (#[trigger] cs[i]).health == Health::Fail {
            let i = choose|i: int| 0 <= i < cs.len() && (#[trigger] cs[i]).health == Health::Fail;
            assert(cs[i].health == Health::Good);
        }
        if exists|i: int| 0 <= i < cs.len() && (#[trigger] cs[i]).health == Health::Warn {
            let i = choose|i: int| 0 <= i < cs.len() && (#[trigger] cs[i]).health == Health::Warn;
            assert(cs[i].health == Health::Good);
        }
    } else {
        let i = choose|i: int| 0 <= i < cs.len() && !((#[trigger] cs[i]).health == Health::Good);
        match cs[i].health {
            Health::Fail => {},
            Health::Warn => {},
            Health::Good => {},
        }
    }
}

} // verus!

verus! {

proof fn lemma_stack_checks_kept(ss: Seq<StackProbe>, k: int, j: int)
    requires
        0 <= k < ss.len(),
        0 <= j < stack_checks(ss[k]).len(),
    ensures
        exists|i: int| 0 <= i < all_stack_checks(ss).len() && all_stack_checks(ss)[i] == stack_checks(ss[k])[j],
    decreases ss.len(),
{
    let pre = ss.drop_last();
    let a = all_stack_checks(pre);
    assert(all_stack_checks(ss) == a + stack_checks(ss.last()));
    if k == ss.len() - 1 {
        assert(all_stack_checks(ss)[a.len() + j] == stack_checks(ss[k])[j]);
    } else {
        assert(pre[k] == ss[k]);
        lemma_stack_checks_kept(pre, k, j);
        let i = choose|i: int| 0 <= i < a.len() && a[i] == stack_checks(pre[k])[j];
        assert(all_stack_checks(ss)[i] == a[i]);
    }
}

/// What the diagnosis says of each managed stack: a missing container is a
/// failed check named after the stack; a present container whose `.env` is
/// not sealed is a failed check named `stack <name> env`; and every present
/// stack has its `stack <name> backup` check.
pub proof fn law_each_stack_is_diagnosed(p: Probes, k: int)
    requires
        0 <= k < p.managed_stacks@.len(),
    ensures
        ({
            let s = p.managed_stacks@[k];
            let d = diagnosis(p);
            &&& !s.container_present ==> exists|i: int| 0 <= i < d.len() && d[i].name == "stack "@ + s.name@
                && d[i].health == Health::Fail
            &&& s.container_present && !s.env_sealed ==> exists|i: int| 0 <= i < d.len() && d[i].name == "stack "@
                + s.name@ + " env"@ && d[i].health == Health::Fail
            &&& s.container_present ==> exists|i: int| 0 <= i < d.len() && d[i].name == "stack "@ + s.name@
                + " backup"@
        }),
{
    let s = p.managed_stacks@[k];
    let head = seq![disk_check(p.host_disk_free_pct), state_check(p.state_parses)];
    let a = all_stack_checks(p.managed_stacks@);
    let d = diagnosis(p);
    assert(d == head + a + offsite_checks(p.offsite_configured, p.offsite_token_valid) + mirror_checks(p.mirror_behind)
        + interrupted_checks(string_views(p.interrupted_ops@)));
    let sc = stack_checks(s);
    if !s.container_present {
        lemma_stack_checks_kept(p.managed_stacks@, k, 0);
        let i = choose|i: int| 0 <= i < a.len() && a[i] == sc[0];
        assert(d[2 + i] == a[i]);
    } else {
        let jb: int = if s.env_sealed { 0 } else { 1 };
        lemma_stack_checks_kept(p.managed_stacks@, k, jb);
        let i = choose|i: int| 0 <= i < a.len() && a[i] == sc[jb];
        assert(d[2 + i] == a[i]);
        if !s.env_sealed {
            lemma_stack_checks_kept(p.managed_stacks@, k, 0);
            let i0 = choose|i: int| 0 <= i < a.len() && a[i] == sc[0];
            assert(d[2 + i0] == a[i0]);
        }
    }
}

} // verus!
