//! Boot policy and resources on a container that already exists.
//!
//! A deploy corrects the boot policy, which is safe at any moment and
//! invisible until the next reboot. It does not quietly change memory, cores
//! or disk: raising them is its own deliberate operation and lowering them
//! is a rebuild. Those divergences are reported instead.

use vstd::prelude::*;
use vstd::string::*;
use crate::manifest::StackManifest;
use crate::text::{
    all_trimmed, dec, dec_string, find_prefixed, find_prefixed_exec, lines, lines_of, parse_uint,
    parse_unsigned, split_char, split_on, str_eq, string_views, trim, trim_all, trimmed, views,
};

verus! {

/// What `pct config` says about the things watched here. Every field is
/// optional: an absent line means the setting is absent, which is a
/// different statement from a value.
#[derive(Debug, Clone, Default, PartialEq, Eq)]
pub struct LiveConfig {
    pub onboot: Option<bool>,
    pub order: Option<u16>,
    pub memory_mb: Option<u32>,
    pub cores: Option<u16>,
}

/// The trimmed value of the first `key:` line.
pub open spec fn conf_value(conf: Seq<char>, key: Seq<char>) -> Option<Seq<char>> {
    match find_prefixed(lines_of(conf), key + ":"@) {
        Some(v) => Some(trimmed(v)),
        None => None,
    }
}

pub open spec fn parse_onboot(v: Option<Seq<char>>) -> Option<bool> {
    match v {
        Some(s) => if s == "1"@ {
            Some(true)
        } else if s == "0"@ {
            Some(false)
        } else {
            None
        },
        None => None,
    }
}

/// `order=N` among the comma-separated parts of a `startup:` value.
pub open spec fn parse_order(v: Option<Seq<char>>) -> Option<u16> {
    match v {
        Some(s) => match find_prefixed(all_trimmed(split_on(s, ',')), "order="@) {
            Some(n) => match parse_unsigned(n, 65535) {
                Some(x) => Some(x as u16),
                None => None,
            },
            None => None,
        },
        None => None,
    }
}

pub open spec fn parse_num(v: Option<Seq<char>>, max: nat) -> Option<nat> {
    match v {
        Some(s) => parse_unsigned(s, max),
        None => None,
    }
}

/// The live configuration a `pct config` output describes. Anything
/// unparseable stays `None`: unknown, never "differs".
pub open spec fn live_config(conf: Seq<char>) -> LiveConfig {
    LiveConfig {
        onboot: parse_onboot(conf_value(conf, "onboot"@)),
        order: parse_order(conf_value(conf, "startup"@)),
        memory_mb: match parse_num(conf_value(conf, "memory"@), 4294967295) {
            Some(x) => Some(x as u32),
            None => None,
        },
        cores: match parse_num(conf_value(conf, "cores"@), 65535) {
            Some(x) => Some(x as u16),
            None => None,
        },
    }
}

fn value_of(ls: &Vec<&str>, key: &str) -> (r: Option<String>)
    requires
        key@ == "onboot"@ || key@ == "startup"@ || key@ == "memory"@ || key@ == "cores"@,
    ensures
        forall|conf: Seq<char>|
            views(ls@) == lines_of(conf) ==> match conf_value(conf, key@) {
                Some(v) => r matches Some(s) && s@ == v,
                None => r is None,
            },
{
    let mut k = String::from_str(key);
    k.append(":");
    match find_prefixed_exec(ls, k.as_str()) {
        Some(v) => Some(String::from_str(trim(v))),
        None => None,
    }
}

/// Parse the subset of `pct config <vmid>` watched here.
/// `startup: order=80,up=30` gives order 80.
pub fn parse(conf: &str) -> (r: LiveConfig)
    ensures
        r == live_config(conf@),
{
    let ls = lines(conf);
    let onboot = match value_of(&ls, "onboot") {
        Some(v) => if str_eq(v.as_str(), "1") {
            Some(true)
        } else if str_eq(v.as_str(), "0") {
            Some(false)
        } else {
            None
        },
        None => None,
    };
    proof {
        reveal_strlit("1");
        reveal_strlit("0");
    }
    let order = match value_of(&ls, "startup") {
        Some(v) => {
            let parts = split_char(v.as_str(), ',');
            let tparts = trim_all(&parts);
            match find_prefixed_exec(&tparts, "order=") {
                Some(n) => match parse_uint(n, 65535) {
                    Some(x) => Some(x as u16),
                    None => None,
                },
                None => None,
            }
        },
        None => None,
    };
    let memory_mb = match value_of(&ls, "memory") {
        Some(v) => match parse_uint(v.as_str(), 4294967295) {
            Some(x) => Some(x as u32),
            None => None,
        },
        None => None,
    };
    let cores = match value_of(&ls, "cores") {
        Some(v) => match parse_uint(v.as_str(), 65535) {
            Some(x) => Some(x as u16),
            None => None,
        },
        None => None,
    };
    LiveConfig { onboot, order, memory_mb, cores }
}

/// The `pct set` arguments that bring the boot policy back in line; none
/// when it already is, and none for a live value that could not be read.
pub open spec fn boot_args(onboot: bool, order: Option<u16>, live: LiveConfig) -> Seq<Seq<char>> {
    (if live.onboot is Some && live.onboot != Some(onboot) {
        seq!["--onboot"@, if onboot {
            "1"@
        } else {
            "0"@
        }]
    } else {
        Seq::empty()
    }) + match order {
        Some(want) => if live.order is Some && live.order != Some(want) {
            seq!["--startup"@, "order="@ + dec(want as nat)]
        } else {
            Seq::empty()
        },
        None => Seq::empty(),
    }
}

pub fn boot_set_args(m: &StackManifest, live: &LiveConfig) -> (r: Vec<String>)
    ensures
        string_views(r@) == boot_args(m.boot.onboot, m.boot.order, *live),
{
    let mut args: Vec<String> = Vec::new();
    let differs = match live.onboot {
        Some(b) => b != m.boot.onboot,
        None => false,
    };
    if differs {
        args.push(String::from_str("--onboot"));
        if m.boot.onboot {
            args.push(String::from_str("1"));
        } else {
            args.push(String::from_str("0"));
        }
    }
    let ghost a1 = string_views(args@);
    if let Some(want) = m.boot.order {
        let odiff = match live.order {
            Some(o) => o != want,
            None => false,
        };
        if odiff {
            args.push(String::from_str("--startup"));
            let mut s = String::from_str("order=");
            let d = dec_string(want as u64);
            s.append(d.as_str());
            args.push(s);
        }
    }
    proof {
        assert(string_views(args@) =~= boot_args(m.boot.onboot, m.boot.order, *live));
    }
    args
}

pub open spec fn yes_no_of(b: bool) -> Seq<char> {
    if b {
        "yes"@
    } else {
        "no"@
    }
}

fn yes_no(b: bool) -> (r: &'static str)
    ensures
        r@ == yes_no_of(b),
{
    if b {
        "yes"
    } else {
        "no"
    }
}

/// Human-readable divergences between the stack file and the machine, for
/// a report rather than a repair.
pub open spec fn divergences_of(
    onboot: bool,
    order: Option<u16>,
    memory_mb: u32,
    cores: u16,
    live: LiveConfig,
) -> Seq<Seq<char>> {
    (match live.onboot {
        Some(lo) => if lo != onboot {
            seq![
                "starts on boot: "@ + yes_no_of(lo) + " on the machine, "@ + yes_no_of(onboot)
                    + " in the stack file"@,
            ]
        } else {
            Seq::empty()
        },
        None => Seq::empty(),
    }) + (match (live.order, order) {
        (Some(lo), Some(want)) => if lo != want {
            seq![
                "boot order: "@ + dec(lo as nat) + " on the machine, "@ + dec(want as nat)
                    + " in the stack file"@,
            ]
        } else {
            Seq::empty()
        },
        _ => Seq::empty(),
    }) + (match live.memory_mb {
        Some(mem) => if mem != memory_mb {
            seq![
                "memory: "@ + dec(mem as nat) + " MB on the machine, "@ + dec(memory_mb as nat)
                    + " MB in the stack file"@,
            ]
        } else {
            Seq::empty()
        },
        None => Seq::empty(),
    }) + match live.cores {
        Some(c) => if c != cores {
            seq![
                "cores: "@ + dec(c as nat) + " on the machine, "@ + dec(cores as nat)
                    + " in the stack file"@,
            ]
        } else {
            Seq::empty()
        },
        None => Seq::empty(),
    }
}

/// The machine agreeing with the stack file, or not saying, yields no
/// divergence; and there are never more than four, one per setting.
pub proof fn law_agreement_is_no_divergence(onboot: bool, order: Option<u16>, memory_mb: u32, cores: u16, live: LiveConfig)
    ensures
        divergences_of(onboot, order, memory_mb, cores, live).len() <= 4,
        ((live.onboot is None || live.onboot == Some(onboot)) && (live.order is None || order is None || live.order
            == order) && (live.memory_mb is None || live.memory_mb == Some(memory_mb)) && (live.cores is None
            || live.cores == Some(cores))) ==> divergences_of(onboot, order, memory_mb, cores, live).len() == 0,
{
}

/// A setting differs: the machine says, the stack file says (for the boot
/// order), and the two disagree.
pub open spec fn differing_settings(onboot: bool, order: Option<u16>, memory_mb: u32, cores: u16, live: LiveConfig) -> int {
    (if live.onboot matches Some(b) && b != onboot { 1int } else { 0int })
        + (if live.order matches Some(o) && (order matches Some(w) && o != w) { 1int } else { 0int })
        + (if live.memory_mb matches Some(x) && x != memory_mb { 1int } else { 0int })
        + (if live.cores matches Some(c) && c != cores { 1int } else { 0int })
}

/// Exactly one divergence per setting that differs, in the order boot
/// flag, boot order, memory, cores: the first entry names the boot flag
/// whenever the flags differ, and a setting the machine does not report
/// yields none.
pub proof fn law_one_divergence_per_differing_setting(onboot: bool, order: Option<u16>, memory_mb: u32, cores: u16, live: LiveConfig)
    ensures
        divergences_of(onboot, order, memory_mb, cores, live).len() == differing_settings(onboot, order, memory_mb, cores, live),
        live.onboot == Some(!onboot) ==> divergences_of(onboot, order, memory_mb, cores, live)[0]
            == "starts on boot: "@ + yes_no_of(!onboot) + " on the machine, "@ + yes_no_of(onboot) + " in the stack file"@,
{
}

pub fn divergences(m: &StackManifest, live: &LiveConfig) -> (r: Vec<String>)
    ensures
        string_views(r@) == divergences_of(
            m.boot.onboot,
            m.boot.order,
            m.resources.memory_mb,
            m.resources.cores,
            *live,
        ),
{
    let mut out: Vec<String> = Vec::new();
    if let Some(lo) = live.onboot {
        if lo != m.boot.onboot {
            let mut s = String::from_str("starts on boot: ");
            s.append(yes_no(lo));
            s.append(" on the machine, ");
            s.append(yes_no(m.boot.onboot));
            s.append(" in the stack file");
            out.push(s);
        }
    }
    let ghost o1 = string_views(out@);
    if let (Some(lo), Some(want)) = (live.order, m.boot.order) {
        if lo != want {
            let mut s = String::from_str("boot order: ");
            let d = dec_string(lo as u64);
            s.append(d.as_str());
            s.append(" on the machine, ");
            let d = dec_string(want as u64);
            s.append(d.as_str());
            s.append(" in the stack file");
            out.push(s);
        }
    }
    let ghost o2 = string_views(out@);
    if let Some(mem) = live.memory_mb {
        if mem != m.resources.memory_mb {
            let mut s = String::from_str("memory: ");
            let d = dec_string(mem as u64);
            s.append(d.as_str());
            s.append(" MB on the machine, ");
            let d = dec_string(m.resources.memory_mb as u64);
            s.append(d.as_str());
            s.append(" MB in the stack file");
            out.push(s);
        }
    }
    let ghost o3 = string_views(out@);
    if let Some(c) = live.cores {
        if c != m.resources.cores {
            let mut s = String::from_str("cores: ");
            let d = dec_string(c as u64);
            s.append(d.as_str());
            s.append(" on the machine, ");
            let d = dec_string(m.resources.cores as u64);
            s.append(d.as_str());
            s.append(" in the stack file");
            out.push(s);
        }
    }
    proof {
        assert(string_views(out@) =~= divergences_of(
            m.boot.onboot,
            m.boot.order,
            m.resources.memory_mb,
            m.resources.cores,
            *live,
        ));
    }
    out
}

} // verus!
