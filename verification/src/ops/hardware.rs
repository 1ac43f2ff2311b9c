//! Does the host actually have what a stack asks for? A container with a GPU
//! flag on a host without a card comes up perfectly and transcodes on the
//! CPU; a group id that does not match leaves the device node unreadable,
//! which looks exactly like the device being absent. So the devices are
//! probed and their group ids read, never assumed.
//!
//! The probe itself is a command the caller runs; what its output means is
//! decided here.

use vstd::prelude::*;
use vstd::string::*;
use crate::error::CoreError;
use crate::executor::Cmd;
use crate::manifest::DataMount;
use crate::text::{
    contains, dec, dec_string, find_prefixed, find_prefixed_exec, join_strings, join_strs, joined,
    lines, lines_of, parse_uint, parse_unsigned, str_contains, str_eq, string_views, trim, trimmed,
    views,
};

verus! {

/// The device nodes a GPU stack is handed, and the groups that own them on
/// this host.
#[derive(Debug, Clone, PartialEq, Eq)]
pub struct GpuDevices {
    pub card: String,
    pub card_gid: u32,
    pub render: String,
    pub render_gid: u32,
}

pub open spec fn card_path() -> Seq<char> {
    "/dev/dri/card0"@
}

pub open spec fn render_path() -> Seq<char> {
    "/dev/dri/renderD128"@
}

pub open spec fn tun_path() -> Seq<char> {
    "/dev/net/tun"@
}

/// The probe script: for every path whether it is there and who owns it,
/// then what `/dev/dri` holds. A missing path reports itself rather than
/// failing the command, so the error can name it.
pub open spec fn probe_script(paths: Seq<Seq<char>>) -> Seq<char> {
    "for d in "@ + joined(paths, " "@)
        + "; do if [ -e \"$d\" ]; then echo \"$d $(stat -c %g \"$d\")\"; else echo \"$d MISSING\"; fi; done; echo \"dri: $(ls /dev/dri 2>/dev/null | tr '\\n' ' ')\""@
}

pub fn probe_cmd(paths: &Vec<&str>) -> (r: Cmd)
    ensures
        r.program@ == "sh"@,
        string_views(r.args@) == seq!["-c"@, probe_script(views(paths@))],
        r.timeout_s == 30,
{
    let mut script = String::from_str("for d in ");
    let j = join_strs(paths, " ");
    script.append(j.as_str());
    script.append(
        "; do if [ -e \"$d\" ]; then echo \"$d $(stat -c %g \"$d\")\"; else echo \"$d MISSING\"; fi; done; echo \"dri: $(ls /dev/dri 2>/dev/null | tr '\\n' ' ')\"",
    );
    let c = Cmd::new("sh", &["-c", script.as_str()], 30);
    proof {
        reveal_strlit("-c");
        assert(string_views(c.args@) =~= seq!["-c"@, probe_script(views(paths@))]);
    }
    c
}

/// What the probe said about `path`: its group id, or `MISSING`.
pub open spec fn probe_field(stdout: Seq<char>, path: Seq<char>) -> Option<Seq<char>> {
    match find_prefixed(lines_of(stdout), path + " "@) {
        Some(v) => Some(trimmed(v)),
        None => None,
    }
}

fn field(stdout: &str, path: &str) -> (r: Option<String>)
    ensures
        match probe_field(stdout@, path@) {
            Some(v) => r matches Some(s) && s@ == v,
            None => r is None,
        },
{
    let ls = lines(stdout);
    let mut p = String::from_str(path);
    p.append(" ");
    match find_prefixed_exec(&ls, p.as_str()) {
        Some(v) => Some(String::from_str(trim(v))),
        None => None,
    }
}

/// What the host has in `/dev/dri`, for the error message.
pub open spec fn dri_of(stdout: Seq<char>) -> Seq<char> {
    match find_prefixed(lines_of(stdout), "dri:"@) {
        Some(v) => if trimmed(v).len() > 0 {
            trimmed(v)
        } else {
            "nothing"@
        },
        None => "nothing"@,
    }
}

pub fn dri_contents(stdout: &str) -> (r: String)
    ensures
        r@ == dri_of(stdout@),
{
    let ls = lines(stdout);
    match find_prefixed_exec(&ls, "dri:") {
        Some(v) => {
            let t = trim(v);
            if t.unicode_len() > 0 {
                String::from_str(t)
            } else {
                String::from_str("nothing")
            }
        },
        None => String::from_str("nothing"),
    }
}

pub open spec fn abort_msg(e: CoreError) -> Option<Seq<char>> {
    match e {
        CoreError::SafetyAbort(m) => Some(m@),
        _ => None,
    }
}

/// The group id of one device, or why the stack is refused.
pub open spec fn device_gid(stack: Seq<char>, stdout: Seq<char>, path: Seq<char>) -> Result<u32, Seq<char>> {
    match probe_field(stdout, path) {
        Some(g) => if g == "MISSING"@ {
            Err("stack '"@ + stack + "' asks for a GPU but this host has no "@ + path + " (in /dev/dri: "@
                + dri_of(stdout) + ") :: deploying anyway gives a container that starts and transcodes on the CPU"@)
        } else {
            match parse_unsigned(g, 4294967295) {
                Some(v) => Ok(v as u32),
                None => Err("stack '"@ + stack + "': could not read the group of "@ + path + " (got '"@ + g
                    + "') :: a wrong gid hands over a device the container cannot open"@),
            }
        },
        None => Err("stack '"@ + stack + "' asks for a GPU but this host has no "@ + path + " (in /dev/dri: "@
            + dri_of(stdout) + ") :: deploying anyway gives a container that starts and transcodes on the CPU"@),
    }
}

fn gid_of(stack: &str, stdout: &str, path: &str) -> (r: Result<u32, String>)
    ensures
        match device_gid(stack@, stdout@, path@) {
            Ok(v) => r == Ok::<u32, String>(v),
            Err(m) => r matches Err(s) && s@ == m,
        },
{
    let missing = |stack: &str, stdout: &str, path: &str| -> (s: String)
        ensures
            s@ == "stack '"@ + stack@ + "' asks for a GPU but this host has no "@ + path@ + " (in /dev/dri: "@
                + dri_of(stdout@) + ") :: deploying anyway gives a container that starts and transcodes on the CPU"@,
    {
        let mut s = String::from_str("stack '");
        s.append(stack);
        s.append("' asks for a GPU but this host has no ");
        s.append(path);
        s.append(" (in /dev/dri: ");
        let d = dri_contents(stdout);
        s.append(d.as_str());
        s.append(") :: deploying anyway gives a container that starts and transcodes on the CPU");
        s
    };
    match field(stdout, path) {
        None => Err(missing(stack, stdout, path)),
        Some(g) => {
            if str_eq(g.as_str(), "MISSING") {
                return Err(missing(stack, stdout, path));
            }
            match parse_uint(g.as_str(), 4294967295) {
                Some(v) => Ok(v as u32),
                None => {
                    let mut s = String::from_str("stack '");
                    s.append(stack);
                    s.append("': could not read the group of ");
                    s.append(path);
                    s.append(" (got '");
                    s.append(g.as_str());
                    s.append("') :: a wrong gid hands over a device the container cannot open");
                    Err(s)
                },
            }
        },
    }
}

/// What the GPU probe means: the devices with their group ids, or the
/// refusal — the card is checked first, then the render node.
pub open spec fn gpu_verdict(stack: Seq<char>, stdout: Seq<char>) -> Result<(u32, u32), Seq<char>> {
    match device_gid(stack, stdout, card_path()) {
        Err(m) => Err(m),
        Ok(c) => match device_gid(stack, stdout, render_path()) {
            Err(m) => Err(m),
            Ok(r) => Ok((c, r)),
        },
    }
}

/// Refuse a GPU stack the host cannot serve, and read the group ids
/// instead of assuming them. `stdout` is what the probe over the card and
/// the render node printed.
pub fn check_gpu(stack: &str, stdout: &str) -> (r: Result<GpuDevices, CoreError>)
    ensures
        match gpu_verdict(stack@, stdout@) {
            Ok((c, g)) => r matches Ok(d) && d.card@ == card_path() && d.card_gid == c
                && d.render@ == render_path() && d.render_gid == g,
            Err(m) => r matches Err(e) && abort_msg(e) == Some(m),
        },
{
    let card_gid = match gid_of(stack, stdout, "/dev/dri/card0") {
        Ok(v) => v,
        Err(m) => return Err(CoreError::SafetyAbort(m)),
    };
    let render_gid = match gid_of(stack, stdout, "/dev/dri/renderD128") {
        Ok(v) => v,
        Err(m) => return Err(CoreError::SafetyAbort(m)),
    };
    Ok(GpuDevices {
        card: String::from_str("/dev/dri/card0"),
        card_gid,
        render: String::from_str("/dev/dri/renderD128"),
        render_gid,
    })
}

/// What the tun probe means: without `/dev/net/tun` the container starts
/// and its tunnel does not.
pub open spec fn tun_verdict(stack: Seq<char>, stdout: Seq<char>) -> Option<Seq<char>> {
    match probe_field(stdout, tun_path()) {
        Some(g) => if g == "MISSING"@ {
            Some("stack '"@ + stack + "' asks for VPN passthrough but this host has no /dev/net/tun :: the container would start and its tunnel would not"@)
        } else {
            None
        },
        None => Some("stack '"@ + stack + "' asks for VPN passthrough but this host has no /dev/net/tun :: the container would start and its tunnel would not"@),
    }
}

pub fn check_tun(stack: &str, stdout: &str) -> (r: Result<(), CoreError>)
    ensures
        match tun_verdict(stack@, stdout@) {
            None => r is Ok,
            Some(m) => r matches Err(e) && abort_msg(e) == Some(m),
        },
{
    let ok = match field(stdout, "/dev/net/tun") {
        Some(g) => !str_eq(g.as_str(), "MISSING"),
        None => false,
    };
    if ok {
        Ok(())
    } else {
        let mut s = String::from_str("stack '");
        s.append(stack);
        s.append("' asks for VPN passthrough but this host has no /dev/net/tun :: the container would start and its tunnel would not");
        Err(CoreError::SafetyAbort(s))
    }
}

/// `--dev0`/`--dev1` arguments built from what the host reported.
pub fn dev_args(g: &GpuDevices) -> (r: (String, String))
    ensures
        r.0@ == g.card@ + ",gid="@ + dec(g.card_gid as nat),
        r.1@ == g.render@ + ",gid="@ + dec(g.render_gid as nat),
{
    let mut a = g.card.clone();
    a.append(",gid=");
    let d = dec_string(g.card_gid as u64);
    a.append(d.as_str());
    let mut b = g.render.clone();
    b.append(",gid=");
    let d = dec_string(g.render_gid as u64);
    b.append(d.as_str());
    (a, b)
}

pub open spec fn mount_paths(ms: Seq<DataMount>) -> Seq<Seq<char>> {
    ms.map_values(|m: DataMount| m.host_path@)
}

pub open spec fn mount_test(p: Seq<char>) -> Seq<char> {
    "if [ -d \""@ + p + "\" ]; then echo \""@ + p + " OK\"; else echo \""@ + p + " MISSING\"; fi"@
}

/// The script that asks whether every data mount exists on the host.
pub open spec fn mounts_script(ms: Seq<DataMount>) -> Seq<char> {
    joined(mount_paths(ms).map_values(|p: Seq<char>| mount_test(p)), "; "@)
}

pub fn data_mounts_script(mounts: &Vec<DataMount>) -> (r: String)
    ensures
        r@ == mounts_script(mounts@),
{
    let mut parts: Vec<String> = Vec::new();
    let mut i: usize = 0;
    while i < mounts.len()
        invariant
            i <= mounts.len(),
            parts@.len() == i,
            forall|k: int| 0 <= k < i ==> (#[trigger] parts@[k])@ == mount_test(mounts@[k].host_path@),
        decreases mounts.len() - i,
    {
        let p = mounts[i].host_path.as_str();
        let mut s = String::from_str("if [ -d \"");
        s.append(p);
        s.append("\" ]; then echo \"");
        s.append(p);
        s.append(" OK\"; else echo \"");
        s.append(p);
        s.append(" MISSING\"; fi");
        parts.push(s);
        i += 1;
    }
    proof {
        assert(string_views(parts@) =~= mount_paths(mounts@).map_values(|p: Seq<char>| mount_test(p)));
    }
    join_strings(parts.as_slice(), "; ")
}

/// The mounts whose test did not answer OK.
pub open spec fn missing_mounts(ps: Seq<Seq<char>>, stdout: Seq<char>) -> Seq<Seq<char>>
    decreases ps.len(),
{
    if ps.len() == 0 {
        Seq::empty()
    } else {
        missing_mounts(ps.drop_last(), stdout) + if contains(stdout, ps.last() + " OK"@) {
            Seq::empty()
        } else {
            seq![ps.last()]
        }
    }
}

/// A data mount must already exist on the host: the orchestrator never
/// creates one, so a missing path is a fact about the machine (the wrong
/// host, or a pool that is not imported), and deploying anyway would give a
/// container whose libraries are empty.
pub open spec fn mounts_verdict(stack: Seq<char>, ms: Seq<DataMount>, stdout: Seq<char>) -> Option<Seq<char>> {
    let missing = missing_mounts(mount_paths(ms), stdout);
    if ms.len() == 0 || missing.len() == 0 {
        None
    } else {
        Some("stack '"@ + stack + "' declares data_mounts this host does not have: "@ + joined(missing, ", "@)
            + " :: these are directories the orchestrator does not create on purpose, so a missing one means the wrong host or a pool that is not imported — deploying anyway gives a container whose libraries are empty"@)
    }
}

pub fn check_data_mounts(stack: &str, mounts: &Vec<DataMount>, stdout: &str) -> (r: Result<(), CoreError>)
    ensures
        match mounts_verdict(stack@, mounts@, stdout@) {
            None => r is Ok,
            Some(m) => r matches Err(e) && abort_msg(e) == Some(m),
        },
{
    if mounts.len() == 0 {
        return Ok(());
    }
    let ghost ps = mount_paths(mounts@);
    let mut missing: Vec<String> = Vec::new();
    let mut i: usize = 0;
    while i < mounts.len()
        invariant
            i <= mounts.len(),
            ps == mount_paths(mounts@),
            string_views(missing@) == missing_mounts(ps.take(i as int), stdout@),
        decreases mounts.len() - i,
    {
        proof {
            assert(ps.take(i + 1).drop_last() =~= ps.take(i as int));
        }
        let mut probe = mounts[i].host_path.clone();
        probe.append(" OK");
        if !str_contains(stdout, probe.as_str()) {
            let ghost before = string_views(missing@);
            missing.push(mounts[i].host_path.clone());
            proof {
                assert(string_views(missing@) =~= before.push(ps[i as int]));
            }
        }
        i += 1;
    }
    proof {
        assert(ps.take(mounts.len() as int) =~= ps);
    }
    if missing.len() == 0 {
        return Ok(());
    }
    let mut s = String::from_str("stack '");
    s.append(stack);
    s.append("' declares data_mounts this host does not have: ");
    let j = join_strings(missing.as_slice(), ", ");
    s.append(j.as_str());
    s.append(" :: these are directories the orchestrator does not create on purpose, so a missing one means the wrong host or a pool that is not imported — deploying anyway gives a container whose libraries are empty");
    Err(CoreError::SafetyAbort(s))
}

} // verus!
