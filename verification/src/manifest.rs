//! Stack manifest (intent only) + THE validator. This is the single
//! validation implementation — the client uses it for instant wizard
//! feedback, the host uses it as its trust boundary.

use vstd::prelude::*;
use vstd::string::*;
use crate::checks::ServiceChecks;
use crate::error::CoreError;
use crate::retention::RetentionTier;
use crate::text::{
    after_last, before_first, contains, contains_string, dec, dec_string, ends_with,
    is_lower_dashed, join_strings, joined, lines, lines_of, lower_dashed_str, starts_with,
    str_after_last, str_before_first, str_contains, str_ends_with, str_eq, str_starts_with,
    str_trim_quotes, str_trim_start_str, string_views, trim, trim_quotes, trim_start_str,
    trimmed, views,
};

verus! {

#[derive(Debug, Clone)]
pub struct StackManifest {
    pub stack_name: String,
    pub vmid: u16,
    pub hostname: String,
    pub network: NetworkSpec,
    pub resources: ResourceSpec,
    pub lxc: LxcSpec,
    pub boot: BootSpec,
    pub storage: Vec<MountSpec>,
    pub apps: Vec<String>,
    /// A container that runs no docker at all: its services are native
    /// systemd units.
    pub native_only: bool,
    /// The systemd units this container runs, by name.
    pub natives: Vec<String>,
    /// Folders that belong to something else: attached, never owned.
    pub data_mounts: Vec<DataMount>,
    /// This stack's own snapshot retention, overriding the fleet-wide one.
    pub retention: Option<Vec<RetentionTier>>,
    /// A private image registry this stack must sign in to before it can pull.
    pub registry_login: Option<RegistryLogin>,
}

/// Where the credentials for a private registry come from.
#[derive(Debug, Clone, PartialEq, Eq)]
pub struct RegistryLogin {
    /// The registry host, e.g. `ghcr.io`.
    pub registry: String,
    /// The app whose `.env` carries `REGISTRY_USER` and `REGISTRY_TOKEN`.
    pub app: String,
}

/// `<vmid>-app-<stack_name>`.
pub open spec fn canonical(vmid: u16, stack_name: Seq<char>) -> Seq<char> {
    dec(vmid as nat) + "-app-"@ + stack_name
}

impl StackManifest {
    pub fn canonical_hostname(&self) -> (r: String)
        ensures
            r@ == canonical(self.vmid, self.stack_name@),
    {
        let mut s = dec_string(self.vmid as u64);
        s.append("-app-");
        s.append(self.stack_name.as_str());
        s
    }
}

#[derive(Debug, Clone)]
pub struct NetworkSpec {
    /// e.g. "10.10.10.10/24"
    pub ip: String,
    pub gateway: String,
    pub bridge: String,
    pub vlan: Option<u16>,
}

/// The bridge a network spec gets when it names none.
pub fn default_bridge() -> (r: String)
    ensures
        r@ == "vmbr0"@,
{
    String::from_str("vmbr0")
}

#[derive(Debug, Clone)]
pub struct ResourceSpec {
    pub cores: u16,
    pub memory_mb: u32,
    pub swap_mb: u32,
    pub disk_gb: u32,
    pub storage: String,
}

/// The storage a resource spec gets when it names none.
pub fn default_storage() -> (r: String)
    ensures
        r@ == "local-lvm"@,
{
    String::from_str("local-lvm")
}

#[derive(Debug, Clone)]
pub struct LxcSpec {
    pub template: String,
    pub unprivileged: bool,
    pub features: String,
    /// Proxmox protection flag: hypervisor refuses destroy while set.
    pub protection: bool,
    /// Pass the host GPU (/dev/dri) into the container.
    pub gpu: bool,
    /// Give the container a /dev/net/tun device.
    pub vpn: bool,
}

/// The default of the flags that are on unless said otherwise.
pub fn yes() -> (r: bool)
    ensures
        r,
{
    true
}

/// The LXC features a container gets when it names none.
pub fn default_features() -> (r: String)
    ensures
        r@ == "nesting=1,keyctl=1"@,
{
    String::from_str("nesting=1,keyctl=1")
}

#[derive(Debug, Clone)]
pub struct BootSpec {
    pub onboot: bool,
    pub order: Option<u16>,
}

#[derive(Debug, Clone)]
pub struct MountSpec {
    pub host_path: String,
    pub mount_point: String,
    pub host_owner_uid: Option<u32>,
    /// Which app owns this directory; absent = the stack owns it.
    pub app: Option<String>,
    /// Declared to hold nothing: no repository at all.
    pub no_data: bool,
    /// Declared reproducible, with the reason: no repository either.
    pub no_backup: Option<String>,
}

/// The owner of a storage path: its app, or the stack.
pub open spec fn owner_of(m: MountSpec, stack_name: Seq<char>) -> Seq<char> {
    match m.app {
        Some(a) => a@,
        None => stack_name,
    }
}

impl MountSpec {
    /// The restic repository this path belongs to: its app, or the stack.
    pub fn owner<'a>(&'a self, stack_name: &'a str) -> (r: &'a str)
        ensures
            r@ == owner_of(*self, stack_name@),
    {
        match &self.app {
            Some(a) => a.as_str(),
            None => stack_name,
        }
    }
}

/// A bind mount of a directory the orchestrator does not own.
#[derive(Debug, Clone, PartialEq, Eq)]
pub struct DataMount {
    pub host_path: String,
    pub mount_point: String,
    pub note: Option<String>,
}

#[derive(Debug, Clone)]
pub struct FileBlob {
    /// Relative to the stack root, e.g. "syncthing/docker-compose.yml".
    pub path: String,
    pub content: String,
    pub mode: Option<u32>,
}

/// The only cross-stack write the system allows: one route fragment into
/// the gateway's watched routes directory.
#[derive(Debug, Clone)]
pub struct GatewayRoute {
    pub gateway_vmid: u16,
    pub filename: String,
    pub content: String,
}

#[derive(Debug, Clone)]
pub struct DeploySpec {
    pub manifest: StackManifest,
    pub files: Vec<FileBlob>,
    /// Per-app .env content, in app-name order — the secrets channel.
    pub env: Vec<(String, String)>,
    pub gateway_route: Option<GatewayRoute>,
    /// Per-app health checks, in app-name order.
    pub checks: Vec<(String, ServiceChecks)>,
}

// ── The rules ───────────────────────────────────────────────────────────────

pub open spec fn app_problem(app: Seq<char>) -> Seq<char> {
    "app name '"@ + app
        + "' must be non-empty lowercase [a-z0-9-] (it is used in shell paths)"@
}

/// One problem per app whose name could reach a shell unsafely.
pub open spec fn app_problems(apps: Seq<Seq<char>>) -> Seq<Seq<char>>
    decreases apps.len(),
{
    if apps.len() == 0 {
        Seq::empty()
    } else if is_lower_dashed(apps.last()) {
        app_problems(apps.drop_last())
    } else {
        app_problems(apps.drop_last()).push(app_problem(apps.last()))
    }
}

fn collect_manifest_problems(m: &StackManifest, problems: &mut Vec<String>)
    ensures
        string_views(final(problems)@) == string_views(old(problems)@) + app_problems(
            string_views(m.apps@),
        ),
{
    let ghost start = string_views(problems@);
    let mut i: usize = 0;
    while i < m.apps.len()
        invariant
            i <= m.apps.len(),
            string_views(problems@) == start + app_problems(string_views(m.apps@.take(i as int))),
        decreases m.apps.len() - i,
    {
        let app = &m.apps[i];
        proof {
            assert(string_views(m.apps@.take(i + 1)).drop_last() =~= string_views(
                m.apps@.take(i as int),
            ));
            assert(string_views(m.apps@.take(i + 1)).last() == app@);
        }
        if !lower_dashed_str(app.as_str()) {
            let mut s = String::from_str("app name '");
            s.append(app.as_str());
            s.append("' must be non-empty lowercase [a-z0-9-] (it is used in shell paths)");
            push_msg(problems, s);
        }
        i += 1;
    }
    proof {
        assert(m.apps@.take(m.apps.len() as int) =~= m.apps@);
    }
}

/// The validation verdict for a list of problems.
pub open spec fn verdict(problems: Seq<Seq<char>>, r: Result<(), CoreError>) -> bool {
    if problems.len() == 0 {
        r is Ok
    } else {
        r matches Err(CoreError::Validation(msg)) && msg@ == joined(problems, "; "@)
    }
}

/// Manifest-only validation: the checks every manifest-bearing request must
/// pass (app names reach `sh -c` strings inside containers).
pub fn validate_manifest(m: &StackManifest) -> (r: Result<(), CoreError>)
    ensures
        verdict(app_problems(string_views(m.apps@)), r),
{
    let mut problems: Vec<String> = Vec::new();
    collect_manifest_problems(m, &mut problems);
    proof {
        assert(string_views(problems@) =~= app_problems(string_views(m.apps@)));
    }
    if problems.len() == 0 {
        Ok(())
    } else {
        Err(CoreError::Validation(join_strings(problems.as_slice(), "; ")))
    }
}

/// `[msg]` when `cond` holds, nothing otherwise.
pub open spec fn when(cond: bool, msg: Seq<char>) -> Seq<Seq<char>> {
    if cond {
        seq![msg]
    } else {
        Seq::empty()
    }
}

pub open spec fn name_problem(m: StackManifest) -> Seq<Seq<char>> {
    when(
        !is_lower_dashed(m.stack_name@),
        "stack_name '"@ + m.stack_name@ + "' must be non-empty lowercase [a-z0-9-]"@,
    )
}

pub open spec fn vmid_problem(m: StackManifest) -> Seq<Seq<char>> {
    when(
        !(100 <= m.vmid <= 354),
        "vmid "@ + dec(m.vmid as nat) + " outside the allowed range 100-354"@,
    )
}

pub open spec fn hostname_problem(m: StackManifest) -> Seq<Seq<char>> {
    when(
        m.hostname@ != canonical(m.vmid, m.stack_name@),
        "hostname '"@ + m.hostname@ + "' must be canonical '"@ + canonical(m.vmid, m.stack_name@)
            + "'"@,
    )
}

pub open spec fn ip_problem(m: StackManifest) -> Seq<Seq<char>> {
    when(
        !contains(m.network.ip@, "/"@),
        "network.ip '"@ + m.network.ip@ + "' must be CIDR (e.g. 10.10.10.10/24)"@,
    )
}

pub open spec fn size_problems(m: StackManifest) -> Seq<Seq<char>> {
    when(
        m.resources.memory_mb < 128,
        "memory_mb "@ + dec(m.resources.memory_mb as nat) + " below the sane floor of 128"@,
    ) + when(m.resources.cores == 0, "cores must be at least 1"@) + when(
        m.resources.disk_gb < 2,
        "disk_gb "@ + dec(m.resources.disk_gb as nat) + " below the sane floor of 2"@,
    )
}

/// The problems with the manifest's own fields, in the order they are told.
pub open spec fn field_problems(m: StackManifest) -> Seq<Seq<char>> {
    name_problem(m) + vmid_problem(m) + hostname_problem(m) + ip_problem(m) + size_problems(m)
}

pub open spec fn native_only_msg() -> Seq<char> {
    "native_only is set but no natives are declared :: name the systemd units this container runs, so the deploy knows what to install and a rebuild is not guesswork"@
}

pub open spec fn no_apps_msg() -> Seq<char> {
    "a stack needs at least one app :: a container that deliberately runs no docker says so with `native_only: true`, so that an empty list is never mistaken for a list somebody forgot to fill in"@
}

/// Whether the stack says clearly whether it runs docker apps or native units.
pub open spec fn kind_problems(m: StackManifest) -> Seq<Seq<char>> {
    let a = if m.native_only && m.natives@.len() == 0 {
        seq![native_only_msg()]
    } else {
        Seq::empty()
    };
    let b = if m.apps@.len() == 0 && !m.native_only {
        seq![no_apps_msg()]
    } else {
        Seq::empty()
    };
    let c = if m.apps@.len() != 0 && m.native_only {
        seq!["native_only is set but the stack declares apps ("@ + joined(string_views(m.apps@), ", "@) + ") :: one of the two is wrong"@]
    } else {
        Seq::empty()
    };
    a + b + c
}

/// Problems with one borrowed data mount.
pub open spec fn data_mount_problems(dm: DataMount, storage: Seq<MountSpec>) -> Seq<Seq<char>> {
    let a = if !starts_with(dm.host_path@, "/"@) || !starts_with(dm.mount_point@, "/"@) {
        seq!["data_mounts '"@ + dm.host_path@ + "' -> '"@ + dm.mount_point@ + "': both paths must be absolute"@]
    } else {
        Seq::empty()
    };
    let b = if starts_with(dm.host_path@, "/appdata/"@) {
        seq!["data_mounts host_path '"@ + dm.host_path@ + "' is under /appdata/, which is where the directories this stack OWNS live :: declare it under storage: instead, so it is created, backed up and restored"@]
    } else {
        Seq::empty()
    };
    let c = if exists|i: int| 0 <= i < storage.len() && (#[trigger] storage[i]).mount_point@ == dm.mount_point@ {
        seq!["mount_point '"@ + dm.mount_point@ + "' is claimed by both storage: and data_mounts:"@]
    } else {
        Seq::empty()
    };
    a + b + c
}

pub open spec fn data_mounts_problems(dms: Seq<DataMount>, storage: Seq<MountSpec>) -> Seq<Seq<char>>
    decreases dms.len(),
{
    if dms.len() == 0 {
        Seq::empty()
    } else {
        data_mounts_problems(dms.drop_last(), storage) + data_mount_problems(dms.last(), storage)
    }
}

pub open spec fn mount_place_problems(mount: MountSpec) -> Seq<Seq<char>> {
    when(
        !starts_with(mount.host_path@, "/appdata/"@),
        "storage host_path '"@ + mount.host_path@ + "' must live under /appdata/"@,
    ) + when(
        !starts_with(mount.mount_point@, "/"@),
        "mount_point '"@ + mount.mount_point@ + "' must be absolute"@,
    )
}

pub open spec fn mount_name_problems(mount: MountSpec, m: StackManifest) -> Seq<Seq<char>> {
    let dir = after_last(mount.host_path@, '/');
    if !ends_with(dir, "-config"@) {
        seq!["storage '"@ + mount.host_path@ + "' must be named '"@ + owner_of(mount, m.stack_name@) + "-config' — the restore finds a path by its name"@]
    } else {
        match mount.app {
            Some(app) => when(
                dir != app@ + "-config"@,
                "storage '"@ + mount.host_path@ + "' is owned by app '"@ + app@ + "' but is not named '"@ + (app@ + "-config"@) + "' — the name and the owner must agree, or the directory says one thing and the backup does another"@,
            ),
            None => Seq::empty(),
        }
    }
}

pub open spec fn mount_owner_problems(mount: MountSpec, m: StackManifest) -> Seq<Seq<char>> {
    match mount.app {
        Some(app) => when(
            !string_views(m.apps@).contains(app@) && !string_views(m.natives@).contains(app@),
            "storage '"@ + mount.host_path@ + "' is owned by '"@ + app@ + "', which this stack declares neither as an app nor as a native unit"@,
        ),
        None => Seq::empty(),
    }
}

pub open spec fn mount_uid_problems(mount: MountSpec, m: StackManifest) -> Seq<Seq<char>> {
    match mount.host_owner_uid {
        Some(uid) => when(
            m.lxc.unprivileged && uid < 100_000,
            "storage host_owner_uid "@ + dec(uid as nat) + " on unprivileged stack '"@ + m.stack_name@ + "': uid "@ + dec(uid as nat) + " inside the container is "@ + dec((uid + 100_000) as nat) + " on the host — use "@ + dec((uid + 100_000) as nat),
        ) + when(
            !m.lxc.unprivileged && uid >= 100_000,
            "storage host_owner_uid "@ + dec(uid as nat) + " on PRIVILEGED stack '"@ + m.stack_name@ + "': there is no id mapping, so the host uid is the container uid — use "@ + dec((uid - 100_000) as nat),
        ),
        None => Seq::empty(),
    }
}

/// Problems with one owned storage path.
pub open spec fn mount_problems(mount: MountSpec, m: StackManifest) -> Seq<Seq<char>> {
    mount_place_problems(mount) + mount_name_problems(mount, m) + mount_owner_problems(mount, m)
        + mount_uid_problems(mount, m)
}

pub open spec fn mounts_problems(ms: Seq<MountSpec>, m: StackManifest) -> Seq<Seq<char>>
    decreases ms.len(),
{
    if ms.len() == 0 {
        Seq::empty()
    } else {
        mounts_problems(ms.drop_last(), m) + mount_problems(ms.last(), m)
    }
}

/// The shortcomings of every app's checks, each prefixed with the app.
pub open spec fn checks_problems(cs: Seq<(String, ServiceChecks)>) -> Seq<Seq<char>>
    decreases cs.len(),
{
    if cs.len() == 0 {
        Seq::empty()
    } else {
        let (app, sc) = cs.last();
        checks_problems(cs.drop_last()) + crate::checks::shortcomings_of(sc.checks@).map_values(
            |p: Seq<char>| "checks for '"@ + app@ + "': "@ + p,
        )
    }
}

pub open spec fn file_path_problems(fs: Seq<FileBlob>) -> Seq<Seq<char>>
    decreases fs.len(),
{
    if fs.len() == 0 {
        Seq::empty()
    } else {
        let f = fs.last();
        let pre = file_path_problems(fs.drop_last());
        if contains(f.path@, ".."@) || starts_with(f.path@, "/"@) {
            pre.push("file path '"@ + f.path@ + "' escapes the stack root"@)
        } else {
            pre
        }
    }
}

pub open spec fn env_problems(env: Seq<(String, String)>, apps: Seq<Seq<char>>) -> Seq<Seq<char>>
    decreases env.len(),
{
    if env.len() == 0 {
        Seq::empty()
    } else {
        let pre = env_problems(env.drop_last(), apps);
        if !apps.contains(env.last().0@) {
            pre.push("env provided for unknown app '"@ + env.last().0@ + "'"@)
        } else {
            pre
        }
    }
}

pub open spec fn login_problems(r: Option<RegistryLogin>, apps: Seq<Seq<char>>) -> Seq<Seq<char>> {
    match r {
        None => Seq::empty(),
        Some(r) => {
            let a = if !apps.contains(r.app@) {
                seq!["registry_login reads its credentials from app '"@ + r.app@ + "', which this stack does not declare"@]
            } else {
                Seq::empty()
            };
            let b = if r.registry@.len() == 0 || contains(r.registry@, "/"@) {
                seq!["registry_login.registry '"@ + r.registry@ + "' must be a bare host like 'ghcr.io'"@]
            } else {
                Seq::empty()
            };
            a + b
        },
    }
}

/// A route filename that cannot escape the routes directory and is YAML.
pub open spec fn route_filename_ok(f: Seq<char>) -> bool {
    !contains(f, "/"@) && !contains(f, ".."@) && ends_with(f, ".yml"@)
}

pub open spec fn route_problems(r: Option<GatewayRoute>) -> Seq<Seq<char>> {
    match r {
        Some(route) => if !route_filename_ok(route.filename@) {
            seq!["gateway route filename '"@ + route.filename@ + "' invalid"@]
        } else {
            Seq::empty()
        },
        None => Seq::empty(),
    }
}

/// The host side of a compose bind line: `- "/appdata/x:/config"` → `/appdata/x`.
pub open spec fn bind_host(line: Seq<char>) -> Seq<char> {
    before_first(trim_quotes(trim_start_str(trimmed(line), "- "@)), ':')
}

/// The bind is inside (or is) one of the declared storage paths.
pub open spec fn covered(host: Seq<char>, declared: Seq<Seq<char>>) -> bool {
    declared.contains(host) || exists|i: int|
        0 <= i < declared.len() && starts_with(host, #[trigger] declared[i] + "/"@)
}

pub open spec fn bind_problems(path: Seq<char>, ls: Seq<Seq<char>>, declared: Seq<Seq<char>>) -> Seq<Seq<char>>
    decreases ls.len(),
{
    if ls.len() == 0 {
        Seq::empty()
    } else {
        let pre = bind_problems(path, ls.drop_last(), declared);
        let host = bind_host(ls.last());
        if starts_with(host, "/appdata/"@) && !covered(host, declared) {
            pre.push(path + ": bind '"@ + host + "' is not declared under storage: — data would land on the container rootfs (add a storage entry or remove the bind)"@)
        } else {
            pre
        }
    }
}

pub open spec fn compose_problems(fs: Seq<FileBlob>, declared: Seq<Seq<char>>) -> Seq<Seq<char>>
    decreases fs.len(),
{
    if fs.len() == 0 {
        Seq::empty()
    } else {
        let f = fs.last();
        let pre = compose_problems(fs.drop_last(), declared);
        if ends_with(f.path@, "docker-compose.yml"@) {
            pre + bind_problems(f.path@, lines_of(f.content@), declared)
        } else {
            pre
        }
    }
}

pub open spec fn host_paths(ms: Seq<MountSpec>) -> Seq<Seq<char>> {
    ms.map_values(|s: MountSpec| s.host_path@)
}

/// Every problem with a deploy spec, in the order they are reported.
pub open spec fn deploy_problems(spec: DeploySpec) -> Seq<Seq<char>> {
    let m = spec.manifest;
    app_problems(string_views(m.apps@)) + field_problems(m) + kind_problems(m)
        + data_mounts_problems(m.data_mounts@, m.storage@) + mounts_problems(m.storage@, m)
        + checks_problems(spec.checks@) + file_path_problems(spec.files@) + env_problems(
        spec.env@,
        string_views(m.apps@),
    ) + login_problems(m.registry_login, string_views(m.apps@)) + route_problems(
        spec.gateway_route,
    ) + compose_problems(spec.files@, host_paths(m.storage@))
}

fn push_msg(problems: &mut Vec<String>, s: String)
    ensures
        string_views(final(problems)@) == string_views(old(problems)@).push(s@),
{
    problems.push(s);
    proof {
        assert(string_views(problems@) =~= string_views(old(problems)@).push(s@));
    }
}

#[verifier::rlimit(50)]
fn field_checks(m: &StackManifest, problems: &mut Vec<String>)
    ensures
        string_views(final(problems)@) == string_views(old(problems)@) + field_problems(*m),
{
    let ghost p0 = string_views(problems@);
    if !lower_dashed_str(m.stack_name.as_str()) {
        let mut s = String::from_str("stack_name '");
        s.append(m.stack_name.as_str());
        s.append("' must be non-empty lowercase [a-z0-9-]");
        push_msg(problems, s);
    }
    let ghost p1 = string_views(problems@);
    proof {
        assert(p1 =~= p0 + name_problem(*m));
    }
    if !(100 <= m.vmid && m.vmid <= 354) {
        let mut s = String::from_str("vmid ");
        let d = dec_string(m.vmid as u64);
        s.append(d.as_str());
        s.append(" outside the allowed range 100-354");
        push_msg(problems, s);
    }
    let ghost p2 = string_views(problems@);
    proof {
        assert(p2 =~= p1 + vmid_problem(*m));
    }
    let canonical_name = m.canonical_hostname();
    if !str_eq(m.hostname.as_str(), canonical_name.as_str()) {
        let mut s = String::from_str("hostname '");
        s.append(m.hostname.as_str());
        s.append("' must be canonical '");
        s.append(canonical_name.as_str());
        s.append("'");
        push_msg(problems, s);
    }
    let ghost p3 = string_views(problems@);
    proof {
        assert(p3 =~= p2 + hostname_problem(*m));
    }
    if !str_contains(m.network.ip.as_str(), "/") {
        let mut s = String::from_str("network.ip '");
        s.append(m.network.ip.as_str());
        s.append("' must be CIDR (e.g. 10.10.10.10/24)");
        push_msg(problems, s);
    }
    let ghost p4 = string_views(problems@);
    proof {
        assert(p4 =~= p3 + ip_problem(*m));
    }
    size_checks(m, problems);
    proof {
        assert(string_views(problems@) =~= p0 + field_problems(*m));
    }
}

fn size_checks(m: &StackManifest, problems: &mut Vec<String>)
    ensures
        string_views(final(problems)@) == string_views(old(problems)@) + size_problems(*m),
{
    let ghost p0 = string_views(problems@);
    if m.resources.memory_mb < 128 {
        let mut s = String::from_str("memory_mb ");
        let d = dec_string(m.resources.memory_mb as u64);
        s.append(d.as_str());
        s.append(" below the sane floor of 128");
        push_msg(problems, s);
    }
    if m.resources.cores == 0 {
        push_msg(problems, String::from_str("cores must be at least 1"));
    }
    if m.resources.disk_gb < 2 {
        let mut s = String::from_str("disk_gb ");
        let d = dec_string(m.resources.disk_gb as u64);
        s.append(d.as_str());
        s.append(" below the sane floor of 2");
        push_msg(problems, s);
    }
    proof {
        assert(string_views(problems@) =~= p0 + size_problems(*m));
    }
}

fn kind_checks(m: &StackManifest, problems: &mut Vec<String>)
    ensures
        string_views(final(problems)@) == string_views(old(problems)@) + kind_problems(*m),
{
    let ghost p0 = string_views(problems@);
    if m.native_only && m.natives.len() == 0 {
        push_msg(problems, String::from_str(
            "native_only is set but no natives are declared :: name the systemd units this container runs, so the deploy knows what to install and a rebuild is not guesswork",
        ));
    }
    if m.apps.len() == 0 && !m.native_only {
        push_msg(problems, String::from_str(
            "a stack needs at least one app :: a container that deliberately runs no docker says so with `native_only: true`, so that an empty list is never mistaken for a list somebody forgot to fill in",
        ));
    }
    if m.apps.len() != 0 && m.native_only {
        let mut s = String::from_str("native_only is set but the stack declares apps (");
        let j = join_strings(m.apps.as_slice(), ", ");
        s.append(j.as_str());
        s.append(") :: one of the two is wrong");
        push_msg(problems, s);
    }
    proof {
        assert(string_views(problems@) =~= p0 + kind_problems(*m));
    }
}

fn claimed_by_storage(storage: &Vec<MountSpec>, mount_point: &str) -> (r: bool)
    ensures
        r == exists|i: int| 0 <= i < storage@.len() && (#[trigger] storage@[i]).mount_point@ == mount_point@,
{
    let mut i: usize = 0;
    while i < storage.len()
        invariant
            i <= storage.len(),
            forall|k: int| 0 <= k < i ==> (#[trigger] storage@[k]).mount_point@ != mount_point@,
        decreases storage.len() - i,
    {
        if str_eq(storage[i].mount_point.as_str(), mount_point) {
            return true;
        }
        i += 1;
    }
    false
}

fn data_mount_checks(m: &StackManifest, problems: &mut Vec<String>)
    ensures
        string_views(final(problems)@) == string_views(old(problems)@) + data_mounts_problems(
            m.data_mounts@,
            m.storage@,
        ),
{
    let ghost p0 = string_views(problems@);
    let mut i: usize = 0;
    while i < m.data_mounts.len()
        invariant
            i <= m.data_mounts.len(),
            string_views(problems@) == p0 + data_mounts_problems(
                m.data_mounts@.take(i as int),
                m.storage@,
            ),
        decreases m.data_mounts.len() - i,
    {
        let dm = &m.data_mounts[i];
        let ghost before = string_views(problems@);
        proof {
            assert(m.data_mounts@.take(i + 1).drop_last() =~= m.data_mounts@.take(i as int));
            assert(m.data_mounts@.take(i + 1).last() == *dm);
        }
        if !str_starts_with(dm.host_path.as_str(), "/") || !str_starts_with(
            dm.mount_point.as_str(),
            "/",
        ) {
            let mut s = String::from_str("data_mounts '");
            s.append(dm.host_path.as_str());
            s.append("' -> '");
            s.append(dm.mount_point.as_str());
            s.append("': both paths must be absolute");
            push_msg(problems, s);
        }
        if str_starts_with(dm.host_path.as_str(), "/appdata/") {
            let mut s = String::from_str("data_mounts host_path '");
            s.append(dm.host_path.as_str());
            s.append(
                "' is under /appdata/, which is where the directories this stack OWNS live :: declare it under storage: instead, so it is created, backed up and restored",
            );
            push_msg(problems, s);
        }
        if claimed_by_storage(&m.storage, dm.mount_point.as_str()) {
            let mut s = String::from_str("mount_point '");
            s.append(dm.mount_point.as_str());
            s.append("' is claimed by both storage: and data_mounts:");
            push_msg(problems, s);
        }
        proof {
            assert(string_views(problems@) =~= before + data_mount_problems(*dm, m.storage@));
            assert(p0 + data_mounts_problems(m.data_mounts@.take(i + 1), m.storage@) =~= p0
                + data_mounts_problems(m.data_mounts@.take(i as int), m.storage@)
                + data_mount_problems(*dm, m.storage@));
        }
        i += 1;
    }
    proof {
        assert(m.data_mounts@.take(m.data_mounts.len() as int) =~= m.data_mounts@);
    }
}

fn one_mount_checks(mount: &MountSpec, m: &StackManifest, problems: &mut Vec<String>)
    ensures
        string_views(final(problems)@) == string_views(old(problems)@) + mount_problems(*mount, *m),
{
    let ghost p0 = string_views(problems@);
    if !str_starts_with(mount.host_path.as_str(), "/appdata/") {
        let mut s = String::from_str("storage host_path '");
        s.append(mount.host_path.as_str());
        s.append("' must live under /appdata/");
        push_msg(problems, s);
    }
    if !str_starts_with(mount.mount_point.as_str(), "/") {
        let mut s = String::from_str("mount_point '");
        s.append(mount.mount_point.as_str());
        s.append("' must be absolute");
        push_msg(problems, s);
    }
    let ghost p1 = string_views(problems@);
    proof {
        assert(p1 =~= p0 + mount_place_problems(*mount));
    }
    mount_name_checks(mount, m, problems);
    let ghost p2 = string_views(problems@);
    if let Some(app) = &mount.app {
        if !contains_string(&m.apps, app.as_str()) && !contains_string(&m.natives, app.as_str()) {
            let mut s = String::from_str("storage '");
            s.append(mount.host_path.as_str());
            s.append("' is owned by '");
            s.append(app.as_str());
            s.append("', which this stack declares neither as an app nor as a native unit");
            push_msg(problems, s);
        }
    }
    let ghost p3 = string_views(problems@);
    proof {
        assert(p3 =~= p2 + mount_owner_problems(*mount, *m));
    }
    mount_uid_checks(mount, m, problems);
    proof {
        assert(string_views(problems@) =~= p0 + mount_problems(*mount, *m));
    }
}

fn mount_name_checks(mount: &MountSpec, m: &StackManifest, problems: &mut Vec<String>)
    ensures
        string_views(final(problems)@) == string_views(old(problems)@) + mount_name_problems(
            *mount,
            *m,
        ),
{
    let ghost p0 = string_views(problems@);
    let dir = str_after_last(mount.host_path.as_str(), '/');
    if !str_ends_with(dir, "-config") {
        let owner = mount.owner(m.stack_name.as_str());
        let mut s = String::from_str("storage '");
        s.append(mount.host_path.as_str());
        s.append("' must be named '");
        s.append(owner);
        s.append("-config' — the restore finds a path by its name");
        push_msg(problems, s);
    } else if let Some(app) = &mount.app {
        let mut expected = app.clone();
        expected.append("-config");
        if !str_eq(dir, expected.as_str()) {
            let mut s = String::from_str("storage '");
            s.append(mount.host_path.as_str());
            s.append("' is owned by app '");
            s.append(app.as_str());
            s.append("' but is not named '");
            s.append(expected.as_str());
            s.append(
                "' — the name and the owner must agree, or the directory says one thing and the backup does another",
            );
            push_msg(problems, s);
        }
    }
    proof {
        assert(string_views(problems@) =~= p0 + mount_name_problems(*mount, *m));
    }
}

fn mount_uid_checks(mount: &MountSpec, m: &StackManifest, problems: &mut Vec<String>)
    ensures
        string_views(final(problems)@) == string_views(old(problems)@) + mount_uid_problems(
            *mount,
            *m,
        ),
{
    let ghost p0 = string_views(problems@);
    if let Some(uid) = mount.host_owner_uid {
        if m.lxc.unprivileged && uid < 100_000 {
            let u = dec_string(uid as u64);
            let mapped = dec_string(uid as u64 + 100_000);
            let mut s = String::from_str("storage host_owner_uid ");
            s.append(u.as_str());
            s.append(" on unprivileged stack '");
            s.append(m.stack_name.as_str());
            s.append("': uid ");
            s.append(u.as_str());
            s.append(" inside the container is ");
            s.append(mapped.as_str());
            s.append(" on the host — use ");
            s.append(mapped.as_str());
            push_msg(problems, s);
        }
        if !m.lxc.unprivileged && uid >= 100_000 {
            let u = dec_string(uid as u64);
            let unmapped = dec_string(uid as u64 - 100_000);
            let mut s = String::from_str("storage host_owner_uid ");
            s.append(u.as_str());
            s.append(" on PRIVILEGED stack '");
            s.append(m.stack_name.as_str());
            s.append("': there is no id mapping, so the host uid is the container uid — use ");
            s.append(unmapped.as_str());
            push_msg(problems, s);
        }
    }
    proof {
        assert(string_views(problems@) =~= p0 + mount_uid_problems(*mount, *m));
    }
}

fn mount_checks(m: &StackManifest, problems: &mut Vec<String>)
    ensures
        string_views(final(problems)@) == string_views(old(problems)@) + mounts_problems(
            m.storage@,
            *m,
        ),
{
    let ghost p0 = string_views(problems@);
    let mut i: usize = 0;
    while i < m.storage.len()
        invariant
            i <= m.storage.len(),
            string_views(problems@) == p0 + mounts_problems(m.storage@.take(i as int), *m),
        decreases m.storage.len() - i,
    {
        let mount = &m.storage[i];
        proof {
            assert(m.storage@.take(i + 1).drop_last() =~= m.storage@.take(i as int));
            assert(m.storage@.take(i + 1).last() == *mount);
        }
        one_mount_checks(mount, m, problems);
        proof {
            assert(p0 + mounts_problems(m.storage@.take(i + 1), *m) =~= p0 + mounts_problems(
                m.storage@.take(i as int),
                *m,
            ) + mount_problems(*mount, *m));
        }
        i += 1;
    }
    proof {
        assert(m.storage@.take(m.storage.len() as int) =~= m.storage@);
    }
}

fn checks_checks(cs: &Vec<(String, ServiceChecks)>, problems: &mut Vec<String>)
    ensures
        string_views(final(problems)@) == string_views(old(problems)@) + checks_problems(cs@),
{
    let ghost p0 = string_views(problems@);
    let mut i: usize = 0;
    while i < cs.len()
        invariant
            i <= cs.len(),
            string_views(problems@) == p0 + checks_problems(cs@.take(i as int)),
        decreases cs.len() - i,
    {
        let (app, sc) = (&cs[i].0, &cs[i].1);
        proof {
            assert(cs@.take(i + 1).drop_last() =~= cs@.take(i as int));
            assert(cs@.take(i + 1).last() == cs@[i as int]);
        }
        let found = crate::checks::shortcomings(sc);
        let ghost before = string_views(problems@);
        let ghost mapped = crate::checks::shortcomings_of(sc.checks@).map_values(
            |p: Seq<char>| "checks for '"@ + app@ + "': "@ + p,
        );
        let mut k: usize = 0;
        while k < found.len()
            invariant
                k <= found.len(),
                string_views(found@) == crate::checks::shortcomings_of(sc.checks@),
                mapped == crate::checks::shortcomings_of(sc.checks@).map_values(
                    |p: Seq<char>| "checks for '"@ + app@ + "': "@ + p,
                ),
                string_views(problems@) == before + mapped.take(k as int),
            decreases found.len() - k,
        {
            let mut s = String::from_str("checks for '");
            s.append(app.as_str());
            s.append("': ");
            s.append(found[k].as_str());
            proof {
                assert(mapped[k as int] == s@);
                assert(mapped.take(k + 1) =~= mapped.take(k as int).push(s@));
            }
            push_msg(problems, s);
            k += 1;
        }
        proof {
            assert(mapped.take(found.len() as int) =~= mapped);
        }
        i += 1;
    }
    proof {
        assert(cs@.take(cs.len() as int) =~= cs@);
    }
}

fn file_checks(spec: &DeploySpec, problems: &mut Vec<String>)
    ensures
        string_views(final(problems)@) == string_views(old(problems)@) + file_path_problems(
            spec.files@,
        ) + env_problems(spec.env@, string_views(spec.manifest.apps@)),
{
    let ghost p0 = string_views(problems@);
    let mut i: usize = 0;
    while i < spec.files.len()
        invariant
            i <= spec.files.len(),
            string_views(problems@) == p0 + file_path_problems(spec.files@.take(i as int)),
        decreases spec.files.len() - i,
    {
        let f = &spec.files[i];
        proof {
            assert(spec.files@.take(i + 1).drop_last() =~= spec.files@.take(i as int));
            assert(spec.files@.take(i + 1).last() == *f);
        }
        if str_contains(f.path.as_str(), "..") || str_starts_with(f.path.as_str(), "/") {
            let mut s = String::from_str("file path '");
            s.append(f.path.as_str());
            s.append("' escapes the stack root");
            push_msg(problems, s);
        }
        i += 1;
    }
    proof {
        assert(spec.files@.take(spec.files.len() as int) =~= spec.files@);
    }
    let ghost p1 = string_views(problems@);
    let mut i: usize = 0;
    while i < spec.env.len()
        invariant
            i <= spec.env.len(),
            string_views(problems@) == p1 + env_problems(
                spec.env@.take(i as int),
                string_views(spec.manifest.apps@),
            ),
        decreases spec.env.len() - i,
    {
        let app = &spec.env[i].0;
        proof {
            assert(spec.env@.take(i + 1).drop_last() =~= spec.env@.take(i as int));
            assert(spec.env@.take(i + 1).last() == spec.env@[i as int]);
        }
        if !contains_string(&spec.manifest.apps, app.as_str()) {
            let mut s = String::from_str("env provided for unknown app '");
            s.append(app.as_str());
            s.append("'");
            push_msg(problems, s);
        }
        i += 1;
    }
    proof {
        assert(spec.env@.take(spec.env.len() as int) =~= spec.env@);
    }
}

fn login_and_route_checks(spec: &DeploySpec, problems: &mut Vec<String>)
    ensures
        string_views(final(problems)@) == string_views(old(problems)@) + login_problems(
            spec.manifest.registry_login,
            string_views(spec.manifest.apps@),
        ) + route_problems(spec.gateway_route),
{
    let ghost p0 = string_views(problems@);
    if let Some(r) = &spec.manifest.registry_login {
        if !contains_string(&spec.manifest.apps, r.app.as_str()) {
            let mut s = String::from_str("registry_login reads its credentials from app '");
            s.append(r.app.as_str());
            s.append("', which this stack does not declare");
            push_msg(problems, s);
        }
        if r.registry.as_str().unicode_len() == 0 || str_contains(r.registry.as_str(), "/") {
            let mut s = String::from_str("registry_login.registry '");
            s.append(r.registry.as_str());
            s.append("' must be a bare host like 'ghcr.io'");
            push_msg(problems, s);
        }
    }
    let ghost p1 = string_views(problems@);
    if let Some(route) = &spec.gateway_route {
        let f = route.filename.as_str();
        if str_contains(f, "/") || str_contains(f, "..") || !str_ends_with(f, ".yml") {
            let mut s = String::from_str("gateway route filename '");
            s.append(f);
            s.append("' invalid");
            push_msg(problems, s);
        }
    }
    proof {
        assert(string_views(problems@) =~= p0 + login_problems(
            spec.manifest.registry_login,
            string_views(spec.manifest.apps@),
        ) + route_problems(spec.gateway_route));
    }
}

fn is_covered(host: &str, declared: &Vec<&str>) -> (r: bool)
    ensures
        r == covered(host@, views(declared@)),
{
    let ghost dv = views(declared@);
    let mut i: usize = 0;
    while i < declared.len()
        invariant
            i <= declared.len(),
            dv == views(declared@),
            forall|k: int| 0 <= k < i ==> dv[k] != host@ && !starts_with(host@, #[trigger] dv[k] + "/"@),
        decreases declared.len() - i,
    {
        proof {
            assert(dv[i as int] == declared@[i as int]@);
        }
        if str_eq(declared[i], host) {
            return true;
        }
        let mut with_slash = String::from_str(declared[i]);
        with_slash.append("/");
        if str_starts_with(host, with_slash.as_str()) {
            return true;
        }
        i += 1;
    }
    proof {
        if dv.contains(host@) {
            let k = choose|k: int| 0 <= k < dv.len() && dv[k] == host@;
            assert(dv[k] != host@);
        }
    }
    false
}

fn compose_checks(spec: &DeploySpec, problems: &mut Vec<String>)
    ensures
        string_views(final(problems)@) == string_views(old(problems)@) + compose_problems(
            spec.files@,
            host_paths(spec.manifest.storage@),
        ),
{
    let mut declared: Vec<&str> = Vec::new();
    let mut j: usize = 0;
    while j < spec.manifest.storage.len()
        invariant
            j <= spec.manifest.storage.len(),
            declared@.len() == j,
            forall|k: int| 0 <= k < j ==> (#[trigger] declared@[k])@ == spec.manifest.storage@[k].host_path@,
        decreases spec.manifest.storage.len() - j,
    {
        declared.push(spec.manifest.storage[j].host_path.as_str());
        j += 1;
    }
    let ghost dv = host_paths(spec.manifest.storage@);
    proof {
        assert(views(declared@) =~= dv);
    }
    let ghost p0 = string_views(problems@);
    let mut i: usize = 0;
    while i < spec.files.len()
        invariant
            i <= spec.files.len(),
            views(declared@) == dv,
            string_views(problems@) == p0 + compose_problems(spec.files@.take(i as int), dv),
        decreases spec.files.len() - i,
    {
        let f = &spec.files[i];
        proof {
            assert(spec.files@.take(i + 1).drop_last() =~= spec.files@.take(i as int));
            assert(spec.files@.take(i + 1).last() == *f);
        }
        if str_ends_with(f.path.as_str(), "docker-compose.yml") {
            let ls = lines(f.content.as_str());
            let ghost before = string_views(problems@);
            let ghost lv = views(ls@);
            let mut k: usize = 0;
            while k < ls.len()
                invariant
                    k <= ls.len(),
                    lv == views(ls@),
                    views(declared@) == dv,
                    string_views(problems@) == before + bind_problems(f.path@, lv.take(k as int), dv),
                decreases ls.len() - k,
            {
                proof {
                    assert(lv.take(k + 1).drop_last() =~= lv.take(k as int));
                    assert(lv.take(k + 1).last() == ls@[k as int]@);
                }
                let t = str_trim_quotes(str_trim_start_str(trim(ls[k]), "- "));
                let host = str_before_first(t, ':');
                if str_starts_with(host, "/appdata/") && !is_covered(host, &declared) {
                    let mut s = f.path.clone();
                    s.append(": bind '");
                    s.append(host);
                    s.append(
                        "' is not declared under storage: — data would land on the container rootfs (add a storage entry or remove the bind)",
                    );
                    push_msg(problems, s);
                }
                k += 1;
            }
            proof {
                assert(lv.take(ls.len() as int) =~= lv);
            }
        }
        i += 1;
    }
    proof {
        assert(spec.files@.take(spec.files.len() as int) =~= spec.files@);
    }
}

/// Validate a full deploy spec. Every problem is found (not just the first)
/// so the wizard can show them all at once.
pub fn validate(spec: &DeploySpec) -> (r: Result<(), CoreError>)
    ensures
        verdict(deploy_problems(*spec), r),
{
    let mut problems: Vec<String> = Vec::new();
    let m = &spec.manifest;
    collect_manifest_problems(m, &mut problems);
    field_checks(m, &mut problems);
    kind_checks(m, &mut problems);
    data_mount_checks(m, &mut problems);
    mount_checks(m, &mut problems);
    checks_checks(&spec.checks, &mut problems);
    file_checks(spec, &mut problems);
    login_and_route_checks(spec, &mut problems);
    compose_checks(spec, &mut problems);
    proof {
        assert(string_views(problems@) =~= deploy_problems(*spec));
    }
    if problems.len() == 0 {
        Ok(())
    } else {
        Err(CoreError::Validation(join_strings(problems.as_slice(), "; ")))
    }
}

// ── Intent fingerprint ──────────────────────────────────────────────────────

/// `files` stably sorted by path: each file goes after every earlier one
/// whose path is not greater.
pub open spec fn insert_by_path(sorted: Seq<FileBlob>, f: FileBlob) -> Seq<FileBlob>
    decreases sorted.len(),
{
    if sorted.len() == 0 {
        seq![f]
    } else if crate::text::str_le(sorted.last().path@, f.path@) {
        sorted.push(f)
    } else {
        insert_by_path(sorted.drop_last(), f).push(sorted.last())
    }
}

pub open spec fn sorted_by_path(fs: Seq<FileBlob>) -> Seq<FileBlob>
    decreases fs.len(),
{
    if fs.len() == 0 {
        Seq::empty()
    } else {
        insert_by_path(sorted_by_path(fs.drop_last()), fs.last())
    }
}

pub open spec fn utf8(s: Seq<char>) -> Seq<u8> {
    vstd::utf8::encode_utf8(s)
}

/// Two strings, each followed by a NUL byte.
pub open spec fn pair_bytes(a: Seq<char>, b: Seq<char>) -> Seq<u8> {
    utf8(a) + seq![0u8] + utf8(b) + seq![0u8]
}

pub open spec fn files_bytes(fs: Seq<FileBlob>) -> Seq<u8>
    decreases fs.len(),
{
    if fs.len() == 0 {
        Seq::empty()
    } else {
        files_bytes(fs.drop_last()) + pair_bytes(fs.last().path@, fs.last().content@)
    }
}

pub open spec fn env_bytes(env: Seq<(String, String)>) -> Seq<u8>
    decreases env.len(),
{
    if env.len() == 0 {
        Seq::empty()
    } else {
        env_bytes(env.drop_last()) + pair_bytes(env.last().0@, env.last().1@)
    }
}

/// Everything a deploy intends, as the bytes that are hashed: the manifest
/// as JSON, every file (path order) and every `.env` (app order).
pub open spec fn intent_bytes(manifest_json: Seq<u8>, spec: DeploySpec) -> Seq<u8> {
    manifest_json + files_bytes(sorted_by_path(spec.files@)) + env_bytes(spec.env@)
}

fn push_bytes(out: &mut Vec<u8>, s: &str)
    ensures
        final(out)@ == old(out)@ + utf8(s@),
{
    let b = s.as_bytes();
    let mut i: usize = 0;
    while i < b.len()
        invariant
            i <= b@.len(),
            b@ == utf8(s@),
            out@ == old(out)@ + b@.take(i as int),
        decreases b.len() - i,
    {
        out.push(b[i]);
        proof {
            assert(b@.take(i + 1) =~= b@.take(i as int).push(b@[i as int]));
        }
        i += 1;
    }
    proof {
        assert(b@.take(b.len() as int) =~= b@);
    }
}

fn sort_files_by_path(files: &Vec<FileBlob>) -> (r: Vec<&FileBlob>)
    ensures
        r@.map_values(|f: &FileBlob| *f) == sorted_by_path(files@),
{
    let mut sorted: Vec<&FileBlob> = Vec::new();
    let mut i: usize = 0;
    while i < files.len()
        invariant
            i <= files.len(),
            sorted@.map_values(|f: &FileBlob| *f) == sorted_by_path(files@.take(i as int)),
        decreases files.len() - i,
    {
        let f = &files[i];
        proof {
            assert(files@.take(i + 1).drop_last() =~= files@.take(i as int));
            assert(files@.take(i + 1).last() == *f);
        }
        // Insert after the last entry whose path is not greater.
        let ghost before = sorted@.map_values(|f: &FileBlob| *f);
        let mut j = sorted.len();
        proof {
            assert(before.take(j as int) =~= before);
            assert(before.skip(j as int) =~= Seq::<FileBlob>::empty());
            assert(insert_by_path(before, *f) + Seq::<FileBlob>::empty() =~= insert_by_path(before, *f));
        }
        while j > 0 && !crate::text::str_le_exec(sorted[j - 1].path.as_str(), f.path.as_str())
            invariant
                j <= sorted.len(),
                before == sorted@.map_values(|f: &FileBlob| *f),
                insert_by_path(before, *f) == insert_by_path(before.take(j as int), *f) + before.skip(j as int),
            decreases j,
        {
            proof {
                assert(before.take(j as int).last() == before[j - 1]);
                assert(before.take(j as int).drop_last() =~= before.take(j - 1));
                assert(before.skip(j - 1) =~= seq![before[j - 1]] + before.skip(j as int));
                assert(insert_by_path(before.take(j - 1), *f).push(before[j - 1]) + before.skip(j as int)
                    =~= insert_by_path(before.take(j - 1), *f) + before.skip(j - 1));
            }
            j -= 1;
        }
        proof {
            if j > 0 {
                assert(before.take(j as int).last() == before[j - 1]);
                assert(insert_by_path(before.take(j as int), *f) == before.take(j as int).push(*f));
            } else {
                assert(before.take(0) =~= Seq::<FileBlob>::empty());
            }
        }
        sorted.insert(j, f);
        proof {
            assert(sorted@.map_values(|f: &FileBlob| *f) =~= before.take(j as int).push(*f) + before.skip(j as int));
        }
        i += 1;
    }
    proof {
        assert(files@.take(files.len() as int) =~= files@);
    }
    sorted
}

/// Deterministic fingerprint of a deploy's full intent — manifest, files,
/// env — so the client can compare its local stack directory against what
/// the host last applied: the first 8 bytes of the SHA-256 of
/// [`intent_bytes`], in hex. The manifest comes in as its JSON bytes; an
/// unserialisable manifest contributes none.
pub fn intent_hash(manifest_json: &[u8], spec: &DeploySpec) -> (r: String)
    ensures
        r@ == crate::digest::hex(crate::digest::sha256(intent_bytes(manifest_json@, *spec)).take(8)),
{
    let mut bytes: Vec<u8> = Vec::new();
    let mut k: usize = 0;
    while k < manifest_json.len()
        invariant
            k <= manifest_json@.len(),
            bytes@ == manifest_json@.take(k as int),
        decreases manifest_json.len() - k,
    {
        bytes.push(manifest_json[k]);
        proof {
            assert(manifest_json@.take(k + 1) =~= manifest_json@.take(k as int).push(manifest_json@[k as int]));
        }
        k += 1;
    }
    proof {
        assert(manifest_json@.take(manifest_json.len() as int) =~= manifest_json@);
    }
    let files = sort_files_by_path(&spec.files);
    let ghost sf = files@.map_values(|f: &FileBlob| *f);
    let mut i: usize = 0;
    while i < files.len()
        invariant
            i <= files.len(),
            sf == files@.map_values(|f: &FileBlob| *f),
            bytes@ == manifest_json@ + files_bytes(sf.take(i as int)),
        decreases files.len() - i,
    {
        let f = files[i];
        proof {
            assert(sf.take(i + 1).drop_last() =~= sf.take(i as int));
            assert(sf.take(i + 1).last() == *f);
        }
        push_bytes(&mut bytes, f.path.as_str());
        bytes.push(0u8);
        push_bytes(&mut bytes, f.content.as_str());
        bytes.push(0u8);
        proof {
            assert(bytes@ =~= manifest_json@ + files_bytes(sf.take(i as int)) + pair_bytes(f.path@, f.content@));
        }
        i += 1;
    }
    proof {
        assert(sf.take(files.len() as int) =~= sf);
    }
    let ghost mid = bytes@;
    let mut i: usize = 0;
    while i < spec.env.len()
        invariant
            i <= spec.env.len(),
            bytes@ == mid + env_bytes(spec.env@.take(i as int)),
        decreases spec.env.len() - i,
    {
        let (app, env) = (&spec.env[i].0, &spec.env[i].1);
        proof {
            assert(spec.env@.take(i + 1).drop_last() =~= spec.env@.take(i as int));
            assert(spec.env@.take(i + 1).last() == spec.env@[i as int]);
        }
        push_bytes(&mut bytes, app.as_str());
        bytes.push(0u8);
        push_bytes(&mut bytes, env.as_str());
        bytes.push(0u8);
        proof {
            assert(bytes@ =~= mid + env_bytes(spec.env@.take(i as int)) + pair_bytes(app@, env@));
        }
        i += 1;
    }
    proof {
        assert(spec.env@.take(spec.env.len() as int) =~= spec.env@);
        assert(bytes@ =~= intent_bytes(manifest_json@, *spec));
    }
    let d = crate::digest::sha256_digest(bytes.as_slice());
    crate::digest::hex_prefix(d.as_slice(), 8)
}

} // verus!

verus! {

proof fn lemma_bind_problem_found(path: Seq<char>, ls: Seq<Seq<char>>, declared: Seq<Seq<char>>, li: int)
    requires
        0 <= li < ls.len(),
        starts_with(bind_host(ls[li]), "/appdata/"@),
        !covered(bind_host(ls[li]), declared),
    ensures
        bind_problems(path, ls, declared).len() > 0,
    decreases ls.len(),
{
    let pre = ls.drop_last();
    if li < ls.len() - 1 {
        assert(pre[li] == ls[li]);
        lemma_bind_problem_found(path, pre, declared, li);
    } else {
        assert(ls.last() == ls[li]);
    }
}

proof fn lemma_compose_problem_found(fs: Seq<FileBlob>, declared: Seq<Seq<char>>, fi: int, li: int)
    requires
        0 <= fi < fs.len(),
        ends_with(fs[fi].path@, "docker-compose.yml"@),
        0 <= li < lines_of(fs[fi].content@).len(),
        starts_with(bind_host(lines_of(fs[fi].content@)[li]), "/appdata/"@),
        !covered(bind_host(lines_of(fs[fi].content@)[li]), declared),
    ensures
        compose_problems(fs, declared).len() > 0,
    decreases fs.len(),
{
    let pre = fs.drop_last();
    if fi < fs.len() - 1 {
        assert(pre[fi] == fs[fi]);
        lemma_compose_problem_found(pre, declared, fi, li);
    } else {
        assert(fs.last() == fs[fi]);
        lemma_bind_problem_found(fs[fi].path@, lines_of(fs[fi].content@), declared, li);
    }
}

/// A compose file that binds a host path under `/appdata/` which no
/// storage entry declares is refused: a declared path covers a bind only
/// when it is the bind itself or a directory above it (the declared path
/// followed by `/`), never when it is merely a string prefix of it.
pub proof fn law_undeclared_bind_is_refused(spec: DeploySpec, r: Result<(), CoreError>, fi: int, li: int)
    requires
        verdict(deploy_problems(spec), r),
        0 <= fi < spec.files@.len(),
        ends_with(spec.files@[fi].path@, "docker-compose.yml"@),
        0 <= li < lines_of(spec.files@[fi].content@).len(),
        starts_with(bind_host(lines_of(spec.files@[fi].content@)[li]), "/appdata/"@),
        forall|k: int| 0 <= k < spec.manifest.storage@.len() ==> {
            let d = (#[trigger] spec.manifest.storage@[k]).host_path@;
            let host = bind_host(lines_of(spec.files@[fi].content@)[li]);
            d != host && !starts_with(host, d + "/"@)
        },
    ensures
        r is Err,
{
    let m = spec.manifest;
    let declared = host_paths(m.storage@);
    let host = bind_host(lines_of(spec.files@[fi].content@)[li]);
    assert(!covered(host, declared)) by {
        if declared.contains(host) {
            let k = choose|k: int| 0 <= k < declared.len() && declared[k] == host;
            assert(m.storage@[k].host_path@ == declared[k]);
        }
        if exists|i: int| 0 <= i < declared.len() && starts_with(host, #[trigger] declared[i] + "/"@) {
            let i = choose|i: int| 0 <= i < declared.len() && starts_with(host, #[trigger] declared[i] + "/"@);
            assert(m.storage@[i].host_path@ == declared[i]);
        }
    }
    lemma_compose_problem_found(spec.files@, declared, fi, li);
}

} // verus!
