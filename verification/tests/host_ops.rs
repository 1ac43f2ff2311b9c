use homelab_core::executor::{CmdOutput, Executor, MockExecutor};
use homelab_core::ops::selfupdate::{self_update, SelfUpdateCfg};
use homelab_core::ops::template::{build_template, TemplateCfg};
use homelab_core::ops::devicebackup::{backup_device, DeviceBackup};
use homelab_core::ops::backup::BackupCfg;
use homelab_core::ops::native::{adopt_service, update_native};
use homelab_core::native::NativeServiceManifest;
use homelab_core::manifest::{BootSpec, LxcSpec, NetworkSpec, ResourceSpec, StackManifest};
use homelab_core::ops::destroy::destroy_container;
use homelab_core::ops::enable::guard_and_set_onboot;
use homelab_core::ops::patch::{patch_fleet, PATCH_SCRIPT};
use homelab_core::ops::resize::hot_apply;
use homelab_core::runner::{NullJournal, Runner};
use homelab_core::safety::SafetyConfig;
use homelab_core::sink::{NullSink, VecSink};

fn manifest(memory_mb: u32, cores: u16, disk_gb: u32) -> StackManifest {
    StackManifest {
        stack_name: "media".to_string(),
        vmid: 110,
        hostname: "110-app-media".to_string(),
        network: NetworkSpec {
            ip: "10.10.10.8/24".to_string(),
            gateway: "10.10.10.1".to_string(),
            bridge: "vmbr0".to_string(),
            vlan: None,
        },
        resources: ResourceSpec { cores, memory_mb, swap_mb: 512, disk_gb, storage: "local-lvm".to_string() },
        lxc: LxcSpec {
            template: "clone:9000".to_string(),
            unprivileged: true,
            features: "nesting=1".to_string(),
            protection: false,
            gpu: false,
            vpn: false,
        },
        boot: BootSpec { onboot: true, order: None },
        storage: vec![],
        apps: vec!["jellyfin".to_string()],
        native_only: false,
        natives: vec![],
        data_mounts: vec![],
        retention: None,
        registry_login: None,
    }
}

const LIVE: &str = "arch: amd64\ncores: 2\nhostname: 110-app-media\nmemory: 2048\nrootfs: local-lvm:vm-110-disk-0,size=8G\n";

#[test]
fn a_wrong_typed_name_asks_nothing_of_the_machine() {
    let mut m = MockExecutor::new();
    let runner = Runner::new("destroy-media", NullSink, NullJournal);
    let report = match destroy_container(&mut m, runner, &SafetyConfig::default(), "media", 110, "medai") {
        Err(report) => report,
        Ok(_) => panic!("a mistyped name must refuse"),
    };
    assert!(!report.ok);
    assert_eq!(report.error.unwrap().what, "step 'confirm' failed");
    assert!(m.calls().is_empty());
}

#[test]
fn a_foreign_hostname_stops_destroy_after_the_config_read() {
    let mut m = MockExecutor::new();
    m.enqueue("pct config 110", CmdOutput::ok("hostname: 110-app-other\n"));
    let runner = Runner::new("destroy-media", NullSink, NullJournal);
    let report = match destroy_container(&mut m, runner, &SafetyConfig::default(), "media", 110, "media") {
        Err(report) => report,
        Ok(_) => panic!("a foreign container must not be destroyed"),
    };
    assert_eq!(report.error.unwrap().what, "step 'hostname guard' failed");
    assert_eq!(m.calls(), vec!["pct config 110".to_string()]);
}

#[test]
fn destroy_stops_unprotects_purges_and_unroutes() {
    let mut m = MockExecutor::new();
    m.enqueue("pct config 110", CmdOutput::ok("hostname: 110-app-media\n"));
    let runner = Runner::new("destroy-media", NullSink, NullJournal);
    assert!(destroy_container(&mut m, runner, &SafetyConfig::default(), "media", 110, "media").is_ok());
    assert_eq!(
        m.calls(),
        vec![
            "pct config 110".to_string(),
            "pct stop 110".to_string(),
            "pct set 110 --protection 0".to_string(),
            "pct destroy 110 --purge".to_string(),
            "pct exec 104 -- rm -f /opt/traefik-config/routes/110-app-media.yml".to_string(),
        ]
    );
}

#[test]
fn parking_sets_onboot_and_nothing_else() {
    let mut m = MockExecutor::new();
    m.enqueue("pct config 110", CmdOutput::ok("hostname: 110-app-media\n"));
    let runner = Runner::new("disable-media", NullSink, NullJournal);
    assert!(guard_and_set_onboot(&mut m, runner, &SafetyConfig::default(), 110, "110-app-media", false, true).is_ok());
    assert_eq!(m.calls(), vec!["pct config 110".to_string(), "pct set 110 --onboot 0".to_string()]);

    let mut m = MockExecutor::new();
    m.enqueue("pct config 110", CmdOutput::ok("hostname: 110-app-media\n"));
    let runner = Runner::new("enable-media", NullSink, NullJournal);
    assert!(guard_and_set_onboot(&mut m, runner, &SafetyConfig::default(), 110, "110-app-media", true, true).is_ok());
    assert_eq!(m.calls()[1], "pct set 110 --onboot 1");

    let mut m = MockExecutor::new();
    let runner = Runner::new("disable-gw", NullSink, NullJournal);
    assert!(guard_and_set_onboot(&mut m, runner, &SafetyConfig::default(), 104, "104-gw", false, true).is_err());
    assert!(m.calls().is_empty());
}

#[test]
fn a_live_resize_grows_ram_cores_and_disk() {
    let mut m = MockExecutor::new();
    m.enqueue("pct config 110", CmdOutput::ok(LIVE));
    m.enqueue("pct status 110", CmdOutput::ok("status: running\n"));
    let report = hot_apply(&mut m, NullSink, NullJournal, &SafetyConfig::default(), &manifest(4096, 4, 16));
    assert!(report.ok);
    assert_eq!(report.op, "resize-media");
    assert_eq!(
        m.calls(),
        vec![
            "pct config 110".to_string(),
            "pct status 110".to_string(),
            "pct set 110 --memory 4096 --cores 4 --swap 512".to_string(),
            "pct resize 110 rootfs 16G".to_string(),
        ]
    );
}

#[test]
fn a_running_container_is_never_shrunk() {
    let mut m = MockExecutor::new();
    m.enqueue("pct config 110", CmdOutput::ok(LIVE));
    m.enqueue("pct status 110", CmdOutput::ok("status: running\n"));
    let report = hot_apply(&mut m, NullSink, NullJournal, &SafetyConfig::default(), &manifest(1024, 2, 8));
    assert!(!report.ok);
    assert_eq!(report.error.unwrap().what, "step 'apply ram + cores' failed");
    assert_eq!(m.calls().len(), 2);

    let mut m = MockExecutor::new();
    m.enqueue("pct config 110", CmdOutput::ok(LIVE));
    m.enqueue("pct status 110", CmdOutput::ok("status: stopped\n"));
    let report = hot_apply(&mut m, NullSink, NullJournal, &SafetyConfig::default(), &manifest(2048, 2, 4));
    assert!(!report.ok);
    assert_eq!(report.error.unwrap().what, "step 'apply disk' failed");
    assert!(m.calls_containing("resize").is_empty());
}

#[test]
fn an_unchanged_manifest_changes_nothing() {
    let mut m = MockExecutor::new();
    m.enqueue("pct config 110", CmdOutput::ok(LIVE));
    m.enqueue("pct status 110", CmdOutput::ok("status: running\n"));
    let report = hot_apply(&mut m, NullSink, NullJournal, &SafetyConfig::default(), &manifest(2048, 2, 8));
    assert!(report.ok);
    assert_eq!(m.calls().len(), 2);
    assert!(report.steps.iter().all(|s| !s.changed));
}

#[test]
fn the_patch_sweep_skips_the_no_touch_list_and_stops_at_a_failure() {
    let targets = vec![
        ("media".to_string(), 110u16),
        ("gateway".to_string(), 104u16),
        ("books".to_string(), 113u16),
        ("music".to_string(), 114u16),
    ];
    let mut m = MockExecutor::new();
    m.enqueue("pct exec 113", CmdOutput::failed(100, "E: broken mirror\n"));
    let sink = VecSink::new();
    let report = patch_fleet(&mut m, sink, NullJournal, &SafetyConfig::default(), &targets);
    assert!(!report.ok);
    assert_eq!(report.op, "patch-fleet");
    assert_eq!(
        m.calls(),
        vec![
            format!("pct exec 110 -- sh -c {}", PATCH_SCRIPT),
            format!("pct exec 113 -- sh -c {}", PATCH_SCRIPT),
        ]
    );
    assert_eq!(report.steps.len(), 1);
    assert_eq!(report.steps[0].name, "patch media");
    assert!(report.error.unwrap().why.contains("apt failed in books (vmid 113): E: broken mirror"));

    let mut m = MockExecutor::new();
    let report = patch_fleet(&mut m, NullSink, NullJournal, &SafetyConfig::default(), &[]);
    assert!(report.ok);
    assert!(m.calls().is_empty());
}

#[test]
fn a_self_update_checks_keeps_installs_arms_and_restarts() {
    let cfg = SelfUpdateCfg::default();
    let mut m = MockExecutor::new();
    m.enqueue("--selfcheck", CmdOutput::ok("v2.1\n"));
    let report = self_update(&mut m, NullSink, NullJournal, 1_800_000_000, &cfg);
    assert!(report.ok);
    assert_eq!(
        m.calls(),
        vec![
            "/var/lib/homelab/staged-host --selfcheck".to_string(),
            "cp -a /usr/local/bin/homelab-host /usr/local/bin/homelab-host.prev".to_string(),
            "install -m 755 /var/lib/homelab/staged-host /usr/local/bin/homelab-host".to_string(),
            "write_file /var/lib/homelab/selfupdate.pending (mode 644)".to_string(),
            "systemd-run --unit homelab-restart-1800000000 --on-active=2 systemctl restart homelab-host".to_string(),
        ]
    );
    assert_eq!(
        m.read_file("/var/lib/homelab/selfupdate.pending").unwrap(),
        "{\"to_version\":\"v2.1\",\"armed_at\":1800000000}\n"
    );

    let mut m = MockExecutor::new();
    m.enqueue("--selfcheck", CmdOutput::failed(126, "cannot execute binary file\n"));
    let report = self_update(&mut m, NullSink, NullJournal, 1_800_000_000, &cfg);
    assert!(!report.ok);
    assert_eq!(report.error.unwrap().why, "staged binary failed selfcheck (exit 126): cannot execute binary file");
    assert_eq!(m.calls().len(), 1);
}

#[test]
fn a_template_build_touches_only_its_own_vmid() {
    let mut m = MockExecutor::new();
    m.enqueue("pct config 999", CmdOutput::failed(2, "Configuration file does not exist"));
    m.respond_always("systemctl is-system-running", CmdOutput::ok("running\n"));
    let report = build_template(&mut m, NullSink, NullJournal, &SafetyConfig::default(), &TemplateCfg::default());
    assert!(report.ok, "{:?}", report.error);
    assert_eq!(report.op, "template-build");
    let calls = m.calls();
    assert_eq!(calls[0], "pct config 999");
    assert_eq!(
        calls[1],
        "pct create 999 local:vztmpl/debian-12-standard_12.12-1_amd64.tar.zst --hostname debian-12-homelab-v1 --rootfs local-lvm:4 --net0 name=eth0,bridge=vmbr0,firewall=0,ip=10.10.10.99/24,gw=10.10.10.1,tag=10 --memory 1024 --cores 2 --unprivileged 1 --features nesting=1,keyctl=1 --description homelab golden template build (B8) — temporary"
    );
    assert_eq!(calls[calls.len() - 3], "pct stop 999");
    assert_eq!(calls[calls.len() - 2], "pct template 999");
    assert_eq!(
        calls[calls.len() - 1],
        "pct set 999 --description debian-12-homelab-v1 — golden template (B8), clone with template: \"clone:999\""
    );
    for c in calls.iter().filter(|c| c.starts_with("pct ")) {
        assert_eq!(c.split_whitespace().nth(2), Some("999"), "{}", c);
    }
    assert!(calls.iter().any(|c| c.contains("docker-prune.timer")));
}

#[test]
fn a_template_build_never_builds_over_an_existing_guest() {
    let mut m = MockExecutor::new();
    m.enqueue("pct config 999", CmdOutput::ok("hostname: something\n"));
    let report = build_template(&mut m, NullSink, NullJournal, &SafetyConfig::default(), &TemplateCfg::default());
    assert!(!report.ok);
    assert_eq!(report.error.unwrap().why, "vmid 999 already exists — refusing to build over it");
    assert_eq!(m.calls(), vec!["pct config 999".to_string()]);

    let mut cfg = TemplateCfg::default();
    cfg.temp_vmid = 104;
    let mut m = MockExecutor::new();
    let report = build_template(&mut m, NullSink, NullJournal, &SafetyConfig::default(), &cfg);
    assert!(!report.ok);
    assert!(m.calls().is_empty());
}

fn router() -> DeviceBackup {
    DeviceBackup {
        name: "opnsense".to_string(),
        url: "https://10.10.10.1/api/core/backup/download/this".to_string(),
        cred_file: "/var/lib/homelab/secrets/opnsense.curl".to_string(),
        filename: "config.xml".to_string(),
        pin: Some("sha256//abc=".to_string()),
        ca_file: None,
    }
}

#[test]
fn a_device_backup_inits_pipes_and_checks_substance() {
    let mut m = MockExecutor::new();
    m.enqueue("restic stats latest", CmdOutput::ok("{\"total_size\":16384,\"total_file_count\":1}"));
    let report = backup_device(&mut m, NullSink, NullJournal, &router(), &BackupCfg::default());
    assert!(report.ok, "{:?}", report.error);
    assert_eq!(report.op, "device-backup-opnsense");
    let calls = m.calls();
    assert_eq!(calls.len(), 3);
    let env = "env RESTIC_REPOSITORY=rclone:gdrive:homelab-backups/opnsense-config RESTIC_PASSWORD_FILE=/var/lib/homelab/secrets/restic.pw RESTIC_CACHE_DIR=/var/lib/homelab/restic-cache";
    assert_eq!(calls[0], format!("sh -c {} restic cat config >/dev/null 2>&1 || {} restic init", env, env));
    assert_eq!(
        calls[1],
        format!(
            "sh -c set -o pipefail; curl -sS -k --pinnedpubkey 'sha256//abc=' --fail-with-body -K '/var/lib/homelab/secrets/opnsense.curl' 'https://10.10.10.1/api/core/backup/download/this' | {} restic backup --stdin --stdin-filename 'config.xml'",
            env
        )
    );
    assert_eq!(calls[2], format!("sh -c {} restic stats latest --mode raw-data --json", env));
}

#[test]
fn a_login_page_is_not_a_configuration() {
    let mut m = MockExecutor::new();
    m.enqueue("restic stats latest", CmdOutput::ok("{\"total_size\":812}"));
    let report = backup_device(&mut m, NullSink, NullJournal, &router(), &BackupCfg::default());
    assert!(!report.ok);
    assert!(report.error.unwrap().why.starts_with("opnsense stored only 812 bytes"));

    let mut m = MockExecutor::new();
    m.enqueue("restic init", CmdOutput::failed(1, "Fatal: create repository failed"));
    let report = backup_device(&mut m, NullSink, NullJournal, &router(), &BackupCfg::default());
    assert!(!report.ok);
    assert_eq!(m.calls().len(), 1);
}

fn kyu(update_cmd: Option<&str>) -> NativeServiceManifest {
    NativeServiceManifest {
        stack_name: "kyu".to_string(),
        vmid: 120,
        hostname: "120-app-kyu".to_string(),
        unit: "kyu".to_string(),
        binary: "/usr/local/bin/kyu".to_string(),
        env_file: None,
        data_dirs: vec!["/var/lib/kyu".to_string()],
        update_cmd: update_cmd.map(|s| s.to_string()),
        stateless: false,
        release_repo: None,
        release_asset: None,
    }
}

#[test]
fn a_native_update_without_a_command_asks_nothing() {
    let mut m = MockExecutor::new();
    let report = update_native(&mut m, NullSink, NullJournal, &SafetyConfig::default(), &kyu(None));
    assert!(report.ok);
    assert!(m.calls().is_empty());
}

#[test]
fn a_changed_native_binary_is_restarted_and_a_dead_one_restored() {
    let mut m = MockExecutor::new();
    m.enqueue("pct config 120", CmdOutput::ok("hostname: 120-app-kyu\n"));
    m.enqueue("sha256sum", CmdOutput::ok("aaa\n"));
    m.enqueue("sha256sum", CmdOutput::ok("bbb\n"));
    let report = update_native(&mut m, NullSink, NullJournal, &SafetyConfig::default(), &kyu(Some("kyu --self-update")));
    assert!(report.ok, "{:?}", report.error);
    let calls = m.calls();
    assert_eq!(calls.len(), 6);
    assert_eq!(calls[2], "pct exec 120 -- sh -c cp -p '/usr/local/bin/kyu' '/usr/local/bin/kyu.homelab-prev'");
    assert_eq!(calls[3], "pct exec 120 -- sh -c kyu --self-update");
    assert!(calls[5].starts_with("pct exec 120 -- sh -c systemctl restart kyu.service && for i in 1 2 3 4 5"));

    let mut m = MockExecutor::new();
    m.enqueue("pct config 120", CmdOutput::ok("hostname: 120-app-kyu\n"));
    m.enqueue("sha256sum", CmdOutput::ok("aaa\n"));
    m.enqueue("sha256sum", CmdOutput::ok("aaa\n"));
    let report = update_native(&mut m, NullSink, NullJournal, &SafetyConfig::default(), &kyu(Some("kyu --self-update")));
    assert!(report.ok);
    assert_eq!(m.calls().len(), 5);

    let mut m = MockExecutor::new();
    m.enqueue("pct config 120", CmdOutput::ok("hostname: 120-app-kyu\n"));
    m.enqueue("sha256sum", CmdOutput::ok("aaa\n"));
    m.enqueue("sha256sum", CmdOutput::ok("bbb\n"));
    m.enqueue("systemctl restart kyu.service && for", CmdOutput::failed(1, ""));
    let report = update_native(&mut m, NullSink, NullJournal, &SafetyConfig::default(), &kyu(Some("kyu --self-update")));
    assert!(!report.ok);
    let calls = m.calls();
    assert_eq!(calls.len(), 7);
    assert!(calls[6].starts_with("pct exec 120 -- sh -c cp -p '/usr/local/bin/kyu.homelab-prev' '/usr/local/bin/kyu'"));
    assert!(report.error.unwrap().why.contains("rolled back to the previous binary (service restored and active)"));
}

#[test]
fn a_native_update_never_runs_without_a_kept_copy() {
    let mut m = MockExecutor::new();
    m.enqueue("pct config 120", CmdOutput::ok("hostname: 120-app-kyu\n"));
    m.enqueue("cp -p", CmdOutput::failed(1, "No space left on device"));
    let report = update_native(&mut m, NullSink, NullJournal, &SafetyConfig::default(), &kyu(Some("kyu --self-update")));
    assert!(!report.ok);
    assert_eq!(m.calls().len(), 3);
    assert_eq!(report.error.unwrap().why, "cannot preserve /usr/local/bin/kyu — refusing to update without a rollback copy");
}

#[test]
fn adopting_reads_everything_and_only_adds_the_tag() {
    let mut m = MockExecutor::new();
    m.enqueue("pct config 120", CmdOutput::ok("hostname: 120-app-kyu\n"));
    m.enqueue("systemctl is-active kyu.service", CmdOutput::ok("active\n"));
    m.enqueue("systemctl show kyu.service", CmdOutput::ok("ExecStart={ path=/usr/local/bin/kyu ; argv[]=/usr/local/bin/kyu serve }\n"));
    m.enqueue("pct config 120", CmdOutput::ok("hostname: 120-app-kyu\ntags: media\n"));
    let runner = Runner::new("adopt-kyu", NullSink, NullJournal);
    assert!(adopt_service(&mut m, runner, &SafetyConfig::default(), &kyu(None)).is_ok());
    let calls = m.calls();
    assert_eq!(calls.len(), 6);
    assert_eq!(calls[3], "pct exec 120 -- sh -c test -x '/usr/local/bin/kyu' && test -d '/var/lib/kyu'");
    assert_eq!(calls[5], "pct set 120 --tags media;homelab");
    assert!(calls.iter().all(|c| !c.contains("systemctl start") && !c.contains("systemctl restart") && !c.contains("systemctl stop")));
}

#[test]
fn an_inactive_service_is_never_adopted() {
    let mut m = MockExecutor::new();
    m.enqueue("pct config 120", CmdOutput::ok("hostname: 120-app-kyu\n"));
    m.enqueue("systemctl is-active kyu.service", CmdOutput::ok("inactive\n"));
    let runner = Runner::new("adopt-kyu", NullSink, NullJournal);
    let report = match adopt_service(&mut m, runner, &SafetyConfig::default(), &kyu(None)) {
        Err(report) => report,
        Ok(_) => panic!("an inactive unit must not be adopted"),
    };
    assert!(report.error.unwrap().why.starts_with("unit kyu.service is not active ('inactive')"));
    assert_eq!(m.calls().len(), 3);
}
