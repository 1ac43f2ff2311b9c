use homelab_core::executor::{CmdOutput, MockExecutor};
use homelab_core::manifest::{BootSpec, DeploySpec, FileBlob, LxcSpec, MountSpec, NetworkSpec, ResourceSpec, StackManifest};
use homelab_core::ops::deploy::orphan_files;
use homelab_core::ops::backup::{restore, BackupCfg};
use homelab_core::runner::NullJournal;
use homelab_core::safety::SafetyConfig;
use homelab_core::sink::NullSink;

fn mount(path: &str, app: Option<&str>) -> MountSpec {
    MountSpec {
        host_path: path.to_string(),
        mount_point: "/data".to_string(),
        host_owner_uid: None,
        app: app.map(|a| a.to_string()),
        no_data: false,
        no_backup: None,
    }
}

fn media() -> StackManifest {
    StackManifest {
        stack_name: "media".to_string(),
        vmid: 110,
        hostname: "110-app-media".to_string(),
        network: NetworkSpec {
            ip: "10.10.10.8/24".to_string(),
            gateway: "10.10.10.1".to_string(),
            bridge: "vmbr0".to_string(),
            vlan: None,
        },
        resources: ResourceSpec { cores: 2, memory_mb: 2048, swap_mb: 512, disk_gb: 8, storage: "local-lvm".to_string() },
        lxc: LxcSpec {
            template: "clone:9000".to_string(),
            unprivileged: true,
            features: "nesting=1".to_string(),
            protection: false,
            gpu: false,
            vpn: false,
        },
        boot: BootSpec { onboot: true, order: None },
        storage: vec![
            mount("/appdata/media/jellyfin", Some("jellyfin")),
            mount("/appdata/media/sonarr", Some("sonarr")),
        ],
        apps: vec!["jellyfin".to_string(), "sonarr".to_string()],
        native_only: false,
        natives: vec![],
        data_mounts: vec![],
        retention: None,
        registry_login: None,
    }
}

const LISTING: &str = "ID        Time                 Host\n1a2b3c4d  2026-09-01 03:00:00  pve\n";

fn compose_calls(calls: &[String], verb: &str) -> Vec<usize> {
    calls.iter().enumerate().filter(|(_, c)| c.contains(&format!("docker compose {}", verb))).map(|(i, _)| i).collect()
}

#[test]
fn a_snapshot_missing_from_one_repository_stops_nothing() {
    let mut m = MockExecutor::new();
    m.enqueue("pct config 110", CmdOutput::ok("hostname: 110-app-media\n"));
    m.enqueue("restic snapshots", CmdOutput::ok(LISTING));
    m.enqueue("restic snapshots", CmdOutput::ok("ID Time Host\n"));
    let report = restore(&mut m, NullSink, NullJournal, &SafetyConfig::default(), &media(), &BackupCfg::default(), "1a2b3c4d");
    assert!(!report.ok);
    assert_eq!(report.op, "restore-media");
    assert_eq!(
        report.error.unwrap().why,
        "snapshot '1a2b3c4d' is not in the repository for 'sonarr' — nothing has been stopped"
    );
    assert!(compose_calls(&m.calls(), "down").is_empty());
}

#[test]
fn a_failed_restore_still_brings_the_stack_back_up() {
    let mut m = MockExecutor::new();
    m.enqueue("pct config 110", CmdOutput::ok("hostname: 110-app-media\n"));
    m.respond_always("restic snapshots", CmdOutput::ok(LISTING));
    m.enqueue("restic restore", CmdOutput::failed(1, "connection reset"));
    let report = restore(&mut m, NullSink, NullJournal, &SafetyConfig::default(), &media(), &BackupCfg::default(), "1a2b3c4d");
    assert!(!report.ok);
    assert_eq!(report.error.unwrap().what, "step 'restore data' failed");
    let calls = m.calls();
    assert_eq!(compose_calls(&calls, "down").len(), 2);
    let ups = compose_calls(&calls, "up -d");
    assert_eq!(ups.len(), 2);
    let restores: Vec<usize> = calls.iter().enumerate().filter(|(_, c)| c.contains("restic restore")).map(|(i, _)| i).collect();
    assert_eq!(restores.len(), 1);
    assert!(restores[0] < ups[0]);
    assert!(compose_calls(&calls, "ps").is_empty());
}

#[test]
fn a_restore_walks_every_repository_and_checks_health() {
    let mut m = MockExecutor::new();
    m.enqueue("pct config 110", CmdOutput::ok("hostname: 110-app-media\n"));
    m.respond_always("restic snapshots", CmdOutput::ok(LISTING));
    m.respond_always("docker compose ps", CmdOutput::ok("jellyfin\n"));
    let report = restore(&mut m, NullSink, NullJournal, &SafetyConfig::default(), &media(), &BackupCfg::default(), "latest");
    assert!(report.ok, "{:?}", report.error);
    let calls = m.calls();
    assert_eq!(calls.len(), 1 + 2 + 2 + 2 + 2 + 2);
    assert!(calls[5].contains("RESTIC_REPOSITORY=rclone:gdrive:homelab-backups/jellyfin-config"));
    assert!(calls[5].ends_with("restic restore latest --target /"));
    assert!(calls[6].contains("RESTIC_REPOSITORY=rclone:gdrive:homelab-backups/sonarr-config"));
    assert_eq!(calls[7], "pct exec 110 -- sh -c cd '/opt/media/jellyfin' && docker compose up -d");
}

#[test]
fn files_the_deploy_no_longer_sends_are_orphans() {
    let spec = DeploySpec {
        manifest: media(),
        files: vec![FileBlob { path: "jellyfin/docker-compose.yml".to_string(), content: String::new(), mode: None }],
        env: vec![],
        gateway_route: None,
        checks: vec![],
    };
    let mut m = MockExecutor::new();
    m.enqueue("find . -type f", CmdOutput::ok("jellyfin/docker-compose.yml\nold/notes.txt\njellyfin/.env\n\n"));
    assert_eq!(orphan_files(&mut m, &media(), &spec), vec!["old/notes.txt".to_string()]);
    assert_eq!(m.calls()[0], "pct exec 110 -- sh -c cd '/opt/media' 2>/dev/null && find . -type f -printf '%P\\n' 2>/dev/null || true");
}

#[test]
fn an_unhealthy_update_rolls_back_to_the_captured_images() {
    let captured = vec![homelab_core::ops::update::CapturedImage {
        image_id: "sha256:aaa".to_string(),
        repo_tag: "jellyfin/jellyfin:10.9".to_string(),
    }];
    let mut m = MockExecutor::new();
    m.enqueue("--status running", CmdOutput::ok("jellyfin\n"));
    let mut runner = homelab_core::runner::Runner::new("update-media", NullSink, NullJournal);
    assert!(homelab_core::ops::update::update_app(&mut m, &mut runner, &media(), "jellyfin", &captured).is_ok());
    let calls = m.calls();
    assert_eq!(calls.len(), 4);
    assert_eq!(calls[0], "pct exec 110 -- sh -c cd '/opt/media/jellyfin' && docker compose pull -q");
    assert_eq!(calls[2], "pct exec 110 -- sh -c cd '/opt/media/jellyfin' && docker compose up -d --remove-orphans");

    let mut m = MockExecutor::new();
    m.enqueue("--status running", CmdOutput::ok("\n"));
    m.enqueue("--status running", CmdOutput::ok("jellyfin\n"));
    let mut runner = homelab_core::runner::Runner::new("update-media", NullSink, NullJournal);
    let (step, e) = homelab_core::ops::update::update_app(&mut m, &mut runner, &media(), "jellyfin", &captured).unwrap_err();
    assert_eq!(step, "jellyfin :: verify");
    let calls = m.calls();
    assert_eq!(calls.len(), 6);
    assert_eq!(
        calls[4],
        "pct exec 110 -- sh -c cd '/opt/media/jellyfin' && docker tag sha256:aaa jellyfin/jellyfin:10.9 && docker compose up -d --force-recreate"
    );
    match e {
        homelab_core::error::CoreError::Other(msg) => assert_eq!(
            msg,
            "jellyfin unhealthy after update — ROLLED BACK to previous image, now healthy. The new image is bad; check its release notes"
        ),
        other => panic!("unexpected {:?}", other),
    }

    let mut m = MockExecutor::new();
    m.enqueue("--status running", CmdOutput::ok(""));
    let mut runner = homelab_core::runner::Runner::new("update-media", NullSink, NullJournal);
    assert!(homelab_core::ops::update::update_app(&mut m, &mut runner, &media(), "jellyfin", &vec![]).is_err());
    assert_eq!(m.calls().len(), 4);
}
