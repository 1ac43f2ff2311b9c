use homelab_core::executor::{CmdOutput, MockExecutor};
use homelab_core::manifest::{BootSpec, LxcSpec, MountSpec, NetworkSpec, ResourceSpec, StackManifest};
use homelab_core::ops::backup::{backup, BackupCfg};
use homelab_core::ops::busy::{jellyfin_busy, Busy};
use homelab_core::ops::update::update;
use homelab_core::runner::NullJournal;
use homelab_core::safety::SafetyConfig;
use homelab_core::sink::NullSink;
use homelab_core::state::{HostState, StackState};

fn mount(path: &str, app: Option<&str>) -> MountSpec {
    MountSpec {
        host_path: path.to_string(),
        mount_point: "/data".to_string(),
        host_owner_uid: None,
        app: app.map(|a| a.to_string()),
        no_data: false,
        no_backup: None,
    }
}

fn media() -> StackManifest {
    StackManifest {
        stack_name: "media".to_string(),
        vmid: 110,
        hostname: "110-app-media".to_string(),
        network: NetworkSpec {
            ip: "10.10.10.8/24".to_string(),
            gateway: "10.10.10.1".to_string(),
            bridge: "vmbr0".to_string(),
            vlan: None,
        },
        resources: ResourceSpec { cores: 2, memory_mb: 1024, swap_mb: 0, disk_gb: 8, storage: "local-lvm".to_string() },
        lxc: LxcSpec {
            template: "clone:9000".to_string(),
            unprivileged: true,
            features: String::new(),
            protection: false,
            gpu: false,
            vpn: false,
        },
        boot: BootSpec { onboot: true, order: None },
        storage: vec![
            mount("/appdata/media/jellyfin-config", Some("jellyfin")),
            mount("/appdata/media/sonarr-config", Some("sonarr")),
        ],
        apps: vec!["jellyfin".to_string(), "sonarr".to_string()],
        native_only: false,
        natives: vec![],
        data_mounts: vec![],
        retention: None,
        registry_login: None,
    }
}

const WATCHING: &str = "[{\"UserName\":\"kenny\",\"NowPlayingItem\":{\"Name\":\"Dune\"},\"PlayState\":{\"IsPaused\":false}}]";

fn in_use_quiet() -> MockExecutor {
    let mut q = MockExecutor::new();
    q.respond_always("busy-check", CmdOutput::ok("jellyfin\n"));
    q.respond_always("Sessions", CmdOutput::ok(WATCHING));
    q
}

fn count(calls: &[String], needle: &str) -> usize {
    calls.iter().filter(|c| c.contains(needle)).count()
}

#[test]
fn the_sessions_answer_decides_who_is_watching() {
    assert_eq!(jellyfin_busy("  \n"), Busy::Unknown("Jellyfin returned nothing".to_string()));
    assert_eq!(jellyfin_busy("[]"), Busy::No);
    assert_eq!(jellyfin_busy("[{\"UserName\":\"a\",\"NowPlayingItem\":null}]"), Busy::No);
    assert_eq!(jellyfin_busy(WATCHING), Busy::Yes("kenny is watching Dune".to_string()));
    assert_eq!(
        jellyfin_busy("[{\"NowPlayingItem\":{},\"PlayState\":{\"IsPaused\":true}}]"),
        Busy::Yes("someone is paused on something".to_string())
    );
    assert_eq!(jellyfin_busy("{}"), Busy::Unknown("Jellyfin's answer was not a list of sessions".to_string()));
    assert!(matches!(jellyfin_busy("not json"), Busy::Unknown(w) if w.starts_with("Jellyfin's answer did not parse: ")));
}

#[test]
fn an_update_leaves_a_media_server_in_use_alone() {
    let mut exec = MockExecutor::new();
    exec.enqueue("pct config 110", CmdOutput::ok("hostname: 110-app-media\n"));
    let mut quiet = in_use_quiet();
    let report = update(&mut exec, &mut quiet, NullSink, NullJournal, &SafetyConfig::default(), &media(), Some("jellyfin"), false);
    assert!(report.ok, "{:?}", report.error);
    assert_eq!(report.op, "update-media");
    let calls = exec.calls();
    assert_eq!(count(&calls, "docker compose pull"), 0);
    assert_eq!(count(&calls, "docker compose up"), 0);
    assert_eq!(count(&quiet.calls(), "Sessions"), 1);
}

#[test]
fn an_update_of_an_idle_app_pulls_restarts_and_verifies() {
    let mut exec = MockExecutor::new();
    exec.enqueue("pct config 110", CmdOutput::ok("hostname: 110-app-media\n"));
    exec.respond_always("--status running", CmdOutput::ok("sonarr\n"));
    let mut quiet = MockExecutor::new();
    let report = update(&mut exec, &mut quiet, NullSink, NullJournal, &SafetyConfig::default(), &media(), Some("sonarr"), false);
    assert!(report.ok, "{:?}", report.error);
    let calls = exec.calls();
    assert_eq!(calls[0], "pct config 110");
    assert_eq!(count(&calls, "cd '/opt/media/sonarr' && docker compose pull -q"), 1);
    assert_eq!(count(&calls, "cd '/opt/media/sonarr' && docker compose up -d --remove-orphans"), 1);
    assert_eq!(count(&calls, "busy-check"), 0);
    assert_eq!(count(&quiet.calls(), "busy-check"), 1);
}

#[test]
fn a_scheduled_update_skips_apps_without_the_auto_policy() {
    let mut exec = MockExecutor::new();
    exec.enqueue("pct config 110", CmdOutput::ok("hostname: 110-app-media\n"));
    exec.respond_always("update.policy", CmdOutput::ok("manual\n"));
    let mut quiet = MockExecutor::new();
    let report = update(&mut exec, &mut quiet, NullSink, NullJournal, &SafetyConfig::default(), &media(), None, true);
    assert!(report.ok);
    assert_eq!(count(&exec.calls(), "docker compose pull"), 0);
    assert!(quiet.calls().is_empty());
}

#[test]
fn an_update_of_an_app_not_in_the_stack_asks_nothing() {
    let mut exec = MockExecutor::new();
    let mut quiet = MockExecutor::new();
    let report = update(&mut exec, &mut quiet, NullSink, NullJournal, &SafetyConfig::default(), &media(), Some("radarr"), false);
    assert!(!report.ok);
    assert_eq!(report.error.unwrap().why, "app 'radarr' is not part of stack media");
    assert!(exec.calls().is_empty());
    assert!(quiet.calls().is_empty());
}

#[test]
fn a_backup_stands_aside_while_somebody_watches() {
    let mut exec = MockExecutor::new();
    exec.enqueue("pct config 110", CmdOutput::ok("hostname: 110-app-media\n"));
    let mut quiet = in_use_quiet();
    let report = backup(&mut exec, &mut quiet, NullSink, NullJournal, &SafetyConfig::default(), None, &media(), &BackupCfg::default(), 1_800_000_000);
    assert!(!report.ok);
    assert_eq!(
        report.deferred.as_deref(),
        Some("jellyfin is in use, so nothing was stopped and no snapshot was taken: in use — kenny is watching Dune")
    );
    assert_eq!(exec.calls().len(), 1);
}

#[test]
fn a_backup_snapshots_every_repository_and_resumes() {
    let mut exec = MockExecutor::new();
    exec.enqueue("pct config 110", CmdOutput::ok("hostname: 110-app-media\n"));
    exec.respond_always("test -d", CmdOutput::ok("yes\n"));
    exec.enqueue("docker ps --filter", CmdOutput::ok("media-db\n"));
    exec.respond_always("snapshots --json", CmdOutput::ok("[]"));
    let mut quiet = MockExecutor::new();
    let report = backup(&mut exec, &mut quiet, NullSink, NullJournal, &SafetyConfig::default(), None, &media(), &BackupCfg::default(), 1_800_000_000);
    assert!(report.ok, "{:?}", report.error);
    assert_eq!(report.op, "backup-media");
    let calls = exec.calls();
    let snaps: Vec<&String> = calls.iter().filter(|c| c.contains("restic backup --quiet --json")).collect();
    assert_eq!(snaps.len(), 2);
    assert!(snaps[0].contains("jellyfin-config") && snaps[0].ends_with("/appdata/media/jellyfin-config"));
    assert!(snaps[1].contains("sonarr-config") && snaps[1].ends_with("/appdata/media/sonarr-config"));
    assert_eq!(count(&calls, "docker stop media-db; true"), 1);
    assert_eq!(count(&calls, "docker start media-db; true"), 1);
    assert_eq!(count(&quiet.calls(), "busy-check"), 2);
}

#[test]
fn a_failed_snapshot_still_starts_what_was_stopped() {
    let mut exec = MockExecutor::new();
    exec.enqueue("pct config 110", CmdOutput::ok("hostname: 110-app-media\n"));
    exec.respond_always("test -d", CmdOutput::ok("yes\n"));
    exec.enqueue("docker ps --filter", CmdOutput::ok("media-db\n"));
    exec.enqueue("restic backup", CmdOutput::failed(1, "Fatal: repository is locked"));
    let mut quiet = MockExecutor::new();
    let report = backup(&mut exec, &mut quiet, NullSink, NullJournal, &SafetyConfig::default(), None, &media(), &BackupCfg::default(), 1_800_000_000);
    assert!(!report.ok);
    assert_eq!(report.error.unwrap().what, "step 'snapshot' failed");
    assert_eq!(count(&exec.calls(), "docker start media-db; true"), 1);
}

#[test]
fn a_backup_into_another_stacks_repository_is_refused() {
    let mut other = media();
    other.stack_name = "old-media".to_string();
    other.vmid = 111;
    let mut state = HostState::default();
    state.stacks.push((
        "old-media".to_string(),
        StackState {
            vmid: 111,
            hostname: "111-app-old-media".to_string(),
            apps: vec!["jellyfin".to_string()],
            applied_at: 0,
            last_backup: 0,
            applied_hash: String::new(),
            manifest: Some(other),
            enabled: true,
            native: None,
            natives: vec![],
            incomplete_step: None,
        },
    ));
    let mut exec = MockExecutor::new();
    exec.enqueue("pct config 110", CmdOutput::ok("hostname: 110-app-media\n"));
    let mut quiet = MockExecutor::new();
    let report = backup(&mut exec, &mut quiet, NullSink, NullJournal, &SafetyConfig::default(), Some(&state), &media(), &BackupCfg::default(), 1_800_000_000);
    assert!(!report.ok);
    assert_eq!(report.error.unwrap().what, "step 'owner conflict' failed");
    assert_eq!(exec.calls().len(), 1);
    assert!(quiet.calls().is_empty());
}

#[test]
fn an_update_that_leaves_nothing_running_goes_back_to_the_captured_images() {
    let mut exec = MockExecutor::new();
    exec.enqueue("pct config 110", CmdOutput::ok("hostname: 110-app-media\n"));
    exec.enqueue("{{.Image}}", CmdOutput::ok("sha256:aaa linuxserver/sonarr:4\n"));
    exec.enqueue("--status running", CmdOutput::ok(""));
    exec.enqueue("--status running", CmdOutput::ok("sonarr\n"));
    let mut quiet = MockExecutor::new();
    let report = update(&mut exec, &mut quiet, NullSink, NullJournal, &SafetyConfig::default(), &media(), Some("sonarr"), false);
    assert!(!report.ok);
    assert_eq!(report.error.unwrap().what, "step 'sonarr :: verify' failed");
    let calls = exec.calls();
    let pull = calls.iter().position(|c| c.contains("docker compose pull -q")).unwrap();
    assert!(calls[pull + 3].contains("--status running"));
    assert!(calls[pull + 4].contains("docker tag sha256:aaa linuxserver/sonarr:4"));
}

#[test]
fn a_scheduled_update_pulls_only_after_the_policy_said_auto() {
    let mut exec = MockExecutor::new();
    exec.enqueue("pct config 110", CmdOutput::ok("hostname: 110-app-media\n"));
    exec.respond_always("update.policy", CmdOutput::ok(" auto \n"));
    exec.respond_always("--status running", CmdOutput::ok("sonarr\n"));
    let mut quiet = MockExecutor::new();
    let report = update(&mut exec, &mut quiet, NullSink, NullJournal, &SafetyConfig::default(), &media(), Some("sonarr"), true);
    assert!(report.ok, "{:?}", report.error);
    let calls = exec.calls();
    let policy = calls.iter().position(|c| c.contains("update.policy")).unwrap();
    let pull = calls.iter().position(|c| c.contains("docker compose pull -q")).unwrap();
    assert!(policy < pull);
}
