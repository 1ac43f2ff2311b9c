use homelab_core::executor::{CmdOutput, MockExecutor};
use homelab_core::error::CoreError;
use homelab_core::ops::backup::{restore_into, BackupCfg};
use homelab_core::ops::busy::wanted_check;
use homelab_core::ops::restoredrill::next_repo;
use homelab_core::ops::update::{app_policy, capture_app, verify_app};

#[test]
fn the_drill_rotation_reaches_every_repository_once_per_round() {
    let repos: Vec<String> = ["sonarr", "jellyfin", "paperless", "jellyfin"].iter().map(|s| s.to_string()).collect();
    let mut index = 7usize;
    let mut seen = Vec::new();
    for _ in 0..3 {
        let (repo, next) = next_repo(&repos, index).unwrap();
        seen.push(repo);
        index = next;
    }
    seen.sort();
    assert_eq!(seen, vec!["jellyfin".to_string(), "paperless".to_string(), "sonarr".to_string()]);
    assert_eq!(next_repo(&[], 3), None);
}

#[test]
fn a_drill_restores_the_newest_snapshot_somewhere_harmless() {
    let mut m = MockExecutor::new();
    let cfg = BackupCfg::default();
    assert!(restore_into(&mut m, &cfg, "jellyfin", "/var/tmp/drill").is_ok());
    let calls = m.calls();
    assert_eq!(calls.len(), 1);
    assert!(calls[0].contains("RESTIC_REPOSITORY=rclone:gdrive:homelab-backups/jellyfin-config"));
    assert!(calls[0].ends_with("restic restore latest --target /var/tmp/drill"));

    let mut m = MockExecutor::new();
    m.enqueue("restic restore", CmdOutput::failed(3, " no snapshot found \n"));
    match restore_into(&mut m, &cfg, "jellyfin", "/var/tmp/drill") {
        Err(CoreError::Command { rendered, detail }) => {
            assert_eq!(rendered, "restic restore latest --target /var/tmp/drill");
            assert_eq!(detail, "restic restore of jellyfin exited 3: no snapshot found");
        },
        other => panic!("unexpected {:?}", other),
    }
}

#[test]
fn a_container_without_the_label_asks_for_no_busy_check() {
    let mut m = MockExecutor::new();
    m.enqueue("busy-check", CmdOutput::ok("<no value>\n"));
    assert_eq!(wanted_check(&mut m, 106, "media", "jellyfin").unwrap(), None);
    let mut m = MockExecutor::new();
    m.enqueue("busy-check", CmdOutput::ok("  jellyfin\n"));
    assert_eq!(wanted_check(&mut m, 106, "media", "jellyfin").unwrap(), Some("jellyfin".to_string()));
    assert!(m.calls()[0].starts_with("pct exec 106 -- sh -c cd '/opt/media/jellyfin' && docker compose ps -q | head -1"));
}

#[test]
fn an_operation_whose_last_record_is_running_was_interrupted() {
    let journal = "{\"op\":\"deploy-media\",\"step\":\"pull\",\"status\":\"running\"}\n\
{\"op\":\"backup-paper\",\"step\":\"snapshot\",\"status\":\"running\"}\n\
{\"op\":\"backup-paper\",\"step\":\"snapshot\",\"status\":\"done\"}\n\
not json at all\n\
{\"op\":\"alpha\",\"step\":\"x\",\"status\":\"running\"}\n";
    assert_eq!(
        homelab_core::incidents::interrupted_ops(journal),
        vec![("alpha".to_string(), "x".to_string()), ("deploy-media".to_string(), "pull".to_string())]
    );
    assert!(homelab_core::incidents::interrupted_ops("").is_empty());
}

#[test]
fn the_host_memory_reads_total_promised_and_swap() {
    let mut m = MockExecutor::new();
    m.enqueue("free -m", CmdOutput::ok("8000\n100 2048\n4096\n2048\n"));
    assert_eq!(homelab_core::ops::facts::read_host_memory(&mut m), Some((8000, 6144, 100, 2048)));
    assert_eq!(m.calls().len(), 1);
    let mut m = MockExecutor::new();
    m.enqueue("free -m", CmdOutput::ok("8000\n"));
    assert_eq!(homelab_core::ops::facts::read_host_memory(&mut m), None);
}

#[test]
fn the_generated_dashboards_are_read_from_grafana_itself() {
    let mut m = MockExecutor::new();
    m.enqueue("api/search", CmdOutput::ok("[{\"id\":1,\"uid\":\"homelab-media\",\"title\":\"media\"},{\"id\":2,\"uid\":\"homelab-paper\"}]"));
    let uids = homelab_core::ops::facts::grafana_generated_uids(&mut m, 100, "/opt/gateway/grafana/dashboards");
    assert_eq!(uids, Some(vec!["homelab-media".to_string(), "homelab-paper".to_string()]));
    let calls = m.calls();
    assert_eq!(calls.len(), 1);
    assert!(calls[0].starts_with("pct exec 100 -- sh -c U=$(grep -h GRAFANA_GF_ADMIN_USER /opt/gateway/grafana/.env | cut -d= -f2);"));

    let mut m = MockExecutor::new();
    m.enqueue("api/search", CmdOutput::ok("curl: (7) Failed to connect"));
    assert_eq!(homelab_core::ops::facts::grafana_generated_uids(&mut m, 100, "/opt/gateway/grafana/dashboards"), None);
}

#[test]
fn an_update_reads_images_policy_and_health_from_the_app() {
    let mut m = MockExecutor::new();
    m.enqueue("docker inspect --format '{{.Image}}", CmdOutput::ok("sha256:aaa ghcr.io/o/app:1\nsha256:bbb postgres:16\n\n"));
    m.enqueue("com.homelab.update.policy", CmdOutput::ok(" auto\n"));
    m.enqueue("--status running", CmdOutput::ok("\n"));
    let imgs = capture_app(&mut m, 106, "media", "jellyfin").unwrap();
    assert_eq!(imgs.len(), 2);
    assert_eq!(imgs[1].image_id, "sha256:bbb");
    assert_eq!(imgs[1].repo_tag, "postgres:16");
    assert_eq!(app_policy(&mut m, 106, "media", "jellyfin").unwrap(), "auto");
    assert!(!verify_app(&mut m, 106, "media", "jellyfin").unwrap());
    let calls = m.calls();
    assert_eq!(calls[2], "pct exec 106 -- sh -c cd '/opt/media/jellyfin' && docker compose ps --status running --services");
}

#[test]
fn the_host_metadata_snapshot_takes_only_the_extras_that_exist() {
    let mut m = MockExecutor::new();
    m.enqueue("test -e '/etc/systemd/system/smart-collector.service'", CmdOutput::ok("yes\n"));
    let report = homelab_core::ops::backup::backup_host_meta(
        &mut m,
        homelab_core::sink::NullSink,
        homelab_core::runner::NullJournal,
        "/var/lib/homelab",
        &BackupCfg::default(),
    );
    assert!(report.ok, "{:?}", report.error);
    assert_eq!(report.op, "host-meta-backup");
    let calls = m.calls();
    assert_eq!(calls.len(), 5);
    assert!(calls[0].ends_with("restic init"));
    assert!(calls[4].ends_with(
        "restic backup /var/lib/homelab/secrets /var/lib/homelab/state.json /var/lib/homelab/tls-cert.pem /var/lib/homelab/tls-key.pem /var/lib/homelab/repo /etc/homelab/host.toml /etc/systemd/system/smart-collector.service"
    ));
}

#[test]
fn a_payload_escapes_the_error_as_json_does() {
    let p = homelab_core::notify::op_payload("deploy-media", "nightly", false, Some("say \"hi\"\n\u{1}\\"), "1.2.3");
    assert_eq!(
        p,
        "{\"error\":\"say \\\"hi\\\"\\n\\u0001\\\\\",\"label\":\"nightly\",\"ok\":false,\"op\":\"deploy-media\",\"source\":\"homelab-host\",\"version\":\"1.2.3\"}"
    );
}
