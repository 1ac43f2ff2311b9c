use homelab_core::executor::{CmdOutput, MockExecutor};
use homelab_core::ops::manualchecks::{answer, id_for, listing, register};
use homelab_core::ops::registry_cache::split_registry;
use homelab_core::ops::template::{build_template, TemplateCfg};
use homelab_core::runner::NullJournal;
use homelab_core::safety::SafetyConfig;
use homelab_core::sink::NullSink;
use homelab_core::state::HostState;

fn qs(items: &[(&str, &str)]) -> Vec<(String, String)> {
    items.iter().map(|(a, t)| (a.to_string(), t.to_string())).collect()
}

#[test]
fn an_image_name_splits_into_registry_and_path() {
    assert_eq!(split_registry("postgres:16"), ("docker.io".to_string(), "library/postgres:16".to_string()));
    assert_eq!(split_registry("ghcr.io/o/app:1"), ("ghcr.io".to_string(), "o/app:1".to_string()));
    assert_eq!(split_registry("localhost:5000/app:1"), ("localhost:5000".to_string(), "app:1".to_string()));
    assert_eq!(split_registry("localhost/app"), ("localhost".to_string(), "app".to_string()));
    assert_eq!(split_registry("grafana/grafana"), ("docker.io".to_string(), "grafana/grafana".to_string()));
}

#[test]
fn the_listing_is_by_stack_then_newest_question_first() {
    let mut s = HostState::default();
    register(&mut s, "paper", &qs(&[("paperless", "ocr ok?")]), 50);
    register(&mut s, "media", &qs(&[("jellyfin", "picture ok?")]), 100);
    register(&mut s, "media", &qs(&[("jellyfin", "picture ok?"), ("jellyfin", "sound in sync?")]), 200);
    let rows = listing(&s);
    let ids: Vec<String> = rows.iter().map(|(k, _)| k.clone()).collect();
    assert_eq!(
        ids,
        vec![
            id_for("media", "jellyfin", "sound in sync?"),
            id_for("media", "jellyfin", "picture ok?"),
            id_for("paper", "paperless", "ocr ok?"),
        ]
    );
    assert_eq!(rows[0].1.registered_at, 200);
    assert_eq!(rows[1].1.registered_at, 100);
}

#[test]
fn an_answer_changes_nothing_else_in_the_state() {
    let mut s = HostState::default();
    register(&mut s, "media", &qs(&[("jellyfin", "picture ok?")]), 100);
    s.last_zfs = 7;
    s.last_host_meta = 8;
    s.last_notify_ok = 9;
    s.last_notify_error = Some("smtp down".to_string());
    s.last_restore_drill = 10;
    s.restore_drill_index = 3;
    let before = s.clone();
    let id = id_for("media", "jellyfin", "picture ok?");
    assert!(answer(&mut s, &id, false, "blocky", 500));
    assert_eq!(s.last_zfs, 7);
    assert_eq!(s.last_host_meta, 8);
    assert_eq!(s.last_notify_ok, 9);
    assert_eq!(s.last_notify_error, Some("smtp down".to_string()));
    assert_eq!(s.last_restore_drill, 10);
    assert_eq!(s.restore_drill_index, 3);
    assert_eq!(s.stacks.len(), before.stacks.len());
    let rec = &s.manual_checks[0].1;
    assert_eq!(rec.answered_at, Some(500));
    assert_eq!(rec.ok, Some(false));
    assert_eq!(rec.note, "blocky");
    assert_eq!(rec.registered_at, 100);
}

#[test]
fn a_template_build_bakes_everything_in_order() {
    let mut m = MockExecutor::new();
    m.enqueue("pct config 999", CmdOutput::failed(2, "Configuration file does not exist"));
    m.respond_always("systemctl is-system-running", CmdOutput::ok("running\n"));
    let report = build_template(&mut m, NullSink, NullJournal, &SafetyConfig::default(), &TemplateCfg::default());
    assert!(report.ok, "{:?}", report.error);
    let calls = m.calls();
    let n = calls.len();
    assert!(calls[2].starts_with("pct start 999"));
    assert!(calls[3].contains("systemctl is-system-running"));
    assert!(calls[4].contains("get.docker.com"));
    assert!(calls[5].contains("prometheus-node-exporter"));
    assert!(calls[6].contains("cadvisor"));
    assert!(calls[n - 6].contains("apt-get clean"), "{}", calls[n - 6]);
    assert!(calls[n - 5].contains("systemctl mask nvmf-autoconnect.service"));
    assert!(calls[n - 4].contains("ssh-host-keys.service"));
    assert!(calls[7..n - 5].iter().any(|c| c.contains("unattended")));
}
