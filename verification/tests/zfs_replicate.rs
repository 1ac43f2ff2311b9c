use homelab_core::executor::{CmdOutput, MockExecutor};
use homelab_core::ops::zfs::{prune_victims, replicate, ZfsJob};
use homelab_core::retention::RetentionTier;
use homelab_core::runner::NullJournal;
use homelab_core::sink::NullSink;

const NOW: u64 = 1_800_000_000; // homelab-20270115-0800

fn job() -> Vec<ZfsJob> {
    vec![ZfsJob { source: "tank/a".to_string(), target: "backup/a".to_string() }]
}

fn tiers() -> Vec<RetentionTier> {
    vec![RetentionTier { every_days: 1, span_days: Some(7) }]
}

#[test]
fn an_incremental_send_starts_from_the_newest_shared_snapshot() {
    let mut m = MockExecutor::new();
    m.respond_always("-o name tank/a", CmdOutput::ok("tank/a\n"));
    m.respond_always("creation -r tank/a", CmdOutput::ok("tank/a@homelab-20270114-0800\n"));
    m.respond_always("creation -r backup/a", CmdOutput::ok("backup/a@homelab-20270114-0800\n"));
    let report = replicate(&mut m, NullSink, NullJournal, NOW, &job(), &tiers());
    assert!(report.ok, "{:?}", report.error);
    let calls = m.calls();
    assert_eq!(calls[0], "zfs list -H -o name tank/a");
    assert_eq!(calls[1], "zfs snapshot -r tank/a@homelab-20270115-0800");
    assert_eq!(
        calls[4],
        "sh -c zfs send -RI 'tank/a@homelab-20270114-0800' 'tank/a@homelab-20270115-0800' | zfs receive -F -x mountpoint 'backup/a'"
    );
    assert!(m.calls_containing("zfs destroy").is_empty());
}

#[test]
fn a_target_with_foreign_history_is_never_reseeded() {
    let mut m = MockExecutor::new();
    m.respond_always("-o name tank/a", CmdOutput::ok("tank/a\n"));
    m.respond_always("creation -r tank/a", CmdOutput::ok("tank/a@homelab-20270114-0800\n"));
    m.respond_always("creation -r backup/a", CmdOutput::ok("backup/a@manual-1\n"));
    let report = replicate(&mut m, NullSink, NullJournal, NOW, &job(), &tiers());
    assert!(!report.ok);
    let err = report.error.unwrap();
    assert_eq!(err.what, "step 'replicate tank/a → backup/a' failed");
    assert!(err.why.contains("share no snapshot, but backup/a already holds 1 snapshot(s)"));
    assert!(m.calls_containing("zfs send").is_empty());
}

#[test]
fn an_empty_target_gets_a_first_seed() {
    let mut m = MockExecutor::new();
    m.respond_always("-o name tank/a", CmdOutput::ok("tank/a\n"));
    m.respond_always("creation -r backup/a", CmdOutput::failed(1, "dataset does not exist"));
    let report = replicate(&mut m, NullSink, NullJournal, NOW, &job(), &tiers());
    assert!(report.ok, "{:?}", report.error);
    assert_eq!(
        m.calls_containing("zfs send"),
        vec!["sh -c zfs send -R 'tank/a@homelab-20270115-0800' | zfs receive -F -x mountpoint 'backup/a'".to_string()]
    );
}

#[test]
fn a_missing_source_stops_before_any_snapshot() {
    let mut m = MockExecutor::new();
    m.respond_always("-o name tank/a", CmdOutput::failed(1, "no such dataset"));
    let report = replicate(&mut m, NullSink, NullJournal, NOW, &job(), &tiers());
    assert!(!report.ok);
    assert_eq!(report.error.unwrap().why, "source dataset tank/a not found");
    assert_eq!(m.calls(), vec!["zfs list -H -o name tank/a".to_string()]);
}

#[test]
fn no_jobs_or_a_malformed_job_asks_nothing() {
    let mut m = MockExecutor::new();
    let report = replicate(&mut m, NullSink, NullJournal, NOW, &[], &tiers());
    assert!(!report.ok);
    assert_eq!(report.error.unwrap().why, "no zfs jobs configured (zfs_jobs in host.toml) — nothing to do");
    let bad = vec![ZfsJob { source: "tank/a".to_string(), target: "tank/a/replica".to_string() }];
    let report = replicate(&mut m, NullSink, NullJournal, NOW, &bad, &tiers());
    assert!(!report.ok);
    assert_eq!(report.error.unwrap().why, "zfs job tank/a → tank/a/replica: target tank/a/replica lives inside source tank/a");
    assert!(m.calls().is_empty());
}

#[test]
fn a_prune_destroys_only_our_snapshots_one_by_one() {
    let listing = "tank/a@manual-1\ntank/a@homelab-20200101-0000\ntank/a@homelab-20270115-0700\ntank/a/child@homelab-20200101-0000\n";
    let victims = prune_victims(listing, &tiers(), NOW);
    assert!(victims.iter().all(|v| v.contains("@homelab-")));
    assert!(!victims.contains(&"tank/a@homelab-20270115-0700".to_string()));

    let mut m = MockExecutor::new();
    m.respond_always("-o name tank/a", CmdOutput::ok("tank/a\n"));
    m.respond_always("creation -r tank/a", CmdOutput::ok(listing));
    m.respond_always("creation -r backup/a", CmdOutput::failed(1, "dataset does not exist"));
    let report = replicate(&mut m, NullSink, NullJournal, NOW, &job(), &tiers());
    assert!(report.ok, "{:?}", report.error);
    for d in m.calls_containing("zfs destroy") {
        assert!(!d.contains(" -r"));
        assert!(!d.contains("manual-1"));
        assert_eq!(d.split_whitespace().count(), 3);
    }
}
