use homelab_core::ops::dashboard::dashboard_json;
use homelab_core::ops::facts::parse_growth;
use homelab_core::ops::fleetcheck::{evaluate_coverage, evaluate_watched_backups, CoverageFact, Severity, WatchedBackupFact};

#[test]
fn each_coverage_no_is_one_drift_finding() {
    let facts = vec![
        CoverageFact { stack: "media".to_string(), scraped: Some(false), logs_recent: None, dashboard_provisioned: Some(false) },
        CoverageFact { stack: "sync".to_string(), scraped: Some(true), logs_recent: Some(false), dashboard_provisioned: None },
        CoverageFact { stack: "quiet".to_string(), scraped: None, logs_recent: None, dashboard_provisioned: None },
    ];
    let f = evaluate_coverage(&facts);
    assert_eq!(f.len(), 3);
    assert!(f.iter().all(|x| x.severity == Severity::Drift));
    let subjects: Vec<&str> = f.iter().map(|x| x.subject.as_str()).collect();
    assert_eq!(subjects, vec!["media", "media", "sync"]);
}

#[test]
fn each_failing_watched_backup_is_one_broken_finding() {
    let w = |name: &str, age: Option<u64>, err: Option<&str>| WatchedBackupFact {
        name: name.to_string(),
        newest_age_s: age,
        max_age_s: 3600,
        error: err.map(str::to_string),
    };
    let facts = vec![w("router", Some(10), None), w("nas", None, None), w("switch", Some(7200), None), w("ap", None, Some("denied"))];
    let f = evaluate_watched_backups(&facts);
    assert_eq!(f.len(), 3);
    assert!(f.iter().all(|x| x.severity == Severity::Broken));
    let subjects: Vec<&str> = f.iter().map(|x| x.subject.as_str()).collect();
    assert_eq!(subjects, vec!["nas", "switch", "ap"]);
    assert_eq!(f[2].what, "could not be listed (denied)");
}

#[test]
fn the_dashboard_opens_with_its_stacks_uid_and_title() {
    let d = dashboard_json("media", &["jellyfin".to_string(), "sonarr".to_string()]);
    assert!(d.starts_with("{\n  \"uid\": \"homelab-media\",\n  \"title\": \"media"));
    assert_eq!(d, dashboard_json("media", &["jellyfin".to_string(), "sonarr".to_string()]));
    assert!(d.contains("(jellyfin, sonarr)"));
}

#[test]
fn growth_is_probed_only_with_a_guards_line_and_the_last_value_wins() {
    assert!(parse_growth(110, "media", "disk=40\nmem=20\n").is_none());
    let g = parse_growth(110, "media", "disk=40\nnoise\ndisk=55\nguards=0\nguards=1\n").unwrap();
    assert_eq!((g.disk_used_pct, g.guards, g.mem_used_pct), (55, true, 0));
}
