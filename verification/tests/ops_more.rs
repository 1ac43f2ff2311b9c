use homelab_core::error::CoreError;
use homelab_core::executor::{CmdOutput, MockExecutor};
use homelab_core::ops::backup::{
    declared_empty_error, docker_all, empty_snapshot_error, forget_args, in_use_deferral,
    missing_paths_error, newest_snapshot, owner_conflict_error, paused_names, restore_failed,
    snapshot_check, snapshot_is_empty, snapshot_times,
};
use homelab_core::ops::devicebackup::{implausible_error, plausible_size, stored_size, tls_args, DeviceBackup};
use homelab_core::ops::facts::{route_targets, watched_age, watched_fact, WatchedBackupSpec};
use homelab_core::ops::kea::{check_reservation, existing_reservation, pick_subnet, reservation_body, reservation_endpoint};
use homelab_core::ops::mirror::mirror_push;
use homelab_core::ops::patch::{patch_failed, skipped_line};
use homelab_core::ops::selfupdate::{restart_unit, rollback_marker, selfcheck_result};
use homelab_core::ops::zfs::send_plan;

fn strings(v: &[&str]) -> Vec<String> {
    v.iter().map(|s| s.to_string()).collect()
}

#[test]
fn backup_refusals_name_what_is_wrong() {
    match owner_conflict_error("drill", "http-switchboard", "kyu") {
        CoreError::SafetyAbort(m) => assert!(m.starts_with(
            "stack 'drill' would back up into the repository 'http-switchboard-config', which stack 'kyu' already owns"
        )),
        other => panic!("unexpected {:?}", other),
    }
    match in_use_deferral("jellyfin", "2 streams playing") {
        CoreError::Deferred(m) => assert_eq!(m, "jellyfin is in use, so nothing was stopped and no snapshot was taken: 2 streams playing"),
        other => panic!("unexpected {:?}", other),
    }
    assert!(declared_empty_error(&vec![]).is_none());
    match declared_empty_error(&strings(&["/a", "/b"])) {
        Some(CoreError::Validation(m)) => assert!(m.starts_with("these paths are declared `no_data: true` and are not empty: /a, /b — ")),
        other => panic!("unexpected {:?}", other),
    }
    assert!(missing_paths_error("media", &vec![]).is_none());
    match missing_paths_error("media", &strings(&["/appdata/media/x"])) {
        Some(CoreError::Validation(m)) => {
            assert!(m.contains("/appdata/media/x :: "));
            assert!(m.contains("`homelab deploy stacks/media` creates them"));
        }
        other => panic!("unexpected {:?}", other),
    }
}

#[test]
fn backup_commands_and_listings() {
    assert_eq!(paused_names("db\n  \n cache \n"), strings(&["db", "cache"]));
    assert_eq!(docker_all("stop", &strings(&["db", "cache"])), "docker stop db cache; true");
    assert_eq!(forget_args(&strings(&["a1", "b2"])), strings(&["forget", "a1", "b2", "--prune"]));
    assert_eq!(forget_args(&vec![]), strings(&["forget", "--prune"]));
    match empty_snapshot_error("jellyfin", &strings(&["/appdata/x"])) {
        CoreError::Command { rendered, detail } => {
            assert_eq!(rendered, "restic backup jellyfin");
            assert!(detail.starts_with("the snapshot for 'jellyfin' contains no files :: it covered /appdata/x — "));
        }
        other => panic!("unexpected {:?}", other),
    }
    let listed = vec![("a".to_string(), 5u64), ("b".to_string(), 9), ("c".to_string(), 7)];
    assert_eq!(newest_snapshot(None, &listed), Some(9));
    assert_eq!(newest_snapshot(Some(20), &listed), Some(20));
    assert_eq!(newest_snapshot(Some(3), &vec![]), Some(3));
    let snaps = vec![
        ("aaaa1111".to_string(), "2026-08-11T04:00:12.123+02:00".to_string()),
        ("bbbb2222".to_string(), "yesterday".to_string()),
        ("cccc3333".to_string(), "1970-01-01T00:01:00Z".to_string()),
    ];
    assert_eq!(snapshot_times(&snaps), vec![("aaaa1111".to_string(), 1_786_413_612), ("cccc3333".to_string(), 60)]);
}

#[test]
fn an_empty_snapshot_is_recognised_from_the_summary() {
    let empty = "{\"message_type\":\"status\"}\n{\"message_type\":\"summary\",\"total_files_processed\":0,\"total_bytes_processed\":0}\n";
    let full = "{\"message_type\":\"summary\",\"total_files_processed\":12,\"total_bytes_processed\":4096}\n";
    assert!(snapshot_is_empty(empty));
    assert!(!snapshot_is_empty(full));
    assert!(!snapshot_is_empty("no json here"));
    assert!(snapshot_is_empty("{\"message_type\":\"summary\"}"));
}

#[test]
fn restores_check_the_snapshot_first() {
    let listing = CmdOutput::ok("ID        Time\n1a2b3c4d  2026-08-11 04:00:12\n");
    assert!(snapshot_check("jellyfin", "latest", &listing).is_ok());
    assert!(snapshot_check("jellyfin", "1a2b3c4d", &listing).is_ok());
    assert!(snapshot_check("jellyfin", "1a2b3c4d5e6f", &listing).is_ok());
    match snapshot_check("jellyfin", "ffff0000", &listing) {
        Err(CoreError::Other(m)) => assert_eq!(m, "snapshot 'ffff0000' is not in the repository for 'jellyfin' — nothing has been stopped"),
        other => panic!("unexpected {:?}", other),
    }
    match snapshot_check("jellyfin", "latest", &CmdOutput::ok("ID Time\n")) {
        Err(CoreError::Other(m)) => assert_eq!(m, "repository for 'jellyfin' holds no snapshots at all, so 'latest' means nothing"),
        other => panic!("unexpected {:?}", other),
    }
    match snapshot_check("jellyfin", "latest", &CmdOutput::failed(1, "")) {
        Err(CoreError::Other(m)) => assert_eq!(m, "restic repo for 'jellyfin' unreachable"),
        other => panic!("unexpected {:?}", other),
    }
    match restore_failed("jellyfin", "/", &CmdOutput::failed(3, " locked \n")) {
        CoreError::Command { rendered, detail } => {
            assert_eq!(rendered, "restic restore latest --target /");
            assert_eq!(detail, "restic restore of jellyfin exited 3: locked");
        }
        other => panic!("unexpected {:?}", other),
    }
}

#[test]
fn devices_verify_their_certificates_and_their_size() {
    let mut dev = DeviceBackup {
        name: "opnsense".to_string(),
        url: "https://10.10.10.1/api/core/backup/download/this".to_string(),
        cred_file: "/root/.opnsense.curl".to_string(),
        filename: "config.xml".to_string(),
        pin: Some("sha256//abc=".to_string()),
        ca_file: Some("/etc/ca.pem".to_string()),
    };
    assert_eq!(tls_args(&dev), ("-k --pinnedpubkey 'sha256//abc='".to_string(), false));
    dev.pin = None;
    assert_eq!(tls_args(&dev), ("--cacert '/etc/ca.pem'".to_string(), false));
    dev.ca_file = None;
    assert_eq!(tls_args(&dev), ("-k".to_string(), true));
    assert_eq!(stored_size("{\"total_size\":52341,\"total_file_count\":1}"), 52341);
    assert_eq!(stored_size("{\"total_size\": 17}"), 17);
    assert_eq!(stored_size("{\"other\":3}"), 0);
    assert!(plausible_size(4096));
    assert!(!plausible_size(4095));
    match implausible_error("opnsense", 1200) {
        CoreError::Other(m) => assert!(m.starts_with("opnsense stored only 1200 bytes — ")),
        other => panic!("unexpected {:?}", other),
    }
}

#[test]
fn routes_and_watched_backups() {
    let listing = "### 110-app-media.yml\nhttp:\n  services:\n    - url: \"http://10.10.10.8:8096\"\n### manual-ha.yml\n  - address: '10.10.10.5:8123'\n";
    assert_eq!(
        route_targets(listing),
        vec![
            ("110-app-media.yml".to_string(), "http://10.10.10.8:8096".to_string()),
            ("manual-ha.yml".to_string(), "'10.10.10.5:8123'".to_string()),
        ]
    );
    assert_eq!(watched_age(1000, "400\n"), Some(600));
    assert_eq!(watched_age(100, "400"), Some(0));
    assert_eq!(watched_age(100, "soon"), None);
    let spec = WatchedBackupSpec { name: "nas".to_string(), rclone_path: "gdrive:nas".to_string(), max_age_hours: 26 };
    let ok = watched_fact(&spec, None, Some(10));
    assert_eq!((ok.max_age_s, ok.newest_age_s, ok.error.is_none()), (26 * 3600, Some(10), true));
    let bad = watched_fact(&spec, Some("403".to_string()), Some(10));
    assert_eq!((bad.newest_age_s, bad.error), (None, Some("403".to_string())));
}

#[test]
fn reservations() {
    assert!(check_reservation("10.10.10.8", "BC:24:11:AA:BB:CC", "108-app-synctest").is_ok());
    match check_reservation("10.10.10.8; x", "BC:24:11:AA:BB:CC", "h") {
        Err(CoreError::Validation(m)) => assert_eq!(m, "kea: '10.10.10.8; x' is not an IPv4 address"),
        other => panic!("unexpected {:?}", other),
    }
    match check_reservation("10.10.10.8", "nope", "h") {
        Err(CoreError::Validation(m)) => assert_eq!(m, "kea: 'nope' is not a MAC address"),
        other => panic!("unexpected {:?}", other),
    }
    match check_reservation("10.10.10.8", "BC:24:11:AA:BB:CC", "host$(reboot)") {
        Err(CoreError::Validation(m)) => assert_eq!(m, "kea: hostname 'host$(reboot)' contains non-inert characters"),
        other => panic!("unexpected {:?}", other),
    }
    let row = |a: &str, b: &str| (Some(a.to_string()), Some(b.to_string()));
    let subnets = vec![(None, Some("u0".to_string())), row("10.10.20.0/24", "u20"), row("10.10.10.0/24", "u10")];
    assert_eq!(pick_subnet("10.10.10.8", &subnets).unwrap(), "u10");
    match pick_subnet("192.168.1.1", &subnets) {
        Err(CoreError::Other(m)) => assert_eq!(m, "no Kea subnet matches 192.168.1.1"),
        other => panic!("unexpected {:?}", other),
    }
    let existing = vec![row("10.10.10.9", "r9"), row("10.10.10.8", "r8")];
    assert_eq!(existing_reservation("10.10.10.8", &existing), Some("r8".to_string()));
    assert_eq!(existing_reservation("10.10.10.7", &existing), None);
    let body = reservation_body("u10", "10.10.10.8", "BC:24:11:AA:BB:CC", "108-app-synctest");
    assert_eq!(
        body,
        r#"{"reservation":{"hostname":"108-app-synctest","hw_address":"BC:24:11:AA:BB:CC","ip_address":"10.10.10.8","subnet":"u10"}}"#
    );
    assert_eq!(reservation_endpoint(&Some("r8".to_string())), "/api/kea/dhcpv4/set_reservation/r8");
    assert_eq!(reservation_endpoint(&None), "/api/kea/dhcpv4/add_reservation");
}

#[test]
fn replication_sends_incrementally_seeds_only_empty_targets() {
    let src = strings(&["homelab-20260101-0400", "homelab-20260102-0400"]);
    let tgt = CmdOutput::ok("backup/data@homelab-20260101-0400\t0\n");
    let (script, timeout) = send_plan("tank/data", "backup/data", "tank/data@homelab-20260103-0400", &src, &tgt).unwrap();
    assert_eq!(
        script,
        "zfs send -RI 'tank/data@homelab-20260101-0400' 'tank/data@homelab-20260103-0400' | zfs receive -F -x mountpoint 'backup/data'"
    );
    assert_eq!(timeout, 6 * 3600);
    let (seed, t2) = send_plan("tank/data", "backup/data", "tank/data@x", &src, &CmdOutput::failed(1, "does not exist")).unwrap();
    assert_eq!(seed, "zfs send -R 'tank/data@x' | zfs receive -F -x mountpoint 'backup/data'");
    assert_eq!(t2, 12 * 3600);
    let foreign = CmdOutput::ok("backup/data@other-1\nbackup/data/child@other-2\n");
    match send_plan("tank/data", "backup/data", "tank/data@x", &src, &foreign) {
        Err(CoreError::SafetyAbort(m)) => assert!(m.starts_with("tank/data and backup/data share no snapshot, but backup/data already holds 2 snapshot(s)")),
        other => panic!("unexpected {:?}", other),
    }
}

#[test]
fn self_update_and_patch_messages() {
    assert_eq!(selfcheck_result(&CmdOutput::ok(" 3.36.0\n")).unwrap(), "3.36.0");
    match selfcheck_result(&CmdOutput::failed(2, "bad elf")) {
        Err(CoreError::Other(m)) => assert_eq!(m, "staged binary failed selfcheck (exit 2): bad elf"),
        other => panic!("unexpected {:?}", other),
    }
    assert_eq!(rollback_marker("3.36.0", 1800000000), "{\"to_version\":\"3.36.0\",\"armed_at\":1800000000}\n");
    assert_eq!(restart_unit(42), "homelab-restart-42");
    assert_eq!(skipped_line("infra", 101), "[patch] infra (vmid 101) is on the no-touch list — skipped");
    match patch_failed("media", 110, &CmdOutput::failed(100, "E: locked\n")) {
        CoreError::Other(m) => assert_eq!(m, "apt failed in media (vmid 110): E: locked"),
        other => panic!("unexpected {:?}", other),
    }
}

#[test]
fn the_mirror_gets_a_remote_once_and_a_push() {
    let mut exec = MockExecutor::new();
    exec.enqueue("remote get-url mirror", CmdOutput::failed(2, "No such remote"));
    mirror_push(&mut exec, "/var/lib/homelab/repo", "git@example:repo.git").unwrap();
    assert_eq!(
        exec.calls(),
        strings(&[
            "git -C /var/lib/homelab/repo remote get-url mirror",
            "git -C /var/lib/homelab/repo remote add mirror git@example:repo.git",
            "git -C /var/lib/homelab/repo push --quiet mirror --all",
        ])
    );
    let mut exec = MockExecutor::new();
    exec.enqueue("push --quiet", CmdOutput::failed(1, "rejected\n"));
    match mirror_push(&mut exec, "/r", "x") {
        Err(CoreError::Other(m)) => assert_eq!(m, "git push mirror: rejected"),
        other => panic!("unexpected {:?}", other),
    }
    assert_eq!(exec.calls().len(), 2);
}
