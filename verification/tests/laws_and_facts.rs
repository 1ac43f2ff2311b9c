use homelab_core::executor::{CmdOutput, MockExecutor};
use homelab_core::manifest::{BootSpec, LxcSpec, MountSpec, NetworkSpec, ResourceSpec, StackManifest};
use homelab_core::ops::facts::{gather_container_facts, gather_live_facts, seed_from, FactsInputs};
use homelab_core::ops::kea::{reserve, KeaCfg};
use homelab_core::ops::fleetcheck::{evaluate_growth, evaluate_incomplete, GrowthFact, GrowthLimits, Severity};
use homelab_core::ops::manualchecks::{id_for, render_listing};
use homelab_core::ops::reconcile::{divergences, LiveConfig};
use homelab_core::ops::restoredrill::drill_repos;
use homelab_core::state::{HostState, ManualCheckRecord, StackState};

fn stack_state(step: Option<&str>) -> StackState {
    StackState {
        vmid: 110,
        hostname: "h".to_string(),
        apps: vec![],
        applied_at: 0,
        last_backup: 0,
        applied_hash: String::new(),
        manifest: None,
        enabled: true,
        native: None,
        natives: vec![],
        incomplete_step: step.map(|s| s.to_string()),
    }
}

fn mount(path: &str, app: Option<&str>) -> MountSpec {
    MountSpec {
        host_path: path.to_string(),
        mount_point: "/data".to_string(),
        host_owner_uid: None,
        app: app.map(|a| a.to_string()),
        no_data: false,
        no_backup: None,
    }
}

fn media() -> StackManifest {
    StackManifest {
        stack_name: "media".to_string(),
        vmid: 110,
        hostname: "110-app-media".to_string(),
        network: NetworkSpec {
            ip: "10.10.10.8/24".to_string(),
            gateway: "10.10.10.1".to_string(),
            bridge: "vmbr0".to_string(),
            vlan: None,
        },
        resources: ResourceSpec { cores: 2, memory_mb: 1024, swap_mb: 0, disk_gb: 8, storage: "local-lvm".to_string() },
        lxc: LxcSpec {
            template: "clone:9000".to_string(),
            unprivileged: true,
            features: String::new(),
            protection: false,
            gpu: false,
            vpn: false,
        },
        boot: BootSpec { onboot: true, order: None },
        storage: vec![
            mount("/appdata/media/jellyfin-config", Some("jellyfin")),
            mount("/appdata/media/sonarr-config", Some("sonarr")),
        ],
        apps: vec!["jellyfin".to_string(), "sonarr".to_string()],
        native_only: false,
        natives: vec![],
        data_mounts: vec![],
        retention: None,
        registry_login: None,
    }
}

#[test]
fn check_ids_are_eight_lowercase_hex_digits() {
    for (s, a, t) in [("media", "jellyfin", "picture ok?"), ("", "", ""), ("paper", "paperless", "ocr ok?")] {
        let id = id_for(s, a, t);
        assert_eq!(id.len(), 8);
        assert!(id.chars().all(|c| c.is_ascii_digit() || ('a'..='f').contains(&c)), "{}", id);
    }
}

#[test]
fn drill_repositories_come_sorted_and_once() {
    let stacks = vec![
        (vec![mount("/a", Some("sonarr")), mount("/b", Some("jellyfin"))], "media".to_string(), vec!["kyu".to_string()]),
        (vec![mount("/c", Some("jellyfin")), mount("/d", None)], "paper".to_string(), vec![]),
    ];
    assert_eq!(
        drill_repos(&stacks),
        vec!["jellyfin".to_string(), "kyu".to_string(), "paper".to_string(), "sonarr".to_string()]
    );
}

#[test]
fn unfinished_deploys_are_reported_in_subject_order() {
    let mut state = HostState::default();
    state.stacks.push(("alpha".to_string(), stack_state(Some("pull"))));
    state.stacks.push(("beta".to_string(), stack_state(None)));
    state.stacks.push(("gamma".to_string(), stack_state(Some("up"))));
    let f = evaluate_incomplete(&state);
    let subjects: Vec<&str> = f.iter().map(|x| x.subject.as_str()).collect();
    assert_eq!(subjects, vec!["alpha", "gamma"]);
}

#[test]
fn a_machine_that_agrees_shows_no_divergence() {
    let mut m = media();
    m.resources.memory_mb = 2048;
    let live = LiveConfig { onboot: Some(true), order: Some(3), memory_mb: None, cores: Some(2) };
    assert!(divergences(&m, &live).is_empty());
    let live = LiveConfig { onboot: Some(false), order: None, memory_mb: Some(1024), cores: Some(4) };
    assert_eq!(divergences(&m, &live).len(), 3);
}

#[test]
fn the_listing_counts_what_was_answered_ok() {
    assert_eq!(render_listing(&[], 0), "no manual checks are registered — deploy a stack that has them");
    let rec = |ok: Option<bool>| ManualCheckRecord {
        stack: "media".to_string(),
        app: "jellyfin".to_string(),
        text: "picture ok?".to_string(),
        registered_at: 0,
        answered_at: ok.map(|_| 10),
        ok,
        note: String::new(),
    };
    let rows = vec![("aaaa0000".to_string(), rec(Some(true))), ("bbbb1111".to_string(), rec(None))];
    let out = render_listing(&rows, 100);
    assert!(out.ends_with("\n1 answered ok, 1 open. Answer one with:\n  homelab checks answer <id> ok|nok [note]\n"), "{}", out);
}

#[test]
fn container_facts_come_from_each_containers_own_replies() {
    let mut m = MockExecutor::new();
    m.enqueue("pct list", CmdOutput::ok("VMID       Status     Lock         Name\n100        running                 gw\n110        running                 media\n120        stopped                 tmpl\n"));
    m.enqueue("pct exec 110", CmdOutput::ok("disk=41\nmem=63\nswap=12\njournal=300\ndockerlogs=20\nguards=1\n"));
    m.enqueue("pct config 110", CmdOutput::ok("onboot: 1\nmemory: 2048\ncores: 2\n"));
    m.enqueue("pct exec 120", CmdOutput::failed(255, "container not running"));
    m.enqueue("pct config 120", CmdOutput::failed(2, "no such container"));
    let inp = FactsInputs {
        watched_backups: vec![],
        kuma_monitors_file: None,
        state_dir: "/var/lib/homelab".to_string(),
        gateway_vmid: 100,
        gateway_routes_dir: "/etc/routes".to_string(),
        no_touch: vec![100],
        prometheus_url: None,
        loki_url: None,
        logs_window: "24h".to_string(),
        grafana_dashboards_dir: None,
        now_unix: 0,
    };
    let (containers, growth, boot) = gather_container_facts(&mut m, &inp);
    assert_eq!(containers, vec![(100, "gw".to_string()), (110, "media".to_string()), (120, "tmpl".to_string())]);
    assert_eq!(growth.len(), 1);
    assert_eq!((growth[0].vmid, growth[0].disk_used_pct, growth[0].mem_used_pct, growth[0].guards), (110, 41, 63, true));
    assert_eq!(boot.len(), 1);
    assert_eq!(boot[0].vmid, 110);
    assert_eq!(boot[0].live, LiveConfig { onboot: Some(true), order: None, memory_mb: Some(2048), cores: Some(2) });
    assert!(m.calls().iter().all(|c| !c.contains(" 100")));
}

#[test]
fn a_reservation_updates_the_one_already_holding_the_address() {
    let cfg = KeaCfg { base_url: "https://10.10.10.1/".to_string(), cred_file: "/etc/kea.cred".to_string() };
    let mut m = MockExecutor::new();
    m.enqueue("search_subnet", CmdOutput::ok("{\"rows\":[{\"subnet\":\"10.10.20.0/24\",\"uuid\":\"u20\"},{\"subnet\":\"10.10.10.0/24\",\"uuid\":\"u10\"}]}"));
    m.enqueue("search_reservation", CmdOutput::ok("{\"rows\":[{\"ip_address\":\"10.10.10.8\",\"uuid\":\"r8\"}]}"));
    m.respond_always("-X POST", CmdOutput::ok("{\"result\":\"saved\"}"));
    assert!(reserve(&mut m, &cfg, "10.10.10.8", "BC:24:11:AA:BB:CC", "108-app-sync").is_ok());
    let calls = m.calls();
    assert_eq!(calls.len(), 4);
    assert!(calls[0].ends_with("-X GET https://10.10.10.1/api/kea/dhcpv4/search_subnet"), "{}", calls[0]);
    assert!(calls[2].contains("https://10.10.10.1/api/kea/dhcpv4/set_reservation/r8"));
    assert!(calls[2].contains("\"subnet\":\"u10\""));
    assert!(calls[3].ends_with("-X POST -H 'Content-Type: application/json' -d '{}' https://10.10.10.1/api/kea/service/reconfigure"));
}

#[test]
fn a_reservation_with_a_shell_character_asks_nothing() {
    let cfg = KeaCfg { base_url: "https://10.10.10.1".to_string(), cred_file: "/etc/kea.cred".to_string() };
    let mut m = MockExecutor::new();
    assert!(reserve(&mut m, &cfg, "10.10.10.8", "BC:24:11:AA:BB:CC", "host$(reboot)").is_err());
    assert!(m.calls().is_empty());
    let mut m = MockExecutor::new();
    m.enqueue("search_subnet", CmdOutput::ok("not json"));
    match reserve(&mut m, &cfg, "10.10.10.8", "BC:24:11:AA:BB:CC", "sync") {
        Err(homelab_core::error::CoreError::Other(msg)) => assert!(msg.starts_with("opnsense /api/kea/dhcpv4/search_subnet: bad json: "), "{}", msg),
        other => panic!("unexpected {:?}", other),
    }
}

#[test]
fn an_incident_bundle_lands_under_the_state_directory() {
    let report = homelab_core::runner::Runner::new("deploy-media", homelab_core::sink::NullSink, homelab_core::runner::NullJournal)
        .finish_err("pull", &homelab_core::error::CoreError::Other("registry down".to_string()))
        .0;
    let mut m = MockExecutor::new();
    let dir = homelab_core::incidents::write_bundle(&mut m, "/var/lib/homelab", 1_700_000_000, &report, "{}", &[], "", "v1").unwrap();
    assert_eq!(dir, "/var/lib/homelab/incidents/1700000000-deploy-media");
    let calls = m.calls();
    assert_eq!(calls[0], "write_file /var/lib/homelab/incidents/1700000000-deploy-media/report.json (mode 644)");
    assert_eq!(calls[2], "write_file /var/lib/homelab/incidents/1700000000-deploy-media/commands.sh (mode 755)");
    assert_eq!(calls.last().unwrap(), "write_file /var/lib/homelab/incidents/1700000000-deploy-media/versions.txt (mode 644)");
}

#[test]
fn only_a_full_disk_is_broken_and_every_finding_names_its_container() {
    let lim = GrowthLimits::default();
    let g = GrowthFact {
        vmid: 110,
        hostname: "media".to_string(),
        disk_used_pct: 99,
        mem_used_pct: 99,
        swap_used_mb: 100_000,
        journal_mb: 100_000,
        docker_logs_mb: 100_000,
        guards: false,
    };
    let f = evaluate_growth(&[g.clone()], lim, None);
    assert_eq!(f.len(), 6);
    assert!(matches!(f[0].severity, Severity::Broken));
    assert!(f[1..].iter().all(|x| matches!(x.severity, Severity::Drift)));
    assert!(f.iter().all(|x| x.subject == "media (CT 110)"));
    let quiet = GrowthFact { disk_used_pct: 1, mem_used_pct: 1, swap_used_mb: 0, journal_mb: 0, docker_logs_mb: 0, guards: true, ..g };
    assert!(evaluate_growth(&[quiet], lim, None).is_empty());
}

#[test]
fn live_facts_read_the_seed_file_beside_the_monitor_list() {
    let mut m = MockExecutor::new();
    m.seed_file("/etc/kuma/last-seed.json", "{\"stale\":[\"a\",3,\"b\"],\"at\":100,\"judged\":true}");
    m.enqueue("free -m", CmdOutput::ok("2048\n10 100\n512\n256\n"));
    m.enqueue("pct list", CmdOutput::ok("VMID       Status     Lock         Name\n100        running                 gw\n"));
    let inp = FactsInputs {
        watched_backups: vec![],
        kuma_monitors_file: Some("/etc/kuma/monitors.json".to_string()),
        state_dir: "/var/lib/homelab".to_string(),
        gateway_vmid: 100,
        gateway_routes_dir: "/etc/routes".to_string(),
        no_touch: vec![100],
        prometheus_url: None,
        loki_url: None,
        logs_window: "24h".to_string(),
        grafana_dashboards_dir: None,
        now_unix: 160,
    };
    let (facts, notes) = gather_live_facts(&mut m, &inp, None, &[("media".to_string(), 110)]);
    assert!(notes.is_empty());
    assert_eq!(facts.seed.stale, vec!["a".to_string(), "b".to_string()]);
    assert_eq!(facts.seed.age_s, Some(60));
    assert!(facts.seed.judged);
    assert_eq!(facts.seed.error, None);
    assert_eq!(facts.host_memory, Some((2048, 768, 10, 100)));
    assert_eq!(facts.containers, vec![(100, "gw".to_string())]);
    assert!(facts.growth.is_empty() && facts.boot.is_empty() && facts.coverage.is_empty());
    assert_eq!(facts.stack_files, vec![("media".to_string(), 110)]);
}

#[test]
fn a_seed_file_that_is_not_json_is_an_error_not_a_verdict() {
    let s = seed_from("/x/last-seed.json", Ok("nope".to_string()), 5);
    assert!(s.error.unwrap().starts_with("/x/last-seed.json is not JSON: "));
    assert!(!s.judged && s.stale.is_empty() && s.age_s.is_none());
    let s = seed_from("/x/last-seed.json", Err(homelab_core::error::CoreError::State("gone".to_string())), 5);
    assert_eq!(s.error, Some("/x/last-seed.json: state error: gone".to_string()));
    let s = seed_from("/x/last-seed.json", Ok("{\"at\":9}".to_string()), 5);
    assert_eq!((s.age_s, s.judged, s.error.is_none()), (Some(0), false, true));
}
