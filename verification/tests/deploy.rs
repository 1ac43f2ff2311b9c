use homelab_core::executor::CmdOutput;
use homelab_core::manifest::{
    BootSpec, DataMount, FileBlob, LxcSpec, MountSpec, NetworkSpec, ResourceSpec, StackManifest,
};
use homelab_core::ops::deploy::{
    before_anything_changes, commit_was_noop, config_effect, hash_problems, is_protected,
    mark_incomplete, missing_mounts, mount_wants, net0, orphan_paths, probe_unrunnable,
    record_applied, removed_apps, snapshot_usable, systemd_settled, template_is_unprivileged,
    vault_key, ConfigEffect,
};
use homelab_core::state::HostState;

fn network() -> NetworkSpec {
    NetworkSpec {
        ip: "10.10.10.8/24".to_string(),
        gateway: "10.10.10.1".to_string(),
        bridge: "vmbr0".to_string(),
        vlan: Some(10),
    }
}

fn manifest(name: &str, vmid: u16) -> StackManifest {
    StackManifest {
        stack_name: name.to_string(),
        vmid,
        hostname: format!("{}-app-{}", vmid, name),
        network: network(),
        resources: ResourceSpec {
            cores: 2,
            memory_mb: 2048,
            swap_mb: 512,
            disk_gb: 8,
            storage: "local-lvm".to_string(),
        },
        lxc: LxcSpec {
            template: "clone:9000".to_string(),
            unprivileged: true,
            features: "nesting=1,keyctl=1".to_string(),
            protection: false,
            gpu: false,
            vpn: false,
        },
        boot: BootSpec { onboot: true, order: None },
        storage: vec![MountSpec {
            host_path: format!("/appdata/{}/app-config", name),
            mount_point: "/config".to_string(),
            host_owner_uid: None,
            app: Some("app".to_string()),
            no_data: false,
            no_backup: None,
        }],
        apps: vec!["app".to_string(), "db".to_string()],
        native_only: false,
        natives: vec![],
        data_mounts: vec![DataMount {
            host_path: "/tank/media".to_string(),
            mount_point: "/media".to_string(),
            note: None,
        }],
        retention: None,
        registry_login: None,
    }
}

#[test]
fn steps_before_anything_changes_record_nothing() {
    assert!(before_anything_changes("validate"));
    assert!(before_anything_changes("safety gates"));
    assert!(before_anything_changes("registry cache"));
    assert!(before_anything_changes("hardware readiness"));
    assert!(!before_anything_changes("host storage"));
    assert!(!before_anything_changes("push files"));

    let mut state = HostState::default();
    mark_incomplete(&mut state, manifest("media", 110), "validate", 5);
    assert!(state.stacks.is_empty());
}

#[test]
fn an_unknown_stack_stopped_part_way_gets_a_minimal_record() {
    let mut state = HostState::default();
    mark_incomplete(&mut state, manifest("media", 110), "push files", 1234);
    assert_eq!(state.stacks.len(), 1);
    let (name, rec) = &state.stacks[0];
    assert_eq!(name, "media");
    assert_eq!(rec.vmid, 110);
    assert_eq!(rec.hostname, "110-app-media");
    assert_eq!(rec.apps, vec!["app".to_string(), "db".to_string()]);
    assert_eq!(rec.applied_at, 1234);
    assert_eq!(rec.last_backup, 0);
    assert!(rec.enabled);
    assert!(rec.manifest.is_some());
    assert_eq!(rec.incomplete_step.as_deref(), Some("push files"));
}

#[test]
fn a_finished_deploy_keeps_what_it_does_not_own() {
    let mut state = HostState::default();
    record_applied(&mut state, manifest("media", 110), 100, "h1".to_string(), Some(77));
    assert_eq!(state.stacks[0].1.last_backup, 77);
    // Parked by the operator, backed up since.
    state.stacks[0].1.enabled = false;
    state.stacks[0].1.last_backup = 500;
    // A deploy that stops part-way only marks the record.
    mark_incomplete(&mut state, manifest("media", 110), "start apps", 200);
    let rec = &state.stacks[0].1;
    assert_eq!(rec.applied_at, 100);
    assert_eq!(rec.applied_hash, "h1");
    assert_eq!(rec.incomplete_step.as_deref(), Some("start apps"));
    // The next deploy finishes: the repository's answer is not asked for.
    record_applied(&mut state, manifest("media", 110), 300, "h2".to_string(), Some(1));
    let rec = &state.stacks[0].1;
    assert_eq!(rec.last_backup, 500);
    assert!(!rec.enabled);
    assert_eq!(rec.applied_at, 300);
    assert_eq!(rec.applied_hash, "h2");
    assert!(rec.incomplete_step.is_none());
}

#[test]
fn records_stay_in_name_order() {
    let mut state = HostState::default();
    record_applied(&mut state, manifest("media", 110), 1, String::new(), None);
    record_applied(&mut state, manifest("auth", 111), 1, String::new(), None);
    mark_incomplete(&mut state, manifest("gateway", 104), "push files", 1);
    let names: Vec<&str> = state.stacks.iter().map(|(n, _)| n.as_str()).collect();
    assert_eq!(names, vec!["auth", "gateway", "media"]);
}

#[test]
fn vault_keys_are_flat() {
    assert_eq!(vault_key("/appdata/kyu/kyu-config/kyu.env"), "kyu.env");
    assert_eq!(vault_key("plain"), "plain");
}

#[test]
fn protection_and_template_privilege_are_read_from_the_config() {
    assert!(is_protected("arch: amd64\nprotection: 1\nswap: 512\n"));
    assert!(!is_protected("arch: amd64\nprotection: 0\n"));
    assert!(template_is_unprivileged("ostype: debian\nunprivileged: 1\n"));
    assert!(!template_is_unprivileged("ostype: debian\nunprivileged: 0\n"));
    assert!(!template_is_unprivileged("ostype: debian\n"));
}

#[test]
fn network_argument() {
    assert_eq!(
        net0(&network()),
        "name=eth0,bridge=vmbr0,firewall=0,ip=10.10.10.8/24,gw=10.10.10.1,tag=10"
    );
    let mut n = network();
    n.vlan = None;
    assert_eq!(net0(&n), "name=eth0,bridge=vmbr0,firewall=0,ip=10.10.10.8/24,gw=10.10.10.1");
}

#[test]
fn mounts_are_numbered_storage_first_and_missing_ones_found() {
    let m = manifest("media", 110);
    let wants = mount_wants(&m);
    assert_eq!(
        wants,
        vec![
            ("-mp0".to_string(), "/appdata/media/app-config,mp=/config".to_string()),
            ("-mp1".to_string(), "/tank/media,mp=/media".to_string()),
        ]
    );
    let cfg = "hostname: 110-app-media\nmp0: /appdata/media/app-config,mp=/config\n";
    let missing = missing_mounts(&wants, cfg);
    assert_eq!(missing, vec![("-mp1".to_string(), "/tank/media,mp=/media".to_string())]);
    assert!(missing_mounts(&wants, "mp0: /appdata/media/app-config,mp=/config\n  mp1: /tank/media,mp=/media  \n").is_empty());
}

#[test]
fn restic_listings_and_systemd_states() {
    assert!(snapshot_usable(&CmdOutput::ok("[{\"id\":\"x\"}]")));
    assert!(!snapshot_usable(&CmdOutput::ok(" [] \n")));
    assert!(!snapshot_usable(&CmdOutput::ok("")));
    assert!(!snapshot_usable(&CmdOutput::failed(1, "no repo")));
    assert!(systemd_settled("running\n"));
    assert!(systemd_settled("degraded"));
    assert!(!systemd_settled("starting"));
}

#[test]
fn only_a_benign_commit_failure_passes() {
    let mut out = CmdOutput::failed(1, "");
    out.stdout = "On branch master\nnothing to commit, working tree clean\n".to_string();
    assert!(commit_was_noop(&out));
    assert!(!commit_was_noop(&CmdOutput::failed(128, "fatal: detected dubious ownership")));
}

#[test]
fn probes_that_cannot_run() {
    assert!(probe_unrunnable("OCI runtime exec failed: exec: \"sh\": executable file not found"));
    assert!(!probe_unrunnable("touch: cannot touch '/data/x': Permission denied"));
}

#[test]
fn orphans_are_what_the_repository_did_not_send() {
    let files = vec![
        FileBlob { path: "app/docker-compose.yml".to_string(), content: String::new(), mode: None },
        FileBlob { path: "app/config.yml".to_string(), content: String::new(), mode: None },
    ];
    let listing = "app/docker-compose.yml\napp/old.yml\n\napp/.env\n  db/stale.conf \n";
    assert_eq!(orphan_paths(listing, &files), vec!["app/old.yml".to_string(), "db/stale.conf".to_string()]);
}

#[test]
fn pushed_files_are_checked_by_hash() {
    let want = vec![
        ("/opt/s/a/x.yml".to_string(), "aaa".to_string()),
        ("/opt/s/a/y.yml".to_string(), "bbb".to_string()),
        ("/opt/s/a/z.yml".to_string(), "ccc".to_string()),
    ];
    let out = "aaa  /opt/s/a/x.yml\nzzz  /opt/s/a/y.yml\nsha256sum: /opt/s/a/q: No such file\n";
    assert_eq!(
        hash_problems(&want, out),
        vec![
            "/opt/s/a/y.yml has different content".to_string(),
            "/opt/s/a/z.yml is not there".to_string(),
        ]
    );
}

#[test]
fn what_a_changed_file_means_for_its_app() {
    assert!(matches!(config_effect("app/docker-compose.yml"), ConfigEffect::Recreated(a) if a == "app"));
    assert!(matches!(config_effect("app/conf/x.yml"), ConfigEffect::NeedsRestart(a) if a == "app"));
    assert!(matches!(config_effect("README"), ConfigEffect::Nothing));
}

#[test]
fn removed_apps_are_the_ones_no_longer_wanted() {
    let prior = vec!["a".to_string(), "b".to_string(), "c".to_string()];
    let now = vec!["c".to_string(), "a".to_string()];
    assert_eq!(removed_apps(&prior, &now), vec!["b".to_string()]);
}
