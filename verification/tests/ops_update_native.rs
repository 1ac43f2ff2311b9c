use homelab_core::error::CoreError;
use homelab_core::manifest::{BootSpec, LxcSpec, NetworkSpec, ResourceSpec, StackManifest};
use homelab_core::native::NativeServiceManifest;
use homelab_core::ops::native::{
    activation_failed, check_unit_file, merged_tags, record_adopted, service_verdict,
};
use homelab_core::ops::update::{
    app_running, parse_captured, policy_allows, rollback_script, select_apps, verify_failed,
};
use homelab_core::state::HostState;

fn manifest() -> StackManifest {
    StackManifest {
        stack_name: "media".to_string(),
        vmid: 110,
        hostname: "110-app-media".to_string(),
        network: NetworkSpec {
            ip: "10.10.10.8/24".to_string(),
            gateway: "10.10.10.1".to_string(),
            bridge: "vmbr0".to_string(),
            vlan: None,
        },
        resources: ResourceSpec { cores: 2, memory_mb: 1024, swap_mb: 0, disk_gb: 8, storage: "local-lvm".to_string() },
        lxc: LxcSpec {
            template: "clone:9000".to_string(),
            unprivileged: true,
            features: String::new(),
            protection: false,
            gpu: false,
            vpn: false,
        },
        boot: BootSpec { onboot: true, order: None },
        storage: vec![],
        apps: vec!["jellyfin".to_string(), "sonarr".to_string()],
        native_only: false,
        natives: vec![],
        data_mounts: vec![],
        retention: None,
        registry_login: None,
    }
}

fn native(unit: &str, vmid: u16) -> NativeServiceManifest {
    NativeServiceManifest {
        stack_name: "kyu".to_string(),
        vmid,
        hostname: format!("{}-app-kyu", vmid),
        unit: unit.to_string(),
        binary: format!("/usr/local/bin/{}", unit),
        env_file: Some(format!("/etc/{}.env", unit)),
        data_dirs: vec![format!("/var/lib/{}", unit)],
        update_cmd: None,
        stateless: false,
        release_repo: None,
        release_asset: None,
    }
}

#[test]
fn update_selects_apps() {
    let m = manifest();
    assert_eq!(select_apps(&m, None).unwrap(), vec!["jellyfin".to_string(), "sonarr".to_string()]);
    assert_eq!(select_apps(&m, Some("sonarr")).unwrap(), vec!["sonarr".to_string()]);
    match select_apps(&m, Some("radarr")) {
        Err(CoreError::Other(msg)) => assert_eq!(msg, "app 'radarr' is not part of stack media"),
        other => panic!("unexpected {:?}", other),
    }
}

#[test]
fn update_reads_images_policy_and_health() {
    let c = parse_captured("sha256:aaa ghcr.io/x/app:1.2\n\nsha256:bbb\nsha256:ccc redis:7 extra\n");
    assert_eq!(c.len(), 2);
    assert_eq!((c[0].image_id.as_str(), c[0].repo_tag.as_str()), ("sha256:aaa", "ghcr.io/x/app:1.2"));
    assert_eq!((c[1].image_id.as_str(), c[1].repo_tag.as_str()), ("sha256:ccc", "redis:7"));
    assert_eq!(
        rollback_script("media", "jellyfin", &c),
        "cd '/opt/media/jellyfin' && docker tag sha256:aaa ghcr.io/x/app:1.2 && docker tag sha256:ccc redis:7 && docker compose up -d --force-recreate"
    );
    assert!(policy_allows(false, ""));
    assert!(policy_allows(true, "auto\n"));
    assert!(!policy_allows(true, "manual"));
    assert!(app_running("jellyfin\n"));
    assert!(!app_running("  \n"));
    match verify_failed("jellyfin", true, true) {
        CoreError::Other(m) => assert!(m.starts_with("jellyfin unhealthy after update — ROLLED BACK")),
        other => panic!("unexpected {:?}", other),
    }
    match verify_failed("jellyfin", false, false) {
        CoreError::Other(m) => assert_eq!(m, "jellyfin unhealthy after update and no captured image to roll back to"),
        other => panic!("unexpected {:?}", other),
    }
}

#[test]
fn adoption_checks_the_running_service() {
    let n = native("kyu", 109);
    let show = "ExecStart={ path=/usr/local/bin/kyu ; argv[]=/usr/local/bin/kyu }\nEnvironmentFiles=/etc/kyu.env (ignore_errors=no)\n";
    assert!(service_verdict(&n, "active\n", show).is_ok());
    match service_verdict(&n, "inactive\n", show) {
        Err(CoreError::SafetyAbort(m)) => assert_eq!(
            m,
            "unit kyu.service is not active ('inactive') — adoption never starts services; start it yourself and re-run"
        ),
        other => panic!("unexpected {:?}", other),
    }
    match service_verdict(&n, "active", "ExecStart=/usr/bin/other\n") {
        Err(CoreError::SafetyAbort(m)) => assert!(m.starts_with("unit kyu.service does not exec '/usr/local/bin/kyu'")),
        other => panic!("unexpected {:?}", other),
    }
    match service_verdict(&n, "active", "ExecStart=/usr/local/bin/kyu\n") {
        Err(CoreError::SafetyAbort(m)) => assert_eq!(
            m,
            "unit kyu.service does not read EnvironmentFile /etc/kyu.env — fix the stack file to match reality"
        ),
        other => panic!("unexpected {:?}", other),
    }
}

#[test]
fn adoption_tags_the_container_once() {
    assert_eq!(merged_tags("arch: amd64\ntags: media; prod\n"), Some("media;prod;homelab".to_string()));
    assert_eq!(merged_tags("arch: amd64\n"), Some("homelab".to_string()));
    assert_eq!(merged_tags("tags: homelab;x\n"), None);
}

#[test]
fn adoption_records_the_service_and_refuses_a_repoint() {
    let mut s = HostState::default();
    record_adopted(&mut s, native("kyu", 109), 10).unwrap();
    record_adopted(&mut s, native("kyu-runner", 109), 11).unwrap();
    record_adopted(&mut s, native("kyu", 109), 12).unwrap();
    let rec = &s.stacks[0].1;
    assert_eq!(s.stacks.len(), 1);
    assert_eq!(rec.natives.len(), 2);
    assert_eq!(rec.apps, vec!["kyu".to_string(), "kyu-runner".to_string()]);
    assert_eq!(rec.applied_at, 12);
    match record_adopted(&mut s, native("kyu", 120), 13) {
        Err(CoreError::SafetyAbort(m)) => assert_eq!(m, "stack 'kyu' already exists on vmid 109 — refusing to re-point it to 120"),
        other => panic!("unexpected {:?}", other),
    }
    assert_eq!(s.stacks[0].1.vmid, 109);
}

#[test]
fn install_checks_the_unit_file_and_reports_failures() {
    let n = native("kyu", 109);
    assert!(check_unit_file(&n, "[Service]\nExecStart=/usr/local/bin/kyu\n").is_ok());
    assert!(matches!(check_unit_file(&n, "  \n"), Err(CoreError::Validation(_))));
    assert!(matches!(check_unit_file(&n, "[Service]\nExecStart=/bin/true\n"), Err(CoreError::Validation(_))));
    match activation_failed("kyu", true, "", false) {
        CoreError::Other(m) => assert_eq!(
            m,
            "the installed kyu did not come up healthy — rolled back to the previous binary (ROLLBACK ALSO FAILED — service needs hands NOW)"
        ),
        other => panic!("unexpected {:?}", other),
    }
    match activation_failed("kyu", false, " boom \n", false) {
        CoreError::Other(m) => assert!(m.ends_with("Last log lines: boom")),
        other => panic!("unexpected {:?}", other),
    }
}
