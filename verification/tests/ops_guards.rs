use homelab_core::error::CoreError;
use homelab_core::executor::{CmdOutput, MockExecutor};
use homelab_core::ops::destroy::{destroy_allowed, expected_hostname, forget_stack, hostname_guard, route_path};
use homelab_core::ops::enable::{onboot_value, op_name, persist_enabled};
use homelab_core::ops::resize::{conf_disk_gb, conf_u32, disk_plan, ram_cores_plan};
use homelab_core::ops::template::{claim_temp_vmid, template_name, TemplateCfg};
use homelab_core::ops::{guard_config, guard_no_touch, guard_target};
use homelab_core::safety::SafetyConfig;
use homelab_core::state::{HostState, StackState};

fn abort_text(e: CoreError) -> String {
    match e {
        CoreError::SafetyAbort(m) => m,
        other => panic!("expected a safety abort, got {:?}", other),
    }
}

fn stack(vmid: u16) -> StackState {
    StackState {
        vmid,
        hostname: format!("{}-app-x", vmid),
        apps: vec![],
        applied_at: 0,
        last_backup: 0,
        applied_hash: String::new(),
        manifest: None,
        enabled: true,
        native: None,
        natives: vec![],
        incomplete_step: None,
    }
}

#[test]
fn the_no_touch_list_refuses_before_any_command() {
    let safety = SafetyConfig::default();
    assert_eq!(abort_text(guard_no_touch(&safety, 104).unwrap_err()), "vmid 104 is on the no-touch list");
    assert!(guard_no_touch(&safety, 110).is_ok());
    let mut exec = MockExecutor::new();
    assert!(guard_target(&mut exec, &safety, 105, "105-app-x").is_err());
    assert!(exec.calls().is_empty());
}

#[test]
fn the_hostname_must_be_the_expected_one() {
    assert!(guard_config(110, "110-app-media", &CmdOutput::ok("arch: amd64\nhostname: 110-app-media\n")).is_ok());
    assert_eq!(
        abort_text(guard_config(110, "110-app-media", &CmdOutput::ok("hostname: something-else\n")).unwrap_err()),
        "vmid 110 is 'something-else', expected '110-app-media' — refusing"
    );
    match guard_config(110, "110-app-media", &CmdOutput::failed(2, "no such")) {
        Err(CoreError::Other(m)) => assert_eq!(m, "vmid 110 does not exist"),
        other => panic!("unexpected {:?}", other),
    }
    let mut exec = MockExecutor::new();
    exec.enqueue("pct config 110", CmdOutput::ok("hostname: 110-app-media\n"));
    assert!(guard_target(&mut exec, &SafetyConfig::default(), 110, "110-app-media").is_ok());
    assert_eq!(exec.calls(), vec!["pct config 110".to_string()]);
}

#[test]
fn destroy_is_gated() {
    let safety = SafetyConfig::default();
    assert_eq!(expected_hostname(110, "media"), "110-app-media");
    assert_eq!(
        abort_text(destroy_allowed(&safety, "media", 110, "medai").unwrap_err()),
        "typed name 'medai' does not match stack 'media'"
    );
    assert_eq!(
        abort_text(destroy_allowed(&safety, "media", 104, "media").unwrap_err()),
        "vmid 104 is on the no-touch list — never destroyed"
    );
    assert!(destroy_allowed(&safety, "media", 110, "media").is_ok());
    assert_eq!(
        abort_text(hostname_guard(110, "110-app-media", &CmdOutput::failed(2, "")).unwrap_err()),
        "vmid 110 does not exist — nothing to destroy"
    );
    assert_eq!(
        abort_text(hostname_guard(110, "110-app-media", &CmdOutput::ok("hostname: other\n")).unwrap_err()),
        "vmid 110 has hostname 'other', expected '110-app-media' — refusing to destroy"
    );
    assert_eq!(route_path("/opt/routes", 110, "media"), "/opt/routes/110-app-media.yml");
}

#[test]
fn forgetting_a_stack_removes_only_it() {
    let mut s = HostState::default();
    s.stacks.push(("a".to_string(), stack(1)));
    s.stacks.push(("b".to_string(), stack(2)));
    s.stacks.push(("c".to_string(), stack(3)));
    forget_stack(&mut s, "b");
    let names: Vec<&str> = s.stacks.iter().map(|(n, _)| n.as_str()).collect();
    assert_eq!(names, vec!["a", "c"]);
    forget_stack(&mut s, "zzz");
    assert_eq!(s.stacks.len(), 2);
}

#[test]
fn parking_a_stack() {
    assert_eq!(op_name("media", true), "enable-media");
    assert_eq!(op_name("media", false), "disable-media");
    assert_eq!(onboot_value(true, true), "1");
    assert_eq!(onboot_value(true, false), "0");
    assert_eq!(onboot_value(false, true), "0");
    let mut s = HostState::default();
    s.stacks.push(("media".to_string(), stack(110)));
    assert_eq!(persist_enabled(&mut s, "media", false).unwrap(), true);
    assert!(!s.stacks[0].1.enabled);
    assert_eq!(persist_enabled(&mut s, "media", false).unwrap(), false);
    match persist_enabled(&mut s, "gone", true) {
        Err(CoreError::Other(m)) => assert_eq!(m, "stack 'gone' vanished from host state"),
        other => panic!("unexpected {:?}", other),
    }
}

#[test]
fn resize_reads_the_config_and_refuses_shrinks() {
    let cfg = "cores: 2\nmemory: 2048\nrootfs: local-lvm:vm-110-disk-0,size=8G\nswap: 512\n";
    assert_eq!(conf_u32(cfg, "memory"), Some(2048));
    assert_eq!(conf_u32(cfg, "cores"), Some(2));
    assert_eq!(conf_u32(cfg, "nothing"), None);
    assert_eq!(conf_disk_gb(cfg), Some(8));
    assert_eq!(conf_disk_gb("rootfs: local-lvm:vm-1-disk-0\n"), None);
    assert_eq!(ram_cores_plan(true, 2048, 2, 4096, 4).unwrap(), true);
    assert_eq!(ram_cores_plan(true, 2048, 2, 2048, 2).unwrap(), false);
    assert_eq!(
        abort_text(ram_cores_plan(true, 4096, 4, 2048, 4).unwrap_err()),
        "shrink refused while running (4096→2048 MiB, 4→4 cores) — stop the container first or redeploy"
    );
    assert_eq!(ram_cores_plan(false, 4096, 4, 2048, 2).unwrap(), true);
    assert_eq!(disk_plan(8, 16).unwrap(), true);
    assert_eq!(disk_plan(8, 8).unwrap(), false);
    assert_eq!(disk_plan(0, 16).unwrap(), false);
    assert_eq!(
        abort_text(disk_plan(16, 8).unwrap_err()),
        "disk shrink refused (16G → 8G) — never safe on a live filesystem"
    );
}

#[test]
fn the_template_builder_claims_only_a_free_vmid() {
    let cfg = TemplateCfg::default();
    assert_eq!(template_name(&cfg), "debian-12-homelab-v1");
    let mut priv_cfg = TemplateCfg::default();
    priv_cfg.unprivileged = false;
    priv_cfg.version = 3;
    assert_eq!(template_name(&priv_cfg), "debian-12-homelab-v3-priv");
    let safety = SafetyConfig::default();
    assert!(claim_temp_vmid(&safety, 999, None).is_ok());
    assert!(claim_temp_vmid(&safety, 999, Some(&CmdOutput::failed(2, "does not exist"))).is_ok());
    assert_eq!(
        abort_text(claim_temp_vmid(&safety, 999, Some(&CmdOutput::ok("hostname: x"))).unwrap_err()),
        "vmid 999 already exists — refusing to build over it"
    );
    assert_eq!(
        abort_text(claim_temp_vmid(&safety, 101, None).unwrap_err()),
        "temp vmid 101 is on the no-touch list"
    );
}
