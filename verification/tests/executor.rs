use homelab_core::error::CoreError;
use homelab_core::executor::{
    pct_sh, pct_sh_cmd, require_success, run_ok, Cmd, CmdOutput, Executor, MockExecutor, TracingExecutor,
};
use homelab_core::ops::util::{hash_probe, push_content, staging_path, unchanged_on_target, write_file_owned_like_dir};
use homelab_core::sink::VecSink;

#[test]
fn commands_render_as_one_line() {
    let c = Cmd::new("pct", &["exec", "110", "--", "true"], 30);
    assert_eq!(c.rendered(), "pct exec 110 -- true");
    let p = pct_sh_cmd(110, "echo hi", 20);
    assert_eq!(p.rendered(), "pct exec 110 -- sh -c echo hi");
    assert_eq!(p.timeout_s, 20);
}

#[test]
fn success_is_required_only_where_asked() {
    let c = Cmd::new("git", &["commit"], 30);
    assert!(require_success(&c, CmdOutput::ok("done")).is_ok());
    match require_success(&c, CmdOutput::failed(128, "  fatal: no\n")) {
        Err(CoreError::Command { rendered, detail }) => {
            assert_eq!(rendered, "git commit");
            assert_eq!(detail, "rc=128 :: fatal: no");
        }
        other => panic!("unexpected {:?}", other),
    }
    match require_success(&c, CmdOutput::failed(-1, "")) {
        Err(CoreError::Command { detail, .. }) => assert_eq!(detail, "rc=-1 :: "),
        other => panic!("unexpected {:?}", other),
    }
    let mut exec = MockExecutor::new();
    exec.enqueue("false", CmdOutput::failed(1, "nope"));
    assert!(run_ok(&mut exec, &Cmd::new("false", &[], 5)).is_err());
    assert!(run_ok(&mut exec, &Cmd::new("true", &[], 5)).is_ok());
    assert!(pct_sh(&mut exec, 110, "ls", 5).is_ok());
    assert_eq!(
        exec.calls(),
        vec!["false ".to_string(), "true ".to_string(), "pct exec 110 -- sh -c ls".to_string()]
    );
}

#[test]
fn a_trace_shows_the_command_and_twenty_non_blank_lines() {
    let mut mock = MockExecutor::new();
    let mut out = String::new();
    for i in 0..25 {
        out.push_str(&format!("line {}\n", i));
        if i == 2 {
            out.push_str("   \n");
        }
    }
    mock.enqueue("noisy", CmdOutput::ok(&out));
    let mut t = TracingExecutor::new(mock, VecSink::new());
    let got = t.run(&Cmd::new("noisy", &["--all"], 5)).unwrap();
    assert_eq!(got.stdout, out);
    let (_, sink) = t.into_parts();
    let lines = sink.lines();
    assert_eq!(lines[0], "[run ] noisy --all");
    // Twenty lines were looked at, one of them blank.
    assert_eq!(lines.len(), 1 + 19);
    assert_eq!(lines[1], "  line 0");
    assert_eq!(lines[19], "  line 18");
}

#[test]
fn a_trace_passes_files_through_untouched() {
    let mock = MockExecutor::new();
    let mut t = TracingExecutor::new(mock, VecSink::new());
    t.write_file("/etc/x", "body", 0o600).unwrap();
    assert_eq!(t.read_file("/etc/x").unwrap(), "body");
    t.sleep_ms(10_000);
    let (mock, sink) = t.into_parts();
    assert!(sink.lines().is_empty());
    assert_eq!(mock.file("/etc/x"), Some("body".to_string()));
    assert_eq!(mock.file_mode("/etc/x"), Some(0o600));
}

#[test]
fn the_mock_reads_what_it_wrote() {
    let mut m = MockExecutor::new();
    match Executor::read_file(&mut m, "/nope") {
        Err(CoreError::State(msg)) => assert_eq!(msg, "no such file: /nope"),
        other => panic!("unexpected {:?}", other),
    }
    Executor::write_file(&mut m, "/a", "x", 0o644).unwrap();
    assert_eq!(Executor::read_file(&mut m, "/a").unwrap(), "x");
    assert_eq!(m.calls(), vec!["write_file /a (mode 644)".to_string()]);
}

#[test]
fn pushes_stage_by_destination_and_compare_by_hash() {
    let p = staging_path(110, "/opt/media/app/docker-compose.yml");
    assert!(p.starts_with("/var/lib/homelab/push-staging-110-"));
    assert_eq!(p.len(), "/var/lib/homelab/push-staging-110-".len() + 16);
    assert_eq!(p, staging_path(110, "/opt/media/app/docker-compose.yml"));
    assert_ne!(p, staging_path(110, "/opt/media/app/other.yml"));
    // sha256("abc")
    let abc = "ba7816bf8f01cfea414140de5dae2223b00361a396177a9cb410ff61f20015ad";
    assert!(unchanged_on_target(&format!("{}\n", abc), "abc"));
    assert!(!unchanged_on_target(abc, "abd"));
    assert!(!unchanged_on_target("", ""));
    assert_eq!(hash_probe("/x y"), "sha256sum '/x y' 2>/dev/null | cut -d' ' -f1 || true");
}

#[test]
fn a_push_creates_the_directory_stages_and_cleans_up() {
    let mut m = MockExecutor::new();
    assert!(push_content(&mut m, 110, "/opt/media/app/compose.yml", "x: 1\n", "644").unwrap());
    let staging = staging_path(110, "/opt/media/app/compose.yml");
    let calls = m.calls();
    assert_eq!(calls.len(), 5);
    assert!(calls[0].starts_with("pct exec 110 -- sh -c sha256sum '/opt/media/app/compose.yml'"));
    assert_eq!(calls[1], "pct exec 110 -- mkdir -p /opt/media/app");
    assert_eq!(calls[2], format!("write_file {} (mode 600)", staging));
    assert_eq!(calls[3], format!("pct push 110 {} /opt/media/app/compose.yml --perms 644", staging));
    assert_eq!(calls[4], format!("rm -f {}", staging));
}

#[test]
fn a_host_file_takes_its_directory_owner() {
    let mut m = MockExecutor::new();
    write_file_owned_like_dir(&mut m, "/appdata/home/services.yaml", "a: 1\n", 0o644).unwrap();
    assert_eq!(
        m.calls(),
        vec![
            "write_file /appdata/home/services.yaml (mode 644)".to_string(),
            "chown --reference /appdata/home /appdata/home/services.yaml".to_string(),
        ]
    );
}
