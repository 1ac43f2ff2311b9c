use homelab_core::digest::sha256_hex;
use homelab_core::executor::{CmdOutput, MockExecutor};
use homelab_core::ops::guards::{apply, daemon_json, DOCKER_DAEMON_JSON, JOURNALD_LIMITS};
use homelab_core::ops::registry_cache::{CacheCfg, CacheUpstream};
use homelab_core::sink::VecSink;

#[test]
fn a_container_without_docker_gets_no_docker_guard() {
    let mut m = MockExecutor::new();
    let mut sink = VecSink::new();
    apply(&mut m, &mut sink, 109, false, None).unwrap();
    assert!(m.calls_containing("docker").is_empty());
    assert!(m.calls_containing("cadvisor").is_empty());
    let calls = m.calls();
    assert_eq!(calls.last().unwrap(), "pct exec 109 -- sh -c apt-get clean");
    assert!(calls.iter().any(|c| c.starts_with("pct exec 109 -- sh -c sha256sum '/etc/systemd/journald.conf.d/homelab-limits.conf'")));
    assert!(calls.iter().any(|c| c == "pct exec 109 -- sh -c systemctl restart systemd-journald"));
    assert_eq!(sink.lines().last().unwrap(), "[guard] runaway guards + security patching in place");
}

#[test]
fn a_docker_host_gets_log_caps_prune_and_cadvisor() {
    let mut m = MockExecutor::new();
    let mut sink = VecSink::new();
    apply(&mut m, &mut sink, 110, true, None).unwrap();
    let calls = m.calls();
    assert!(calls.iter().any(|c| c == "pct exec 110 -- sh -c systemctl restart docker"));
    assert!(calls.iter().any(|c| c.contains("--perms 644") && c.contains("/etc/docker/daemon.json")));
    assert!(calls.iter().any(|c| c == "pct exec 110 -- sh -c systemctl daemon-reload && systemctl enable --now docker-prune.timer"));
    assert!(calls.iter().any(|c| c == "pct exec 110 -- sh -c cd /opt/cadvisor && docker compose up -d"));
    assert_eq!(calls.last().unwrap(), "pct exec 110 -- sh -c apt-get clean");
    let lines = sink.lines();
    assert!(lines.contains(&"[guard] docker log caps applied (10m x 3)".to_string()));
    assert!(lines.contains(&"[guard] cadvisor up — this host reports its containers".to_string()));
}

#[test]
fn an_unchanged_config_restarts_nothing_but_cadvisor_still_starts() {
    let mut m = MockExecutor::new();
    m.respond_always(
        "sha256sum '/etc/docker/daemon.json'",
        CmdOutput::ok(&format!("{}\n", sha256_hex(DOCKER_DAEMON_JSON.as_bytes()))),
    );
    m.respond_always(
        "sha256sum '/etc/systemd/journald.conf.d/homelab-limits.conf'",
        CmdOutput::ok(&sha256_hex(JOURNALD_LIMITS.as_bytes())),
    );
    let mut sink = VecSink::new();
    apply(&mut m, &mut sink, 111, true, None).unwrap();
    assert!(m.calls_containing("systemctl restart docker").is_empty());
    assert!(m.calls_containing("systemctl restart systemd-journald").is_empty());
    assert!(m.calls_containing("/etc/docker/daemon.json --perms").is_empty());
    assert_eq!(m.calls_containing("docker compose up -d").len(), 1);
}

#[test]
fn the_cache_registries_are_declared_insecure() {
    let cache = CacheCfg {
        host: "10.0.0.5".to_string(),
        upstreams: vec![
            CacheUpstream { registry: "docker.io".to_string(), port: 5000 },
            CacheUpstream { registry: "ghcr.io".to_string(), port: 5001 },
        ],
    };
    assert_eq!(
        daemon_json(Some(&cache)),
        "{\n  \"log-driver\": \"json-file\",\n  \"log-opts\": {\n    \"max-size\": \"10m\",\n    \"max-file\": \"3\",\n    \"tag\": \"{{.Name}}\"\n  },\n  \"insecure-registries\": [\"10.0.0.5:5000\", \"10.0.0.5:5001\"]\n}\n"
    );
    assert_eq!(daemon_json(None), DOCKER_DAEMON_JSON);
}
