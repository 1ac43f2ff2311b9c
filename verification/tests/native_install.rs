use homelab_core::executor::{CmdOutput, MockExecutor};
use homelab_core::native::NativeServiceManifest;
use homelab_core::ops::backup::BackupCfg;
use homelab_core::ops::native::install_native;
use homelab_core::runner::NullJournal;
use homelab_core::safety::SafetyConfig;
use homelab_core::sink::NullSink;

fn kyu() -> NativeServiceManifest {
    NativeServiceManifest {
        stack_name: "kyu".to_string(),
        vmid: 120,
        hostname: "120-app-kyu".to_string(),
        unit: "kyu".to_string(),
        binary: "/usr/local/bin/kyu".to_string(),
        env_file: None,
        data_dirs: vec!["/var/lib/kyu".to_string()],
        update_cmd: None,
        stateless: false,
        release_repo: None,
        release_asset: None,
    }
}

const UNIT: &str = "[Service]\nExecStart=/usr/local/bin/kyu serve\n";

fn position(calls: &[String], needle: &str) -> usize {
    calls.iter().position(|c| c.contains(needle)).unwrap_or_else(|| panic!("no call with {}", needle))
}

#[test]
fn an_install_without_a_unit_file_asks_nothing() {
    let mut m = MockExecutor::new();
    let report = match install_native(&mut m, NullSink, NullJournal, &SafetyConfig::default(), &kyu(), "AAAA", "  \n") {
        Err(r) => r,
        Ok(_) => panic!("an empty unit file must be refused"),
    };
    assert_eq!(report.op, "install-kyu");
    assert!(report.error.unwrap().why.starts_with("no unit file for kyu"));
    assert!(m.calls().is_empty());

    let mut m = MockExecutor::new();
    let report = match install_native(&mut m, NullSink, NullJournal, &SafetyConfig::default(), &kyu(), "AAAA", "[Service]\nExecStart=/bin/other\n") {
        Err(r) => r,
        Ok(_) => panic!("a unit file for another binary must be refused"),
    };
    assert!(report.error.unwrap().why.starts_with("the unit file does not exec '/usr/local/bin/kyu'"));
    assert!(m.calls().is_empty());
}

#[test]
fn a_first_install_decodes_reloads_then_activates() {
    let mut m = MockExecutor::new();
    m.enqueue("pct config 120", CmdOutput::ok("hostname: 120-app-kyu\n"));
    m.enqueue("test -f", CmdOutput::ok("no\n"));
    let r = install_native(&mut m, NullSink, NullJournal, &SafetyConfig::default(), &kyu(), "AAAA", UNIT);
    assert!(r.is_ok());
    let calls = m.calls();
    assert_eq!(calls[0], "pct config 120");
    assert_eq!(calls[1], "pct exec 120 -- sh -c test -f '/usr/local/bin/kyu' && echo yes || echo no");
    assert!(!calls.iter().any(|c| c.contains("cp -p")));
    let decode = position(&calls, "base64 -d '/usr/local/bin/kyu.homelab-new.b64' > '/usr/local/bin/kyu.homelab-new'");
    let reload = position(&calls, "systemctl daemon-reload");
    let activate = position(&calls, "mv -f '/usr/local/bin/kyu.homelab-new' '/usr/local/bin/kyu'");
    assert!(decode < reload && reload < activate);
    assert_eq!(activate, calls.len() - 1);
    assert!(calls[activate].starts_with("pct exec 120 -- sh -c systemctl stop kyu.service 2>/dev/null; mv -f"));
}

#[test]
fn a_failed_reinstall_puts_the_kept_binary_back() {
    let mut m = MockExecutor::new();
    m.enqueue("pct config 120", CmdOutput::ok("hostname: 120-app-kyu\n"));
    m.enqueue("test -f", CmdOutput::ok("yes\n"));
    m.enqueue("mv -f", CmdOutput::failed(1, ""));
    let report = match install_native(&mut m, NullSink, NullJournal, &SafetyConfig::default(), &kyu(), "AAAA", UNIT) {
        Err(r) => r,
        Ok(_) => panic!("a unit that did not come up must fail the install"),
    };
    let calls = m.calls();
    assert_eq!(calls[2], "pct exec 120 -- sh -c cp -p '/usr/local/bin/kyu' '/usr/local/bin/kyu.homelab-prev'");
    assert!(calls[calls.len() - 1].starts_with(
        "pct exec 120 -- sh -c cp -p '/usr/local/bin/kyu.homelab-prev' '/usr/local/bin/kyu' && systemctl restart kyu.service"
    ));
    assert_eq!(
        report.error.unwrap().why,
        "the installed kyu did not come up healthy — rolled back to the previous binary (service restored and active)"
    );
}

#[test]
fn a_binary_that_does_not_decode_replaces_nothing() {
    let mut m = MockExecutor::new();
    m.enqueue("pct config 120", CmdOutput::ok("hostname: 120-app-kyu\n"));
    m.enqueue("test -f", CmdOutput::ok("yes\n"));
    m.enqueue("base64 -d", CmdOutput::failed(1, "invalid input\n"));
    let report = match install_native(&mut m, NullSink, NullJournal, &SafetyConfig::default(), &kyu(), "AAAA", UNIT) {
        Err(r) => r,
        Ok(_) => panic!("a bad transfer must fail the install"),
    };
    assert!(!m.calls().iter().any(|c| c.contains("mv -f")));
    assert_eq!(
        report.error.unwrap().why,
        "could not decode the binary into /usr/local/bin/kyu.homelab-new (invalid input) — nothing was replaced"
    );
}

#[test]
fn a_native_backup_streams_the_data_and_keeps_what_retention_keeps() {
    let mut m = MockExecutor::new();
    m.enqueue("pct config 120", CmdOutput::ok("hostname: 120-app-kyu\n"));
    m.enqueue("snapshots --json", CmdOutput::ok("[]"));
    let report = homelab_core::ops::native::backup_native(
        &mut m,
        NullSink,
        NullJournal,
        &SafetyConfig::default(),
        &kyu(),
        &BackupCfg::default(),
        1_800_000_000,
    );
    assert!(report.ok, "{:?}", report.error);
    assert_eq!(report.op, "backup-kyu");
    let calls = m.calls();
    assert_eq!(calls.len(), 4);
    assert!(calls[1].ends_with("restic init"));
    assert_eq!(
        calls[2],
        "sh -c set -o pipefail; pct exec 120 -- tar -cf - '/var/lib/kyu' | env RESTIC_REPOSITORY=rclone:gdrive:homelab-backups/kyu-config RESTIC_PASSWORD_FILE=/var/lib/homelab/secrets/restic.pw restic backup --stdin --stdin-filename kyu-data.tar"
    );
    assert!(calls[3].ends_with("restic snapshots --json"));
}
