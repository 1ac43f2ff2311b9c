use homelab_core::ops::zfs::{common_base, shell_quote, snap_time, snapshot_label};

#[test]
fn labels_read_back_as_the_minute_they_were_taken() {
    for t in [0u64, 59, 60, 86_399, 951_782_400, 1_800_000_000, 1_800_000_059, 4_102_444_799, 253_402_300_799] {
        assert_eq!(snap_time(&snapshot_label(t), 7), t - t % 60, "t = {}", t);
    }
}

#[test]
fn label_format() {
    assert_eq!(snapshot_label(0), "homelab-19700101-0000");
    assert_eq!(snapshot_label(1_800_000_000), "homelab-20270115-0800");
    assert_eq!(snapshot_label(951_782_400), "homelab-20000229-0000");
}

#[test]
fn unparseable_names_count_as_brand_new() {
    assert_eq!(snap_time("manual-1", 42), 42);
    assert_eq!(snap_time("homelab-2027011-0800", 42), 42);
    assert_eq!(snap_time("homelab-20270115", 42), 42);
    assert_eq!(snap_time("homelab-2027x115-0800", 42), 42);
}

#[test]
fn newest_common_snapshot() {
    let s = vec!["a".to_string(), "b".to_string(), "c".to_string()];
    let t = vec!["b".to_string(), "a".to_string()];
    assert_eq!(common_base(&s, &t), Some("b".to_string()));
    assert_eq!(common_base(&s, &[]), None);
}

#[test]
fn shell_quoting() {
    assert_eq!(shell_quote("plain"), "'plain'");
    assert_eq!(shell_quote("it's"), "'it'\\''s'");
}
