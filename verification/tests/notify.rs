use homelab_core::notify::{op_payload, route, verdict, Delivery, NotifyDamper};

#[test]
fn golden_payload_shape() {
    assert_eq!(
        op_payload("deploy-synctest", "deploy", true, None, "3.35.0"),
        r#"{"error":null,"label":"deploy","ok":true,"op":"deploy-synctest","source":"homelab-host","version":"3.35.0"}"#
    );
    assert_eq!(
        op_payload("backup-media", "scheduled-backup", false, Some("rclone: timeout"), "3.35.0"),
        r#"{"error":"rclone: timeout","label":"scheduled-backup","ok":false,"op":"backup-media","source":"homelab-host","version":"3.35.0"}"#
    );
}

#[test]
fn damper_suppresses_repeats_within_window_only() {
    let mut d = NotifyDamper::new(20 * 3600);
    let t0 = 1_800_000_000;
    assert!(d.should_send("backup-media", false, Some("timeout"), t0));
    assert!(!d.should_send("backup-media", false, Some("timeout"), t0 + 3600));
    assert!(d.should_send("backup-media", false, Some("repo locked"), t0 + 3600));
    assert!(d.should_send("backup-media", false, Some("timeout"), t0 + 21 * 3600));
    assert!(d.should_send("backup-media", true, None, t0));
    assert!(d.should_send("backup-media", true, None, t0 + 1));
}

#[test]
fn the_fleet_check_uses_the_same_shape_as_every_other_event() {
    let p = op_payload("fleet-check", "nightly", false, Some("4 finding(s)"), "3.35.0");
    let v: serde_json::Value = serde_json::from_str(&p).unwrap();
    for field in ["source", "op", "label", "ok", "error", "version"] {
        assert!(v.get(field).is_some(), "fleet-check payload lost '{}'", field);
    }
    assert_eq!(v["source"], "homelab-host");
    assert_eq!(v["label"], "nightly");
}

#[test]
fn payload_escapes_what_json_needs_escaped() {
    let p = op_payload("op\"x", "l\\y", false, Some("line\nbreak"), "1");
    let v: serde_json::Value = serde_json::from_str(&p).unwrap();
    assert_eq!(v["op"], "op\"x");
    assert_eq!(v["label"], "l\\y");
    assert_eq!(v["error"], "line\nbreak");
}

#[test]
fn a_success_is_always_sent_even_right_after_another() {
    let mut d = NotifyDamper::new(3600);
    for i in 0..5u64 {
        assert!(d.should_send("deploy-x", true, None, 100 + i));
    }
}

#[test]
fn the_same_failure_is_sent_again_once_the_window_has_passed() {
    let mut d = NotifyDamper::new(100);
    assert!(d.should_send("op", false, Some("e"), 1000));
    assert!(!d.should_send("op", false, Some("e"), 1099));
    assert!(d.should_send("op", false, Some("e"), 1100));
    assert!(!d.should_send("op", false, Some("e"), 1101));
}

#[test]
fn different_operations_are_damped_separately() {
    let mut d = NotifyDamper::new(1000);
    assert!(d.should_send("a", false, Some("e"), 10));
    assert!(d.should_send("b", false, Some("e"), 11));
    assert!(!d.should_send("a", false, Some("e"), 12));
}

#[test]
fn delivery_verdicts() {
    assert!(matches!(verdict(true, "204"), Delivery::Delivered));
    assert!(matches!(verdict(true, " 200\n"), Delivery::Delivered));
    match verdict(true, "500") {
        Delivery::Failed(m) => assert_eq!(m, "HTTP 500"),
        _ => panic!("500 is not delivered"),
    }
    match verdict(true, "000") {
        Delivery::Failed(m) => assert_eq!(m, "no answer (connection refused, DNS, or timeout)"),
        _ => panic!("000 is not delivered"),
    }
    match verdict(false, "200") {
        Delivery::Failed(m) => assert_eq!(m, "curl did not run or timed out"),
        _ => panic!("curl that did not run delivered nothing"),
    }
    match verdict(true, "abc") {
        Delivery::Failed(m) => assert_eq!(m, "unreadable status \"abc\""),
        _ => panic!("garbage is not delivered"),
    }
}

#[test]
fn route_tries_primary_then_fallback() {
    assert_eq!(route(Some("a"), Some("b")), vec!["a", "b"]);
    assert_eq!(route(None, Some("b")), vec!["b"]);
    assert_eq!(route(Some("a"), None), vec!["a"]);
    assert_eq!(route(Some("a"), Some("a")), vec!["a"]);
    assert!(route(None, None).is_empty());
}
