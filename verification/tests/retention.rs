use homelab_core::retention::{default_tiers, forget_list, RetentionTier, DAY};

fn snaps(days_ago: &[u64], now: u64) -> Vec<(String, u64)> {
    days_ago
        .iter()
        .enumerate()
        .map(|(i, d)| (format!("s{}", i), now - d * DAY))
        .collect()
}

#[test]
fn keeps_all_dailies_within_first_tier() {
    let now = 1_800_000_000;
    let s = snaps(&[0, 1, 2, 3, 4, 5, 6], now);
    let forget = forget_list(&s, &default_tiers(), now);
    assert!(
        forget.is_empty(),
        "daily snapshots within 7d all kept: {:?}",
        forget
    );
}

#[test]
fn thins_second_tier_to_one_per_14_days() {
    let now = 1_800_000_000;
    let ages: Vec<u64> = (8..=60).collect();
    let s = snaps(&ages, now);
    let forget = forget_list(&s, &default_tiers(), now);
    let kept = s.len() - forget.len();
    assert!((3..=5).contains(&kept), "kept {} of {}", kept, s.len());
}

#[test]
fn unbounded_tier_keeps_sparse_history_forever() {
    let now = 1_800_000_000;
    let s = snaps(&[100, 160, 220, 280], now);
    let forget = forget_list(&s, &default_tiers(), now);
    assert!(forget.is_empty(), "sparse old history kept: {:?}", forget);
}

#[test]
fn dense_old_history_is_thinned() {
    let now = 1_800_000_000;
    let ages: Vec<u64> = (100..110).collect();
    let s = snaps(&ages, now);
    let forget = forget_list(&s, &default_tiers(), now);
    assert_eq!(forget.len(), 9);
    assert!(!forget.contains(&"s0".to_string()));
}

#[test]
fn newest_snapshot_is_always_kept() {
    let now = 1_800_000_000;
    let tiers = vec![RetentionTier {
        every_days: 1,
        span_days: Some(1),
    }];
    let s = snaps(&[50], now);
    let forget = forget_list(&s, &tiers, now);
    assert!(
        forget.is_empty(),
        "sole/newest snapshot survives any policy"
    );
}

#[test]
fn empty_input_is_fine() {
    assert!(forget_list(&[], &default_tiers(), 1_800_000_000).is_empty());
}

#[test]
fn snapshots_past_every_bounded_tier_are_forgotten_but_the_newest() {
    let now = 1_800_000_000;
    let tiers = vec![RetentionTier {
        every_days: 1,
        span_days: Some(7),
    }];
    // s0 is 1 day old and kept; s1 and s2 are older than the only tier.
    let s = snaps(&[1, 30, 40], now);
    assert_eq!(forget_list(&s, &tiers, now), vec!["s1".to_string(), "s2".to_string()]);
}

#[test]
fn a_newer_snapshot_later_in_the_list_displaces_the_kept_one() {
    let now = 1_800_000_000;
    // Both in the same 60-day bucket: the older one (listed first) goes.
    let s = vec![
        ("old".to_string(), now - 105 * DAY),
        ("new".to_string(), now - 100 * DAY),
        ("newest".to_string(), now),
    ];
    assert_eq!(forget_list(&s, &default_tiers(), now), vec!["old".to_string()]);
}

#[test]
fn zero_every_days_counts_as_one() {
    let now = 1_800_000_000;
    let tiers = vec![RetentionTier {
        every_days: 0,
        span_days: None,
    }];
    let s = snaps(&[0, 1, 2], now);
    assert!(forget_list(&s, &tiers, now).is_empty());
}
