use homelab_core::ops::manualchecks::{answer, id_for, register};
use homelab_core::state::HostState;

fn qs(items: &[(&str, &str)]) -> Vec<(String, String)> {
    items.iter().map(|(a, t)| (a.to_string(), t.to_string())).collect()
}

#[test]
fn ids_are_short_stable_and_depend_on_the_wording() {
    let a = id_for("media", "jellyfin", "does the film look right?");
    assert_eq!(a.len(), 8);
    assert_eq!(a, id_for("media", "jellyfin", "does the film look right?"));
    assert_ne!(a, id_for("media", "jellyfin", "does the film look right"));
    assert!(a.chars().all(|c| c.is_ascii_hexdigit() && !c.is_ascii_uppercase()));
}

#[test]
fn registering_twice_changes_nothing_and_keeps_answers() {
    let mut s = HostState::default();
    let q = qs(&[("jellyfin", "picture ok?"), ("jellyfin", "sound in sync?")]);
    register(&mut s, "media", &q, 100);
    assert_eq!(s.manual_checks.len(), 2);
    let id = id_for("media", "jellyfin", "picture ok?");
    assert!(answer(&mut s, &id, true, "looked fine", 150));
    let before = s.manual_checks.clone();
    register(&mut s, "media", &q, 200);
    assert_eq!(s.manual_checks, before);
    let rec = &s.manual_checks.iter().find(|(k, _)| *k == id).unwrap().1;
    assert_eq!(rec.ok, Some(true));
    assert_eq!(rec.answered_at, Some(150));
    assert_eq!(rec.registered_at, 100);
}

#[test]
fn a_question_gone_from_the_stack_file_is_dropped_for_that_stack_only() {
    let mut s = HostState::default();
    register(&mut s, "media", &qs(&[("jellyfin", "a?"), ("jellyfin", "b?")]), 1);
    register(&mut s, "paper", &qs(&[("paperless", "c?")]), 1);
    register(&mut s, "media", &qs(&[("jellyfin", "a?")]), 2);
    let ids: Vec<&String> = s.manual_checks.iter().map(|(k, _)| k).collect();
    assert_eq!(ids.len(), 2);
    assert!(ids.contains(&&id_for("media", "jellyfin", "a?")));
    assert!(ids.contains(&&id_for("paper", "paperless", "c?")));
}

#[test]
fn checks_are_kept_in_id_order() {
    let mut s = HostState::default();
    register(&mut s, "media", &qs(&[("a", "1"), ("b", "2"), ("c", "3"), ("d", "4"), ("e", "5")]), 1);
    let ids: Vec<String> = s.manual_checks.iter().map(|(k, _)| k.clone()).collect();
    let mut sorted = ids.clone();
    sorted.sort();
    assert_eq!(ids, sorted);
}

#[test]
fn answering_an_unknown_id_says_so() {
    let mut s = HostState::default();
    assert!(!answer(&mut s, "deadbeef", true, "", 1));
}
