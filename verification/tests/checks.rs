use homelab_core::checks::{judge, Expect, Reading, Verdict};
use homelab_core::doctor::{overall, Check, Health};

fn reading(before: &str, after: &str, expect: Expect) -> Reading {
    Reading {
        name: "films".to_string(),
        before: before.to_string(),
        after: after.to_string(),
        expect,
        blind_spot: None,
    }
}

#[test]
fn counts_may_rise_never_fall() {
    assert_eq!(judge(&reading("935", "940", Expect::NeverDecreases)), Verdict::Pass);
    assert_eq!(judge(&reading("935", "935", Expect::NeverDecreases)), Verdict::Pass);
    assert_eq!(
        judge(&reading("935", "12", Expect::NeverDecreases)),
        Verdict::Regressed("'films' fell from 935 to 12".to_string())
    );
    assert_eq!(judge(&reading("-3", "-5", Expect::NeverDecreases)), Verdict::Regressed("'films' fell from -3 to -5".to_string()));
}

#[test]
fn an_unchanged_reading_passes_under_every_rule() {
    for e in [Expect::NeverDecreases, Expect::MustMatch, Expect::MustBePresent] {
        assert_eq!(judge(&reading(" 42 ", "42", e)), Verdict::Pass);
    }
}

#[test]
fn a_reading_that_cannot_be_taken_is_never_a_regression() {
    for e in [Expect::NeverDecreases, Expect::MustMatch, Expect::MustBePresent] {
        assert!(matches!(judge(&reading("42", "  ", e)), Verdict::Unreadable(_)));
    }
    assert_eq!(
        judge(&reading("42", "", Expect::MustMatch)),
        Verdict::Unreadable("'films' could not be read after the work (it read '42' before)".to_string())
    );
}

#[test]
fn no_baseline_means_nothing_to_compare() {
    assert_eq!(judge(&reading("", "17", Expect::NeverDecreases)), Verdict::Pass);
    assert_eq!(
        judge(&reading("many", "17", Expect::NeverDecreases)),
        Verdict::Unreadable("'films' expects a number and read 'many' before".to_string())
    );
    assert_eq!(
        judge(&reading("3", "lots", Expect::NeverDecreases)),
        Verdict::Unreadable("'films' expects a number and read 'lots' after".to_string())
    );
}

#[test]
fn configuration_must_match() {
    assert_eq!(
        judge(&reading("/media/films", "/media/movies", Expect::MustMatch)),
        Verdict::Regressed("'films' was '/media/films' and is now '/media/movies'".to_string())
    );
}

fn check(h: Health) -> Check {
    Check { name: "x".to_string(), health: h, detail: String::new(), remedy: None }
}

#[test]
fn the_overall_health_is_the_worst_check() {
    assert_eq!(overall(&[]), Health::Good);
    assert_eq!(overall(&[check(Health::Good), check(Health::Good)]), Health::Good);
    assert_eq!(overall(&[check(Health::Good), check(Health::Warn)]), Health::Warn);
    assert_eq!(overall(&[check(Health::Warn), check(Health::Fail), check(Health::Good)]), Health::Fail);
}
