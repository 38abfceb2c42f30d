use hostsuffix::error::SuffixError;
use hostsuffix::index::RuleSet;
use hostsuffix::loader::{load_step, needs_fetch, refresh_report};
use hostsuffix::rules::{parse_rules, RuleKind};

#[test]
fn parser_skips_comments_blanks_and_bare_marker() {
    let text = b"// header\n\ncom\n!\n// another comment\nco.uk\n";
    let rules = parse_rules(text);
    assert_eq!(rules.len(), 2);
    assert_eq!(rules[0].kind, RuleKind::Plain);
    assert_eq!(rules[0].labels, vec![b"com".to_vec()]);
    assert_eq!(rules[1].kind, RuleKind::Plain);
    assert_eq!(rules[1].labels, vec![b"co".to_vec(), b"uk".to_vec()]);
}

#[test]
fn parser_reads_wildcard_and_exception() {
    let rules = parse_rules(b"*.ck\n!www.ck\n");
    assert_eq!(rules.len(), 2);
    assert_eq!(rules[0].kind, RuleKind::Wildcard);
    assert_eq!(rules[0].labels, vec![b"ck".to_vec()]);
    assert_eq!(rules[1].kind, RuleKind::Exception);
    assert_eq!(rules[1].labels, vec![b"www".to_vec(), b"ck".to_vec()]);
}

#[test]
fn wildcard_only_when_leftmost() {
    let rules = parse_rules(b"a.*.ck\n");
    assert_eq!(rules.len(), 1);
    assert_eq!(rules[0].kind, RuleKind::Plain);
    assert_eq!(rules[0].labels, vec![b"a".to_vec(), b"*".to_vec(), b"ck".to_vec()]);
}

#[test]
fn single_label_exception_is_inert() {
    let set = RuleSet::from_text(b"!ck\n").unwrap();
    let p = set.decompose(b"x.ck").unwrap();
    assert_eq!(p.suffix, Some(b"ck".to_vec()));
    assert_eq!(p.domain, Some(b"x".to_vec()));
    assert_eq!(p.subdomain, None);
}

#[test]
fn parser_tolerates_crlf() {
    let rules = parse_rules(b"com\r\nnet\r\n");
    assert_eq!(rules.len(), 2);
    assert_eq!(rules[0].labels, vec![b"com".to_vec()]);
    assert_eq!(rules[1].labels, vec![b"net".to_vec()]);
}

#[test]
fn empty_rule_list_is_reported() {
    let err = RuleSet::from_text(b"// comments only\n\n").unwrap_err();
    assert_eq!(err, SuffixError::EmptyRuleSet);
}

#[test]
fn fetch_needed_only_on_refresh_or_missing_cache() {
    assert!(!needs_fetch(false, true));
    assert!(needs_fetch(true, true));
    assert!(needs_fetch(false, false));
    assert!(needs_fetch(true, false));
}

#[test]
fn load_prefers_existing_cache_without_refresh() {
    let r = load_step(false, Some(b"cached".to_vec()), None).unwrap();
    assert_eq!(r.0, b"cached".to_vec());
    assert!(!r.1);
}

#[test]
fn load_persists_fresh_fetch() {
    let r = load_step(true, Some(b"cached".to_vec()), Some(b"fresh".to_vec())).unwrap();
    assert_eq!(r.0, b"fresh".to_vec());
    assert!(r.1);
}

#[test]
fn load_falls_back_to_cache_on_fetch_failure() {
    let r = load_step(true, Some(b"cached".to_vec()), None).unwrap();
    assert_eq!(r.0, b"cached".to_vec());
    assert!(!r.1);
}

#[test]
fn load_fails_without_cache_and_fetch() {
    let err = load_step(true, None, None).unwrap_err();
    assert_eq!(err, SuffixError::SourceUnavailable);
    let err2 = load_step(false, None, None).unwrap_err();
    assert_eq!(err2, SuffixError::SourceUnavailable);
}

#[test]
fn refresh_round_trip_uses_new_cache_without_refetch() {
    let refreshed = load_step(true, Some(b"old".to_vec()), Some(b"new".to_vec())).unwrap();
    assert_eq!(refreshed.0, b"new".to_vec());
    assert!(refreshed.1);
    let later = load_step(false, Some(refreshed.0.clone()), None).unwrap();
    assert_eq!(later.0, b"new".to_vec());
    assert!(!later.1);
}

#[test]
fn failed_persistence_fails_the_refresh() {
    assert_eq!(refresh_report(true), Ok(()));
    assert_eq!(refresh_report(false), Err(SuffixError::CacheWriteFailed));
}
