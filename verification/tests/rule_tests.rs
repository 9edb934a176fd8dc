//! Rule engine behaviour with the real glob and regex engines linked.

use fs_cache::cache::append_rules;
use fs_cache::rule::{GlobRule, Matcher, RegexRule, Rule, Rules, Status};

#[test]
fn status_is_ok() {
    assert!(Status::Passed.is_ok());
    assert!(!Status::NotIncluded.is_ok());
    assert!(!Status::Excluded.is_ok());
}

#[test]
fn glob_rule_matches_and_rejects() {
    let pattern = GlobRule::new("*.rs").unwrap();
    assert!(pattern.matches("hey.rs"));
    assert!(!pattern.matches("hey.c"));
    assert!(pattern.matches("/src/test.rs"));
    assert!(!pattern.matches("/src/test.c"));
}

#[test]
fn glob_rule_refuses_bad_pattern() {
    assert!(GlobRule::new("+(unclosed").is_err());
}

#[test]
fn regex_rule_matches_and_rejects() {
    let rule = RegexRule::new("^a+$").unwrap();
    assert!(rule.matches("aaa"));
    assert!(!rule.matches("ab"));
}

#[test]
fn regex_rule_refuses_bad_pattern() {
    assert!(RegexRule::new("(unclosed").is_err());
}

#[test]
fn included_needs_a_matching_inclusion() {
    let mut rules = Rules::new();
    assert_eq!(rules.included("/var/log/a.log"), Status::NotIncluded);
    rules.add_inclusion(Matcher::Glob(GlobRule::new("*.log").unwrap()));
    assert_eq!(rules.included("/var/log/a.log"), Status::Passed);
    assert_eq!(rules.included("/var/log/a.txt"), Status::NotIncluded);
}

#[test]
fn excluded_blocks_passes() {
    let mut rules = Rules::new();
    rules.add_inclusion(Matcher::Glob(GlobRule::new("*.log").unwrap()));
    rules.add_exclusion(Matcher::Glob(GlobRule::new("*secret*").unwrap()));
    assert_eq!(rules.passes("/var/log/a.log"), Status::Passed);
    assert_eq!(rules.passes("/var/log/secret.log"), Status::Excluded);
    assert_eq!(rules.passes("/var/log/a.txt"), Status::NotIncluded);
    assert_eq!(rules.excluded("/var/log/secret.log"), Status::Excluded);
    assert_eq!(rules.excluded("/var/log/a.log"), Status::Passed);
}

#[test]
fn regex_rule_in_rule_set() {
    let mut rules = Rules::new();
    rules.add_inclusion(Matcher::Regex(RegexRule::new(r"\.log$").unwrap()));
    assert_eq!(rules.passes("/var/a.log"), Status::Passed);
    assert_eq!(rules.passes("/var/a.txt"), Status::NotIncluded);
}

#[test]
fn add_all_appends_both_lists() {
    let mut a = Rules::new();
    a.add_inclusion(Matcher::Glob(GlobRule::new("*.log").unwrap()));
    let mut b = Rules::new();
    b.add_inclusion(Matcher::Glob(GlobRule::new("*.txt").unwrap()));
    b.add_exclusion(Matcher::Glob(GlobRule::new("*.bak").unwrap()));
    a.add_all(b);
    assert_eq!(a.inclusion_list().len(), 2);
    assert_eq!(a.exclusion_list().len(), 1);
    assert_eq!(a.passes("note.txt"), Status::Passed);
    assert_eq!(a.passes("note.bak"), Status::NotIncluded);
}

#[test]
fn default_rules_are_empty() {
    let rules = Rules::default();
    assert_eq!(rules.inclusion_list().len(), 0);
    assert_eq!(rules.exclusion_list().len(), 0);
}

#[test]
fn append_rules_admits_subtree_and_ancestors() {
    let mut rules = Rules::new();
    append_rules(&mut rules, "/var/log/app").unwrap();
    // the subtree glob, the path, and each ancestor up to the root
    assert_eq!(rules.inclusion_list().len(), 5);
    assert_eq!(rules.passes("/var/log/app/file.log"), Status::Passed);
    assert_eq!(rules.passes("/var/log/app"), Status::Passed);
    assert_eq!(rules.passes("/var/log"), Status::Passed);
    assert_eq!(rules.passes("/var"), Status::Passed);
    assert_eq!(rules.passes("/"), Status::Passed);
    assert_eq!(rules.passes("/var/other"), Status::NotIncluded);
}
