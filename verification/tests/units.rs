//! Unit tests of the pipeline's pieces: the numeric-token scanner, the
//! text helpers, and the canonicalizer's two strategies.
use std_score::canon::{canonicalize, CanonConfig, NameStrategy};
use std_score::num::scan_score;
use std_score::text::{str_lt, to_lower, trim};

#[test]
fn scanner_finds_first_token() {
    assert_eq!(scan_score("90"), Some(90_000_000));
    assert_eq!(scan_score("  95 (best)"), Some(95_000_000));
    assert_eq!(scan_score("abc -12.5x"), Some(-12_500_000));
    assert_eq!(scan_score("1.2.3"), Some(1_200_000));
    // a dash without a following digit does not start a token
    assert_eq!(scan_score("a-b5"), Some(5_000_000));
    assert_eq!(scan_score("--7"), Some(-7_000_000));
    assert_eq!(scan_score("no digits here"), None);
    assert_eq!(scan_score(""), None);
}

#[test]
fn scanner_truncates_beyond_six_fraction_digits() {
    assert_eq!(scan_score("0.1234567"), Some(123_456));
    assert_eq!(scan_score("-0.9999999"), Some(-999_999));
    assert_eq!(scan_score("2.000001"), Some(2_000_001));
}

#[test]
fn scanner_rejects_out_of_range_magnitudes() {
    // one thousand million points is the largest representable magnitude
    assert_eq!(scan_score("1000000000"), Some(1_000_000_000_000_000));
    assert_eq!(scan_score("1000000001"), None);
    assert_eq!(scan_score("1000000000.5"), None);
    assert_eq!(scan_score("99999999999999999999"), None);
}

#[test]
fn trim_strips_ascii_and_no_break_space() {
    assert_eq!(trim("  Alice \t\n"), "Alice");
    assert_eq!(trim("\u{a0}Bob\u{a0}"), "Bob");
    assert_eq!(trim("   "), "");
    assert_eq!(trim(""), "");
    assert_eq!(trim("a b"), "a b");
}

#[test]
fn lower_cases_ascii_only() {
    assert_eq!(to_lower("CQYC-Wht"), "cqyc-wht");
    assert_eq!(to_lower("\u{738b}ABC"), "\u{738b}abc");
}

#[test]
fn string_order_is_lexicographic() {
    assert!(str_lt("Alice", "Bob"));
    assert!(!str_lt("Bob", "Alice"));
    assert!(str_lt("Ab", "Abc"));
    assert!(!str_lt("Abc", "Abc"));
}

fn lookup_only_config() -> CanonConfig {
    CanonConfig {
        patch: vec![],
        alias: vec![("cqyc-wht".to_string(), "Wang".to_string())],
        strategy: NameStrategy::LookupOnly,
    }
}

#[test]
fn lookup_only_uses_lower_cased_whole_name() {
    let cfg = lookup_only_config();
    assert_eq!(canonicalize("CQYC-WHT", &cfg), "Wang");
    assert_eq!(canonicalize("cqyc-wht", &cfg), "Wang");
    assert_eq!(canonicalize("Alice", &cfg), "Alice");
}

#[test]
fn patch_table_is_case_sensitive() {
    let cfg = CanonConfig {
        patch: vec![("Alise".to_string(), "Alice".to_string())],
        alias: vec![],
        strategy: NameStrategy::LookupOnly,
    };
    assert_eq!(canonicalize("Alise", &cfg), "Alice");
    // a different case misses the patch table
    assert_eq!(canonicalize("alise", &cfg), "alise");
}

#[test]
fn grammar_strips_tags_and_annotation() {
    let cfg = CanonConfig {
        patch: vec![],
        alias: vec![],
        strategy: NameStrategy::Grammar,
    };
    // stream tag, cohort code, section marker, organization tag, then the
    // core token and a trailing annotation
    assert_eq!(canonicalize("AB-2023-S3-ORG-core (note)", &cfg), "core");
    assert_eq!(canonicalize("CQYC-wht", &cfg), "wht");
    assert_eq!(canonicalize("plain", &cfg), "plain");
    // a lower-case label is no tag, so nothing is stripped
    assert_eq!(canonicalize("ab-core", &cfg), "ab-core");
}

#[test]
fn grammar_keeps_raw_name_when_it_does_not_match() {
    let cfg = CanonConfig {
        patch: vec![],
        alias: vec![],
        strategy: NameStrategy::Grammar,
    };
    // an annotation with no opening parenthesis does not match the
    // grammar; the raw name is kept
    assert_eq!(canonicalize("weird)", &cfg), "weird)");
    // an annotation that would leave nothing does not match either
    assert_eq!(canonicalize("(only)", &cfg), "(only)");
}

#[test]
fn grammar_then_lookup() {
    let cfg = CanonConfig {
        patch: vec![("wht".to_string(), "WHT".to_string())],
        alias: vec![("wht".to_string(), "Wang".to_string())],
        strategy: NameStrategy::Grammar,
    };
    // the patch fixes the spelling first, then the alias is looked up
    // lower-cased
    assert_eq!(canonicalize("CQYC-wht", &cfg), "Wang");
}
