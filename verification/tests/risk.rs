use std::collections::HashMap;

use netwatch::risk::{
    assess_dns_risk, determine_port_severity, has_keyboard_patterns, has_repeating_patterns,
    is_common_port_range, RiskLevel,
};

/// The Shannon entropy of the text, in bits per character: the
/// floating-point signal the scorer takes as a boolean.
fn entropy(s: &str) -> f64 {
    let len = s.chars().count() as f64;
    let mut counts: HashMap<char, usize> = HashMap::new();
    for c in s.chars() {
        *counts.entry(c).or_insert(0) += 1;
    }
    counts
        .values()
        .map(|&count| {
            let p = count as f64 / len;
            -p * p.log2()
        })
        .sum()
}

fn risk(domain: &str) -> RiskLevel {
    assess_dns_risk(domain, entropy(domain) > 4.5)
}

#[test]
fn overlong_domain_is_high() {
    let domain = "a".repeat(51);
    assert_eq!(domain.len(), 51);
    assert_eq!(risk(&domain), RiskLevel::High);
    assert_eq!(risk(&domain).label(), "High");
}

#[test]
fn ordinary_domain_is_low() {
    assert_eq!(risk("example.com"), RiskLevel::Low);
    assert_eq!(risk("example.com").label(), "Low");
}

#[test]
fn keyboard_pattern_with_odd_tld_is_medium() {
    // both the keyboard pattern and the unlisted TLD argue Medium; the
    // priority order decides which reason fires, the level stays Medium
    assert_eq!(risk("qwer1234.xyz"), RiskLevel::Medium);
    assert_eq!(risk("qwer1234.xyz").label(), "Medium");
}

#[test]
fn many_digits_score_high() {
    assert_eq!(risk("a0b1c2d3e4f5g6h7i8j9k0l.com"), RiskLevel::High);
}

#[test]
fn high_entropy_scores_high() {
    let domain = "q7w3e9r1t5y2u8i4o6pzx0cvbnm.com";
    assert!(entropy(domain) > 4.5);
    assert_eq!(risk(domain), RiskLevel::High);
}

#[test]
fn double_hyphen_is_medium() {
    assert_eq!(risk("pay--pal.com"), RiskLevel::Medium);
}

#[test]
fn many_labels_are_medium() {
    assert_eq!(risk("a.b.c.d.e.com"), RiskLevel::Medium);
    assert_eq!(risk("a.b.c.com"), RiskLevel::Low);
}

#[test]
fn unlisted_tld_is_medium() {
    assert_eq!(risk("example.info"), RiskLevel::Medium);
    assert_eq!(risk("example.edu"), RiskLevel::Low);
    assert_eq!(risk("example.gov"), RiskLevel::Low);
}

#[test]
fn repeated_window_is_medium() {
    assert_eq!(risk("abcabc.com"), RiskLevel::Medium);
    assert_eq!(risk("abcdef.com"), RiskLevel::Low);
}

#[test]
fn repeating_pattern_detection() {
    assert!(has_repeating_patterns("xyzxyz"));
    assert!(has_repeating_patterns("aaaaaa"));
    assert!(!has_repeating_patterns("abcdef"));
    // too short to hold two windows of three
    assert!(!has_repeating_patterns("ab"));
    assert!(!has_repeating_patterns(""));
}

#[test]
fn keyboard_pattern_detection() {
    assert!(has_keyboard_patterns("xxasdfxx"));
    assert!(has_keyboard_patterns("XXASDFXX"));
    assert!(has_keyboard_patterns("shop4321.com"));
    assert!(!has_keyboard_patterns("example"));
}

#[test]
fn common_port_ranges() {
    assert!(is_common_port_range(1));
    assert!(is_common_port_range(443));
    assert!(is_common_port_range(49151));
    assert!(!is_common_port_range(49152));
    assert!(is_common_port_range(50000));
    assert!(is_common_port_range(51000));
    assert!(!is_common_port_range(51001));
    assert!(is_common_port_range(60500));
    assert!(!is_common_port_range(61001));
    assert!(!is_common_port_range(0));
}

#[test]
fn port_severity_grades() {
    assert_eq!(determine_port_severity(22, 25), "High");
    assert_eq!(determine_port_severity(22, 5), "Medium");
    assert_eq!(determine_port_severity(5000, 51), "High");
    assert_eq!(determine_port_severity(5000, 21), "Medium");
    assert_eq!(determine_port_severity(5000, 20), "Low");
}
