use darkreach::bignum::BigNat;
use darkreach::classify::{
    classify_at_discovery, classify_at_verification, is_palindrome_base10, is_provable_form,
    is_safe_prime, is_sophie_germain, is_twin_prime, VerifyResult,
};

#[test]
fn discovery_factorial_deterministic() {
    let tags = classify_at_discovery("factorial", "deterministic");
    assert!(tags.contains(&"factorial".to_string()));
    assert!(tags.contains(&"deterministic".to_string()));
    assert!(!tags.contains(&"prp-only".to_string()));
}

#[test]
fn discovery_wagstaff_probabilistic() {
    let tags = classify_at_discovery("wagstaff", "probabilistic");
    assert!(tags.contains(&"wagstaff".to_string()));
    assert!(tags.contains(&"probabilistic".to_string()));
    assert!(tags.contains(&"prp-only".to_string()));
}

#[test]
fn discovery_twin_gets_kbn_tag() {
    let tags = classify_at_discovery("twin", "deterministic");
    assert!(tags.contains(&"twin".to_string()));
    assert!(tags.contains(&"kbn".to_string()));
}

#[test]
fn discovery_near_repdigit_gets_palindromic_tag() {
    let tags = classify_at_discovery("near_repdigit", "deterministic");
    assert!(tags.contains(&"near_repdigit".to_string()));
    assert!(tags.contains(&"palindromic".to_string()));
}

#[test]
fn discovery_tags_are_sorted_and_deduped() {
    let tags = classify_at_discovery("kbn", "deterministic");
    let mut sorted = tags.clone();
    sorted.sort();
    assert_eq!(tags, sorted);
    let mut deduped = tags.clone();
    deduped.dedup();
    assert_eq!(tags, deduped);
}

#[test]
fn discovery_exact_tag_lists() {
    assert_eq!(classify_at_discovery("kbn", "deterministic"), vec!["deterministic", "kbn"]);
    assert_eq!(
        classify_at_discovery("carol_kynea", "probabilistic"),
        vec!["carol_kynea", "kbn", "probabilistic"]
    );
    assert_eq!(
        classify_at_discovery("near_repdigit", "deterministic"),
        vec!["deterministic", "near_repdigit", "palindromic", "prp-only"]
    );
    // A form named like a tag collapses into one entry.
    assert_eq!(classify_at_discovery("deterministic", "deterministic"), vec!["deterministic", "prp-only"]);
    assert_eq!(classify_at_discovery("", "x"), vec!["", "probabilistic", "prp-only"]);
}

#[test]
fn provable_forms() {
    assert!(is_provable_form("factorial"));
    assert!(is_provable_form("kbn"));
    assert!(!is_provable_form("wagstaff"));
    assert!(!is_provable_form("repunit"));
    assert!(!is_provable_form("unknown"));
}

fn big(n: u64) -> BigNat {
    BigNat::from_u64(n)
}

#[test]
fn palindrome_single_digit() {
    assert!(is_palindrome_base10(&big(7)));
}

#[test]
fn palindrome_known() {
    assert!(is_palindrome_base10(&big(10301)));
    assert!(is_palindrome_base10(&big(12321)));
}

#[test]
fn not_palindrome() {
    assert!(!is_palindrome_base10(&big(12345)));
    assert!(!is_palindrome_base10(&big(100)));
}

#[test]
fn palindrome_even_length_and_zero() {
    assert!(is_palindrome_base10(&big(0)));
    assert!(is_palindrome_base10(&big(1221)));
    assert!(!is_palindrome_base10(&big(1231)));
}

#[test]
fn twin_prime_5() {
    assert!(is_twin_prime(&big(5)));
}

#[test]
fn twin_prime_11() {
    assert!(is_twin_prime(&big(11)));
}

#[test]
fn not_twin_prime_23() {
    assert!(!is_twin_prime(&big(23)));
}

#[test]
fn twin_prime_small_values() {
    assert!(!is_twin_prime(&big(2)));
    // 3: 3 - 2 = 1 is not above 1, but 5 is prime
    assert!(is_twin_prime(&big(3)));
}

#[test]
fn sophie_germain_11() {
    assert!(is_sophie_germain(&big(11)));
}

#[test]
fn sophie_germain_23() {
    assert!(is_sophie_germain(&big(23)));
}

#[test]
fn not_sophie_germain_13() {
    assert!(!is_sophie_germain(&big(13)));
}

#[test]
fn safe_prime_7() {
    assert!(is_safe_prime(&big(7)));
}

#[test]
fn safe_prime_23() {
    assert!(is_safe_prime(&big(23)));
}

#[test]
fn not_safe_prime_13() {
    assert!(!is_safe_prime(&big(13)));
}

#[test]
fn safe_prime_small_values() {
    assert!(!is_safe_prime(&big(4)));
    assert!(is_safe_prime(&big(5)));
}

#[test]
fn verification_tier1_tag() {
    let result = VerifyResult::Verified { method: "tier1-proth".into(), tier: 1 };
    let tags = classify_at_verification(&big(97), 2, &result);
    assert!(tags.contains(&"verified-tier-1".to_string()));
}

#[test]
fn verification_detects_palindrome() {
    let result = VerifyResult::Verified { method: "tier2-bpsw+mr10".into(), tier: 2 };
    let tags = classify_at_verification(&big(10301), 5, &result);
    assert!(tags.contains(&"palindromic".to_string()));
    assert!(tags.contains(&"verified-tier-2".to_string()));
}

#[test]
fn verification_detects_twin() {
    let result = VerifyResult::Verified { method: "tier2-bpsw+mr10".into(), tier: 2 };
    let tags = classify_at_verification(&big(11), 2, &result);
    assert!(tags.contains(&"twin".to_string()));
}

#[test]
fn verification_skips_expensive_checks_for_large_primes() {
    let result = VerifyResult::Verified { method: "tier2-bpsw+mr10".into(), tier: 2 };
    let tags = classify_at_verification(&big(11), 60_000, &result);
    assert!(!tags.contains(&"twin".to_string()));
    assert!(!tags.contains(&"sophie-germain".to_string()));
    assert!(!tags.contains(&"safe-prime".to_string()));
    assert!(tags.contains(&"verified-tier-2".to_string()));
}

#[test]
fn verification_tags_in_order() {
    let result = VerifyResult::Verified { method: "tier3".into(), tier: 3 };
    // 11: palindrome, twin (13), Sophie Germain (23), not safe ((11-1)/2 = 5 is prime: safe)
    let tags = classify_at_verification(&big(11), 2, &result);
    assert_eq!(tags, vec!["verified-tier-3", "palindromic", "twin", "sophie-germain", "safe-prime"]);
    let failed = VerifyResult::Failed { reason: "none".into() };
    assert_eq!(classify_at_verification(&big(13), 2, &failed), vec!["twin"]);
    let other_tier = VerifyResult::Verified { method: "x".into(), tier: 4 };
    assert!(classify_at_verification(&big(12), 2, &other_tier).is_empty());
}
