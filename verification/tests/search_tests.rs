use darkreach::bignum::BigNat;
use sha2::Digest;
use darkreach::search::block::{search_block, search_block_hashed, search_block_with};
use darkreach::search::forms::{
    search_carol_kynea, search_cullen_woodall, search_factorial, search_gen_fermat, search_kbn,
    search_near_repdigit, search_palindromic, search_primorial, search_repunit,
    search_sophie_germain, search_twin, search_wagstaff, PrimeResult,
};
use darkreach::search::montgomery::MontCtx;
use darkreach::search::palindrome::{build_palindrome, increment_half};
use darkreach::search::primality::{is_prime, miller_rabin, mr_witness, PrimeTables};
use darkreach::search::primes::is_prime_u64;
use darkreach::search::sieve::modular_sieve_kbn;

fn expressions(results: &[PrimeResult]) -> Vec<&str> {
    results.iter().map(|r| r.expression.as_str()).collect()
}

fn tables() -> PrimeTables {
    PrimeTables::new()
}

// ── forms ───────────────────────────────────────────────────────────

#[test]
fn test_kbn_mersenne_small() {
    let t = tables();
    let (results, tested) = search_kbn(1, 2, -1, 2, 10, &t);
    let exprs = expressions(&results);
    assert!(exprs.contains(&"2^2-1"));
    assert!(exprs.contains(&"2^3-1"));
    assert!(exprs.contains(&"2^5-1"));
    assert!(exprs.contains(&"2^7-1"));
    assert!(tested > 0);
}

#[test]
fn kbn_exact_results() {
    let t = tables();
    let (results, tested) = search_kbn(1, 2, -1, 2, 10, &t);
    assert_eq!(expressions(&results), vec!["2^2-1", "2^3-1", "2^5-1", "2^7-1"]);
    assert_eq!(tested, 9);
    assert_eq!(results[3].form, "kbn");
    assert_eq!(results[3].digits, 3);
    let (results, _) = search_kbn(3, 2, 1, 1, 6, &t);
    // 3·2^n + 1: 7, 13, 25, 49, 97, 193
    assert_eq!(expressions(&results), vec!["3*2^1+1", "3*2^2+1", "3*2^5+1", "3*2^6+1"]);
}

#[test]
fn test_twin_small() {
    let t = tables();
    let (results, _) = search_twin(3, 50, &t);
    let exprs = expressions(&results);
    assert!(exprs.contains(&"(5, 7)"));
    assert!(exprs.contains(&"(11, 13)"));
    assert!(exprs.contains(&"(17, 19)"));
    assert!(exprs.contains(&"(29, 31)"));
    assert!(exprs.contains(&"(41, 43)"));
}

#[test]
fn twin_counts_aligned_candidates() {
    let t = tables();
    // candidates 5, 11, 17, 23, 29, 35, 41, 47
    let (results, tested) = search_twin(3, 50, &t);
    assert_eq!(tested, 8);
    assert_eq!(results.len(), 5);
    let (results, tested) = search_twin(u64::MAX - 3, u64::MAX, &t);
    assert!(results.is_empty());
    assert_eq!(tested, 0);
}

#[test]
fn test_factorial_small() {
    let t = tables();
    let (results, _) = search_factorial(1, 7, &t);
    let exprs = expressions(&results);
    assert!(exprs.contains(&"1!+1"));
    assert!(exprs.contains(&"2!+1"));
    assert!(exprs.contains(&"3!+1"));
    assert!(exprs.contains(&"3!-1"));
    assert!(exprs.contains(&"4!-1"));
    assert!(exprs.contains(&"6!-1"));
    assert!(exprs.contains(&"7!-1"));
}

#[test]
fn factorial_counts_minus_only_above_one() {
    let t = tables();
    // 0! = 1! = 1: only n!+1 is tested; 2!..4!: both
    let (_, tested) = search_factorial(0, 4, &t);
    assert_eq!(tested, 1 + 1 + 2 + 2 + 2);
}

#[test]
fn test_sophie_germain_small() {
    let t = tables();
    let (results, _) = search_sophie_germain(2, 100, &t);
    assert_eq!(expressions(&results), vec!["2", "3", "5", "11", "23", "29", "41", "53", "83", "89"]);
}

#[test]
fn test_sophie_germain_empty_range() {
    let t = tables();
    let (results, tested) = search_sophie_germain(90, 100, &t);
    assert!(results.is_empty());
    assert!(tested > 0);
}

#[test]
fn test_cullen_woodall_small() {
    let t = tables();
    let (results, _) = search_cullen_woodall(1, 10, &t);
    let exprs = expressions(&results);
    assert!(exprs.contains(&"1*2^1+1"));
    assert!(exprs.contains(&"2*2^2-1"));
    assert!(exprs.contains(&"3*2^3-1"));
    assert!(exprs.contains(&"6*2^6-1"));
    assert!(!exprs.contains(&"4*2^4+1"));
    assert!(!exprs.contains(&"4*2^4-1"));
}

#[test]
fn cullen_woodall_counts() {
    let t = tables();
    // n = 0: 0·2^0 = 0, only the Cullen number is tested
    let (_, tested) = search_cullen_woodall(0, 3, &t);
    assert_eq!(tested, 1 + 2 + 2 + 2);
}

#[test]
fn test_repunit_base10_small() {
    let t = tables();
    let (results, _) = search_repunit(10, 2, 20, &t);
    assert!(expressions(&results).contains(&"R(10,2)"));
}

#[test]
fn test_repunit_base2_mersenne() {
    let t = tables();
    let (results, _) = search_repunit(2, 2, 20, &t);
    let exprs = expressions(&results);
    for e in ["R(2,2)", "R(2,3)", "R(2,5)", "R(2,7)", "R(2,13)", "R(2,17)", "R(2,19)"] {
        assert!(exprs.contains(&e), "{}", e);
    }
}

#[test]
fn repunit_small_base_searches_nothing() {
    let t = tables();
    let (results, tested) = search_repunit(1, 2, 20, &t);
    assert!(results.is_empty());
    assert_eq!(tested, 0);
}

#[test]
fn test_primorial_small() {
    let t = tables();
    let (results, _) = search_primorial(2, 7, &t);
    let exprs = expressions(&results);
    assert!(exprs.contains(&"2#+1"));
    assert!(exprs.contains(&"3#+1"));
    assert!(exprs.contains(&"3#-1"));
    assert!(exprs.contains(&"5#+1"));
    assert!(exprs.contains(&"5#-1"));
    assert!(exprs.contains(&"7#+1"));
    assert!(!exprs.contains(&"7#-1"));
}

#[test]
fn primorial_starts_mid_range() {
    let t = tables();
    // primes 5 and 7: 30 ± 1 and 210 ± 1
    let (results, tested) = search_primorial(4, 10, &t);
    assert_eq!(expressions(&results), vec!["5#+1", "5#-1", "7#+1"]);
    assert_eq!(tested, 4);
}

#[test]
fn test_carol_kynea_small() {
    let t = tables();
    let (results, _) = search_carol_kynea(2, 5, &t);
    let exprs = expressions(&results);
    assert!(exprs.contains(&"(2^2-1)^2-2"));
    assert!(exprs.contains(&"(2^3-1)^2-2"));
    assert!(exprs.contains(&"(2^4-1)^2-2"));
    assert!(!exprs.contains(&"(2^5-1)^2-2"));
    assert!(exprs.contains(&"(2^2+1)^2-2"));
    assert!(exprs.contains(&"(2^3+1)^2-2"));
}

#[test]
fn carol_kynea_small_exponents() {
    let t = tables();
    // n = 0: Kynea (1+1)^2-2 = 2 is prime, Carol not tested;
    // n = 1: Carol (1)^2 ≤ 2 not tested, Kynea 3^2-2 = 7 prime
    let (results, tested) = search_carol_kynea(0, 1, &t);
    assert_eq!(expressions(&results), vec!["(2^0+1)^2-2", "(2^1+1)^2-2"]);
    assert_eq!(tested, 2);
}

#[test]
fn test_gen_fermat_base2() {
    let t = tables();
    let (results, _) = search_gen_fermat(2, 0, 4, &t);
    assert_eq!(results.len(), 5);
    let exprs = expressions(&results);
    for e in ["2^(2^0)+1", "2^(2^1)+1", "2^(2^2)+1", "2^(2^3)+1", "2^(2^4)+1"] {
        assert!(exprs.contains(&e), "{}", e);
    }
}

#[test]
fn test_gen_fermat_f5_composite() {
    let t = tables();
    let (results, tested) = search_gen_fermat(2, 5, 5, &t);
    assert_eq!(tested, 1);
    assert!(results.is_empty());
}

#[test]
fn test_wagstaff_small() {
    let t = tables();
    let (results, _) = search_wagstaff(3, 31, &t);
    let exprs = expressions(&results);
    for e in ["(2^3+1)/3", "(2^5+1)/3", "(2^7+1)/3", "(2^11+1)/3", "(2^13+1)/3"] {
        assert!(exprs.contains(&e), "{}", e);
    }
}

#[test]
fn test_wagstaff_skips_p2() {
    let t = tables();
    let (results, tested) = search_wagstaff(2, 2, &t);
    assert!(results.is_empty());
    assert_eq!(tested, 0);
}

#[test]
fn test_palindromic_1digit() {
    let t = tables();
    let (results, _) = search_palindromic(10, 1, 1, &t);
    assert_eq!(expressions(&results), vec!["2", "3", "5", "7"]);
}

#[test]
fn test_palindromic_3digit_count() {
    let t = tables();
    let (results, tested) = search_palindromic(10, 3, 3, &t);
    assert_eq!(results.len(), 15);
    assert_eq!(tested, 90);
    let exprs = expressions(&results);
    assert!(exprs.contains(&"101"));
    assert!(exprs.contains(&"131"));
    assert!(exprs.contains(&"929"));
}

#[test]
fn test_palindromic_skips_even_digits() {
    let t = tables();
    let (results, tested) = search_palindromic(10, 2, 2, &t);
    assert!(results.is_empty());
    assert_eq!(tested, 0);
}

#[test]
fn palindromic_base2() {
    let t = tables();
    // 3-digit binary palindromes 101, 111 = 5, 7
    let (results, tested) = search_palindromic(2, 3, 3, &t);
    assert_eq!(expressions(&results), vec!["5", "7"]);
    assert_eq!(tested, 2);
}

#[test]
fn test_near_repdigit_3digit() {
    let t = tables();
    let (results, tested) = search_near_repdigit(10, 3, 3, &t);
    assert!(tested > 0);
    let exprs = expressions(&results);
    assert!(exprs.contains(&"101"));
    for r in &results {
        let n = BigNat::from_u64(r.expression.parse::<u64>().unwrap());
        assert!(is_prime(&n, &t), "{} should be prime", r.expression);
    }
}

#[test]
fn near_repdigit_counts_distinct_palindromes() {
    let t = tables();
    // base 3, 3 digits, in search order: 212 101 121 (b = 1), then 121 202
    // 212 (b = 2), of which 121 and 212 repeat.
    let (results, tested) = search_near_repdigit(3, 3, 3, &t);
    assert_eq!(tested, 4);
    // 101₃ = 10, 121₃ = 16, 202₃ = 20, 212₃ = 23 (prime)
    assert_eq!(expressions(&results), vec!["23"]);
}

#[test]
fn test_near_repdigit_skips_even_digits() {
    let t = tables();
    let (results, tested) = search_near_repdigit(10, 2, 2, &t);
    assert!(results.is_empty());
    assert_eq!(tested, 0);
}

#[test]
fn test_empty_ranges() {
    let t = tables();
    let (results, tested) = search_kbn(1, 2, 1, 10, 5, &t);
    assert!(results.is_empty());
    assert_eq!(tested, 0);
    let (results, tested) = search_sophie_germain(100, 50, &t);
    assert!(results.is_empty());
    assert_eq!(tested, 0);
}

// ── block entry point ───────────────────────────────────────────────

#[test]
fn test_search_block_all_forms() {
    let forms: &[(&str, &str, u64, u64)] = &[
        ("kbn", r#"{"k":1,"base":2,"sign":1}"#, 1, 10),
        ("twin", "{}", 3, 50),
        ("factorial", "{}", 1, 5),
        ("sophie_germain", "{}", 2, 30),
        ("cullen_woodall", "{}", 1, 6),
        ("repunit", r#"{"base":2}"#, 2, 7),
        ("primorial", "{}", 2, 5),
        ("carol_kynea", "{}", 2, 4),
        ("gen_fermat", r#"{"base":2}"#, 0, 4),
        ("wagstaff", "{}", 3, 7),
        ("palindromic", r#"{"base":10}"#, 1, 3),
        ("near_repdigit", r#"{"base":10}"#, 3, 3),
    ];
    for &(form, params, start, end) in forms {
        let result = search_block(form, params, start, end);
        let parsed: serde_json::Value = serde_json::from_str(&result).unwrap();
        let tested = parsed["tested"].as_u64().unwrap();
        let primes_arr = parsed["primes"].as_array().unwrap();
        assert!(tested > 0, "Form '{}' should test at least one candidate", form);
        assert!(!primes_arr.is_empty(), "Form '{}' should find at least one prime", form);
    }
}

#[test]
fn test_search_block_unknown_form() {
    let result = search_block("nonexistent", "{}", 1, 10);
    let parsed: serde_json::Value = serde_json::from_str(&result).unwrap();
    assert_eq!(parsed["tested"].as_u64().unwrap(), 0);
    assert!(parsed["primes"].as_array().unwrap().is_empty());
}

#[test]
fn search_block_exact_json() {
    let result = search_block("kbn", r#"{"k":1,"base":2,"sign":-1}"#, 2, 3);
    assert_eq!(
        result,
        format!(
            "{}{}",
            r#"{"primes":[{"digits":1,"expression":"2^2-1","form":"kbn","proof_method":"miller_rabin_12_browser_wasm"},"#,
            r#"{"digits":1,"expression":"2^3-1","form":"kbn","proof_method":"miller_rabin_12_browser_wasm"}],"tested":2}"#
        )
    );
    assert_eq!(search_block("nonexistent", "{}", 1, 10), r#"{"primes":[],"tested":0}"#);
}

#[test]
fn search_block_parameters_and_defaults() {
    // missing parameters take the form defaults (k=1, base=2, sign=+1)
    assert_eq!(search_block("kbn", "{}", 1, 2), search_block_with("kbn", None, None, None, 1, 2));
    assert_eq!(
        search_block("kbn", "not json", 1, 2),
        search_block_with("kbn", Some(1), Some(2), Some(1), 1, 2)
    );
    // the sign is read as an 8-bit value: 255 is -1
    assert_eq!(
        search_block("kbn", r#"{"sign":255}"#, 2, 3),
        search_block_with("kbn", None, None, Some(-1), 2, 3)
    );
    // repunit defaults to base 10
    assert_eq!(
        search_block("repunit", "{}", 2, 3),
        search_block_with("repunit", None, Some(10), None, 2, 3)
    );
}

#[test]
fn test_search_block_hashed_has_hash() {
    let result = search_block_hashed("kbn", r#"{"k":1,"base":2,"sign":1}"#, 1, 10);
    let parsed: serde_json::Value = serde_json::from_str(&result).unwrap();
    assert!(parsed["result_hash"].is_string());
    assert_eq!(parsed["result_hash"].as_str().unwrap().len(), 64);
}

#[test]
fn test_search_block_hashed_deterministic() {
    let r1 = search_block_hashed("twin", "{}", 3, 50);
    let r2 = search_block_hashed("twin", "{}", 3, 50);
    let p1: serde_json::Value = serde_json::from_str(&r1).unwrap();
    let p2: serde_json::Value = serde_json::from_str(&r2).unwrap();
    assert_eq!(p1["result_hash"], p2["result_hash"]);
}

#[test]
fn test_search_block_hashed_different_inputs() {
    let r1 = search_block_hashed("kbn", r#"{"k":1,"base":2,"sign":1}"#, 1, 10);
    let r2 = search_block_hashed("kbn", r#"{"k":1,"base":2,"sign":1}"#, 1, 20);
    let p1: serde_json::Value = serde_json::from_str(&r1).unwrap();
    let p2: serde_json::Value = serde_json::from_str(&r2).unwrap();
    assert_ne!(p1["result_hash"], p2["result_hash"]);
}

#[test]
fn search_block_hashed_hashes_canonical_text() {
    let result = search_block_hashed("kbn", r#"{"k":1,"base":2,"sign":-1}"#, 2, 3);
    let primes = format!(
        "{}{}",
        r#"[{"digits":1,"expression":"2^2-1","form":"kbn","proof_method":"miller_rabin_12_browser_wasm"},"#,
        r#"{"digits":1,"expression":"2^3-1","form":"kbn","proof_method":"miller_rabin_12_browser_wasm"}]"#
    );
    let canonical = format!("kbn:2:3:2:{}", primes);
    let mut hasher = sha2::Sha256::new();
    hasher.update(canonical.as_bytes());
    let hash = format!("{:x}", hasher.finalize());
    assert_eq!(result, format!(r#"{{"primes":{},"result_hash":"{}","tested":2}}"#, primes, hash));
}

// ── building blocks ─────────────────────────────────────────────────

#[test]
fn test_is_prime_u64_basic() {
    assert!(!is_prime_u64(0));
    assert!(!is_prime_u64(1));
    assert!(is_prime_u64(2));
    assert!(is_prime_u64(3));
    assert!(!is_prime_u64(4));
    assert!(is_prime_u64(5));
    assert!(is_prime_u64(97));
    assert!(!is_prime_u64(100));
}

#[test]
fn test_build_palindrome() {
    assert!(build_palindrome(&[1, 2], 10).eq_u64(121));
    assert!(build_palindrome(&[1, 2, 3], 10).eq_u64(12321));
    assert!(build_palindrome(&[5], 10).eq_u64(5));
    assert!(build_palindrome(&[1, 0], 2).eq_u64(5));
    assert!(build_palindrome(&[], 10).eq_u64(0));
}

#[test]
fn increment_half_odometer() {
    let mut h = vec![1, 9];
    assert!(increment_half(&mut h, 10));
    assert_eq!(h, vec![2, 0]);
    let mut h = vec![9, 9];
    assert!(!increment_half(&mut h, 10));
    assert_eq!(h, vec![0, 0]);
}

#[test]
fn test_mod_small_basic() {
    assert_eq!(BigNat::from_u64(100).mod_small(7), 2);
    assert_eq!(BigNat::from_u64(17).mod_small(17), 0);
    assert_eq!(BigNat::from_u64(1).mod_small(3), 1);
    assert_eq!(BigNat::from_u64(0).mod_small(5), 0);
}

#[test]
fn test_mod_small_large() {
    let big = BigNat::from_u64(2).pow(128);
    assert_eq!(big.mod_small(7), 4);
}

#[test]
fn test_mont_ctx_roundtrip() {
    let ctx = MontCtx::new(97);
    for a in 0..97u64 {
        let a_mont = ctx.to_mont(a);
        assert_eq!(ctx.from_mont(a_mont), a, "roundtrip failed for a={}", a);
    }
}

#[test]
fn test_mont_ctx_mul() {
    let ctx = MontCtx::new(97);
    let a_mont = ctx.to_mont(42);
    let b_mont = ctx.to_mont(55);
    assert_eq!(ctx.from_mont(ctx.mul(a_mont, b_mont)), (42u64 * 55) % 97);
}

#[test]
fn test_mont_ctx_pow_mod() {
    let ctx = MontCtx::new(97);
    let base_mont = ctx.to_mont(3);
    assert_eq!(ctx.from_mont(ctx.pow_mod(base_mont, 10)), 73);
}

#[test]
fn test_modular_sieve_kbn_no_false_negatives() {
    let t = tables();
    let survivors = modular_sieve_kbn(1, 2, -1, 2, 10, &t);
    assert!(survivors[0]);
    assert!(survivors[1]);
    assert!(survivors[3]);
    assert!(survivors[5]);
}

#[test]
fn test_modular_sieve_kbn_eliminates_composites() {
    let t = tables();
    let survivors = modular_sieve_kbn(1, 2, -1, 14, 18, &t);
    assert!(!survivors[0], "2^14-1=16383 should be sieved out");
    assert!(!survivors[1], "2^15-1=32767 should be sieved out");
    assert!(!survivors[2], "2^16-1=65535 should be sieved out");
    assert!(survivors[3], "2^17-1=131071 is prime and should survive");
}

#[test]
fn test_mr_witness_basic() {
    // 560 = 2^4 · 35
    let n = BigNat::from_u64(561);
    let d = BigNat::from_u64(35);
    assert!(!mr_witness(&n, 2, &d, 4), "561 should be detected as composite by witness 2");
}

#[test]
fn test_mr_prescreen_catches_composites() {
    for c in [15u64, 21, 35, 91, 105, 341, 561, 1105] {
        assert!(!miller_rabin(&BigNat::from_u64(c)), "{} should be identified as composite", c);
    }
}

#[test]
fn miller_rabin_accepts_primes() {
    for p in [2u64, 3, 5, 7, 97, 7919, 1_000_000_007, 0xFFFF_FFFF_FFFF_FFC5] {
        assert!(miller_rabin(&BigNat::from_u64(p)), "{}", p);
    }
    assert!(!miller_rabin(&BigNat::from_u64(1)));
    assert!(!miller_rabin(&BigNat::from_u64(0)));
}

#[test]
fn block_fits_check_matches_machine_limits() {
    assert!(darkreach::search::block::block_fits_check("kbn", 1, 100));
    assert!(darkreach::search::block::block_fits_check("twin", 0, u64::MAX));
    assert!(darkreach::search::block::block_fits_check("kbn", 100, 1));
    if usize::BITS == 64 {
        assert!(!darkreach::search::block::block_fits_check("kbn", 0, u64::MAX));
        assert!(darkreach::search::block::block_fits_check("palindromic", 0, u64::MAX));
    }
}
