use darkreach::dashboard::contribute::{
    check_contribution, contribution_canonical_text, expected_result_hash, result_hash_verified,
    work_claim, ContributedPrime, ContributionError, result_admission, completion_credit, credits_earned,
    ResultAdmission, PRIME_CREDIT,
};
use darkreach::search::block::search_block_hashed;

fn prime(digits: u64, expression: &str, form: &str, proof_method: &str) -> ContributedPrime {
    ContributedPrime {
        digits,
        expression: expression.to_string(),
        form: form.to_string(),
        proof_method: proof_method.to_string(),
    }
}

#[test]
fn wasm_claim_runs_every_form() {
    let c = work_claim(Some("wasm"), None);
    assert_eq!(c.os, "browser-wasm");
    assert!(c.excluded_forms.is_empty());
    assert_eq!(c.batch_size, 1);
}

#[test]
fn js_claim_excludes_heavy_forms() {
    let c = work_claim(None, Some(2));
    assert_eq!(c.os, "browser");
    assert_eq!(c.excluded_forms, vec!["factorial", "palindromic", "near_repdigit"]);
    assert_eq!(c.batch_size, 2);
    assert_eq!(work_claim(Some("js"), None).os, "browser");
}

#[test]
fn claim_batch_is_clamped() {
    assert_eq!(work_claim(None, Some(0)).batch_size, 1);
    assert_eq!(work_claim(None, Some(-7)).batch_size, 1);
    assert_eq!(work_claim(None, Some(3)).batch_size, 3);
    assert_eq!(work_claim(None, Some(50)).batch_size, 3);
}

#[test]
fn sound_result_passes() {
    let ps = vec![prime(4, "7331", "palindromic", "m")];
    assert_eq!(check_contribution(100, 1, &ps, Some(5_000), Some((1000, 2000))), Ok(()));
    assert_eq!(check_contribution(0, 0, &[], None, None), Ok(()));
}

#[test]
fn tested_outside_block_is_refused() {
    assert_eq!(
        check_contribution(1001, 0, &[], None, Some((1000, 2000))),
        Err(ContributionError::TestedOutOfRange)
    );
    assert_eq!(
        check_contribution(-1, 0, &[], None, Some((1000, 2000))),
        Err(ContributionError::TestedOutOfRange)
    );
    // An inverted block has size zero.
    assert_eq!(
        check_contribution(1, 0, &[], None, Some((10, 5))),
        Err(ContributionError::TestedOutOfRange)
    );
    assert_eq!(check_contribution(0, 0, &[], None, Some((10, 5))), Ok(()));
}

#[test]
fn found_must_match_primes() {
    let ps = vec![prime(4, "7331", "palindromic", "m")];
    assert_eq!(check_contribution(5, 2, &ps, None, None), Err(ContributionError::FoundMismatch));
    assert_eq!(check_contribution(5, -1, &ps, None, None), Err(ContributionError::FoundMismatch));
}

#[test]
fn too_many_primes_are_refused() {
    let ps: Vec<ContributedPrime> = (0..201).map(|_| prime(3, "101", "palindromic", "m")).collect();
    assert_eq!(check_contribution(5, 201, &ps, None, None), Err(ContributionError::TooManyPrimes));
    let ok: Vec<ContributedPrime> = (0..200).map(|_| prime(3, "101", "palindromic", "m")).collect();
    assert_eq!(check_contribution(5, 200, &ok, None, None), Ok(()));
}

#[test]
fn digit_counts_are_bounded() {
    let zero = vec![prime(0, "x", "kbn", "m")];
    assert_eq!(check_contribution(5, 1, &zero, None, None), Err(ContributionError::InvalidDigits));
    let huge = vec![prime(3, "101", "kbn", "m"), prime(1_000_001, "x", "kbn", "m")];
    assert_eq!(check_contribution(5, 2, &huge, None, None), Err(ContributionError::InvalidDigits));
    let top = vec![prime(1_000_000, "x", "kbn", "m")];
    assert_eq!(check_contribution(5, 1, &top, None, None), Ok(()));
}

#[test]
fn durations_are_bounded() {
    assert_eq!(check_contribution(5, 0, &[], Some(-1), None), Err(ContributionError::InvalidDuration));
    assert_eq!(
        check_contribution(5, 0, &[], Some(86_400_001), None),
        Err(ContributionError::InvalidDuration)
    );
    assert_eq!(check_contribution(5, 0, &[], Some(86_400_000), None), Ok(()));
}

#[test]
fn refusal_messages() {
    assert_eq!(ContributionError::TestedOutOfRange.message(), "tested count out of range");
    assert_eq!(ContributionError::FoundMismatch.message(), "found count doesn't match primes array");
    assert_eq!(ContributionError::TooManyPrimes.message(), "too many primes reported");
    assert_eq!(ContributionError::InvalidDigits.message(), "invalid prime digit count");
    assert_eq!(ContributionError::InvalidDuration.message(), "invalid duration");
}

#[test]
fn canonical_text_and_hash_of_a_result() {
    let ps = vec![prime(2, "3*2^2-1", "kbn", "x\"y")];
    assert_eq!(
        contribution_canonical_text("kbn", -5, 10, 3, &ps),
        r#"kbn:-5:10:3:[{"digits":2,"expression":"3*2^2-1","form":"kbn","proof_method":"x\"y"}]"#
    );
    assert_eq!(
        expected_result_hash("kbn", -5, 10, 3, &ps),
        "b2278fa17116ddd033ab4b8692e9244fe01cb0aa09ab06dc06230a81e16c972a"
    );
    assert_eq!(
        expected_result_hash("twin", 0, 0, 0, &[]),
        "3aa5b79aa74fac583ce2ad22afd134f4c078b83d5fa3bce8583722baf7b4198f"
    );
}

#[test]
fn server_recomputes_the_worker_hash() {
    let out = search_block_hashed("kbn", r#"{"k":3,"base":2,"sign":-1}"#, 1, 40);
    let v: serde_json::Value = serde_json::from_str(&out).unwrap();
    let tested = v["tested"].as_i64().unwrap();
    let primes: Vec<ContributedPrime> = v["primes"]
        .as_array()
        .unwrap()
        .iter()
        .map(|p| {
            prime(
                p["digits"].as_u64().unwrap(),
                p["expression"].as_str().unwrap(),
                p["form"].as_str().unwrap(),
                p["proof_method"].as_str().unwrap(),
            )
        })
        .collect();
    assert!(!primes.is_empty());
    let claimed = v["result_hash"].as_str().unwrap();
    assert_eq!(expected_result_hash("kbn", 1, 40, tested, &primes), claimed);
    assert!(result_hash_verified(claimed, "kbn", 1, 40, tested, &primes));
    assert!(!result_hash_verified(claimed, "kbn", 1, 41, tested, &primes));
}

#[test]
fn admission_refuses_another_operators_block() {
    let g = result_admission(Some(7), 8, Some("claimed"));
    assert_eq!(g, ResultAdmission::NotClaimer);
    assert_eq!(g.status_code(), 403);
    assert_eq!(g.message(), "Block not claimed by this operator");
    // the claimer check comes before the completed short cut
    assert_eq!(result_admission(Some(7), 8, Some("completed")), ResultAdmission::NotClaimer);
}

#[test]
fn admission_answers_completed_blocks() {
    let g = result_admission(Some(8), 8, Some("completed"));
    assert_eq!(g, ResultAdmission::AlreadyCompleted);
    assert_eq!(g.status_code(), 200);
    assert_eq!(g.message(), "already_completed");
    assert_eq!(result_admission(None, 8, Some("completed")), ResultAdmission::AlreadyCompleted);
}

#[test]
fn admission_lets_own_or_unknown_blocks_through() {
    assert_eq!(result_admission(Some(8), 8, Some("claimed")), ResultAdmission::Proceed);
    assert_eq!(result_admission(None, 8, None), ResultAdmission::Proceed);
    assert_eq!(result_admission(None, 8, Some("Completed")), ResultAdmission::Proceed);
}

#[test]
fn completion_credit_is_half_tested_at_least_one() {
    assert_eq!(completion_credit(10_000, true, true), Some(5_000));
    assert_eq!(completion_credit(7, false, false), Some(3));
    assert_eq!(completion_credit(1, false, false), Some(1));
    assert_eq!(completion_credit(0, false, false), Some(1));
    assert_eq!(completion_credit(-5, false, false), Some(1));
    assert_eq!(completion_credit(10_000, true, false), None);
}

#[test]
fn credits_add_prime_bonus_and_completion() {
    assert_eq!(credits_earned(2, Some(5_000)), 2 * PRIME_CREDIT + 5_000);
    assert_eq!(credits_earned(0, None), 0);
    assert_eq!(credits_earned(3, None), 3_000);
}
