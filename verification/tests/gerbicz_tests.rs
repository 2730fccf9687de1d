use darkreach::bignum::BigNat;
use darkreach::gerbicz::{isqrt, CheckResult, GerbiczChecker};
use std::cell::Cell;

/// Proth step: s = s² mod N
fn proth_step(s: &BigNat, n: &BigNat) -> BigNat {
    s.mul(s).rem(n)
}

/// LLR/Lucas step: u = u² − 2 mod N (Euclidean remainder)
fn lucas_step(u: &BigNat, n: &BigNat) -> BigNat {
    let sq = u.mul(u).add(n).add(n);
    sq.sub(&BigNat::from_u64(2)).rem(n)
}

fn run_checked_loop<F>(initial: &BigNat, iters: u64, modulus: &BigNat, step_fn: F) -> Option<BigNat>
where
    F: Fn(&BigNat, &BigNat) -> BigNat,
{
    let mut checker = GerbiczChecker::new(initial, iters);
    let mut s = initial.dup();
    for i in 0..iters {
        s = step_fn(&s, modulus);
        if checker.should_check(i) {
            let (result, new_s) = checker.verify_block(&s, i, modulus, &step_fn);
            s = new_s;
            if result == CheckResult::PersistentError {
                return None;
            }
        }
    }
    Some(s)
}

fn run_plain_loop<F>(initial: &BigNat, iters: u64, modulus: &BigNat, step_fn: F) -> BigNat
where
    F: Fn(&BigNat, &BigNat) -> BigNat,
{
    let mut s = initial.dup();
    for _ in 0..iters {
        s = step_fn(&s, modulus);
    }
    s
}

#[test]
fn gerbicz_mod_square_known_values() {
    let n = BigNat::from_u64(1_000_000_007);
    let initial = BigNat::from_u64(3);
    let iters = 20_000u64;
    let checked = run_checked_loop(&initial, iters, &n, proth_step).unwrap();
    let plain = run_plain_loop(&initial, iters, &n, proth_step);
    assert!(checked.equals(&plain), "Gerbicz-checked Proth loop should match plain loop");
}

#[test]
fn gerbicz_lucas_square_known_values() {
    let n = BigNat::from_u64(1_000_000_007);
    let initial = BigNat::from_u64(4);
    let iters = 20_000u64;
    let checked = run_checked_loop(&initial, iters, &n, lucas_step).unwrap();
    let plain = run_plain_loop(&initial, iters, &n, lucas_step);
    assert!(checked.equals(&plain), "Gerbicz-checked Lucas loop should match plain loop");
}

#[test]
fn gerbicz_detects_injected_error() {
    let modulus = BigNat::from_u64(1_000_000_007);
    let initial = BigNat::from_u64(3);
    let iters = 20_000u64;
    let mut checker = GerbiczChecker::new(&initial, iters);
    let mut s = initial.dup();
    let mut error_corrected = false;
    let corrupt_at = 15_000u64;
    for i in 0..iters {
        s = proth_step(&s, &modulus);
        if i == corrupt_at {
            s = s.add(&BigNat::one());
        }
        if checker.should_check(i) {
            let (result, new_s) = checker.verify_block(&s, i, &modulus, proth_step);
            s = new_s;
            match result {
                CheckResult::ErrorCorrected { .. } => {
                    error_corrected = true;
                }
                CheckResult::PersistentError => {
                    panic!("Should have corrected, not persistent error");
                }
                CheckResult::Verified => {}
            }
        }
    }
    assert!(error_corrected, "Should have detected and corrected the injected error");
    let plain = run_plain_loop(&initial, iters, &modulus, proth_step);
    assert!(s.equals(&plain), "After correction, result should match plain computation");
}

#[test]
fn gerbicz_persistent_error_returns_persistent() {
    let modulus = BigNat::from_u64(1_000_000_007);
    let initial = BigNat::from_u64(3);
    let iters = 20_000u64;
    let mut checker = GerbiczChecker::new(&initial, iters);
    let check_interval = checker.check_interval();
    let mut s = initial.dup();
    let mut checks_done = 0u32;
    let call_count = Cell::new(0u64);
    let bad_step = |state: &BigNat, m: &BigNat| -> BigNat {
        let sq = state.mul(state).rem(m);
        let c = call_count.get();
        call_count.set(c + 1);
        BigNat::from_u64(sq.to_u64().unwrap() ^ (c % 37 + 1))
    };
    for i in 0..iters {
        s = proth_step(&s, &modulus);
        if checker.should_check(i) {
            checks_done += 1;
            if checks_done >= 3 {
                s = BigNat::from_u64(s.to_u64().unwrap() ^ 42);
                let (result, new_s) = checker.verify_block(&s, i, &modulus, &bad_step);
                s = new_s;
                if result == CheckResult::PersistentError {
                    return;
                }
            } else {
                let (result, new_s) = checker.verify_block(&s, i, &modulus, proth_step);
                s = new_s;
                assert_ne!(result, CheckResult::PersistentError, "Should not get persistent error during clean checks");
            }
        }
    }
    assert!(check_interval < iters, "Checking should be enabled for {} iters (interval={})", iters, check_interval);
    panic!("Should have returned PersistentError for non-deterministic corruption");
}

#[test]
fn gerbicz_disabled_for_small_n() {
    let initial = BigNat::from_u64(3);
    let checker = GerbiczChecker::new(&initial, 5_000);
    for i in 0..5_000u64 {
        assert!(!checker.should_check(i), "Checking should be disabled for n=5000 at iter {}", i);
    }
    assert_eq!(checker.check_interval(), 5_001);
}

#[test]
fn gerbicz_check_interval_scales() {
    let initial = BigNat::from_u64(1);
    let c1 = GerbiczChecker::new(&initial, 100_000);
    let c2 = GerbiczChecker::new(&initial, 1_000_000);
    assert!(c1.check_interval() > 200 && c1.check_interval() < 500);
    assert!(c2.check_interval() > 800 && c2.check_interval() < 1200);
    assert_eq!(c1.check_interval(), 316);
    assert_eq!(c2.check_interval(), 1000);
}

#[test]
fn gerbicz_interval_clamps() {
    let initial = BigNat::from_u64(1);
    assert_eq!(GerbiczChecker::new(&initial, 10_001).check_interval(), 100);
    assert_eq!(GerbiczChecker::new(&initial, 20_000_000_000).check_interval(), 100_000);
    assert_eq!(GerbiczChecker::new(&initial, 10_000).check_interval(), 10_001);
}

#[test]
fn gerbicz_verified_block_promotes_checkpoints() {
    let modulus = BigNat::from_u64(97);
    let initial = BigNat::from_u64(3);
    let mut checker = GerbiczChecker::new(&initial, 20_000);
    let l = checker.check_interval();
    let s = run_plain_loop(&initial, l, &modulus, proth_step);
    let (result, state) = checker.verify_block(&s, l - 1, &modulus, proth_step);
    assert_eq!(result, CheckResult::Verified);
    assert!(state.equals(&s));
    let (v, it) = checker.verified_state();
    assert!(v.eq_u64(3));
    assert_eq!(it, 0);
}

#[test]
fn isqrt_values() {
    assert_eq!(isqrt(0), 0);
    assert_eq!(isqrt(99_999), 316);
    assert_eq!(isqrt(100_000), 316);
    assert_eq!(isqrt(u64::MAX), 0xFFFF_FFFF);
}
