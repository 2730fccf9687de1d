use darkreach::bignum::seq_iter::for_each;
use darkreach::bignum::{is_probably_prime_native, BigNat};
use std::cell::Cell;

#[test]
fn native_primes_pass() {
    for p in [2u64, 3, 5, 7, 11, 13, 101, 1009, 10007, 104729] {
        assert!(is_probably_prime_native(&BigNat::from_u64(p), 25), "Native MR rejected prime {}", p);
    }
}

#[test]
fn native_composites_fail() {
    for c in [4u64, 6, 8, 9, 15, 21, 25, 100, 1001] {
        assert!(!is_probably_prime_native(&BigNat::from_u64(c), 25), "Native MR accepted composite {}", c);
    }
}

#[test]
fn big_integer_construction() {
    let n = BigNat::from_u64(42);
    assert!(BigNat::from_u64(0).lt(&n));
}

#[test]
fn native_edge_cases() {
    assert!(!is_probably_prime_native(&BigNat::from_u64(0), 25));
    assert!(!is_probably_prime_native(&BigNat::from_u64(1), 25));
    // with no rounds every odd number passes
    assert!(is_probably_prime_native(&BigNat::from_u64(9), 0));
    // base 2 alone is fooled by the strong pseudoprime 2047 = 23·89
    assert!(is_probably_prime_native(&BigNat::from_u64(2047), 1));
    assert!(!is_probably_prime_native(&BigNat::from_u64(2047), 2));
}

#[test]
fn for_each_visits_in_order() {
    let seen = Cell::new(0u64);
    for_each(&[1u64, 2, 3], |x: &u64| seen.set(seen.get() * 10 + *x));
    assert_eq!(seen.get(), 123);
}
