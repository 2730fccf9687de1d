use darkreach::aurifeuillean::{
    aurifeuillean_factors, aurifeuillean_factors_base2, has_aurifeuillean_factorization,
    square_free_decomposition,
};
use darkreach::bignum::BigNat;

/// Square-free decomposition: 12 = 2² × 3, so s=2, t=3.
#[test]
fn square_free_decomposition_basic() {
    assert_eq!(square_free_decomposition(1), (1, 1));
    assert_eq!(square_free_decomposition(2), (1, 2));
    assert_eq!(square_free_decomposition(3), (1, 3));
    assert_eq!(square_free_decomposition(4), (2, 1)); // 2² × 1
    assert_eq!(square_free_decomposition(12), (2, 3)); // 2² × 3
    assert_eq!(square_free_decomposition(18), (3, 2)); // 3² × 2
    assert_eq!(square_free_decomposition(50), (5, 2)); // 5² × 2
    assert_eq!(square_free_decomposition(72), (6, 2)); // 6² × 2
}

#[test]
fn square_free_decomposition_edges() {
    assert_eq!(square_free_decomposition(0), (1, 0));
    assert_eq!(square_free_decomposition(1 << 62), (1 << 31, 1));
    // 2^40 * 3 * 7 * 7: s = 2^20 * 7, t = 3
    assert_eq!(square_free_decomposition((1u64 << 40) * 147), ((1 << 20) * 7, 3));
}

/// Detection: base 2 with 4k-2 exponents should be flagged.
#[test]
fn has_aurifeuillean_base2() {
    assert!(has_aurifeuillean_factorization(2, 6));
    assert!(has_aurifeuillean_factorization(2, 10));
    assert!(has_aurifeuillean_factorization(2, 14));
    assert!(!has_aurifeuillean_factorization(2, 4));
    assert!(!has_aurifeuillean_factorization(2, 8));
    assert!(!has_aurifeuillean_factorization(2, 12));
}

/// Detection: base 5 with t=5 ≡ 1 (mod 4), n ≡ 5 (mod 10).
#[test]
fn has_aurifeuillean_base5() {
    assert!(has_aurifeuillean_factorization(5, 5));
    assert!(has_aurifeuillean_factorization(5, 15));
    assert!(has_aurifeuillean_factorization(5, 25));
    assert!(!has_aurifeuillean_factorization(5, 10));
    assert!(!has_aurifeuillean_factorization(5, 20));
}

/// Perfect square bases (t=1) should not have Aurifeuillean factorizations.
#[test]
fn no_aurifeuillean_for_perfect_squares() {
    assert!(!has_aurifeuillean_factorization(4, 5));
    assert!(!has_aurifeuillean_factorization(9, 3));
    assert!(!has_aurifeuillean_factorization(16, 7));
}

/// Edge cases: base 0, base 1, exponent 0.
#[test]
fn edge_cases() {
    assert!(!has_aurifeuillean_factorization(0, 10));
    assert!(!has_aurifeuillean_factorization(1, 10));
    assert!(!has_aurifeuillean_factorization(2, 0));
}

/// Base 3: t=3 ≡ 3 (mod 4), n ≡ 3 (mod 6).
#[test]
fn has_aurifeuillean_base3() {
    assert!(has_aurifeuillean_factorization(3, 3));
    assert!(has_aurifeuillean_factorization(3, 9));
    assert!(has_aurifeuillean_factorization(3, 15));
    assert!(!has_aurifeuillean_factorization(3, 6));
    assert!(!has_aurifeuillean_factorization(3, 12));
}

#[test]
fn has_aurifeuillean_large_square_free_part() {
    // base 4·13 = 52: t = 13 ≡ 1 (mod 4), exponents ≡ 13 (mod 26)
    assert!(has_aurifeuillean_factorization(52, 13));
    assert!(has_aurifeuillean_factorization(52, 39));
    assert!(!has_aurifeuillean_factorization(52, 26));
    // base 2^62 · 2: t = 2 but base != 2
    assert!(!has_aurifeuillean_factorization(1 << 63, 6));
    // base 12 = 2² × 3: t = 3
    assert!(has_aurifeuillean_factorization(12, 9));
    assert!(!has_aurifeuillean_factorization(12, 7));
}

#[test]
fn aurifeuillean_base2_k2() {
    let (l, m) = aurifeuillean_factors_base2(6).unwrap();
    assert!(l.eq_u64(5));
    assert!(m.eq_u64(13));
    assert!(l.mul(&m).equals(&BigNat::from_u64(2).pow(6).add(&BigNat::one())));
}

#[test]
fn aurifeuillean_base2_k3() {
    let (l, m) = aurifeuillean_factors_base2(10).unwrap();
    assert!(l.eq_u64(25));
    assert!(m.eq_u64(41));
    assert!(l.mul(&m).equals(&BigNat::from_u64(2).pow(10).add(&BigNat::one())));
}

#[test]
fn aurifeuillean_base2_k4() {
    let (l, m) = aurifeuillean_factors_base2(14).unwrap();
    assert!(l.eq_u64(113));
    assert!(m.eq_u64(145));
    assert!(l.mul(&m).equals(&BigNat::from_u64(2).pow(14).add(&BigNat::one())));
}

#[test]
fn aurifeuillean_base2_product_identity() {
    for n in [6u64, 10, 14, 18, 22, 26, 30] {
        let (l, m) = aurifeuillean_factors_base2(n).unwrap();
        let expected = BigNat::from_u64(2).pow(n as u32).add(&BigNat::one());
        assert!(l.mul(&m).equals(&expected), "L*M != 2^{} + 1", n);
    }
}

#[test]
fn aurifeuillean_base2_invalid_exponents() {
    for n in [0u64, 1, 2, 3, 4, 5, 7, 8] {
        assert!(aurifeuillean_factors_base2(n).is_none(), "{}", n);
    }
}

#[test]
fn aurifeuillean_factors_only_base2() {
    assert!(aurifeuillean_factors(2, 6).is_some());
    assert!(aurifeuillean_factors(5, 5).is_none());
    assert!(aurifeuillean_factors(3, 3).is_none());
    let (l, m) = aurifeuillean_factors(2, 102).unwrap();
    assert!(l.mul(&m).equals(&BigNat::from_u64(2).pow(102).add(&BigNat::one())));
}

#[test]
fn square_factor_of_base_does_not_change_verdict() {
    for e in 1u64..40 {
        assert_eq!(has_aurifeuillean_factorization(45, e), has_aurifeuillean_factorization(5, e));
        assert_eq!(has_aurifeuillean_factorization(12, e), has_aurifeuillean_factorization(3, e));
        assert_eq!(has_aurifeuillean_factorization(7 * 36, e), has_aurifeuillean_factorization(7, e));
    }
    assert!(has_aurifeuillean_factorization(45, 15));
    assert!(!has_aurifeuillean_factorization(45, 7));
}
