use darkreach::bignum::BigNat;
use darkreach::ecm::{
    adaptive_ecm_filter, ecm_one_curve, ecm_stage1, ecm_stage2, point_add, point_double,
    random_curve_and_point, scalar_mul, splitmix, EdwardsPoint,
};

fn big(v: u64) -> BigNat {
    BigNat::from_u64(v)
}

fn divides(d: &BigNat, n: &BigNat) -> bool {
    n.rem(d).eq_u64(0)
}

/// ECM Stage 1 finds a smooth factor in a small semiprime.
#[test]
fn ecm_stage1_finds_small_factor() {
    // n = 41 * 10007; the group orders mod 41 lie in [28, 54], all 2000-smooth.
    let n = big(41 * 10007);
    let mut found = false;
    for seed in 1..500u64 {
        if let Some((curve, point)) = random_curve_and_point(&n, seed) {
            if let Some(factor) = ecm_stage1(&point, &curve.d, &n, 2000) {
                assert!(divides(&factor, &n));
                assert!(BigNat::one().lt(&factor));
                assert!(factor.lt(&n));
                found = true;
                break;
            }
        }
    }
    assert!(found, "ECM should find a factor of 41*10007 within 500 curves");
}

/// ECM returns no factor for primes.
#[test]
fn ecm_safe_on_primes() {
    let p = big(104729);
    for seed in 1..10u64 {
        if let Some((curve, point)) = random_curve_and_point(&p, seed) {
            let result = ecm_stage1(&point, &curve.d, &p, 100);
            assert!(result.is_none(), "ECM should not find factors of primes");
        }
    }
}

/// Adaptive filter skips small candidates.
#[test]
fn ecm_adaptive_skips_small() {
    let n = big(41 * 10007);
    assert!(!adaptive_ecm_filter(&n, 10), "ECM should skip small candidates");
}

/// Edwards point identity check.
#[test]
fn edwards_identity() {
    let id = EdwardsPoint::identity();
    assert!(id.x.eq_u64(0));
    assert!(id.y.eq_u64(1));
    assert!(id.t.eq_u64(0));
    assert!(id.z.eq_u64(1));
}

/// Point doubling produces consistent results.
#[test]
fn edwards_doubling_consistency() {
    let n = big(1000003);
    if let Some((_curve, point)) = random_curve_and_point(&n, 42) {
        let doubled = point_double(&point, &n);
        let z_mod = doubled.z.rem(&n);
        assert!(!z_mod.lt(&BigNat::zero()));
    }
}

/// Scalar multiplication by 1 returns the original point.
#[test]
fn scalar_mul_identity() {
    let n = big(1000003);
    if let Some((curve, point)) = random_curve_and_point(&n, 7) {
        let result = scalar_mul(&big(1), &point, &curve.d, &n);
        let x1 = point.x.mul(&result.z).rem(&n);
        let x2 = result.x.mul(&point.z).rem(&n);
        assert!(x1.equals(&x2), "1*P should equal P");
    }
}

/// Scalar multiplication by 0 returns the identity.
#[test]
fn scalar_mul_zero() {
    let n = big(1000003);
    if let Some((curve, point)) = random_curve_and_point(&n, 7) {
        let result = scalar_mul(&big(0), &point, &curve.d, &n);
        assert!(result.x.eq_u64(0));
        assert!(result.y.eq_u64(1));
    }
}

/// ECM on a semiprime whose factors p have p − 1 non-smooth; ECM is
/// probabilistic, so finding nothing is allowed, but whatever it reports
/// must divide n.
#[test]
fn ecm_finds_factor_p1_misses() {
    let n = big(1000000007).mul(&big(1000000009));
    for seed in 1..100u64 {
        if let Some(factor) = ecm_one_curve(&n, 10_000, 1_000_000, seed) {
            assert!(divides(&factor, &n));
            break;
        }
    }
}

#[test]
fn splitmix_reference_value() {
    // The first SplitMix64 output from state 0.
    assert_eq!(splitmix(0), 0xe220a8397b1dcdaf);
    assert_ne!(splitmix(1), splitmix(0));
}

#[test]
fn seeded_point_lies_on_its_curve() {
    let n = big(1000003);
    let mut curves = 0;
    for seed in 1..20u64 {
        if let Some((curve, p)) = random_curve_and_point(&n, seed) {
            curves += 1;
            let x2 = p.x.mul(&p.x).rem(&n);
            let y2 = p.y.mul(&p.y).rem(&n);
            // −x² + y² ≡ 1 + d·x²·y² (mod n), compared after adding n·x² to stay natural.
            let lhs = y2.add(&n).sub(&x2).rem(&n);
            let rhs = big(1).add(&curve.d.mul(&x2).mul(&y2)).rem(&n);
            assert!(lhs.equals(&rhs));
            assert!(p.z.eq_u64(1));
            assert!(p.t.equals(&p.x.mul(&p.y).rem(&n)));
            assert!(!curve.d.eq_u64(0));
        }
    }
    assert!(curves > 0);
}

#[test]
fn no_curve_modulo_one() {
    assert!(random_curve_and_point(&big(1), 5).is_none());
}

#[test]
fn scalar_mul_two_is_doubling() {
    let n = big(1000003);
    let (curve, point) = (1..50u64)
        .find_map(|s| random_curve_and_point(&n, s))
        .expect("a curve");
    let twice = scalar_mul(&big(2), &point, &curve.d, &n);
    let doubled = point_double(&point, &n);
    assert!(twice.x.equals(&doubled.x));
    assert!(twice.y.equals(&doubled.y));
    assert!(twice.t.equals(&doubled.t));
    assert!(twice.z.equals(&doubled.z));
    let thrice = scalar_mul(&big(3), &point, &curve.d, &n);
    let added = point_add(&doubled, &point, &curve.d, &n);
    assert!(thrice.x.equals(&added.x));
    assert!(thrice.z.equals(&added.z));
}

#[test]
fn identity_is_neutral_for_addition() {
    let n = big(1000003);
    let (curve, point) = (1..50u64)
        .find_map(|s| random_curve_and_point(&n, s))
        .expect("a curve");
    let sum = point_add(&point, &EdwardsPoint::identity(), &curve.d, &n);
    // Projectively equal: X₁·Z₂ ≡ X₂·Z₁ and Y₁·Z₂ ≡ Y₂·Z₁.
    assert!(sum.x.mul(&point.z).rem(&n).equals(&point.x.mul(&sum.z).rem(&n)));
    assert!(sum.y.mul(&point.z).rem(&n).equals(&point.y.mul(&sum.z).rem(&n)));
}

#[test]
fn one_curve_factor_divides_small_semiprime() {
    let n = big(41 * 10007);
    let mut found = false;
    for seed in 1..200u64 {
        if let Some(f) = ecm_one_curve(&n, 500, 5000, seed) {
            assert!(divides(&f, &n));
            assert!(BigNat::one().lt(&f) && f.lt(&n));
            found = true;
            break;
        }
    }
    assert!(found);
}

#[test]
fn stage2_empty_range_finds_nothing() {
    let n = big(41 * 10007);
    let (curve, point) = (1..50u64)
        .find_map(|s| random_curve_and_point(&n, s))
        .expect("a curve");
    assert!(ecm_stage2(&point, &curve.d, &n, 1000, 1000).is_none());
    assert!(ecm_stage2(&point, &curve.d, &n, 1000, 500).is_none());
}

#[test]
fn stage2_factor_is_proper() {
    let n = big(41 * 10007);
    for seed in 1..100u64 {
        if let Some((curve, point)) = random_curve_and_point(&n, seed) {
            if let Some(f) = ecm_stage2(&point, &curve.d, &n, 10, 3000) {
                assert!(divides(&f, &n));
                assert!(BigNat::one().lt(&f) && f.lt(&n));
            }
        }
    }
}

#[test]
fn identity_check_reads_x_modulo_n() {
    let n = big(1000003);
    assert!(EdwardsPoint::identity().is_identity_mod(&n));
    let (_curve, point) = (1..50u64)
        .find_map(|s| random_curve_and_point(&n, s))
        .expect("a curve");
    assert!(!point.is_identity_mod(&n));
    let shifted = EdwardsPoint { x: n.mul(&big(3)), y: big(1), t: big(0), z: big(1) };
    assert!(shifted.is_identity_mod(&n));
}
