use darkreach::batch_gcd::{batch_has_small_factor, build_product_tree, remainder_tree};
use darkreach::bignum::BigNat;
use darkreach::search::primality::has_small_factor;
use darkreach::search::primes::primes_up_to;

fn bigs(v: &[u64]) -> Vec<BigNat> {
    v.iter().map(|&x| BigNat::from_u64(x)).collect()
}

fn sequential(candidates: &[BigNat], limit: u64) -> Vec<bool> {
    let primes = primes_up_to(limit);
    candidates.iter().map(|c| has_small_factor(c, &primes)).collect()
}

#[test]
fn product_tree_basic() {
    let tree = build_product_tree(&bigs(&[2, 3, 5, 7]));
    assert_eq!(tree.len(), 3);
    assert_eq!(tree[0].len(), 4);
    assert_eq!(tree[1].len(), 2);
    assert_eq!(tree[2].len(), 1);
    assert!(tree[1][0].eq_u64(6));
    assert!(tree[1][1].eq_u64(35));
    assert!(tree[2][0].eq_u64(210));
}

#[test]
fn product_tree_odd_count() {
    let tree = build_product_tree(&bigs(&[2, 3, 5]));
    assert_eq!(tree[0].len(), 3);
    assert_eq!(tree[1].len(), 2);
    assert!(tree[1][1].eq_u64(5));
    assert_eq!(tree[2].len(), 1);
    assert!(tree[2][0].eq_u64(30));
}

#[test]
fn product_tree_single() {
    let tree = build_product_tree(&bigs(&[42]));
    assert_eq!(tree.len(), 1);
    assert!(tree[0][0].eq_u64(42));
}

#[test]
fn product_tree_empty() {
    let tree = build_product_tree(&[]);
    assert_eq!(tree.len(), 1);
    assert!(tree[0].is_empty());
}

#[test]
fn remainder_tree_basic() {
    let tree = build_product_tree(&bigs(&[6, 35, 11, 13]));
    let remainders = remainder_tree(&tree, &BigNat::from_u64(210));
    assert_eq!(remainders.len(), 4);
    assert!(remainders[0].eq_u64(0));
    assert!(remainders[1].eq_u64(0));
    assert!(remainders[2].eq_u64(1));
    assert!(remainders[3].eq_u64(2));
}

#[test]
fn remainder_tree_odd_and_empty() {
    let tree = build_product_tree(&bigs(&[7, 9, 10]));
    let remainders = remainder_tree(&tree, &BigNat::from_u64(1000));
    assert!(remainders[0].eq_u64(6));
    assert!(remainders[1].eq_u64(1));
    assert!(remainders[2].eq_u64(0));
    assert!(remainder_tree(&build_product_tree(&[]), &BigNat::from_u64(5)).is_empty());
}

#[test]
fn batch_matches_sequential_composites() {
    let candidates = bigs(&[15, 104729, 100, 1009, 6]);
    assert_eq!(batch_has_small_factor(&candidates, 311), sequential(&candidates, 311));
}

#[test]
fn batch_matches_sequential_primes() {
    let candidates = bigs(&[313, 317, 331, 337]);
    assert_eq!(batch_has_small_factor(&candidates, 311), sequential(&candidates, 311));
}

#[test]
fn batch_cross_validate_200_numbers() {
    let candidates: Vec<BigNat> = (1000u64..1200).map(BigNat::from_u64).collect();
    let batch_results = batch_has_small_factor(&candidates, 311);
    let sequential_results = sequential(&candidates, 311);
    for (i, (b, s)) in batch_results.iter().zip(sequential_results.iter()).enumerate() {
        assert_eq!(b, s, "Mismatch at index {} (candidate {})", i, 1000 + i);
    }
}

#[test]
fn batch_empty() {
    assert!(batch_has_small_factor(&[], 311).is_empty());
}

#[test]
fn batch_single() {
    assert_eq!(batch_has_small_factor(&bigs(&[15]), 311), vec![true]);
}

#[test]
fn batch_flags_divisors_of_the_primorial_like_trial_division() {
    // In a large batch, a candidate dividing P is flagged unless it is 1 or
    // one of the sieve primes itself.
    let mut v: Vec<u64> = vec![6, 1155, 13, 1];
    v.extend(1000u64..1098);
    let flags = batch_has_small_factor(&bigs(&v), 13);
    assert!(flags[0]); // 6 = 2·3
    assert!(flags[1]); // 1155 = 3·5·7·11
    assert!(!flags[2]); // 13 is a sieve prime
    assert!(!flags[3]); // 1 has no prime factor
    assert!(flags[4]); // 1000 = 2^3·5^3
    assert!(!flags[11]); // 1007 = 19·53
}

#[test]
fn batch_of_hundred_fifteens_all_flagged() {
    let v: Vec<u64> = vec![15; 100];
    assert_eq!(batch_has_small_factor(&bigs(&v), 311), vec![true; 100]);
}

#[test]
fn batch_agrees_with_sequential_on_small_values() {
    let v: Vec<u64> = (1u64..=150).collect();
    let batch = batch_has_small_factor(&bigs(&v), 31);
    let one_by_one: Vec<bool> = v
        .iter()
        .map(|&c| batch_has_small_factor(&bigs(&[c]), 31)[0])
        .collect();
    assert_eq!(batch, one_by_one);
}
