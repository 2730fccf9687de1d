//! Palindrome construction from a left half of digits, and the odometer that
//! enumerates left halves.
use vstd::prelude::*;
use vstd::arithmetic::power::*;
use vstd::arithmetic::div_mod::*;
use vstd::arithmetic::mul::*;
use crate::bignum::BigNat;

verus! {

/// The value of digits (most significant first) in base `b`.
pub open spec fn horner(digits: Seq<u64>, b: nat) -> nat
    decreases digits.len(),
{
    if digits.len() == 0 {
        0
    } else {
        horner(digits.drop_last(), b) * b + digits.last() as nat
    }
}

/// The full digit sequence of the palindrome with the given left half: the
/// half, then the half without its last (center) digit, reversed.
pub open spec fn palindrome_digits(left: Seq<u64>) -> Seq<u64> {
    if left.len() == 0 {
        left
    } else {
        left + left.drop_last().reverse()
    }
}

/// Build a palindrome from its left half digits in the given base.
///
/// For an odd-length palindrome `left_half` holds (d+1)/2 digits including the
/// center; the result mirrors all positions except the center.
/// Example: [1,2,3] in base 10 gives 12321.
pub fn build_palindrome(left_half: &[u64], base: u64) -> (r: BigNat)
    ensures
        r@ == horner(palindrome_digits(left_half@), base as nat),
{
    let base_big = BigNat::from_u64(base);
    let mut result = BigNat::zero();
    let ghost all = palindrome_digits(left_half@);
    let n = left_half.len();
    let mut i: usize = 0;
    while i < n
        invariant
            n == left_half@.len(),
            i <= n,
            base_big@ == base,
            all == palindrome_digits(left_half@),
            result@ == horner(left_half@.subrange(0, i as int), base as nat),
        decreases n - i,
    {
        let d = BigNat::from_u64(left_half[i]);
        let t = result.mul(&base_big);
        result = t.add(&d);
        assert(left_half@.subrange(0, i + 1).drop_last() =~= left_half@.subrange(0, i as int));
        i = i + 1;
    }
    assert(left_half@.subrange(0, n as int) =~= left_half@);
    if n == 0 {
        return result;
    }
    assert(all.subrange(0, n as int) =~= left_half@);
    // mirror the digits before the center, from the one next to it outwards
    let mut j: usize = n - 1;
    while j > 0
        invariant
            n == left_half@.len(),
            n > 0,
            j <= n - 1,
            base_big@ == base,
            all == palindrome_digits(left_half@),
            result@ == horner(all.subrange(0, (n + (n - 1 - j)) as int), base as nat),
        decreases j,
    {
        let d = BigNat::from_u64(left_half[j - 1]);
        let t = result.mul(&base_big);
        result = t.add(&d);
        proof {
            let k = (n + (n - 1 - j)) as int;
            assert(all.subrange(0, k + 1).drop_last() =~= all.subrange(0, k));
            assert(all[k] == left_half@[j - 1]);
        }
        j = j - 1;
    }
    assert(all.subrange(0, (n + (n - 1)) as int) =~= all);
    result
}

/// A palindrome's digit sequence reads the same backwards.
pub proof fn lemma_palindrome_digits_symmetric(left: Seq<u64>)
    ensures
        palindrome_digits(left).reverse() =~= palindrome_digits(left),
        left.len() > 0 ==> palindrome_digits(left).len() == 2 * left.len() - 1,
{
    let p = palindrome_digits(left);
    if left.len() > 0 {
        let n = left.len() as int;
        assert forall|i: int| 0 <= i < p.len() implies #[trigger] p.reverse()[i] == p[i] by {
            let m = p.len() - 1 - i;
            if i < n && m < n {
                assert(i == n - 1 && m == n - 1);
            }
        }
    }
}

/// The odometer step on digit sequences (most significant first): add one to
/// the last digit, carrying into earlier ones when it reaches `base`.
/// Returns the new digits and whether no carry fell off the front.
pub open spec fn increment_digits(s: Seq<u64>, base: nat) -> (Seq<u64>, bool)
    decreases s.len(),
{
    if s.len() == 0 {
        (s, false)
    } else if (s.last() as nat) + 1 < base {
        (s.drop_last().push((s.last() + 1) as u64), true)
    } else {
        let (p, c) = increment_digits(s.drop_last(), base);
        (p.push(0), c)
    }
}

/// Increment a big-endian digit array in the given base. Returns false on
/// overflow, when all digit combinations are exhausted.
pub fn increment_half(half: &mut Vec<u64>, base: u64) -> (r: bool)
    requires
        forall|i: int| 0 <= i < old(half)@.len() ==> #[trigger] old(half)@[i] < u64::MAX,
    ensures
        final(half)@ == increment_digits(old(half)@, base as nat).0,
        r == increment_digits(old(half)@, base as nat).1,
{
    let n = half.len();
    let mut i: usize = n;
    let ghost orig = half@;
    while i > 0
        invariant
            i <= n,
            n == half@.len(),
            n == orig.len(),
            orig == old(half)@,
            forall|k: int| 0 <= k < n ==> #[trigger] orig[k] < u64::MAX,
            half@ == orig.subrange(0, i as int) + Seq::new((n - i) as nat, |k: int| 0u64),
            increment_digits(orig, base as nat) == ({
                let (p, c) = increment_digits(orig.subrange(0, i as int), base as nat);
                (p + Seq::new((n - i) as nat, |k: int| 0u64), c)
            }),
        decreases i,
    {
        let ghost pre = orig.subrange(0, i as int);
        assert(pre.drop_last() =~= orig.subrange(0, i - 1));
        assert(half@[i - 1] == orig[i - 1]);
        let v = half[i - 1] + 1;
        if v < base {
            half.set(i - 1, v);
            proof {
                let (p, c) = increment_digits(pre, base as nat);
                assert(p =~= orig.subrange(0, i - 1).push(v));
                assert(half@ =~= p + Seq::new((n - i) as nat, |k: int| 0u64));
                assert(increment_digits(orig, base as nat).0 =~= half@);
                assert(increment_digits(orig, base as nat).1);
            }
            return true;
        }
        half.set(i - 1, 0);
        proof {
            let (p2, c2) = increment_digits(orig.subrange(0, i - 1), base as nat);
            assert(half@ =~= orig.subrange(0, i - 1) + Seq::new((n - i + 1) as nat, |k: int| 0u64));
            assert(p2.push(0) + Seq::new((n - i) as nat, |k: int| 0u64)
                =~= p2 + Seq::new((n - i + 1) as nat, |k: int| 0u64));
        }
        i = i - 1;
    }
    proof {
        assert(orig.subrange(0, 0) =~= Seq::<u64>::empty());
        assert(half@ =~= Seq::<u64>::empty() + Seq::new(n as nat, |k: int| 0u64));
    }
    false
}

/// All digits are below the base.
pub open spec fn digits_below(s: Seq<u64>, base: nat) -> bool {
    forall|i: int| 0 <= i < s.len() ==> (#[trigger] s[i] as nat) < base
}

/// On valid digits the odometer adds one modulo base^len: without a carry
/// off the front the value grows by one; with it, the digits wrap to zero
/// (which happens exactly when all digits were base − 1).
pub proof fn lemma_increment_value(s: Seq<u64>, base: nat)
    requires
        2 <= base <= u64::MAX,
        digits_below(s, base),
    ensures
        digits_below(increment_digits(s, base).0, base),
        increment_digits(s, base).0.len() == s.len(),
        increment_digits(s, base).1 ==> horner(increment_digits(s, base).0, base) == horner(s, base) + 1,
        !increment_digits(s, base).1 ==> horner(increment_digits(s, base).0, base) == 0
            && horner(s, base) + 1 == pow(base as int, s.len()),
    decreases s.len(),
{
    reveal(pow);
    let (p, c) = increment_digits(s, base);
    if s.len() == 0 {
        assert(pow(base as int, 0) == 1);
    } else if (s.last() as nat) + 1 < base {
        assert(p.drop_last() =~= s.drop_last());
        assert(p.last() == s.last() + 1);
    } else {
        let t = s.drop_last();
        lemma_increment_value(t, base);
        let (q, c2) = increment_digits(t, base);
        assert(p =~= q.push(0));
        assert(p.drop_last() =~= q);
        assert(s.last() as nat == base - 1);
        if c2 {
            assert(horner(p, base) == horner(q, base) * base);
            assert(horner(s, base) == horner(t, base) * base + (base - 1));
            assert(horner(q, base) * base == horner(t, base) * base + base) by (nonlinear_arith)
                requires horner(q, base) == horner(t, base) + 1;
        } else {
            assert(horner(p, base) == 0 * base + 0);
            lemma_mul_basics(base as int);
            assert(horner(s, base) + 1 == (horner(t, base) + 1) * base) by (nonlinear_arith)
                requires horner(s, base) == horner(t, base) * base + (base - 1);
            assert(pow(base as int, s.len()) == base * pow(base as int, t.len()));
            assert((horner(t, base) + 1) * base == base * pow(base as int, t.len())) by (nonlinear_arith)
                requires horner(t, base) + 1 == pow(base as int, t.len());
        }
    }
}


/// The h low base-`base` digits of v, most significant first.
pub open spec fn to_digits(v: nat, base: nat, h: nat) -> Seq<u64>
    decreases h,
{
    if h == 0 {
        Seq::empty()
    } else {
        to_digits(v / base, base, (h - 1) as nat).push((v % base) as u64)
    }
}

/// Valid digits are recovered from their value.
pub proof fn lemma_digits_roundtrip(s: Seq<u64>, base: nat)
    requires
        2 <= base,
        digits_below(s, base),
    ensures
        to_digits(horner(s, base), base, s.len()) == s,
        horner(s, base) < pow(base as int, s.len()),
    decreases s.len(),
{
    reveal(pow);
    if s.len() > 0 {
        let t = s.drop_last();
        let d = s.last() as nat;
        assert(digits_below(t, base));
        lemma_digits_roundtrip(t, base);
        let h = horner(t, base);
        assert(horner(s, base) == h * base + d);
        lemma_fundamental_div_mod_converse((h * base + d) as int, base as int, h as int, d as int);
        assert(to_digits(horner(s, base), base, s.len()) =~= s);
        assert(h * base + d < pow(base as int, t.len()) * base) by (nonlinear_arith)
            requires h < pow(base as int, t.len()), d < base, h >= 0;
        assert(pow(base as int, s.len()) == base * pow(base as int, t.len()));
    }
}

/// The digit string 1 0 0 … 0 (h digits) is base^(h−1).
pub proof fn lemma_leading_one(h: nat, base: nat)
    requires
        h >= 1,
        base >= 2,
    ensures
        horner(seq![1u64] + Seq::new((h - 1) as nat, |k: int| 0u64), base) == pow(base as int, (h - 1) as nat),
        digits_below(seq![1u64] + Seq::new((h - 1) as nat, |k: int| 0u64), base),
    decreases h,
{
    reveal(pow);
    let s = seq![1u64] + Seq::new((h - 1) as nat, |k: int| 0u64);
    if h == 1 {
        assert(s.drop_last() =~= Seq::<u64>::empty());
        assert(s.last() == 1);
        assert(horner(s, base) == horner(Seq::<u64>::empty(), base) * base + 1);
        assert(horner(Seq::<u64>::empty(), base) == 0);
        assert(0 * base == 0);
        assert(horner(s, base) == 1);
        assert(pow(base as int, 0) == 1);
    } else {
        assert(s.last() == 0);
        lemma_leading_one((h - 1) as nat, base);
        let t = seq![1u64] + Seq::new((h - 2) as nat, |k: int| 0u64);
        assert(s.drop_last() =~= t);
        assert(pow(base as int, (h - 1) as nat) == base * pow(base as int, (h - 2) as nat));
        assert(horner(t, base) == pow(base as int, (h - 2) as nat));
        assert(horner(t, base) * base == base * horner(t, base)) by (nonlinear_arith);
        assert(horner(s, base) == horner(t, base) * base);
    }
    assert(horner(s, base) == pow(base as int, (h - 1) as nat));
}

} // verus!
