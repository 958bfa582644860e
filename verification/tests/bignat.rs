use ied::bignat::BigNat;
use num::BigUint;

fn natural(n: &BigUint) -> BigNat {
    BigNat::from_digits(n.to_u32_digits())
}

fn uint(n: &BigNat) -> BigUint {
    BigUint::new(n.to_digits())
}

#[test]
fn zero_has_no_value() {
    assert_eq!(BigNat::zero().to_u64(), Some(0));
    assert_eq!(uint(&BigNat::zero()), BigUint::ZERO);
}

#[test]
fn machine_integers_round_trip() {
    for x in [0u64, 1, 0xffff_ffff, 0x1_0000_0000, 0x1234_5678_9abc_def0, u64::MAX] {
        assert_eq!(BigNat::from_u64(x).to_u64(), Some(x));
        assert_eq!(uint(&BigNat::from_u64(x)), BigUint::from(x));
    }
}

#[test]
fn large_numbers_do_not_fit() {
    let big = BigNat::from_digits(vec![0, 0, 1]);
    assert_eq!(big.to_u64(), None);
    let padded = BigNat::from_digits(vec![7, 0, 0, 0]);
    assert_eq!(padded.to_u64(), Some(7));
    let two_digits = BigNat::from_digits(vec![1, 2]);
    assert_eq!(two_digits.to_u64(), Some(0x2_0000_0001));
}

#[test]
fn sums_carry_over_digits() {
    let a = BigNat::from_u64(u64::MAX);
    let b = BigNat::from_u64(1);
    let sum = a.add(&b);
    assert_eq!(sum.to_u64(), None);
    assert_eq!(uint(&sum), BigUint::from(u64::MAX) + 1u8);
    assert_eq!(BigNat::from_u64(2).add(&BigNat::from_u64(3)).to_u64(), Some(5));
}

#[test]
fn differences() {
    let a = natural(&BigUint::from(10u8).pow(30));
    let b = natural(&(BigUint::from(10u8).pow(30) - 42u8));
    assert_eq!(a.sub(&b).to_u64(), Some(42));
    assert_eq!(BigNat::from_u64(9).sub(&BigNat::from_u64(9)).to_u64(), Some(0));
}

#[test]
fn products_with_small_factors() {
    assert_eq!(BigNat::from_u64(10).mul_small(1032).to_u64(), Some(10320));
    assert_eq!(BigNat::from_u64(7).mul_small(0).to_u64(), Some(0));
    let big = natural(&BigUint::from(10u8).pow(40));
    assert_eq!(uint(&big.mul_small(1032)), BigUint::from(10u8).pow(40) * 1032u32);
}

#[test]
fn quotients_and_remainders() {
    assert_eq!(BigNat::from_u64(17).div_small(5).to_u64(), Some(3));
    assert_eq!(BigNat::from_u64(17).rem_small(5), 2);
    assert_eq!(BigNat::from_u64(4).div_small(5).to_u64(), Some(0));
    assert_eq!(BigNat::from_u64(4).rem_small(5), 4);
    let n = BigUint::from(10u8).pow(30);
    assert_eq!(uint(&natural(&n).div_small(65521)), &n / 65521u32);
    assert_eq!(BigUint::from(natural(&n).rem_small(65521)), &n % 65521u32);
    assert_eq!(natural(&n).rem_small(0x1_0000_0000), 0x4000_0000);
}

#[test]
fn comparisons() {
    let small = BigNat::from_u64(5);
    let large = natural(&BigUint::from(10u8).pow(30));
    assert!(small.le(&large));
    assert!(!large.le(&small));
    assert!(small.le(&small));
    assert!(small.lt(&large));
    assert!(!small.lt(&small));
    assert!(!large.lt(&small));
    // Leading zeros do not change the number.
    assert!(BigNat::from_digits(vec![5, 0, 0]).le(&small));
    assert!(small.le(&BigNat::from_digits(vec![5, 0, 0])));
}

#[test]
fn copies_keep_the_number() {
    let n = natural(&BigUint::from(3u8).pow(100));
    assert_eq!(uint(&n.clone()), BigUint::from(3u8).pow(100));
}
