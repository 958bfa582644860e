use ied::adler::AdlerEngine;
use ied::bignat::BigNat;
use ied::checksum::ChecksumEngine;
use ied::crc32::Crc32Engine;
use ied::matrix::{hamming, CrcMatrix};
use num::BigUint;

fn big(n: BigUint) -> BigNat {
    BigNat::from_digits(n.to_u32_digits())
}

fn naive_adler(data: &[u8]) -> [u8; 4] {
    let mut s1: u32 = 1;
    let mut s2: u32 = 0;
    for b in data {
        s1 = (s1 + *b as u32) % 65521;
        s2 = (s2 + s1) % 65521;
    }
    [(s2 >> 8) as u8, s2 as u8, (s1 >> 8) as u8, s1 as u8]
}

fn naive_crc(data: &[u8]) -> [u8; 4] {
    let mut v: u32 = 0xffff_ffff;
    for b in data {
        v ^= *b as u32;
        for _ in 0..8 {
            v = if v & 1 != 0 { (v >> 1) ^ 0xedb8_8320 } else { v >> 1 };
        }
    }
    let c = !v;
    [(c >> 24) as u8, (c >> 16) as u8, (c >> 8) as u8, c as u8]
}

#[test]
fn test_adler() {
    let mut engine = AdlerEngine::new();
    engine.apply1(0x74);
    engine.apply(&[0x65, 0x73, 0x74, 0x20]);
    engine.apply_rep(&[0x61, 0x62, 0x63], big(BigUint::ZERO + 3u8));
    engine.apply1(0x64);
    assert_eq!(engine.bytes(), [0x2e, 0x12, 0x05, 0xb7]);
}

#[test]
fn test_crc32() {
    let mut engine = Crc32Engine::new();
    engine.apply1(0x74);
    engine.apply(&[0x65, 0x73, 0x74, 0x20]);
    engine.apply_rep(&[0x61, 0x62, 0x63], big(BigUint::ZERO + 3u8));
    engine.apply1(0x64);
    assert_eq!(engine.bytes(), [0x9d, 0x1e, 0xef, 0xde]);
}

#[test]
fn adler_of_nothing_is_one() {
    assert_eq!(AdlerEngine::new().bytes(), [0, 0, 0, 1]);
}

#[test]
fn crc_of_nothing_is_zero() {
    assert_eq!(Crc32Engine::new().bytes(), [0, 0, 0, 0]);
}

#[test]
fn adler_apply1_formula() {
    let mut engine = AdlerEngine::new();
    engine.apply1(0x61);
    // s1 = 1 + 0x61 = 0x62, s2 = 0 + 0x62
    assert_eq!(engine.bytes(), [0x00, 0x62, 0x00, 0x62]);
}

#[test]
fn crc_of_known_text() {
    let mut engine = Crc32Engine::new();
    engine.apply(b"123456789");
    assert_eq!(engine.bytes(), [0xcb, 0xf4, 0x39, 0x26]);
}

#[test]
fn adler_repetition_agrees_with_expansion() {
    for reps in [0usize, 1, 2, 7, 1000, 65520, 65521, 65522, 140000] {
        let pattern = [0xffu8, 0x01, 0x80, 0x7f, 0x00];
        let mut engine = AdlerEngine::new();
        engine.apply(b"head");
        engine.apply_rep(&pattern, BigNat::from_u64(reps as u64));
        engine.apply(b"tail");
        let mut all = b"head".to_vec();
        for _ in 0..reps {
            all.extend_from_slice(&pattern);
        }
        all.extend_from_slice(b"tail");
        assert_eq!(engine.bytes(), naive_adler(&all), "reps {}", reps);
    }
}

#[test]
fn crc_repetition_agrees_with_expansion() {
    for reps in [0usize, 1, 2, 3, 8, 255, 1000, 70001] {
        let pattern = [0x41u8, 0x00, 0xff];
        let mut engine = Crc32Engine::new();
        engine.apply(b"head");
        engine.apply_rep(&pattern, BigNat::from_u64(reps as u64));
        engine.apply(b"tail");
        let mut all = b"head".to_vec();
        for _ in 0..reps {
            all.extend_from_slice(&pattern);
        }
        all.extend_from_slice(b"tail");
        assert_eq!(engine.bytes(), naive_crc(&all), "reps {}", reps);
    }
}

#[test]
fn adler_repetition_of_ten_to_the_thirty() {
    // The closed form depends on the count modulo 65521 alone.
    let n = BigUint::from(10u8).pow(30);
    let reduced = (&n % 65521u32).to_u32_digits();
    let reduced = if reduced.is_empty() { 0 } else { reduced[0] } as usize;
    let pattern = [0x61u8, 0x62, 0x63];
    let mut engine = AdlerEngine::new();
    engine.apply_rep(&pattern, big(n));
    let mut all = Vec::new();
    for _ in 0..reduced {
        all.extend_from_slice(&pattern);
    }
    assert_eq!(engine.bytes(), naive_adler(&all));
}

#[test]
fn crc_repetition_of_ten_to_the_thirty_splits() {
    // Feeding a + b passes is feeding a passes, then b passes.
    let a = BigUint::from(10u8).pow(30);
    let b = BigUint::from(7u8).pow(25) + 12345u32;
    let pattern = [0x55u8, 0xaa];
    let mut once = Crc32Engine::new();
    once.apply_rep(&pattern, big(&a + &b));
    let mut twice = Crc32Engine::new();
    twice.apply_rep(&pattern, big(a));
    twice.apply_rep(&pattern, big(b));
    assert_eq!(once.bytes(), twice.bytes());
    assert_ne!(once.bytes(), Crc32Engine::new().bytes());
}

#[test]
fn crc_repetition_of_zero_changes_nothing() {
    let mut engine = Crc32Engine::new();
    engine.apply(b"abc");
    let before = engine.bytes();
    engine.apply_rep(&[0x41], BigNat::zero());
    assert_eq!(engine.bytes(), before);
}

#[test]
fn parity_of_words() {
    assert_eq!(hamming(0), 0);
    assert_eq!(hamming(1), 1);
    assert_eq!(hamming(0b11), 0);
    assert_eq!(hamming(0x1_0000_0000), 1);
    assert_eq!(hamming(0xffff_ffff_ffff_ffff), 0);
    assert_eq!(hamming(0x8000_0000_0000_0001), 0);
    assert_eq!(hamming(0x0edb_8832_0), 0);
    assert_eq!(hamming(0b0111), 1);
}

#[test]
fn identity_matrix_leaves_registers() {
    let m = CrcMatrix::new();
    for v in [0u32, 1, 0xffff_ffff, 0xdead_beef] {
        assert_eq!(m.apply(v), v);
    }
}

#[test]
fn matrix_pushes_are_register_shifts() {
    let v: u32 = 0xdead_beef;
    let shifted = if v & 1 != 0 { (v >> 1) ^ 0xedb8_8320 } else { v >> 1 };
    let mut zero = CrcMatrix::new();
    zero.push_0();
    assert_eq!(zero.apply(v), shifted);
    let mut one = CrcMatrix::new();
    one.push_1();
    assert_eq!(one.apply(v), shifted ^ 0xedb8_8320);
}

#[test]
fn matrix_power_is_repeated_application() {
    let mut m = CrcMatrix::new();
    m.push_1();
    m.push_0();
    m.push_1();
    let mut p = CrcMatrix::new();
    p.push_1();
    p.push_0();
    p.push_1();
    p.exponentiate(&BigNat::from_u64(13));
    let mut v: u32 = 0x1234_5678;
    let start = v;
    for _ in 0..13 {
        v = m.apply(v);
    }
    assert_eq!(p.apply(start), v);
}

#[test]
fn matrix_power_of_zero_and_one_leave_the_matrix() {
    let mut a = CrcMatrix::new();
    a.push_1();
    let expected = a.apply(5);
    a.exponentiate(&BigNat::zero());
    assert_eq!(a.apply(5), expected);
    a.exponentiate(&BigNat::from_u64(1));
    assert_eq!(a.apply(5), expected);
}
