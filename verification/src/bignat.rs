//! Arbitrary-precision naturals, held as little-endian base-2^32 digits.
//!
//! The arithmetic itself is done by `num::BigUint`; this module keeps the
//! digits as plain values so that the rest of the library can reason about
//! the number they denote.
use num::BigUint;
use vstd::prelude::*;

verus! {

/// The radix of a digit vector: 2^32.
pub open spec fn radix() -> nat {
    0x1_0000_0000
}

/// The natural number denoted by little-endian base-2^32 digits.
pub open spec fn digits_value(d: Seq<u32>) -> nat
    decreases d.len(),
{
    if d.len() == 0 {
        0
    } else {
        d[0] as nat + radix() * digits_value(d.drop_first())
    }
}

/// A digit vector with a nonzero digit denotes a nonzero number.
proof fn lemma_nonzero_digit(d: Seq<u32>, i: int)
    requires
        0 <= i < d.len(),
        d[i] != 0,
    ensures
        digits_value(d) >= 1,
    decreases d.len(),
{
    if i > 0 {
        lemma_nonzero_digit(d.drop_first(), i - 1);
        assert(radix() * digits_value(d.drop_first()) >= 1) by (nonlinear_arith)
            requires
                digits_value(d.drop_first()) >= 1,
                radix() == 0x1_0000_0000,
        ;
    }
}

/// A digit vector of zeros denotes zero.
proof fn lemma_all_zero(d: Seq<u32>)
    requires
        forall|i: int| 0 <= i < d.len() ==> d[i] == 0,
    ensures
        digits_value(d) == 0,
    decreases d.len(),
{
    if d.len() > 0 {
        lemma_all_zero(d.drop_first());
    }
}

/// `BigUint`'s `+` on two numbers given by their digits: the digits of
/// their sum. Here and below the digits go in through
/// `BigUint::from_slice` and come out through `BigUint::to_u32_digits`,
/// both in base 2^32 with the least significant digit first.
#[verifier::external_body]
fn digits_add(a: &Vec<u32>, b: &Vec<u32>) -> (r: Vec<u32>)
    ensures
        digits_value(r@) == digits_value(a@) + digits_value(b@),
{
    (BigUint::from_slice(a) + BigUint::from_slice(b)).to_u32_digits()
}

/// `BigUint`'s `-` on two numbers given by their digits: the digits of
/// their difference. `BigUint` panics where the result would be negative,
/// so the subtrahend may not exceed the minuend.
#[verifier::external_body]
fn digits_sub(a: &Vec<u32>, b: &Vec<u32>) -> (r: Vec<u32>)
    requires
        digits_value(b@) <= digits_value(a@),
    ensures
        digits_value(r@) == digits_value(a@) - digits_value(b@),
{
    (BigUint::from_slice(a) - BigUint::from_slice(b)).to_u32_digits()
}

/// `BigUint`'s `*` by a `u64`: the digits of the product.
#[verifier::external_body]
fn digits_mul_small(a: &Vec<u32>, k: u64) -> (r: Vec<u32>)
    ensures
        digits_value(r@) == digits_value(a@) * k,
{
    (BigUint::from_slice(a) * k).to_u32_digits()
}

/// `BigUint`'s `/` by a `u64`: the digits of the quotient, rounded down.
/// `BigUint` panics on a zero divisor.
#[verifier::external_body]
fn digits_div_small(a: &Vec<u32>, d: u64) -> (r: Vec<u32>)
    requires
        d > 0,
    ensures
        digits_value(r@) == digits_value(a@) / (d as nat),
{
    (BigUint::from_slice(a) / d).to_u32_digits()
}

/// `BigUint`'s `%` by a `u64`: the digits of the remainder. `BigUint`
/// panics on a zero divisor.
#[verifier::external_body]
fn digits_rem_small(a: &Vec<u32>, d: u64) -> (r: Vec<u32>)
    requires
        d > 0,
    ensures
        digits_value(r@) == digits_value(a@) % (d as nat),
{
    (BigUint::from_slice(a) % d).to_u32_digits()
}

/// `BigUint`'s `<=` on two numbers given by their digits.
#[verifier::external_body]
fn digits_le(a: &Vec<u32>, b: &Vec<u32>) -> (r: bool)
    ensures
        r == (digits_value(a@) <= digits_value(b@)),
{
    BigUint::from_slice(a) <= BigUint::from_slice(b)
}

/// An arbitrary-precision natural number.
#[derive(Debug)]
pub struct BigNat {
    digits: Vec<u32>,
}

impl View for BigNat {
    type V = nat;

    closed spec fn view(&self) -> nat {
        digits_value(self.digits@)
    }
}

impl Clone for BigNat {
    fn clone(&self) -> (r: Self)
        ensures
            r@ == self@,
    {
        BigNat { digits: self.digits.clone() }
    }
}

impl BigNat {
    /// The number zero.
    pub fn zero() -> (r: BigNat)
        ensures
            r@ == 0,
    {
        BigNat { digits: Vec::new() }
    }

    /// The number denoted by little-endian base-2^32 digits. Leading
    /// zeros (at the end of the vector) are allowed.
    pub fn from_digits(digits: Vec<u32>) -> (r: BigNat)
        ensures
            r@ == digits_value(digits@),
    {
        BigNat { digits }
    }

    /// Little-endian base-2^32 digits of this number.
    pub fn to_digits(&self) -> (r: Vec<u32>)
        ensures
            digits_value(r@) == self@,
    {
        self.digits.clone()
    }

    /// The number `x`.
    pub fn from_u64(x: u64) -> (r: BigNat)
        ensures
            r@ == x,
    {
        let lo: u32 = (x & 0xffff_ffff) as u32;
        let hi: u32 = (x >> 32) as u32;
        let digits = vec![lo, hi];
        proof {
            assert((x & 0xffff_ffff) + 0x1_0000_0000 * (x >> 32) == x && (x & 0xffff_ffff)
                <= 0xffff_ffff && (x >> 32) <= 0xffff_ffff) by (bit_vector);
            let d = digits@;
            assert(d.drop_first().drop_first().len() == 0);
            assert(digits_value(d.drop_first()) == hi as nat + radix() * digits_value(
                d.drop_first().drop_first(),
            ));
            assert(digits_value(d) == lo as nat + radix() * digits_value(d.drop_first()));
        }
        BigNat { digits }
    }

    /// This number as a `u64`, where it fits in one.
    pub fn to_u64(&self) -> (r: Option<u64>)
        ensures
            r.is_some() <==> self@ <= u64::MAX,
            r.is_some() ==> r.unwrap() == self@,
    {
        let n = self.digits.len();
        let mut i: usize = 2;
        while i < n
            invariant
                n == self.digits@.len(),
                2 <= i,
                forall|j: int| 2 <= j < i && j < n ==> self.digits@[j] == 0,
            decreases n - i,
        {
            if self.digits[i] != 0 {
                proof {
                    let d = self.digits@;
                    let rest = d.drop_first().drop_first();
                    lemma_nonzero_digit(rest, i - 2);
                    assert(digits_value(d.drop_first()) == d[1] as nat + radix() * digits_value(
                        rest,
                    ));
                    assert(radix() * (radix() * digits_value(rest)) >= 0x1_0000_0000_0000_0000)
                        by (nonlinear_arith)
                        requires
                            digits_value(rest) >= 1,
                            radix() == 0x1_0000_0000,
                    ;
                    assert(radix() * (d[1] as nat + radix() * digits_value(rest)) == radix() * (
                    d[1] as nat) + radix() * (radix() * digits_value(rest))) by (nonlinear_arith);
                }
                return None;
            }
            i += 1;
        }
        let lo: u64 = if n > 0 {
            self.digits[0] as u64
        } else {
            0
        };
        let hi: u64 = if n > 1 {
            self.digits[1] as u64
        } else {
            0
        };
        proof {
            let d = self.digits@;
            if n > 1 {
                let rest = d.drop_first().drop_first();
                assert forall|j: int| 0 <= j < rest.len() implies rest[j] == 0 by {
                    assert(rest[j] == d[j + 2]);
                }
                lemma_all_zero(rest);
                assert(digits_value(d.drop_first()) == d[1] as nat + radix() * digits_value(rest));
                assert(digits_value(d) == d[0] as nat + radix() * digits_value(d.drop_first()));
            } else if n > 0 {
                assert(d.drop_first().len() == 0);
                assert(digits_value(d.drop_first()) == 0);
                assert(digits_value(d) == d[0] as nat + radix() * digits_value(d.drop_first()));
            }
            assert(digits_value(d) == lo + radix() * hi);
            assert((hi << 32) | lo == lo + 0x1_0000_0000 * hi) by (bit_vector)
                requires
                    lo <= 0xffff_ffff,
                    hi <= 0xffff_ffff,
            ;
        }
        Some((hi << 32) | lo)
    }

    /// The sum of two numbers.
    pub fn add(&self, other: &BigNat) -> (r: BigNat)
        ensures
            r@ == self@ + other@,
    {
        BigNat { digits: digits_add(&self.digits, &other.digits) }
    }

    /// The difference of two numbers, the second no larger than the first.
    pub fn sub(&self, other: &BigNat) -> (r: BigNat)
        requires
            other@ <= self@,
        ensures
            r@ == self@ - other@,
    {
        BigNat { digits: digits_sub(&self.digits, &other.digits) }
    }

    /// The product of this number and a machine integer.
    pub fn mul_small(&self, k: u64) -> (r: BigNat)
        ensures
            r@ == self@ * k,
    {
        BigNat { digits: digits_mul_small(&self.digits, k) }
    }

    /// The quotient of this number by a nonzero machine integer, rounded
    /// down.
    pub fn div_small(&self, d: u64) -> (r: BigNat)
        requires
            d > 0,
        ensures
            r@ == self@ / (d as nat),
    {
        BigNat { digits: digits_div_small(&self.digits, d) }
    }

    /// The remainder of this number by a nonzero machine integer.
    pub fn rem_small(&self, d: u64) -> (r: u64)
        requires
            d > 0,
        ensures
            r == self@ % (d as nat),
    {
        let rem = BigNat { digits: digits_rem_small(&self.digits, d) };
        proof {
            vstd::arithmetic::div_mod::lemma_mod_bound(self@ as int, d as int);
        }
        match rem.to_u64() {
            Some(r) => r,
            None => 0,
        }
    }

    /// Whether this number is at most `other`.
    pub fn le(&self, other: &BigNat) -> (r: bool)
        ensures
            r == (self@ <= other@),
    {
        digits_le(&self.digits, &other.digits)
    }

    /// Whether this number is less than `other`.
    pub fn lt(&self, other: &BigNat) -> (r: bool)
        ensures
            r == (self@ < other@),
    {
        !digits_le(&other.digits, &self.digits)
    }
}

} // verus!
