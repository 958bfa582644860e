//! Adler-32, evaluated incrementally and, for repeated data, in closed form.
use crate::bignat::BigNat;
use crate::checksum::repeat;
use vstd::arithmetic::div_mod::{
    lemma_add_mod_noop, lemma_mod_multiples_vanish, lemma_mul_mod_noop_general,
};
use vstd::prelude::*;

verus! {

/// The two running sums of Adler-32, each reduced modulo 65521.
pub struct AdlerState {
    pub s1: nat,
    pub s2: nat,
}

/// The state before any byte: `s1 = 1`, `s2 = 0`.
pub open spec fn adler_init() -> AdlerState {
    AdlerState { s1: 1, s2: 0 }
}

/// The state after one more byte.
pub open spec fn adler_step(s: AdlerState, b: u8) -> AdlerState {
    let s1 = (s.s1 + b as nat) % 65521;
    AdlerState { s1, s2: (s.s2 + s1) % 65521 }
}

/// The state after the bytes of `data`, in order.
pub open spec fn adler_feed(s: AdlerState, data: Seq<u8>) -> AdlerState
    decreases data.len(),
{
    if data.len() == 0 {
        s
    } else {
        adler_step(adler_feed(s, data.drop_last()), data.last())
    }
}

/// The four checksum bytes of a state: `s2` then `s1`, each big-endian.
pub open spec fn adler_digest(s: AdlerState) -> Seq<u8> {
    seq![
        ((s.s2 / 256) % 256) as u8,
        (s.s2 % 256) as u8,
        ((s.s1 / 256) % 256) as u8,
        (s.s1 % 256) as u8,
    ]
}

/// The Adler-32 checksum of `data`, as its four big-endian bytes.
pub open spec fn adler32(data: Seq<u8>) -> Seq<u8> {
    adler_digest(adler_feed(adler_init(), data))
}


/// The sum of the numbers below `n`: `n (n - 1) / 2`.
pub open spec fn triangle(n: nat) -> nat
    decreases n,
{
    if n == 0 {
        0
    } else {
        triangle((n - 1) as nat) + (n - 1) as nat
    }
}

/// Feeding one run of bytes after another is feeding both at once.
pub proof fn lemma_adler_feed_concat(s: AdlerState, a: Seq<u8>, b: Seq<u8>)
    ensures
        adler_feed(s, a + b) == adler_feed(adler_feed(s, a), b),
    decreases b.len(),
{
    if b.len() == 0 {
        assert(a + b =~= a);
    } else {
        assert((a + b).drop_last() =~= a + b.drop_last());
        lemma_adler_feed_concat(s, a, b.drop_last());
    }
}

/// Both sums of a state that bytes were fed to are reduced.
pub proof fn lemma_adler_feed_bound(s: AdlerState, data: Seq<u8>)
    requires
        s.s1 < 65521,
        s.s2 < 65521,
    ensures
        adler_feed(s, data).s1 < 65521,
        adler_feed(s, data).s2 < 65521,
    decreases data.len(),
{
    if data.len() > 0 {
        lemma_adler_feed_bound(s, data.drop_last());
    }
}

/// The arithmetic of `lemma_adler_pass` for one more byte `b`: if the
/// sums `(a1, a2)` are `(s1, s2)` moved by `(z1, x + z2)`, then so are
/// their successors by the successors of `(z1, z2)`, with `x + s1` for `x`.
proof fn lemma_adler_pass_step(s1: int, s2: int, z1: int, z2: int, x: int, b: int)
    requires
        0 <= s1,
        0 <= s2,
        0 <= z1,
        0 <= z2,
        0 <= x,
        0 <= b,
    ensures
        ({
            let a1 = (s1 + z1) % 65521;
            let a2 = (s2 + x + z2) % 65521;
            let n1 = (a1 + b) % 65521;
            let n2 = (a2 + n1) % 65521;
            let t1 = (z1 + b) % 65521;
            let t2 = (z2 + t1) % 65521;
            &&& n1 == (s1 + t1) % 65521
            &&& n2 == (s2 + (x + s1) + t2) % 65521
        }),
{
}

/// One pass over `data` is affine in the state it starts from: with
/// `(t1, t2)` the state that the pass reaches from `(0, 0)`, it adds `t1`
/// to `s1`, and `len * s1 + t2` to `s2`.
pub proof fn lemma_adler_pass(s: AdlerState, data: Seq<u8>)
    requires
        s.s1 < 65521,
        s.s2 < 65521,
    ensures
        adler_feed(s, data).s1 == (s.s1 + adler_feed(AdlerState { s1: 0, s2: 0 }, data).s1)
            % 65521,
        adler_feed(s, data).s2 == (s.s2 + data.len() * s.s1 + adler_feed(
            AdlerState { s1: 0, s2: 0 },
            data,
        ).s2) % 65521,
    decreases data.len(),
{
    let zero = AdlerState { s1: 0, s2: 0 };
    if data.len() == 0 {
        assert(data.len() * s.s1 == 0) by (nonlinear_arith)
            requires
                data.len() == 0,
        ;
    } else {
        let d = data.drop_last();
        lemma_adler_pass(s, d);
        let z = adler_feed(zero, d);
        let len = d.len() as int;
        assert(data.len() * s.s1 == len * s.s1 + s.s1) by (nonlinear_arith)
            requires
                data.len() == len + 1,
        ;
        assert(0 <= len * s.s1) by (nonlinear_arith)
            requires
                0 <= len,
        ;
        lemma_adler_pass_step(
            s.s1 as int,
            s.s2 as int,
            z.s1 as int,
            z.s2 as int,
            len * s.s1,
            data.last() as int,
        );
    }
}

/// Twice the sum of the numbers below `n` is `n (n - 1)`.
pub proof fn lemma_triangle(n: nat)
    ensures
        2 * triangle(n) == n * (n - 1),
    decreases n,
{
    if n > 0 {
        let m = (n - 1) as nat;
        lemma_triangle(m);
        assert((m + 1) * m == m * (m - 1) + 2 * m) by (nonlinear_arith);
    } else {
        assert(n * (n - 1) == 0) by (nonlinear_arith)
            requires
                n == 0,
        ;
    }
}

/// Sums of congruent terms are congruent.
proof fn lemma_add_congruent(x: int, y: int, x2: int, y2: int)
    requires
        x % 65521 == x2 % 65521,
        y % 65521 == y2 % 65521,
    ensures
        (x + y) % 65521 == (x2 + y2) % 65521,
{
    lemma_add_mod_noop(x, y, 65521);
    lemma_add_mod_noop(x2, y2, 65521);
}

/// Products of congruent factors are congruent.
proof fn lemma_mul_congruent(x: int, y: int, x2: int, y2: int)
    requires
        x % 65521 == x2 % 65521,
        y % 65521 == y2 % 65521,
    ensures
        (x * y) % 65521 == (x2 * y2) % 65521,
{
    lemma_mul_mod_noop_general(x, y, 65521);
    lemma_mul_mod_noop_general(x2, y2, 65521);
}

/// A reduced value is congruent to what it was reduced from.
proof fn lemma_reduced_congruent(x: int)
    ensures
        (x % 65521) % 65521 == x % 65521,
{
}

/// The closed form after `n + 1` passes, from its terms after `n`.
proof fn lemma_adler_repeat_terms(
    s1: int,
    z1: int,
    z2: int,
    len: int,
    n: int,
    tri: int,
)
    ensures
        n * z1 + z1 == (n + 1) * z1,
        (n * len * s1 + n * z2 + len * z1 * tri) + len * (s1 + n * z1) + z2 == (n + 1) * len
            * s1 + (n + 1) * z2 + len * z1 * (tri + n),
{
    assert(n * z1 + z1 == (n + 1) * z1) by (nonlinear_arith);
    assert((n + 1) * len == n * len + len) by (nonlinear_arith);
    assert((n * len + len) * s1 == n * len * s1 + len * s1) by (nonlinear_arith);
    assert(len * (s1 + n * z1) == len * s1 + len * (n * z1)) by (nonlinear_arith);
    assert(len * z1 * (tri + n) == len * z1 * tri + len * z1 * n) by (nonlinear_arith);
    assert(len * z1 * n == len * (n * z1)) by (nonlinear_arith);
    assert((n + 1) * z2 == n * z2 + z2) by (nonlinear_arith);
}

/// The arithmetic of `lemma_adler_repeat` for one more pass.
proof fn lemma_adler_repeat_step(
    s1: int,
    s2: int,
    z1: int,
    z2: int,
    len: int,
    n: int,
    tri: int,
)
    ensures
        ({
            let r1 = (s1 + n * z1) % 65521;
            let r2 = (s2 + (n * len * s1 + n * z2 + len * z1 * tri)) % 65521;
            let q1 = (r1 + z1) % 65521;
            let q2 = (r2 + len * r1 + z2) % 65521;
            &&& q1 == (s1 + (n + 1) * z1) % 65521
            &&& q2 == (s2 + ((n + 1) * len * s1 + (n + 1) * z2 + len * z1 * (tri + n))) % 65521
        }),
{
    let u = n * z1;
    let v = n * len * s1 + n * z2 + len * z1 * tri;
    let r1 = (s1 + u) % 65521;
    let r2 = (s2 + v) % 65521;
    let x = len * r1;
    let y = len * (s1 + u);
    lemma_adler_repeat_terms(s1, z1, z2, len, n, tri);
    lemma_reduced_congruent(s1 + u);
    lemma_reduced_congruent(s2 + v);
    lemma_add_congruent(r1, z1, s1 + u, z1);
    lemma_mul_congruent(len, r1, len, s1 + u);
    lemma_add_congruent(r2, x, s2 + v, y);
    lemma_add_congruent(r2 + x, z2, s2 + v + y, z2);
}

/// The state after `n` passes over `data`, in closed form: with
/// `(t1, t2)` the state that one pass reaches from `(0, 0)`, `s1` grows by
/// `n t1`, and `s2` by `n len s1 + n t2 + len t1 n (n - 1) / 2`.
pub proof fn lemma_adler_repeat(s: AdlerState, data: Seq<u8>, n: nat)
    requires
        s.s1 < 65521,
        s.s2 < 65521,
    ensures
        ({
            let z = adler_feed(AdlerState { s1: 0, s2: 0 }, data);
            let r = adler_feed(s, repeat(data, n));
            &&& r.s1 == (s.s1 + n * z.s1) % 65521
            &&& r.s2 == (s.s2 + (n * data.len() * s.s1 + n * z.s2 + data.len() * z.s1 * triangle(
                n,
            ))) % 65521
        }),
    decreases n,
{
    let z = adler_feed(AdlerState { s1: 0, s2: 0 }, data);
    if n == 0 {
        assert(n * z.s1 == 0 && n * data.len() * s.s1 == 0 && n * z.s2 == 0 && data.len() * z.s1
            * triangle(n) == 0) by (nonlinear_arith)
            requires
                n == 0,
                triangle(n) == 0,
        ;
    } else {
        let m = (n - 1) as nat;
        let r = adler_feed(s, repeat(data, m));
        lemma_adler_repeat(s, data, m);
        lemma_adler_feed_concat(s, repeat(data, m), data);
        lemma_adler_feed_bound(s, repeat(data, m));
        lemma_adler_pass(r, data);
        lemma_adler_repeat_step(
            s.s1 as int,
            s.s2 as int,
            z.s1 as int,
            z.s2 as int,
            data.len() as int,
            m as int,
            triangle(m) as int,
        );
    }
}

/// Half of `n (n - 1)`, reduced, is the reduced product of `n`, of
/// `n - 1` and of 32761, the inverse of two.
proof fn lemma_triangle_reduce(reps: nat)
    ensures
        ({
            let n = (reps % 65521) as int;
            ((n * ((n + 65520) % 65521)) % 65521 * 32761) % 65521 == triangle(reps) % 65521
        }),
{
    let n = (reps % 65521) as int;
    let k = (n + 65520) % 65521;
    let nk = (n * k) % 65521;
    let t = triangle(reps) as int;
    assert(k % 65521 == (reps - 1) % 65521);
    lemma_mul_congruent(n, k, reps as int, reps - 1);
    lemma_reduced_congruent(n * k);
    lemma_mul_congruent(nk, 32761, reps * (reps - 1), 32761);
    lemma_triangle(reps);
    assert(reps * (reps - 1) * 32761 == t + 65521 * t);
    assert((t + 65521 * t) % 65521 == t % 65521) by {
        lemma_mod_multiples_vanish(t, t, 65521);
    }
}

/// The closed form of `lemma_adler_repeat` may be computed on reduced
/// values.
proof fn lemma_adler_reduce(s1: int, s2: int, z1: int, z2: int, len: nat, reps: nat)
    ensures
        ({
            let n = (reps % 65521) as int;
            let l = (len % 65521) as int;
            let tri = ((n * ((n + 65520) % 65521)) % 65521 * 32761) % 65521;
            let a = (((n * l) % 65521) * s1) % 65521;
            let b = (n * z2) % 65521;
            let c = (((l * z1) % 65521) * tri) % 65521;
            let m = (n * z1) % 65521;
            &&& (s1 + reps * z1) % 65521 == (s1 + m) % 65521
            &&& (s2 + (reps * len * s1 + reps * z2 + len * z1 * triangle(reps))) % 65521 == (s2
                + a + b + c) % 65521
        }),
{
    let n = (reps % 65521) as int;
    let l = (len % 65521) as int;
    let tri = ((n * ((n + 65520) % 65521)) % 65521 * 32761) % 65521;
    let nl = (n * l) % 65521;
    let lz = (l * z1) % 65521;
    let t = triangle(reps) as int;
    let a = (nl * s1) % 65521;
    let b = (n * z2) % 65521;
    let c = (lz * tri) % 65521;
    let m = (n * z1) % 65521;
    let (ta, tb, tc) = ((reps * len * s1) as int, (reps * z2) as int, (len * z1 * t) as int);
    lemma_reduced_congruent(reps as int);
    lemma_reduced_congruent(len as int);
    assert(m % 65521 == (reps * z1) % 65521) by {
        lemma_mul_congruent(n, z1, reps as int, z1);
        lemma_reduced_congruent(n * z1);
    }
    assert(a % 65521 == ta % 65521) by {
        lemma_mul_congruent(n, l, reps as int, len as int);
        lemma_reduced_congruent(n * l);
        lemma_mul_congruent(nl, s1, (reps * len) as int, s1);
        lemma_reduced_congruent(nl * s1);
    }
    assert(b % 65521 == tb % 65521) by {
        lemma_mul_congruent(n, z2, reps as int, z2);
        lemma_reduced_congruent(n * z2);
    }
    assert(c % 65521 == tc % 65521) by {
        lemma_triangle_reduce(reps);
        lemma_reduced_congruent(tri);
        lemma_mul_congruent(l, z1, len as int, z1);
        lemma_reduced_congruent(l * z1);
        lemma_mul_congruent(lz, tri, (len * z1) as int, t);
        lemma_reduced_congruent(lz * tri);
    }
    lemma_add_congruent(s1, m, s1, (reps * z1) as int);
    lemma_add_congruent(s2, a, s2, ta);
    lemma_add_congruent(s2 + a, b, s2 + ta, tb);
    lemma_add_congruent(s2 + a + b, c, s2 + ta + tb, tc);
}

/// The product of two reduced values, reduced.
fn mul_mod(x: u64, y: u64) -> (r: u64)
    requires
        x < 65521,
        y < 65521,
    ensures
        r == (x * y) % 65521,
        r < 65521,
{
    assert(x * y <= 65520 * 65520) by (nonlinear_arith)
        requires
            x <= 65520,
            y <= 65520,
    ;
    (x * y) % 65521
}

/// An incremental Adler-32 checksum.
pub struct AdlerEngine {
    s1: u32,
    s2: u32,
}

impl View for AdlerEngine {
    type V = AdlerState;

    closed spec fn view(&self) -> AdlerState {
        AdlerState { s1: self.s1 as nat, s2: self.s2 as nat }
    }
}

impl AdlerEngine {
    #[verifier::type_invariant]
    spec fn reduced(self) -> bool {
        self.s1 < 65521 && self.s2 < 65521
    }

    /// An engine that no byte was fed to.
    pub fn new() -> (r: AdlerEngine)
        ensures
            r@ == adler_init(),
    {
        AdlerEngine { s1: 1, s2: 0 }
    }

    /// Feeds one byte.
    pub fn apply1(&mut self, data: u8)
        ensures
            final(self)@ == adler_step(old(self)@, data),
    {
        proof {
            use_type_invariant(&*self);
        }
        self.s1 = (self.s1 + data as u32) % 65521;
        self.s2 = (self.s2 + self.s1) % 65521;
    }

    /// Feeds the bytes of `data`, in order.
    pub fn apply(&mut self, data: &[u8])
        ensures
            final(self)@ == adler_feed(old(self)@, data@),
    {
        let mut i: usize = 0;
        while i < data.len()
            invariant
                i <= data@.len(),
                self@ == adler_feed(old(self)@, data@.take(i as int)),
            decreases data@.len() - i,
        {
            proof {
                assert(data@.take(i + 1).drop_last() == data@.take(i as int));
            }
            self.apply1(data[i]);
            i += 1;
        }
        proof {
            assert(data@.take(i as int) == data@);
        }
    }

    /// Feeds the bytes of `data`, `reps` times over, in time that does not
    /// depend on `reps`.
    pub fn apply_rep(&mut self, data: &[u8], reps: BigNat)
        ensures
            final(self)@ == adler_feed(old(self)@, repeat(data@, reps@)),
    {
        let mut pass = AdlerEngine { s1: 0, s2: 0 };
        pass.apply(data);
        proof {
            use_type_invariant(&*self);
            use_type_invariant(&pass);
            lemma_adler_repeat(self@, data@, reps@);
            lemma_adler_reduce(
                self.s1 as int,
                self.s2 as int,
                pass.s1 as int,
                pass.s2 as int,
                data@.len(),
                reps@,
            );
        }
        let t1 = pass.s1 as u64;
        let t2 = pass.s2 as u64;
        let n = reps.rem_small(65521);
        let len = (data.len() % 65521) as u64;
        let tri = mul_mod(mul_mod(n, (n + 65520) % 65521), 32761);
        let a = mul_mod(mul_mod(n, len), self.s1 as u64);
        let b = mul_mod(n, t2);
        let c = mul_mod(mul_mod(len, t1), tri);
        let s2 = (self.s2 as u64 + a + b + c) % 65521;
        let s1 = (self.s1 as u64 + mul_mod(n, t1)) % 65521;
        self.s1 = s1 as u32;
        self.s2 = s2 as u32;
    }

    /// The four checksum bytes: `s2` then `s1`, each big-endian.
    pub fn bytes(&self) -> (r: [u8; 4])
        ensures
            r@ == adler_digest(self@),
    {
        proof {
            use_type_invariant(self);
        }
        let s1 = self.s1;
        let s2 = self.s2;
        let r = [(s2 >> 8) as u8, (s2 & 255) as u8, (s1 >> 8) as u8, (s1 & 255) as u8];
        proof {
            assert((s2 >> 8) == (s2 / 256) % 256 && (s2 & 255) == s2 % 256) by (bit_vector)
                requires
                    s2 < 65521,
            ;
            assert((s1 >> 8) == (s1 / 256) % 256 && (s1 & 255) == s1 % 256) by (bit_vector)
                requires
                    s1 < 65521,
            ;
            assert(r@ =~= adler_digest(self@));
        }
        r
    }
}

} // verus!
