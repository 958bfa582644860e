//! What the checksum engines have in common.
use crate::bignat::BigNat;
use vstd::prelude::*;

verus! {

/// `data`, `n` times over.
pub open spec fn repeat(data: Seq<u8>, n: nat) -> Seq<u8>
    decreases n,
{
    if n == 0 {
        Seq::empty()
    } else {
        repeat(data, (n - 1) as nat) + data
    }
}

/// `n` passes over `data` are as long as `n` times `data`.
pub proof fn lemma_repeat_len(data: Seq<u8>, n: nat)
    ensures
        repeat(data, n).len() == n * data.len(),
    decreases n,
{
    if n > 0 {
        lemma_repeat_len(data, (n - 1) as nat);
        assert(n * data.len() == (n - 1) * data.len() + data.len()) by (nonlinear_arith);
    } else {
        assert(n * data.len() == 0) by (nonlinear_arith)
            requires
                n == 0,
        ;
    }
}

/// Byte `i` of `n` passes over `data` is the byte of `data` at `i` modulo
/// its length.
pub proof fn lemma_repeat_index(data: Seq<u8>, n: nat, i: int)
    requires
        0 <= i < n * data.len(),
    ensures
        repeat(data, n).len() == n * data.len(),
        repeat(data, n)[i] == data[i % (data.len() as int)],
    decreases n,
{
    lemma_repeat_len(data, n);
    if n > 0 {
        let m = (n - 1) as nat;
        let len = data.len() as int;
        lemma_repeat_len(data, m);
        assert(n * data.len() == m * data.len() + data.len()) by (nonlinear_arith)
            requires
                n == m + 1,
        ;
        if i < m * data.len() {
            lemma_repeat_index(data, m, i);
        } else {
            assert((i - m * len) == i % len) by {
                vstd::arithmetic::div_mod::lemma_fundamental_div_mod_converse(
                    i,
                    len,
                    m as int,
                    i - m * len,
                );
            }
        }
    } else {
        assert(n * data.len() == 0) by (nonlinear_arith)
            requires
                n == 0,
        ;
    }
}

/// The first `size` bytes of a pattern repeated without end are its full
/// passes and the start of one more.
pub proof fn lemma_cycle_split(pattern: Seq<u8>, size: nat)
    requires
        pattern.len() >= 1,
    ensures
        Seq::new(size, |i: int| pattern[i % (pattern.len() as int)]) == repeat(
            pattern,
            size / pattern.len(),
        ) + pattern.take((size % pattern.len()) as int),
{
    let len = pattern.len() as int;
    let full = size / pattern.len();
    let extra = (size % pattern.len()) as int;
    let lhs = Seq::new(size, |i: int| pattern[i % len]);
    let rhs = repeat(pattern, full) + pattern.take(extra);
    lemma_repeat_len(pattern, full);
    vstd::arithmetic::div_mod::lemma_fundamental_div_mod(size as int, len);
    assert(full * pattern.len() == len * (size as int / len)) by (nonlinear_arith)
        requires
            full == size as int / len,
            pattern.len() == len,
    ;
    assert(lhs.len() == rhs.len());
    assert forall|i: int| 0 <= i < lhs.len() implies lhs[i] == rhs[i] by {
        if i < full * pattern.len() {
            lemma_repeat_index(pattern, full, i);
        } else {
            assert(i - full * len == i % len) by {
                vstd::arithmetic::div_mod::lemma_fundamental_div_mod_converse(
                    i,
                    len,
                    full as int,
                    i - full * len,
                );
            }
        }
    }
    assert(lhs =~= rhs);
}

/// An incremental checksum: bytes are fed to it one by one, in runs, or
/// in runs repeated many times over, and it gives four bytes for what it
/// was fed.
pub trait ChecksumEngine: Sized {
    /// The engine after the bytes of `data` were fed to it.
    spec fn fed(self, data: Seq<u8>) -> Self;

    /// The four checksum bytes of the engine.
    spec fn digest(self) -> Seq<u8>;

    /// Feeding nothing changes nothing, and feeding one run after another
    /// is feeding both at once.
    proof fn lemma_fed(self, a: Seq<u8>, b: Seq<u8>)
        ensures
            self.fed(Seq::empty()) == self,
            self.fed(a + b) == self.fed(a).fed(b),
    ;

    /// Feeds one byte.
    fn apply1(&mut self, data: u8)
        ensures
            *final(self) == old(self).fed(seq![data]),
    ;

    /// Feeds the bytes of `data`, in order.
    fn apply(&mut self, data: &[u8])
        ensures
            *final(self) == old(self).fed(data@),
    {
        let mut i: usize = 0;
        proof {
            old(self).lemma_fed(Seq::empty(), Seq::empty());
            assert(data@.take(0) =~= Seq::empty());
        }
        while i < data.len()
            invariant
                i <= data@.len(),
                *self == old(self).fed(data@.take(i as int)),
            decreases data@.len() - i,
        {
            proof {
                old(self).lemma_fed(data@.take(i as int), seq![data@[i as int]]);
                assert(data@.take(i + 1) =~= data@.take(i as int) + seq![data@[i as int]]);
            }
            self.apply1(data[i]);
            i += 1;
        }
        proof {
            assert(data@.take(i as int) =~= data@);
        }
    }

    /// Feeds the bytes of `data`, `reps` times over.
    fn apply_rep(&mut self, data: &[u8], reps: BigNat)
        ensures
            *final(self) == old(self).fed(repeat(data@, reps@)),
    ;

    /// The four checksum bytes of what was fed.
    fn bytes(&self) -> (r: [u8; 4])
        ensures
            r@ == self.digest(),
    ;
}

} // verus!
