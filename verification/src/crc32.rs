//! CRC-32 (polynomial `0xedb88320`), evaluated incrementally and, for
//! repeated data, by exponentiating the matrix of one pass.
use crate::bignat::BigNat;
use crate::checksum::{repeat, ChecksumEngine};
use crate::matrix::{apply_rows, iter_apply, CrcMatrix};
use vstd::prelude::*;

verus! {

/// One shift of the CRC register: the low bit leaves, and the generator is
/// folded in where that bit was set.
pub open spec fn crc_shift(v: u32) -> u32 {
    if v & 1 == 1 {
        (v >> 1) ^ 0xedb88320
    } else {
        v >> 1
    }
}

/// The register after one more bit of data.
pub open spec fn crc_bit(v: u32, one: bool) -> u32 {
    if one {
        crc_shift(v) ^ 0xedb88320
    } else {
        crc_shift(v)
    }
}

/// The register after one more byte: the byte is folded into the low bits,
/// then the register is shifted eight times.
pub open spec fn crc_step(v: u32, b: u8) -> u32 {
    crc_shift(
        crc_shift(
            crc_shift(crc_shift(crc_shift(crc_shift(crc_shift(crc_shift(v ^ (b as u32))))))),
        ),
    )
}

/// The register after the bytes of `data`, in order.
pub open spec fn crc_feed(v: u32, data: Seq<u8>) -> u32
    decreases data.len(),
{
    if data.len() == 0 {
        v
    } else {
        crc_step(crc_feed(v, data.drop_last()), data.last())
    }
}

/// The checksum that a register stands for: its complement.
pub open spec fn crc_value(v: u32) -> u32 {
    !v
}

/// The CRC-32 checksum of `data`.
pub open spec fn crc32(data: Seq<u8>) -> u32 {
    crc_value(crc_feed(0xffff_ffff, data))
}

/// The four bytes of `x`, most significant first.
pub open spec fn be_bytes(x: u32) -> Seq<u8> {
    seq![(x >> 24) as u8, ((x >> 16) & 0xff) as u8, ((x >> 8) & 0xff) as u8, (x & 0xff) as u8]
}

/// The four bytes of `x`, least significant first.
pub open spec fn le_bytes(x: u32) -> Seq<u8> {
    seq![(x & 0xff) as u8, ((x >> 8) & 0xff) as u8, ((x >> 16) & 0xff) as u8, (x >> 24) as u8]
}

/// Whether bit `k` of a byte is set.
pub open spec fn bit_of(b: u8, k: nat) -> bool {
    (b >> (k as u8)) & 1 == 1
}

/// The register after the bits of a byte from bit `from` up, the lower
/// bit first.
pub open spec fn crc_bits(v: u32, b: u8, from: nat) -> u32
    decreases 8 - from,
{
    if from >= 8 {
        v
    } else {
        crc_bits(crc_bit(v, bit_of(b, from)), b, from + 1)
    }
}

/// The register after `n` shifts.
pub open spec fn shifted(v: u32, n: nat) -> u32
    decreases n,
{
    if n == 0 {
        v
    } else {
        crc_shift(shifted(v, (n - 1) as nat))
    }
}

/// Shifting `n + 1` times is shifting once, then `n` times.
proof fn lemma_shifted_first(v: u32, n: nat)
    ensures
        shifted(v, n + 1) == shifted(crc_shift(v), n),
    decreases n,
{
    if n > 0 {
        lemma_shifted_first(v, (n - 1) as nat);
        assert(shifted(v, n + 1) == crc_shift(shifted(v, n)));
    } else {
        assert(shifted(v, 0) == v);
        assert(shifted(v, 1) == crc_shift(shifted(v, 0)));
    }
}

/// The bits of a byte from bit `k` up may be fed one by one, or folded
/// into the register at once before it is shifted for each of them.
proof fn lemma_crc_bits(v: u32, b: u8, k: nat)
    requires
        k <= 8,
    ensures
        crc_bits(v, b, k) == shifted(v ^ ((b as u32) >> (k as u32)), (8 - k) as nat),
    decreases 8 - k,
{
    let r = (b as u32) >> (k as u32);
    if k == 8 {
        assert(v ^ ((b as u32) >> 8u32) == v) by (bit_vector);
    } else {
        let u = crc_bit(v, bit_of(b, k));
        let kk = k as u32;
        lemma_crc_bits(u, b, k + 1);
        lemma_shifted_first(v ^ r, (7 - k) as nat);
        assert(crc_shift(v ^ ((b as u32) >> kk)) == crc_bit(v, (b >> (kk as u8)) & 1 == 1) ^ ((
        b as u32) >> ((kk + 1) as u32))) by (bit_vector)
            requires
                kk < 8,
        ;
    }
}

/// A byte may be fed bit by bit, the lowest bit first.
pub proof fn lemma_crc_step_bits(v: u32, b: u8)
    ensures
        crc_step(v, b) == crc_bits(v, b, 0),
{
    lemma_crc_bits(v, b, 0);
    reveal_with_fuel(shifted, 9);
    assert((b as u32) >> 0u32 == b as u32) by (bit_vector);
}

/// Feeding one run of bytes after another is feeding both at once.
pub proof fn lemma_crc_feed_concat(v: u32, a: Seq<u8>, b: Seq<u8>)
    ensures
        crc_feed(v, a + b) == crc_feed(crc_feed(v, a), b),
    decreases b.len(),
{
    if b.len() == 0 {
        assert(a + b =~= a);
    } else {
        assert((a + b).drop_last() =~= a + b.drop_last());
        lemma_crc_feed_concat(v, a, b.drop_last());
    }
}

/// Feeding a byte first and a run of bytes after it is feeding the run
/// with the byte at its head.
pub proof fn lemma_crc_feed_first(v: u32, b: u8, rest: Seq<u8>)
    ensures
        crc_feed(crc_step(v, b), rest) == crc_feed(v, seq![b] + rest),
{
    lemma_crc_feed_concat(v, seq![b], rest);
    assert(seq![b].drop_last() =~= Seq::<u8>::empty());
    assert(crc_feed(v, seq![b]) == crc_step(crc_feed(v, seq![b].drop_last()), b));
}

/// A matrix that stands for one pass over `data` stands, applied `n`
/// times, for `n` passes.
pub proof fn lemma_crc_repeat(rows: Seq<u64>, data: Seq<u8>, n: nat, v: u32)
    requires
        forall|x: u32| #[trigger] apply_rows(rows, x) == crc_feed(x, data),
    ensures
        iter_apply(rows, n, v) == crc_feed(v, repeat(data, n)),
    decreases n,
{
    if n > 0 {
        lemma_crc_repeat(rows, data, (n - 1) as nat, v);
        lemma_crc_feed_concat(v, repeat(data, (n - 1) as nat), data);
    }
}

/// An incremental CRC-32 checksum.
pub struct Crc32Engine {
    v: u32,
}

impl View for Crc32Engine {
    type V = u32;

    closed spec fn view(&self) -> u32 {
        self.v
    }
}

impl Crc32Engine {
    /// An engine that no byte was fed to.
    pub fn new() -> (r: Crc32Engine)
        ensures
            r@ == 0xffff_ffffu32,
    {
        Crc32Engine { v: 0xffffffff }
    }

    /// The register of an engine that bytes were fed to is the register
    /// after those bytes.
    pub proof fn lemma_fed_view(self, data: Seq<u8>)
        ensures
            self.fed(data)@ == crc_feed(self@, data),
    {
    }

    /// The checksum bytes of an engine are those of its register's value,
    /// most significant first.
    pub proof fn lemma_digest_view(self)
        ensures
            self.digest() == be_bytes(crc_value(self@)),
    {
    }

    /// The matrix that stands for one pass over `data`.
    fn pass_matrix(data: &[u8]) -> (r: CrcMatrix)
        ensures
            forall|v: u32| #[trigger] r.spec_apply(v) == crc_feed(v, data@),
    {
        let mut matr = CrcMatrix::new();
        let n = data.len();
        let mut i: usize = 0;
        proof {
            assert(data@.skip(n as int) =~= Seq::<u8>::empty());
        }
        while i < n
            invariant
                n == data@.len(),
                i <= n,
                forall|v: u32| #[trigger] matr.spec_apply(v) == crc_feed(v, data@.skip(n - i)),
            decreases n - i,
        {
            let byte = data[n - i - 1];
            let ghost before = matr;
            let mut j: u8 = 0;
            while j < 8
                invariant
                    j <= 8,
                    forall|v: u32| #[trigger]
                        matr.spec_apply(v) == before.spec_apply(crc_bits(v, byte, (8 - j) as nat)),
                decreases 8 - j,
            {
                let ghost prev = matr;
                let k: u8 = 7 - j;
                assert((byte & (1u8 << k) != 0) == ((byte >> k) & 1 == 1)) by (bit_vector)
                    requires
                        k < 8,
                ;
                if (byte & (1u8 << k)) != 0 {
                    matr.push_1();
                } else {
                    matr.push_0();
                }
                proof {
                    assert forall|v: u32| #[trigger]
                        matr.spec_apply(v) == before.spec_apply(crc_bits(v, byte, k as nat)) by {
                        let u = crc_bit(v, bit_of(byte, k as nat));
                        assert(matr.spec_apply(v) == prev.spec_apply(u));
                        assert(prev.spec_apply(u) == before.spec_apply(
                            crc_bits(u, byte, (8 - j) as nat),
                        ));
                    }
                }
                j += 1;
            }
            proof {
                assert forall|v: u32| #[trigger]
                    matr.spec_apply(v) == crc_feed(v, data@.skip(n - i - 1)) by {
                    lemma_crc_step_bits(v, byte);
                    let u = crc_step(v, byte);
                    assert(before.spec_apply(u) == crc_feed(u, data@.skip(n - i)));
                    lemma_crc_feed_first(v, byte, data@.skip(n - i));
                    assert(seq![byte] + data@.skip(n - i) =~= data@.skip(n - i - 1));
                }
            }
            i += 1;
        }
        proof {
            assert(data@.skip(0) =~= data@);
        }
        matr
    }
}

impl ChecksumEngine for Crc32Engine {
    closed spec fn fed(self, data: Seq<u8>) -> Self {
        Crc32Engine { v: crc_feed(self.v, data) }
    }

    closed spec fn digest(self) -> Seq<u8> {
        be_bytes(crc_value(self.v))
    }

    proof fn lemma_fed(self, a: Seq<u8>, b: Seq<u8>) {
        lemma_crc_feed_concat(self.v, a, b);
    }

    fn apply1(&mut self, data: u8)
        ensures
            final(self)@ == crc_step(old(self)@, data),
    {
        let mut v = self.v ^ (data as u32);
        let mut i: u8 = 0;
        proof {
            assert(seq![data].drop_last() =~= Seq::<u8>::empty());
            assert(crc_feed(self.v, seq![data]) == crc_step(
                crc_feed(self.v, seq![data].drop_last()),
                data,
            ));
        }
        let ghost start = v;
        while i < 8
            invariant
                i <= 8,
                v == shifted(start, i as nat),
            decreases 8 - i,
        {
            if (v & 1) != 0 {
                v = (v >> 1) ^ 0xedb88320;
            } else {
                v = v >> 1;
            }
            proof {
                let x = shifted(start, i as nat);
                assert((x & 1 != 0) == (x & 1 == 1)) by (bit_vector);
            }
            i += 1;
        }
        proof {
            reveal_with_fuel(shifted, 9);
        }
        self.v = v;
    }

    fn apply_rep(&mut self, data: &[u8], reps: BigNat)
        ensures
            final(self)@ == crc_feed(old(self)@, repeat(data@, reps@)),
    {
        if reps.le(&BigNat::zero()) {
            return ;
        }
        let mut matr = Self::pass_matrix(data);
        let ghost pass = matr;
        matr.exponentiate(&reps);
        proof {
            assert forall|x: u32| #[trigger]
                apply_rows(pass@, x) == crc_feed(x, data@) by {
                assert(pass.spec_apply(x) == crc_feed(x, data@));
            }
            lemma_crc_repeat(pass@, data@, reps@, self.v);
            assert(matr.spec_apply(self.v) == iter_apply(pass@, reps@, self.v));
        }
        self.v = matr.apply(self.v);
    }

    fn bytes(&self) -> (r: [u8; 4])
    {
        let crc = !self.v;
        let r = [(crc >> 24) as u8, (crc >> 16) as u8, (crc >> 8) as u8, crc as u8];
        proof {
            assert((crc >> 24) as u8 == (crc >> 24) as u8 && (crc >> 16) as u8 == ((crc >> 16)
                & 0xff) as u8 && (crc >> 8) as u8 == ((crc >> 8) & 0xff) as u8 && crc as u8 == (crc
                & 0xff) as u8) by (bit_vector);
            assert(r@ =~= be_bytes(crc_value(self.v)));
        }
        r
    }
}

} // verus!
