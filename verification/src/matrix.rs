//! Square matrices over the field of two elements, 33 by 33: the linear
//! maps of a CRC-32 register extended by a constant one.
//!
//! A row is a word of 33 bits; column `j` of a row is its bit `32 - j`.
//! The vector that a register `v` stands for is `v` with bit 32 set.
use crate::bignat::BigNat;
use crate::crc32::crc_bit;
use vstd::prelude::*;

verus! {

/// Bit `i` of a word, as zero or one.
pub open spec fn bit(x: u64, i: nat) -> u64 {
    (x >> (i as u64)) & 1
}

/// The parity of the bits of a word below bit `k`: their exclusive or.
pub open spec fn parity_below(x: u64, k: nat) -> u64
    decreases k,
{
    if k == 0 {
        0
    } else {
        parity_below(x, (k - 1) as nat) ^ bit(x, (k - 1) as nat)
    }
}

/// The parity of a word, as zero or one: the exclusive or of its bits.
pub open spec fn parity(x: u64) -> u64 {
    parity_below(x, 64)
}

/// The word with its halves folded onto each other by exclusive or until
/// one bit is left.
pub open spec fn folded(n: u64) -> u64 {
    let n = n ^ (n >> 32);
    let n = n ^ (n >> 16);
    let n = n ^ (n >> 8);
    let n = n ^ (n >> 4);
    let n = n ^ (n >> 2);
    let n = n ^ (n >> 1);
    n & 1
}

/// Folding the bits of a word below bit `k` gives their parity.
proof fn lemma_folded_below(x: u64, k: nat)
    requires
        k <= 63,
    ensures
        folded(x & low_mask(k as u64)) == parity_below(x, k),
    decreases k,
{
    if k == 0 {
        assert(folded(x & !(0xffff_ffff_ffff_ffffu64 << 0)) == 0) by (bit_vector);
    } else {
        let m = (k - 1) as u64;
        lemma_folded_below(x, (k - 1) as nat);
        assert(folded(x & !(0xffff_ffff_ffff_ffffu64 << ((m + 1) as u64))) == folded(
            x & !(0xffff_ffff_ffff_ffffu64 << m),
        ) ^ ((x >> m) & 1)) by (bit_vector)
            requires
                m <= 62,
        ;
    }
}

/// Folding a word gives its parity.
pub proof fn lemma_folded(x: u64)
    ensures
        folded(x) == parity(x),
{
    lemma_folded_below(x, 63);
    assert(folded(x) == folded(x & !(0xffff_ffff_ffff_ffffu64 << 63)) ^ ((x >> 63) & 1))
        by (bit_vector);
}

/// The product of a row and a vector: the parity of the bits that both
/// have.
pub open spec fn dot(a: u64, b: u64) -> u64 {
    parity(a & b)
}

/// The first `n` entries of the product of the matrix `rows` and the
/// vector `w`: entry `i`, the product of row `i` and `w`, is bit `32 - i`.
pub open spec fn mat_vec(rows: Seq<u64>, w: u64, n: nat) -> u64
    decreases n,
{
    if n == 0 {
        0
    } else {
        mat_vec(rows, w, (n - 1) as nat) ^ (dot(rows[n - 1], w) << ((33 - n) as u64))
    }
}

/// The unit vector of column `j`.
pub open spec fn unit(j: int) -> u64 {
    1u64 << ((32 - j) as u64)
}

/// The parity of a word is zero or one, that of nothing is zero, and that
/// of a single bit is one.
pub proof fn lemma_parity_basics(x: u64, k: u64)
    ensures
        parity(x) <= 1,
        parity(0) == 0,
        k < 64 ==> parity(x & (1u64 << k)) == (x >> k) & 1,
        (x >> k) & 1 <= 1,
{
    lemma_folded(x);
    lemma_folded(0);
    lemma_folded(x & (1u64 << k));
    assert(folded(x) <= 1 && (x >> k) & 1 <= 1 && folded(0) == 0 && (k < 64 ==> folded(
        x & (1u64 << k),
    ) == (x >> k) & 1)) by (bit_vector);
}

/// The product with a row is additive in the vector, and the same either
/// way round.
pub proof fn lemma_dot_linear(a: u64, x: u64, y: u64)
    ensures
        dot(a, x ^ y) == dot(a, x) ^ dot(a, y),
        dot(x ^ y, a) == dot(x, a) ^ dot(y, a),
        dot(a, x) == dot(x, a),
        dot(a, 0) == 0,
{
    lemma_folded(a & (x ^ y));
    lemma_folded(a & x);
    lemma_folded(a & y);
    lemma_folded((x ^ y) & a);
    lemma_folded(x & a);
    lemma_folded(y & a);
    lemma_folded(a & 0);
    assert(folded(a & (x ^ y)) == folded(a & x) ^ folded(a & y) && folded((x ^ y) & a) == folded(
        x & a,
    ) ^ folded(y & a) && folded(a & x) == folded(x & a) && folded(a & 0) == 0) by (bit_vector);
}

/// Facts on words that hold of every word.
proof fn lemma_words(x: u64, v: u32)
    ensures
        0u64 & low_mask(33) == 0,
        0u64 ^ 0u64 == 0,
        x ^ x == 0,
        x ^ 0 == x,
        x & (1u64 << 32) == x & 0x1_0000_0000,
        1u64 << 32 == 0x1_0000_0000,
        ((v as u64) | 0x1_0000_0000) < 0x2_0000_0000,
{
    assert(0u64 & !(0xffff_ffff_ffff_ffffu64 << 33) == 0 && 0u64 ^ 0u64 == 0 && x ^ x == 0 && x
        ^ 0 == x && x & (1u64 << 32) == x & 0x1_0000_0000 && 1u64 << 32 == 0x1_0000_0000 && ((
    v as u64) | 0x1_0000_0000) < 0x2_0000_0000) by (bit_vector);
}

/// The word whose bits below `k` are set.
pub open spec fn low_mask(k: u64) -> u64 {
    !(0xffff_ffff_ffff_ffffu64 << k)
}

/// Whether a map of vectors is additive.
pub open spec fn linear(t: spec_fn(u64) -> u64) -> bool {
    forall|x: u64, y: u64| #[trigger] t(x ^ y) == t(x) ^ t(y)
}

/// Whether `cols` holds the columns of the map `t`: entry `j` is what `t`
/// makes of the unit vector of column `j`.
pub open spec fn columns_of(cols: Seq<u64>, t: spec_fn(u64) -> u64) -> bool {
    &&& cols.len() == 33
    &&& forall|j: int| 0 <= j < 33 ==> #[trigger] cols[j] == t(unit(j))
}

/// One more entry of a product: the entry is set, the entries before it
/// stay, and nothing else is.
proof fn lemma_entry(r: u64, p: u64, s: u64, t: u64)
    requires
        p <= 1,
        s <= 32,
        r < 0x2_0000_0000,
        r & low_mask((s + 1) as u64) == 0,
    ensures
        (r ^ (p << s)) < 0x2_0000_0000,
        (r ^ (p << s)) & low_mask(s) == 0,
        ((r ^ (p << s)) >> s) & 1 == p,
        s < t <= 32 ==> ((r ^ (p << s)) >> t) & 1 == (r >> t) & 1,
{
    assert((r ^ (p << s)) < 0x2_0000_0000 && (r ^ (p << s)) & !(0xffff_ffff_ffff_ffffu64 << s) == 0
        && ((r ^ (p << s)) >> s) & 1 == p && (s < t <= 32 ==> ((r ^ (p << s)) >> t) & 1 == (r >> t)
        & 1)) by (bit_vector)
        requires
            p <= 1,
            s <= 32,
            r < 0x2_0000_0000,
            r & !(0xffff_ffff_ffff_ffffu64 << ((s + 1) as u64)) == 0,
    ;
}

/// The entries of a product: entry `j` is the product of row `j` and the
/// vector, and no bit beyond the entries is set.
pub proof fn lemma_mat_vec_bits(rows: Seq<u64>, w: u64, n: nat)
    requires
        n <= 33,
    ensures
        mat_vec(rows, w, n) < 0x2_0000_0000,
        mat_vec(rows, w, n) & low_mask((33 - n) as u64) == 0,
        forall|j: int|
            0 <= j < n ==> (mat_vec(rows, w, n) >> ((32 - j) as u64)) & 1 == #[trigger] dot(
                rows[j],
                w,
            ),
    decreases n,
{
    if n == 0 {
        lemma_words(0, 0);
    } else {
        let m = (n - 1) as nat;
        let r = mat_vec(rows, w, m);
        let p = dot(rows[n - 1], w);
        let s = (33 - n) as u64;
        lemma_mat_vec_bits(rows, w, m);
        lemma_parity_basics(rows[n - 1] & w, 0);
        lemma_entry(r, p, s, 32);
        assert forall|j: int| 0 <= j < n implies (mat_vec(rows, w, n) >> ((32 - j) as u64)) & 1
            == #[trigger] dot(rows[j], w) by {
            lemma_entry(r, p, s, (32 - j) as u64);
        }
    }
}

/// A product is additive in the vector.
pub proof fn lemma_mat_vec_linear(rows: Seq<u64>, x: u64, y: u64, n: nat)
    ensures
        mat_vec(rows, x ^ y, n) == mat_vec(rows, x, n) ^ mat_vec(rows, y, n),
    decreases n,
{
    if n == 0 {
        lemma_words(0, 0);
    } else {
        let m = (n - 1) as nat;
        let (r1, r2) = (mat_vec(rows, x, m), mat_vec(rows, y, m));
        let (d1, d2) = (dot(rows[n - 1], x), dot(rows[n - 1], y));
        let s = (33 - n) as u64;
        lemma_mat_vec_linear(rows, x, y, m);
        lemma_dot_linear(rows[n - 1], x, y);
        assert((r1 ^ r2) ^ ((d1 ^ d2) << s) == (r1 ^ (d1 << s)) ^ (r2 ^ (d2 << s)))
            by (bit_vector);
    }
}

/// Products of equal entries are equal.
proof fn lemma_mat_vec_same(rows1: Seq<u64>, w1: u64, rows2: Seq<u64>, w2: u64, n: nat)
    requires
        forall|j: int| 0 <= j < n ==> dot(#[trigger] rows1[j], w1) == dot(rows2[j], w2),
    ensures
        mat_vec(rows1, w1, n) == mat_vec(rows2, w2, n),
    decreases n,
{
    if n > 0 {
        lemma_mat_vec_same(rows1, w1, rows2, w2, (n - 1) as nat);
        assert(dot(rows1[n - 1], w1) == dot(rows2[n - 1], w2));
    }
}

/// Facts on the bits of a word below `k + 1`: they are those below `k`
/// and bit `k`, which is there or not.
proof fn lemma_low_bits(w: u64, k: u64)
    requires
        k <= 32,
    ensures
        w & low_mask((k + 1) as u64) == (w & low_mask(k)) ^ (w & (1u64 << k)),
        w & (1u64 << k) == 0 || w & (1u64 << k) == 1u64 << k,
        w & low_mask(0) == 0,
        w < 0x2_0000_0000 ==> w & low_mask(33) == w,
{
    assert(w & !(0xffff_ffff_ffff_ffffu64 << ((k + 1) as u64)) == (w & !(0xffff_ffff_ffff_ffffu64
        << k)) ^ (w & (1u64 << k)) && (w & (1u64 << k) == 0 || w & (1u64 << k) == 1u64 << k) && w
        & !(0xffff_ffff_ffff_ffffu64 << 0) == 0 && (w < 0x2_0000_0000 ==> w & !(
    0xffff_ffff_ffff_ffffu64 << 33) == w)) by (bit_vector)
        requires
            k <= 32,
    ;
}

/// An additive map makes nothing of nothing.
proof fn lemma_linear_zero(t: spec_fn(u64) -> u64)
    requires
        linear(t),
    ensures
        t(0) == 0,
{
    let z = t(0);
    lemma_words(z, 0);
    assert(t(0u64 ^ 0u64) == t(0) ^ t(0));
}

/// Multiplying a row `a` by the columns of a map gives the row of the
/// composition: its product with a vector is the product of `a` with what
/// the map makes of the vector. Here for the bits of the vector below `k`.
proof fn lemma_adjoint_bits(cols: Seq<u64>, a: u64, t: spec_fn(u64) -> u64, w: u64, k: nat)
    requires
        linear(t),
        columns_of(cols, t),
        k <= 33,
    ensures
        dot(mat_vec(cols, a, 33), w & low_mask(k as u64)) == dot(a, t(w & low_mask(k as u64))),
    decreases k,
{
    let row = mat_vec(cols, a, 33);
    if k == 0 {
        lemma_low_bits(w, 0);
        lemma_linear_zero(t);
        lemma_dot_linear(row, 0, 0);
        lemma_dot_linear(a, 0, 0);
    } else {
        let m = (k - 1) as u64;
        let low = w & low_mask(m);
        let e = w & (1u64 << m);
        lemma_adjoint_bits(cols, a, t, w, (k - 1) as nat);
        lemma_low_bits(w, m);
        if e == 0 {
            lemma_words(low, 0);
        } else {
            lemma_dot_linear(row, low, e);
            lemma_dot_linear(a, t(low), t(e));
            assert(t(low ^ e) == t(low) ^ t(e));
            lemma_parity_basics(row, m);
            lemma_mat_vec_bits(cols, a, 33);
            assert(dot(row, e) == dot(cols[32 - m], a));
            lemma_dot_linear(a, cols[32 - m], 0);
            assert(cols[32 - m] == t(unit(32 - m)));
        }
    }
}

/// The rows `p` that come of multiplying each row of `a` by the columns
/// of a map `t` make of a vector what `a` makes of what `t` makes of it.
pub proof fn lemma_multiply(
    a: Seq<u64>,
    cols: Seq<u64>,
    p: Seq<u64>,
    t: spec_fn(u64) -> u64,
    w: u64,
)
    requires
        a.len() == 33,
        p.len() == 33,
        linear(t),
        columns_of(cols, t),
        forall|i: int| 0 <= i < 33 ==> #[trigger] p[i] == mat_vec(cols, a[i], 33),
        w < 0x2_0000_0000,
    ensures
        mat_vec(p, w, 33) == mat_vec(a, t(w), 33),
{
    lemma_low_bits(w, 0);
    assert forall|i: int| 0 <= i < 33 implies dot(#[trigger] p[i], w) == dot(a[i], t(w)) by {
        lemma_adjoint_bits(cols, a[i], t, w, 33);
    }
    lemma_mat_vec_same(p, w, a, t(w), 33);
}


/// What a matrix makes of a register: the register is extended by the
/// constant one, multiplied, and the constant dropped again.
pub open spec fn apply_rows(rows: Seq<u64>, v: u32) -> u32 {
    (mat_vec(rows, (v as u64) | 0x1_0000_0000, 33) & 0xffff_ffff) as u32
}

/// What `n` applications of a matrix make of a register.
pub open spec fn iter_apply(rows: Seq<u64>, n: nat, v: u32) -> u32
    decreases n,
{
    if n == 0 {
        v
    } else {
        apply_rows(rows, iter_apply(rows, (n - 1) as nat, v))
    }
}

/// Applying a matrix `n + m` times is applying it `m` times, then `n`
/// times.
pub proof fn lemma_iter_apply_add(rows: Seq<u64>, n: nat, m: nat, v: u32)
    ensures
        iter_apply(rows, n + m, v) == iter_apply(rows, n, iter_apply(rows, m, v)),
    decreases n,
{
    if n > 0 {
        lemma_iter_apply_add(rows, (n - 1) as nat, m, v);
    }
}

/// The transition of the register by one bit of data, as a map of
/// vectors: the register moves down by one bit, and the generator is
/// folded in where the bit that left differs from the bit of data.
pub open spec fn bit_map(w: u64, one: bool) -> u64 {
    let fold = (w & 1) ^ (if one {
        (w >> 32) & 1
    } else {
        0
    });
    (w & 0x1_0000_0000) | (((w & 0xffff_ffff) >> 1) ^ (if fold == 1 {
        0xedb88320u64
    } else {
        0u64
    }))
}

/// Whether the first row of a matrix keeps the constant: it is the unit
/// vector of the constant's column.
pub open spec fn keeps_constant(rows: Seq<u64>) -> bool {
    rows.len() == 33 && rows[0] == 0x1_0000_0000
}

/// A matrix that keeps the constant makes of an extended register an
/// extended register.
pub proof fn lemma_apply_extended(rows: Seq<u64>, v: u32)
    requires
        keeps_constant(rows),
    ensures
        mat_vec(rows, (v as u64) | 0x1_0000_0000, 33) == (apply_rows(rows, v) as u64)
            | 0x1_0000_0000,
        ((v as u64) | 0x1_0000_0000) < 0x2_0000_0000,
{
    let w = (v as u64) | 0x1_0000_0000;
    let r = mat_vec(rows, w, 33);
    lemma_mat_vec_bits(rows, w, 33);
    assert((r >> 32) & 1 == dot(rows[0], w));
    lemma_folded(0x1_0000_0000u64 & ((v as u64) | 0x1_0000_0000));
    assert(folded(0x1_0000_0000u64 & ((v as u64) | 0x1_0000_0000)) == 1) by (bit_vector);
    lemma_words(0, v);
    assert(r == (((r & 0xffff_ffff) as u32) as u64) | 0x1_0000_0000) by (bit_vector)
        requires
            r < 0x2_0000_0000,
            (r >> 32) & 1 == 1,
    ;
}

/// The first row of a product with columns that keep the constant is the
/// unit vector of the constant's column.
proof fn lemma_constant_row(cols: Seq<u64>, n: nat)
    requires
        1 <= n <= 33,
        cols.len() == 33,
        forall|j: int|
            0 <= j < 33 ==> (#[trigger] cols[j] >> 32) & 1 == (if j == 0 {
                1u64
            } else {
                0u64
            }),
    ensures
        mat_vec(cols, 0x1_0000_0000, n) == 0x1_0000_0000,
    decreases n,
{
    let c = cols[n - 1];
    let s = (33 - n) as u64;
    let p = dot(c, 0x1_0000_0000);
    assert(p == (c >> 32) & 1) by {
        lemma_parity_basics(c, 32);
        lemma_words(c, 0);
    }
    assert(mat_vec(cols, 0x1_0000_0000, n) == mat_vec(cols, 0x1_0000_0000, (n - 1) as nat) ^ (p
        << s));
    if n == 1 {
        assert(mat_vec(cols, 0x1_0000_0000, 0) == 0);
        assert(0u64 ^ (p << s) == 0x1_0000_0000) by (bit_vector)
            requires
                p == 1,
                s == 32,
        ;
    } else {
        lemma_constant_row(cols, (n - 1) as nat);
        assert(0x1_0000_0000u64 ^ (p << s) == 0x1_0000_0000) by (bit_vector)
            requires
                p == 0,
        ;
    }
}

/// The transition by one bit of data, as a function.
pub open spec fn bit_map_fn(one: bool) -> spec_fn(u64) -> u64 {
    |w: u64| bit_map(w, one)
}

/// What a matrix makes of a vector, as a function.
pub open spec fn mat_fn(rows: Seq<u64>) -> spec_fn(u64) -> u64 {
    |w: u64| mat_vec(rows, w, 33)
}

/// The rows of the identity matrix.
pub open spec fn identity_rows() -> Seq<u64> {
    Seq::new(33, |i: int| unit(i))
}

/// The columns of the transition by one bit of data.
pub open spec fn bit_columns_of(one: bool) -> Seq<u64> {
    Seq::new(33, |j: int| bit_map(unit(j), one))
}

/// The rows of the product of the matrix `rows` and the matrix with the
/// columns `cols`: each row is multiplied by each column.
pub open spec fn multiplied(rows: Seq<u64>, cols: Seq<u64>) -> Seq<u64> {
    Seq::new(33, |i: int| mat_vec(cols, rows[i], 33))
}

/// The columns of the matrix `rows`: the rows of its transpose.
pub open spec fn columns_rows(rows: Seq<u64>) -> Seq<u64> {
    Seq::new(33, |j: int| mat_vec(rows, unit(j), 33))
}

/// The rows of the power `n` of the matrix `rows`, by squaring and
/// multiplying: the power `n / 2` is squared, and multiplied by the matrix
/// once more where `n` is odd. For `n` below two it is the matrix itself.
pub open spec fn power_rows(rows: Seq<u64>, n: nat) -> Seq<u64>
    decreases n,
{
    if n <= 1 {
        rows
    } else {
        let half = power_rows(rows, n / 2);
        let squared = multiplied(half, columns_rows(half));
        if n % 2 == 1 {
            multiplied(squared, columns_rows(rows))
        } else {
            squared
        }
    }
}

/// Whether each of the columns keeps the constant: the first has it, the
/// others have not.
pub open spec fn columns_keep_constant(cols: Seq<u64>) -> bool {
    &&& cols.len() == 33
    &&& forall|j: int|
        0 <= j < 33 ==> (#[trigger] cols[j] >> 32) & 1 == (if j == 0 {
            1u64
        } else {
            0u64
        })
}

/// The columns of a map that keeps the constant keep it.
proof fn lemma_columns_keep(cols: Seq<u64>, t: spec_fn(u64) -> u64)
    requires
        columns_of(cols, t),
        forall|w: u64| (#[trigger] t(w) >> 32) & 1 == (w >> 32) & 1,
    ensures
        columns_keep_constant(cols),
{
    assert forall|j: int| 0 <= j < 33 implies (#[trigger] cols[j] >> 32) & 1 == (if j == 0 {
        1u64
    } else {
        0u64
    }) by {
        let s = (32 - j) as u64;
        assert(cols[j] == t(unit(j)));
        assert(((1u64 << s) >> 32) & 1 == (if s == 32 {
            1u64
        } else {
            0u64
        })) by (bit_vector)
            requires
                s <= 32,
        ;
    }
}

/// The rows that come of multiplying the rows `a` by the columns of a map
/// `t` make of a register `v` what `a` makes of `u`, if `t` makes `u` of
/// `v`.
pub proof fn lemma_multiply_apply(
    a: Seq<u64>,
    cols: Seq<u64>,
    p: Seq<u64>,
    t: spec_fn(u64) -> u64,
    v: u32,
    u: u32,
)
    requires
        a.len() == 33,
        p.len() == 33,
        linear(t),
        columns_of(cols, t),
        forall|i: int| 0 <= i < 33 ==> #[trigger] p[i] == mat_vec(cols, a[i], 33),
        t((v as u64) | 0x1_0000_0000) == (u as u64) | 0x1_0000_0000,
    ensures
        apply_rows(p, v) == apply_rows(a, u),
{
    lemma_words(0, v);
    lemma_multiply(a, cols, p, t, (v as u64) | 0x1_0000_0000);
}

/// The transition by one bit of data is additive, keeps the constant, and
/// makes of an extended register the extended register after the bit.
pub proof fn lemma_bit_map(one: bool)
    ensures
        linear(bit_map_fn(one)),
        forall|w: u64| (#[trigger] bit_map_fn(one)(w) >> 32) & 1 == (w >> 32) & 1,
        forall|v: u32| #[trigger]
            bit_map_fn(one)((v as u64) | 0x1_0000_0000) == (crc_bit(v, one) as u64)
                | 0x1_0000_0000,
{
    let t = bit_map_fn(one);
    assert forall|x: u64, y: u64| #[trigger] t(x ^ y) == t(x) ^ t(y) by {
        assert(bit_map(x ^ y, one) == bit_map(x, one) ^ bit_map(y, one)) by (bit_vector);
    }
    assert forall|w: u64| (#[trigger] t(w) >> 32) & 1 == (w >> 32) & 1 by {
        assert((bit_map(w, one) >> 32) & 1 == (w >> 32) & 1) by (bit_vector);
    }
    assert forall|v: u32| #[trigger]
        t((v as u64) | 0x1_0000_0000) == (crc_bit(v, one) as u64) | 0x1_0000_0000 by {
        assert(bit_map((v as u64) | 0x1_0000_0000, one) == (crc_bit(v, one) as u64)
            | 0x1_0000_0000) by (bit_vector);
    }
}

/// The identity matrix leaves the entries of a vector as they are.
proof fn lemma_identity(rows: Seq<u64>, w: u64, n: nat)
    requires
        rows.len() == 33,
        forall|i: int| 0 <= i < 33 ==> #[trigger] rows[i] == unit(i),
        n <= 33,
    ensures
        mat_vec(rows, w, n) == w & (low_mask(33) & !low_mask((33 - n) as u64)),
    decreases n,
{
    if n == 0 {
        assert(0 == w & (!(0xffff_ffff_ffff_ffffu64 << 33) & !!(0xffff_ffff_ffff_ffffu64 << 33)))
            by (bit_vector);
    } else {
        let s = (33 - n) as u64;
        lemma_identity(rows, w, (n - 1) as nat);
        assert(rows[n - 1] == unit(n - 1));
        lemma_folded((1u64 << s) & w);
        assert(((w & (!(0xffff_ffff_ffff_ffffu64 << 33) & !!(0xffff_ffff_ffff_ffffu64 << ((s
            + 1) as u64)))) ^ (folded((1u64 << s) & w) << s)) == w & (!(0xffff_ffff_ffff_ffffu64
            << 33) & !!(0xffff_ffff_ffff_ffffu64 << s))) by (bit_vector)
            requires
                s <= 32,
        ;
    }
}

/// A matrix of 33 rows and columns over the field of two elements, which
/// stands for a transition of the CRC-32 register.
pub struct CrcMatrix {
    items: [u64; 33],
}

impl View for CrcMatrix {
    type V = Seq<u64>;

    closed spec fn view(&self) -> Seq<u64> {
        self.items@
    }
}

/// The parity of a word, as zero or one.
pub fn hamming(n: u64) -> (r: u64)
    ensures
        r == parity(n),
{
    proof {
        lemma_folded(n);
    }
    let n = n ^ (n >> 32);
    let n = n ^ (n >> 16);
    let n = n ^ (n >> 8);
    let n = n ^ (n >> 4);
    let n = n ^ (n >> 2);
    let n = n ^ (n >> 1);
    n & 1
}

/// The product of the matrix `rows` and the vector `w`.
fn multiply_row(rows: &[u64; 33], w: u64) -> (r: u64)
    ensures
        r == mat_vec(rows@, w, 33),
{
    let mut ret: u64 = 0;
    let mut j: usize = 0;
    while j < 33
        invariant
            j <= 33,
            ret == mat_vec(rows@, w, j as nat),
        decreases 33 - j,
    {
        proof {
            lemma_parity_basics(rows@[j as int] & w, 0);
        }
        let bit = hamming(rows[j] & w) << (32 - j as u64);
        ret = ret ^ bit;
        j += 1;
    }
    ret
}

impl CrcMatrix {
    #[verifier::type_invariant]
    spec fn inv(self) -> bool {
        self.items@[0] == 0x1_0000_0000
    }

    /// What the matrix makes of a register.
    pub open spec fn spec_apply(&self, v: u32) -> u32 {
        apply_rows(self@, v)
    }

    /// The identity matrix, which leaves every register as it is.
    pub fn new() -> (r: CrcMatrix)
        ensures
            r@ == identity_rows(),
            forall|v: u32| #[trigger] r.spec_apply(v) == v,
    {
        let mut items = [0u64;33];
        let mut i: usize = 0;
        while i < 33
            invariant
                i <= 33,
                forall|k: int| 0 <= k < i ==> #[trigger] items@[k] == unit(k),
            decreases 33 - i,
        {
            items[i] = 1u64 << (32 - i as u64);
            i += 1;
        }
        proof {
            assert(unit(0) == 0x1_0000_0000) by {
                lemma_words(0, 0);
            }
            assert forall|v: u32| #[trigger] apply_rows(items@, v) == v by {
                let w = (v as u64) | 0x1_0000_0000;
                lemma_identity(items@, w, 33);
                assert((w & (!(0xffff_ffff_ffff_ffffu64 << 33) & !!(0xffff_ffff_ffff_ffffu64
                    << 0))) & 0xffff_ffff == v as u64) by (bit_vector)
                    requires
                        w == (v as u64) | 0x1_0000_0000,
                ;
            }
        }
        CrcMatrix { items }
    }

    /// Multiplies the matrix from the right by the matrix with the columns
    /// `matr`: each row becomes its product with those columns.
    fn multiply(&mut self, matr: &[u64; 33])
        requires
            columns_keep_constant(matr@),
        ensures
            final(self)@ == multiplied(old(self)@, matr@),
            final(self)@.len() == 33,
            forall|i: int|
                0 <= i < 33 ==> #[trigger] final(self)@[i] == mat_vec(matr@, old(self)@[i], 33),
    {
        let mut items = [0u64;33];
        let mut i: usize = 0;
        while i < 33
            invariant
                i <= 33,
                forall|k: int|
                    0 <= k < i ==> #[trigger] items@[k] == mat_vec(matr@, self.items@[k], 33),
            decreases 33 - i,
        {
            items[i] = multiply_row(matr, self.items[i]);
            i += 1;
        }
        proof {
            use_type_invariant(&*self);
            lemma_constant_row(matr@, 33);
            assert(items@ =~= multiplied(self.items@, matr@));
        }
        self.items = items;
    }

    /// The columns of the transition by one bit of data: the rows move
    /// towards the lower index, the generator goes into the last row, and
    /// a bit of one into the constant's column as well.
    fn bit_columns(one: bool) -> (r: [u64; 33])
        ensures
            columns_of(r@, bit_map_fn(one)),
    {
        let mut cols = [0u64;33];
        cols[0] = if one {
            0x1_edb8_8320
        } else {
            0x1_0000_0000
        };
        cols[32] = 0xedb8_8320;
        proof {
            assert(bit_map(1u64 << 32, one) == (if one {
                0x1_edb8_8320u64
            } else {
                0x1_0000_0000u64
            }) && bit_map(1u64 << 0, one) == 0xedb8_8320) by (bit_vector);
        }
        let mut j: usize = 1;
        while j < 32
            invariant
                1 <= j <= 32,
                cols@[0] == bit_map(unit(0), one),
                cols@[32] == bit_map(unit(32), one),
                forall|k: int| 1 <= k < j ==> #[trigger] cols@[k] == bit_map(unit(k), one),
            decreases 32 - j,
        {
            let s = 32 - j as u64;
            assert(bit_map(1u64 << s, one) == 1u64 << ((s - 1) as u64)) by (bit_vector)
                requires
                    1 <= s <= 31,
            ;
            cols[j] = 1u64 << (31 - j as u64);
            j += 1;
        }
        cols
    }

    /// Appends one bit of data to what the matrix stands for.
    fn push(&mut self, one: bool)
        ensures
            final(self)@ == multiplied(old(self)@, bit_columns_of(one)),
            forall|v: u32| #[trigger]
                final(self).spec_apply(v) == old(self).spec_apply(crc_bit(v, one)),
    {
        let cols = Self::bit_columns(one);
        proof {
            lemma_bit_map(one);
            lemma_columns_keep(cols@, bit_map_fn(one));
        }
        self.multiply(&cols);
        proof {
            assert(cols@ =~= bit_columns_of(one));
            assert(self@ =~= multiplied(old(self)@, bit_columns_of(one)));
            assert forall|v: u32| #[trigger]
                self.spec_apply(v) == old(self).spec_apply(crc_bit(v, one)) by {
                lemma_multiply_apply(
                    old(self)@,
                    cols@,
                    self@,
                    bit_map_fn(one),
                    v,
                    crc_bit(v, one),
                );
            }
        }
    }

    /// Appends a zero bit of data: the matrix then stands for that bit
    /// followed by what it stood for.
    pub fn push_0(&mut self)
        ensures
            final(self)@ == multiplied(old(self)@, bit_columns_of(false)),
            forall|v: u32| #[trigger]
                final(self).spec_apply(v) == old(self).spec_apply(crc_bit(v, false)),
    {
        self.push(false);
    }

    /// Appends a one bit of data: the matrix then stands for that bit
    /// followed by what it stood for.
    pub fn push_1(&mut self)
        ensures
            final(self)@ == multiplied(old(self)@, bit_columns_of(true)),
            forall|v: u32| #[trigger]
                final(self).spec_apply(v) == old(self).spec_apply(crc_bit(v, true)),
    {
        self.push(true);
    }

    /// The columns of the matrix: the transposed rows.
    fn columns(&self) -> (r: [u64; 33])
        ensures
            r@ == columns_rows(self@),
            columns_of(r@, mat_fn(self@)),
            columns_keep_constant(r@),
    {
        let mut cols = [0u64;33];
        let mut j: usize = 0;
        while j < 33
            invariant
                j <= 33,
                forall|k: int|
                    0 <= k < j ==> #[trigger] cols@[k] == mat_vec(self.items@, unit(k), 33),
            decreases 33 - j,
        {
            cols[j] = multiply_row(&self.items, 1u64 << (32 - j as u64));
            j += 1;
        }
        proof {
            use_type_invariant(self);
            assert(cols@ =~= columns_rows(self.items@));
            assert forall|j: int| 0 <= j < 33 implies (#[trigger] cols@[j] >> 32) & 1 == (if j
                == 0 {
                1u64
            } else {
                0u64
            }) by {
                let s = (32 - j) as u64;
                lemma_mat_vec_bits(self.items@, unit(j), 33);
                assert((cols@[j] >> 32) & 1 == dot(self.items@[0], unit(j)));
                lemma_folded(0x1_0000_0000u64 & (1u64 << s));
                assert(folded(0x1_0000_0000u64 & (1u64 << s)) == (if s == 32 {
                    1u64
                } else {
                    0u64
                })) by (bit_vector)
                    requires
                        s <= 32,
                ;
            }
        }
        cols
    }

    /// Multiplies the matrix by itself.
    fn square(&mut self)
        ensures
            final(self)@ == multiplied(old(self)@, columns_rows(old(self)@)),
            forall|v: u32| #[trigger]
                final(self).spec_apply(v) == old(self).spec_apply(old(self).spec_apply(v)),
    {
        proof {
            use_type_invariant(&*self);
        }
        let cols = self.columns();
        self.multiply(&cols);
        proof {
            let t = mat_fn(old(self)@);
            assert forall|x: u64, y: u64| #[trigger] t(x ^ y) == t(x) ^ t(y) by {
                lemma_mat_vec_linear(old(self)@, x, y, 33);
            }
            assert forall|v: u32| #[trigger]
                self.spec_apply(v) == old(self).spec_apply(old(self).spec_apply(v)) by {
                lemma_apply_extended(old(self)@, v);
                lemma_multiply_apply(old(self)@, cols@, self@, t, v, old(self).spec_apply(v));
            }
        }
    }

    /// Raises the matrix to `power`, or leaves it where `power` is zero,
    /// by squaring and multiplying. `reference` holds the columns of the
    /// matrix as it is on entry.
    fn exponentiate_r(&mut self, power: &BigNat, reference: &[u64; 33])
        requires
            reference@ == columns_rows(old(self)@),
            columns_of(reference@, mat_fn(old(self)@)),
            columns_keep_constant(reference@),
        ensures
            final(self)@ == power_rows(old(self)@, power@),
            forall|v: u32| #[trigger]
                final(self).spec_apply(v) == iter_apply(
                    old(self)@,
                    if power@ == 0 {
                        1
                    } else {
                        power@
                    },
                    v,
                ),
        decreases power@,
    {
        let ghost base = self@;
        proof {
            use_type_invariant(&*self);
        }
        if power.le(&BigNat::from_u64(1)) {
            proof {
                assert forall|v: u32| #[trigger] self.spec_apply(v) == iter_apply(base, 1, v) by {
                    assert(iter_apply(base, 0, v) == v);
                }
            }
            return ;
        }
        let half = power.div_small(2);
        let odd = power.rem_small(2) != 0;
        self.exponentiate_r(&half, reference);
        let ghost halved = *self;
        self.square();
        let ghost squared = *self;
        proof {
            assert forall|v: u32| #[trigger]
                squared.spec_apply(v) == iter_apply(base, half@ + half@, v) by {
                lemma_iter_apply_add(base, half@, half@, v);
                assert(halved.spec_apply(v) == iter_apply(base, half@, v));
                assert(halved.spec_apply(halved.spec_apply(v)) == iter_apply(
                    base,
                    half@,
                    halved.spec_apply(v),
                ));
            }
        }
        if odd {
            self.multiply(reference);
            proof {
                let t = mat_fn(base);
                assert forall|x: u64, y: u64| #[trigger] t(x ^ y) == t(x) ^ t(y) by {
                    lemma_mat_vec_linear(base, x, y, 33);
                }
                assert forall|v: u32| #[trigger]
                    self.spec_apply(v) == iter_apply(base, power@, v) by {
                    lemma_apply_extended(base, v);
                    lemma_multiply_apply(squared@, reference@, self@, t, v, apply_rows(base, v));
                    lemma_iter_apply_add(base, half@ + half@, 1, v);
                    assert(iter_apply(base, 0, v) == v);
                    assert(iter_apply(base, 1, v) == apply_rows(base, v));
                    assert(squared.spec_apply(apply_rows(base, v)) == iter_apply(
                        base,
                        half@ + half@,
                        apply_rows(base, v),
                    ));
                }
            }
        }
    }

    /// Raises the matrix to `power`: it then stands for `power` times
    /// what it stood for. Where `power` is zero, it stays as it is.
    pub fn exponentiate(&mut self, power: &BigNat)
        ensures
            final(self)@ == power_rows(old(self)@, power@),
            forall|v: u32| #[trigger]
                final(self).spec_apply(v) == iter_apply(
                    old(self)@,
                    if power@ == 0 {
                        1
                    } else {
                        power@
                    },
                    v,
                ),
    {
        let reference = self.columns();
        self.exponentiate_r(power, &reference);
    }

    /// What the matrix makes of a register.
    pub fn apply(&self, v: u32) -> (r: u32)
        ensures
            r == self.spec_apply(v),
    {
        let vector = (v as u64) | (1u64 << 32);
        proof {
            lemma_words(0, 0);
        }
        let ret = multiply_row(&self.items, vector);
        (ret & 0xffff_ffff) as u32
    }
}

} // verus!
