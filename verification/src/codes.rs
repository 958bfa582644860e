//! Codes of one bit, and what a decoder reads in them: the compressed
//! sub-block of a bomb has a code of one bit each for two symbols, in the
//! code for code lengths and in the code for literals and lengths, and a
//! code of one bit for the one distance.
use crate::huffman::{
    bit_at, bits_be, bits_le, code_of, copied, count_len, distance_base, distance_extra,
    find_code, first_code, lemma_bit_of_byte, lemma_bit_range, lemma_two_to, length_base,
    length_extra, lengths_from, padded, repeat_extra, symbol_at, symbols_from, two_to,
};
use vstd::prelude::*;

verus! {

/// Whether `lengths` gives codes of one bit to the symbols `a` and `b`,
/// or to `a` alone where `b` is `a`, and no code to any other symbol.
pub open spec fn one_bit_codes(lengths: Seq<nat>, a: nat, b: nat) -> bool {
    &&& a <= b < lengths.len()
    &&& forall|i: int|
        0 <= i < lengths.len() ==> #[trigger] lengths[i] == (if i == a || i == b {
            1nat
        } else {
            0nat
        })
}

/// The number of codes of `l` bits below a symbol, where the codes are of
/// one bit and for `a` and `b` alone.
proof fn lemma_count_one_bit(lengths: Seq<nat>, a: nat, b: nat, l: nat, below: nat)
    requires
        one_bit_codes(lengths, a, b),
        below <= lengths.len(),
        l >= 1,
    ensures
        count_len(lengths, l, below) == (if l == 1 {
            (if below > a {
                1nat
            } else {
                0nat
            }) + (if below > b && b != a {
                1nat
            } else {
                0nat
            })
        } else {
            0nat
        }),
    decreases below,
{
    if below > 0 {
        lemma_count_one_bit(lengths, a, b, l, (below - 1) as nat);
    }
}

/// The first code of each length, where the codes are of one bit and for
/// `a` and `b` alone: it is at least two from two bits on.
proof fn lemma_first_one_bit(lengths: Seq<nat>, a: nat, b: nat, l: nat)
    requires
        one_bit_codes(lengths, a, b),
        l >= 1,
    ensures
        first_code(lengths, l) == (if l == 1 {
            0nat
        } else if a == b {
            two_to((l - 1) as nat)
        } else {
            two_to(l)
        }),
    decreases l,
{
    if l > 1 {
        lemma_first_one_bit(lengths, a, b, (l - 1) as nat);
        lemma_count_one_bit(lengths, a, b, (l - 1) as nat, lengths.len());
        assert(two_to(1) == 2) by {
            reveal_with_fuel(two_to, 2);
        }
        assert(two_to(0) == 1);
    }
}

/// The first symbol from `from` on with the code `code` of `l` bits is
/// `sym`, where `sym` has that code and no symbol between has.
proof fn lemma_find_some(lengths: Seq<nat>, l: nat, code: nat, from: nat, sym: nat)
    requires
        from <= sym < lengths.len(),
        lengths[sym as int] == l,
        code_of(lengths, sym) == code,
        forall|i: int|
            from <= i < sym ==> !(#[trigger] lengths[i] == l && code_of(lengths, i as nat)
                == code),
    ensures
        find_code(lengths, l, code, from) == Some(sym),
    decreases sym - from,
{
    if from < sym {
        assert(!(lengths[from as int] == l && code_of(lengths, from) == code));
        lemma_find_some(lengths, l, code, from + 1, sym);
    }
}

/// Where the codes are of one bit and for `a` and `b` alone, a bit of
/// zero stands for `a` and a bit of one for `b`.
pub proof fn lemma_symbol_one_bit(lengths: Seq<nat>, a: nat, b: nat, s: Seq<u8>, pos: int)
    requires
        one_bit_codes(lengths, a, b),
        a < b || bit_at(s, pos) == 0,
    ensures
        symbol_at(lengths, s, pos, 1) == Some(
            (
                if bit_at(s, pos) == 0 {
                    a
                } else {
                    b
                },
                1nat,
            ),
        ),
{
    let code = bits_be(s, pos, 1);
    lemma_bit_range(s, pos);
    assert(bits_be(s, pos, 0) == 0);
    assert(code == bit_at(s, pos));
    let sym = if bit_at(s, pos) == 0 {
        a
    } else {
        b
    };
    lemma_first_one_bit(lengths, a, b, 1);
    lemma_count_one_bit(lengths, a, b, 1, a);
    lemma_count_one_bit(lengths, a, b, 1, b);
    assert(code_of(lengths, a) == 0);
    assert(a < b ==> code_of(lengths, b) == 1);
    assert forall|i: int| 0 <= i < sym implies !(#[trigger] lengths[i] == 1 && code_of(
        lengths,
        i as nat,
    ) == code) by {
        if i == a {
        }
    }
    lemma_find_some(lengths, 1, code, 0, sym);
}

/// In a code for code lengths of one bit each for the symbols 1 and 18, a
/// zero stands for a code length of one.
pub proof fn lemma_length_of_one(meta: Seq<nat>, s: Seq<u8>, pos: int, out: Seq<nat>, total: nat)
    requires
        one_bit_codes(meta, 1, 18),
        0 <= pos,
        pos + 1 <= 8 * s.len(),
        bit_at(s, pos) == 0,
        out.len() < total,
    ensures
        lengths_from(meta, s, pos, out, total) == lengths_from(
            meta,
            s,
            pos + 1,
            out.push(1),
            total,
        ),
{
    lemma_symbol_one_bit(meta, 1, 18, s, pos);
    assert(repeat_extra(1) == 0);
}

/// In a code for code lengths of one bit each for the symbols 1 and 18, a
/// one and the seven bits after it stand for a run of code lengths of
/// zero.
pub proof fn lemma_lengths_of_zero(meta: Seq<nat>, s: Seq<u8>, pos: int, out: Seq<nat>, total: nat)
    requires
        one_bit_codes(meta, 1, 18),
        0 <= pos,
        pos + 8 <= 8 * s.len(),
        bit_at(s, pos) == 1,
        out.len() < total,
    ensures
        lengths_from(meta, s, pos, out, total) == lengths_from(
            meta,
            s,
            pos + 8,
            padded(out, 0, 11 + bits_le(s, pos + 1, 7)),
            total,
        ),
{
    lemma_symbol_one_bit(meta, 1, 18, s, pos);
    assert(repeat_extra(18) == 7);
}

/// Copying from one byte back repeats the last byte.
pub proof fn lemma_copied_last(out: Seq<u8>, n: nat)
    requires
        out.len() > 0,
    ensures
        copied(out, 1, n) == out + Seq::new(n, |i: int| out.last()),
    decreases n,
{
    if n == 0 {
        assert(out + Seq::new(n, |i: int| out.last()) =~= out);
    } else {
        let next = out.push(out.last());
        lemma_copied_last(next, (n - 1) as nat);
        assert(next + Seq::new((n - 1) as nat, |i: int| next.last()) =~= out + Seq::new(
            n,
            |i: int| out.last(),
        ));
    }
}

/// Whether the codes are those in which a run of `0x55` is written: one
/// bit each for the end of the sub-block, zero, and for the length 258,
/// one, and one bit, zero, for the distance one.
pub open spec fn run_codes(lit: Seq<nat>, dist: Seq<nat>) -> bool {
    one_bit_codes(lit, 256, 285) && one_bit_codes(dist, 0, 0)
}

/// In the codes of a run, a one and a zero make 258 copies of the byte
/// before.
pub proof fn lemma_run_step(lit: Seq<nat>, dist: Seq<nat>, s: Seq<u8>, pos: int, out: Seq<u8>)
    requires
        run_codes(lit, dist),
        out.len() > 0,
        0 <= pos,
        pos + 2 <= 8 * s.len(),
        bit_at(s, pos) == 1,
        bit_at(s, pos + 1) == 0,
    ensures
        symbols_from(lit, dist, s, pos, out) == symbols_from(
            lit,
            dist,
            s,
            pos + 2,
            out + Seq::new(258, |i: int| out.last()),
        ),
{
    lemma_symbol_one_bit(lit, 256, 285, s, pos);
    lemma_symbol_one_bit(dist, 0, 0, s, pos + 1);
    assert(bits_le(s, pos + 1, 0) == 0);
    assert(bits_le(s, pos + 2, 0) == 0);
    lemma_copied_last(out, 258);
    assert(symbol_at(lit, s, pos, 1) == Some((285nat, 1nat)));
    assert(symbol_at(dist, s, pos + 1, 1) == Some((0nat, 1nat)));
    assert(length_base(285) == 258 && length_extra(285) == 0);
    assert(distance_base(0) == 1 && distance_extra(0) == 0);
}

/// Whether the `2 k` bits from bit `pos` on are `k` times a one and a
/// zero.
pub open spec fn pairs(s: Seq<u8>, pos: int, k: nat) -> bool
    decreases k,
{
    k == 0 || (bit_at(s, pos) == 1 && bit_at(s, pos + 1) == 0 && pairs(
        s,
        pos + 2,
        (k - 1) as nat,
    ))
}

/// Pairs of a one and a zero that follow each other make one run of
/// pairs.
pub proof fn lemma_pairs_add(s: Seq<u8>, pos: int, a: nat, b: nat)
    requires
        pairs(s, pos, a),
        pairs(s, pos + 2 * a, b),
    ensures
        pairs(s, pos, a + b),
    decreases a,
{
    if a > 0 {
        lemma_pairs_add(s, pos + 2, (a - 1) as nat, b);
    }
}

/// In the codes of a run, `k` times a one and a zero make `258 k` copies
/// of the byte before.
pub proof fn lemma_run(lit: Seq<nat>, dist: Seq<nat>, s: Seq<u8>, pos: int, out: Seq<u8>, k: nat)
    requires
        run_codes(lit, dist),
        out.len() > 0,
        0 <= pos,
        pos + 2 * k <= 8 * s.len(),
        pairs(s, pos, k),
    ensures
        symbols_from(lit, dist, s, pos, out) == symbols_from(
            lit,
            dist,
            s,
            pos + 2 * k,
            out + Seq::new(258 * k, |i: int| out.last()),
        ),
    decreases k,
{
    if k == 0 {
        assert(out + Seq::new(258 * k, |i: int| out.last()) =~= out);
    } else {
        lemma_run_step(lit, dist, s, pos, out);
        let next = out + Seq::new(258, |i: int| out.last());
        lemma_run(lit, dist, s, pos + 2, next, (k - 1) as nat);
        assert(next.last() == out.last());
        assert(next + Seq::new((258 * (k - 1)) as nat, |i: int| next.last()) =~= out + Seq::new(
            258 * k,
            |i: int| out.last(),
        ));
    }
}

/// In the codes of a run, a zero ends the sub-block.
pub proof fn lemma_run_end(lit: Seq<nat>, dist: Seq<nat>, s: Seq<u8>, pos: int, out: Seq<u8>)
    requires
        run_codes(lit, dist),
        0 <= pos < 8 * s.len(),
        bit_at(s, pos) == 0,
    ensures
        symbols_from(lit, dist, s, pos, out) == Some((out, pos + 1)),
{
    lemma_symbol_one_bit(lit, 256, 285, s, pos);
}

/// The bits of the byte `0x55` are four times a one and a zero.
pub proof fn lemma_run_byte(s: Seq<u8>, i: int, r: int)
    requires
        0 <= i,
        0 <= r < 4,
        s[i] == 0x55,
    ensures
        bit_at(s, 8 * i + 2 * r) == 1,
        bit_at(s, 8 * i + 2 * r + 1) == 0,
{
    lemma_two_to();
    lemma_bit_of_byte(s, i, 2 * r);
    lemma_bit_of_byte(s, i, 2 * r + 1);
    if r == 0 {
        assert((0x55nat / 1) % 2 == 1 && (0x55nat / 2) % 2 == 0);
    } else if r == 1 {
        assert((0x55nat / 4) % 2 == 1 && (0x55nat / 8) % 2 == 0);
    } else if r == 2 {
        assert((0x55nat / 16) % 2 == 1 && (0x55nat / 32) % 2 == 0);
    } else {
        assert((0x55nat / 64) % 2 == 1 && (0x55nat / 128) % 2 == 0);
    }
}

/// The bits of a run of `n` bytes `0x55` from byte `at` on are `4 n` times
/// a one and a zero.
pub proof fn lemma_run_bits(s: Seq<u8>, at: int, n: nat)
    requires
        0 <= at,
        at + n <= s.len(),
        forall|i: int| at <= i < at + n ==> #[trigger] s[i] == 0x55,
    ensures
        pairs(s, 8 * at, 4 * n),
    decreases n,
{
    if n > 0 {
        lemma_run_bits(s, at + 1, (n - 1) as nat);
        assert(s[at] == 0x55);
        lemma_run_byte(s, at, 0);
        lemma_run_byte(s, at, 1);
        lemma_run_byte(s, at, 2);
        lemma_run_byte(s, at, 3);
        let p = 8 * at;
        assert(pairs(s, p + 8, (4 * n - 4) as nat));
        assert(pairs(s, p + 6, (4 * n - 3) as nat));
        assert(pairs(s, p + 4, (4 * n - 2) as nat));
        assert(pairs(s, p + 2, (4 * n - 1) as nat));
    }
}

} // verus!
