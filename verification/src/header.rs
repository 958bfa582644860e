//! What a decoder reads from the compressed sub-block of a bomb: the
//! thirteen-byte header, the run of `0x55` after it, and the byte that
//! ends it.
use crate::codes::{
    lemma_length_of_one, lemma_lengths_of_zero, lemma_pairs_add, lemma_run, lemma_run_bits,
    lemma_run_end, one_bit_codes, pairs, run_codes,
};
use crate::huffman::{
    bit_at, bits_le, dynamic_from, lemma_bits_of_byte, lengths_from, meta_lengths, padded,
    symbols_from,
};
use vstd::prelude::*;

verus! {

/// Whether the header of the compressed sub-block of a bomb stands at byte
/// `h` of a stream, with or without the bit that marks the sub-block as
/// final.
pub open spec fn header_at(s: Seq<u8>, h: int) -> bool {
    &&& 0 <= h
    &&& h + 13 <= s.len()
    &&& (s[h] == 0xec || s[h] == 0xed)
    &&& s[h + 1] == 0xc0
    &&& s[h + 2] == 0x81
    &&& s[h + 3] == 0x00
    &&& s[h + 4] == 0x00
    &&& s[h + 5] == 0x00
    &&& s[h + 6] == 0x00
    &&& s[h + 7] == 0x00
    &&& s[h + 8] == 0x90
    &&& s[h + 9] == 0xff
    &&& s[h + 10] == 0x6b
    &&& s[h + 11] == 0x23
    &&& s[h + 12] == 0x54
}

/// The first fields of the header: the sub-block is final where the first
/// byte says so, it is compressed with codes of its own, and it has 286
/// codes for literals and lengths, one for distances, and 18 lengths of
/// codes for code lengths.
pub proof fn lemma_header_fields(s: Seq<u8>, h: int)
    requires
        header_at(s, h),
    ensures
        bit_at(s, 8 * h) == (if s[h] == 0xed {
            1nat
        } else {
            0nat
        }),
        bits_le(s, 8 * h + 1, 2) == 2,
        bits_le(s, 8 * h + 3, 5) == 29,
        bits_le(s, 8 * h + 8, 5) == 0,
        bits_le(s, 8 * h + 13, 4) == 14,
{
    lemma_bits_of_byte(s, h);
    lemma_bits_of_byte(s, h + 1);
    lemma_bits_of_byte(s, h + 2);
    reveal_with_fuel(bits_le, 6);
}

/// The value of field `k` of the lengths of the codes for code lengths in
/// the header: one for the symbols 18 and 1, which stand third and
/// eighteenth, zero for the others.
pub open spec fn meta_field(k: int) -> nat {
    if k == 2 || k == 17 {
        1
    } else {
        0
    }
}

/// The eighteen fields of three bits from bit 17 of the header on.
pub proof fn lemma_header_meta_fields(s: Seq<u8>, h: int)
    requires
        header_at(s, h),
    ensures
        forall|k: int|
            0 <= k < 18 ==> bits_le(s, 8 * h + 17 + 3 * k, 3) == #[trigger] meta_field(k),
{
    lemma_bits_of_byte(s, h + 2);
    lemma_bits_of_byte(s, h + 3);
    lemma_bits_of_byte(s, h + 4);
    lemma_bits_of_byte(s, h + 5);
    lemma_bits_of_byte(s, h + 6);
    lemma_bits_of_byte(s, h + 7);
    lemma_bits_of_byte(s, h + 8);
    reveal_with_fuel(bits_le, 4);
    assert(bits_le(s, 8 * h + 17 + 3 * 0, 3) == 0);
    assert(bits_le(s, 8 * h + 17 + 3 * 1, 3) == 0);
    assert(bits_le(s, 8 * h + 17 + 3 * 2, 3) == 1);
    assert(bits_le(s, 8 * h + 17 + 3 * 3, 3) == 0);
    assert(bits_le(s, 8 * h + 17 + 3 * 4, 3) == 0);
    assert(bits_le(s, 8 * h + 17 + 3 * 5, 3) == 0);
    assert(bits_le(s, 8 * h + 17 + 3 * 6, 3) == 0);
    assert(bits_le(s, 8 * h + 17 + 3 * 7, 3) == 0);
    assert(bits_le(s, 8 * h + 17 + 3 * 8, 3) == 0);
    assert(bits_le(s, 8 * h + 17 + 3 * 9, 3) == 0);
    assert(bits_le(s, 8 * h + 17 + 3 * 10, 3) == 0);
    assert(bits_le(s, 8 * h + 17 + 3 * 11, 3) == 0);
    assert(bits_le(s, 8 * h + 17 + 3 * 12, 3) == 0);
    assert(bits_le(s, 8 * h + 17 + 3 * 13, 3) == 0);
    assert(bits_le(s, 8 * h + 17 + 3 * 14, 3) == 0);
    assert(bits_le(s, 8 * h + 17 + 3 * 15, 3) == 0);
    assert(bits_le(s, 8 * h + 17 + 3 * 16, 3) == 0);
    assert(bits_le(s, 8 * h + 17 + 3 * 17, 3) == 1);
}

/// The lengths of the codes for code lengths that the header gives: one
/// bit each for the symbols 1 and 18, and no code for the others.
pub proof fn lemma_header_meta(s: Seq<u8>, h: int)
    requires
        header_at(s, h),
    ensures
        one_bit_codes(meta_lengths(s, 8 * h + 17, 18), 1, 18),
{
    lemma_header_meta_fields(s, h);
    let pos = 8 * h + 17;
    let zeros = Seq::new(19, |i: int| 0nat);
    assert forall|k: int| 0 <= k < 18 implies bits_le(s, pos + 3 * k, 3) == meta_field(k) by {
        assert(bits_le(s, 8 * h + 17 + 3 * k, 3) == meta_field(k));
    }
    assert(meta_lengths(s, pos, 0) =~= zeros);
    assert(meta_field(0) == 0);
    assert(meta_lengths(s, pos, 1) =~= zeros);
    assert(meta_field(1) == 0);
    assert(meta_lengths(s, pos, 2) =~= zeros);
    assert(meta_field(2) == 1);
    assert(meta_lengths(s, pos, 3) =~= zeros.update(18, 1nat));
    assert(meta_field(3) == 0);
    assert(meta_lengths(s, pos, 4) =~= zeros.update(18, 1nat));
    assert(meta_field(4) == 0);
    assert(meta_lengths(s, pos, 5) =~= zeros.update(18, 1nat));
    assert(meta_field(5) == 0);
    assert(meta_lengths(s, pos, 6) =~= zeros.update(18, 1nat));
    assert(meta_field(6) == 0);
    assert(meta_lengths(s, pos, 7) =~= zeros.update(18, 1nat));
    assert(meta_field(7) == 0);
    assert(meta_lengths(s, pos, 8) =~= zeros.update(18, 1nat));
    assert(meta_field(8) == 0);
    assert(meta_lengths(s, pos, 9) =~= zeros.update(18, 1nat));
    assert(meta_field(9) == 0);
    assert(meta_lengths(s, pos, 10) =~= zeros.update(18, 1nat));
    assert(meta_field(10) == 0);
    assert(meta_lengths(s, pos, 11) =~= zeros.update(18, 1nat));
    assert(meta_field(11) == 0);
    assert(meta_lengths(s, pos, 12) =~= zeros.update(18, 1nat));
    assert(meta_field(12) == 0);
    assert(meta_lengths(s, pos, 13) =~= zeros.update(18, 1nat));
    assert(meta_field(13) == 0);
    assert(meta_lengths(s, pos, 14) =~= zeros.update(18, 1nat));
    assert(meta_field(14) == 0);
    assert(meta_lengths(s, pos, 15) =~= zeros.update(18, 1nat));
    assert(meta_field(15) == 0);
    assert(meta_lengths(s, pos, 16) =~= zeros.update(18, 1nat));
    assert(meta_field(16) == 0);
    assert(meta_lengths(s, pos, 17) =~= zeros.update(18, 1nat));
    assert(meta_field(17) == 1);
    assert(meta_lengths(s, pos, 18) =~= zeros.update(18, 1nat).update(1, 1nat));
}

/// The code lengths that the header gives: of the 286 symbols for
/// literals and lengths, one bit each for the end of the sub-block and for
/// the length 258, and of the one symbol for distances, one bit for the
/// distance one.
pub open spec fn header_lengths() -> Seq<nat> {
    padded(padded(padded(Seq::empty(), 0, 138), 0, 118).push(1), 0, 28).push(1).push(1)
}

/// The code lengths of the header are those of the codes of a run.
pub proof fn lemma_header_codes()
    ensures
        header_lengths().len() == 287,
        run_codes(header_lengths().take(286), header_lengths().skip(286)),
{
    let f = header_lengths();
    assert(f.len() == 287);
    assert(one_bit_codes(f.take(286), 256, 285));
    assert(one_bit_codes(f.skip(286), 0, 0));
}

/// In the code `meta` of one bit each for the symbols 1 and 18, the header
/// gives its code lengths from bit 71 on, and the data begin at bit 98.
pub proof fn lemma_header_lengths(meta: Seq<nat>, s: Seq<u8>, h: int)
    requires
        header_at(s, h),
        h + 13 < s.len(),
        one_bit_codes(meta, 1, 18),
    ensures
        lengths_from(meta, s, 8 * h + 71, Seq::empty(), 287) == Some(
            (header_lengths(), 8 * h + 98),
        ),
{
    lemma_bits_of_byte(s, h + 8);
    lemma_bits_of_byte(s, h + 9);
    lemma_bits_of_byte(s, h + 10);
    lemma_bits_of_byte(s, h + 11);
    lemma_bits_of_byte(s, h + 12);
    let p = 8 * h;
    assert(bits_le(s, p + 72, 7) == 127 && bits_le(s, p + 80, 7) == 107 && bits_le(s, p + 89, 7)
        == 17) by {
        reveal_with_fuel(bits_le, 8);
    }
    let none = Seq::<nat>::empty();
    let a = padded(none, 0, 138);
    let b = padded(a, 0, 118);
    let c = b.push(1);
    let d = padded(c, 0, 28);
    let e = d.push(1);
    let f = e.push(1);
    lemma_lengths_of_zero(meta, s, p + 71, none, 287);
    lemma_lengths_of_zero(meta, s, p + 79, a, 287);
    lemma_length_of_one(meta, s, p + 87, b, 287);
    lemma_lengths_of_zero(meta, s, p + 88, c, 287);
    lemma_length_of_one(meta, s, p + 96, d, 287);
    lemma_length_of_one(meta, s, p + 97, e, 287);
    assert(f.len() == 287);
    assert(lengths_from(meta, s, p + 98, f, 287) == Some((f, p + 98)));
}

/// What a decoder reads from the compressed sub-block of a bomb: the
/// header at byte `h`, a run of `r` bytes `0x55`, and the first five bits
/// of the byte after the run, which is `0x05` with or without the bit
/// `0x20`. After `out`, it reads the last byte of `out` 1032 times for
/// each byte of the run and 1290 times more, and the next sub-block begins
/// at bit 5 of the byte after the run.
pub proof fn lemma_run_block(s: Seq<u8>, h: int, r: nat, out: Seq<u8>)
    requires
        header_at(s, h),
        out.len() > 0,
        h + 13 + r < s.len(),
        forall|i: int| h + 13 <= i < h + 13 + r ==> #[trigger] s[i] == 0x55,
        s[h + 13 + r] == 0x05 || s[h + 13 + r] == 0x25,
    ensures
        dynamic_from(s, 8 * h + 3, out) == Some(
            (out + Seq::new(1032 * r + 1290, |i: int| out.last()), 8 * (h + 13 + r) + 5),
        ),
{
    let p = 8 * h;
    let t = h + 13 + r;
    lemma_header_fields(s, h);
    lemma_header_meta(s, h);
    let meta = meta_lengths(s, p + 17, 18);
    lemma_header_lengths(meta, s, h);
    lemma_header_codes();
    let lit = header_lengths().take(286);
    let dist = header_lengths().skip(286);
    assert(dynamic_from(s, p + 3, out) == symbols_from(lit, dist, s, p + 98, out));
    lemma_bits_of_byte(s, h + 12);
    lemma_bits_of_byte(s, t);
    assert(pairs(s, p + 98, 3)) by {
        reveal_with_fuel(pairs, 4);
    }
    lemma_run_bits(s, h + 13, r);
    assert(pairs(s, 8 * t, 2)) by {
        reveal_with_fuel(pairs, 3);
    }
    lemma_pairs_add(s, p + 104, 4 * r, 2);
    lemma_pairs_add(s, p + 98, 3, 4 * r + 2);
    lemma_run(lit, dist, s, p + 98, out, 4 * r + 5);
    lemma_run_end(lit, dist, s, 8 * t + 4, out + Seq::new(258 * (4 * r + 5), |i: int| out.last()));
    assert(258 * (4 * r + 5) == 1032 * r + 1290);
}

} // verus!
