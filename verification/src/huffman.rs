//! How a DEFLATE decoder reads a stream: bits, canonical Huffman codes,
//! and the sub-blocks that are stored or compressed with codes of their
//! own.
//!
//! This is the reading side in the mathematical sense only: nothing here
//! runs. It says what a stream means, so that what the synthesizer writes
//! can be held against it.
use vstd::prelude::*;

verus! {

/// Two to the power `k`.
pub open spec fn two_to(k: nat) -> nat
    decreases k,
{
    if k == 0 {
        1
    } else {
        2 * two_to((k - 1) as nat)
    }
}

/// Bit `i` of a stream, as zero or one: the bits of each byte count from
/// its least significant bit.
#[verifier::opaque]
pub open spec fn bit_at(s: Seq<u8>, i: int) -> nat {
    ((s[i / 8] as nat) / two_to((i % 8) as nat)) % 2
}

/// The number that `n` bits from bit `pos` on hold, least significant bit
/// first: so are the fields of headers and the extra bits of lengths and
/// distances packed.
pub open spec fn bits_le(s: Seq<u8>, pos: int, n: nat) -> nat
    decreases n,
{
    if n == 0 {
        0
    } else {
        bit_at(s, pos) + 2 * bits_le(s, pos + 1, (n - 1) as nat)
    }
}

/// The number that `n` bits from bit `pos` on hold, most significant bit
/// first: so are Huffman codes packed.
pub open spec fn bits_be(s: Seq<u8>, pos: int, n: nat) -> nat
    decreases n,
{
    if n == 0 {
        0
    } else {
        2 * bits_be(s, pos, (n - 1) as nat) + bit_at(s, pos + n - 1)
    }
}

/// The number of symbols below `below` whose code has `l` bits.
pub open spec fn count_len(lengths: Seq<nat>, l: nat, below: nat) -> nat
    decreases below,
{
    if below == 0 {
        0
    } else {
        count_len(lengths, l, (below - 1) as nat) + (if below - 1 < lengths.len() && lengths[below
            - 1] == l {
            1nat
        } else {
            0nat
        })
    }
}

/// The first code of `l` bits: codes of one length are consecutive, and
/// the first of each length follows the last of the length before,
/// with one more bit.
pub open spec fn first_code(lengths: Seq<nat>, l: nat) -> nat
    decreases l,
{
    if l <= 1 {
        0
    } else {
        2 * (first_code(lengths, (l - 1) as nat) + count_len(
            lengths,
            (l - 1) as nat,
            lengths.len(),
        ))
    }
}

/// The code of a symbol: the codes of one length go by the symbols'
/// order.
pub open spec fn code_of(lengths: Seq<nat>, sym: nat) -> nat {
    first_code(lengths, lengths[sym as int]) + count_len(lengths, lengths[sym as int], sym)
}

/// The first symbol from `from` on whose code is `code`, of `l` bits.
pub open spec fn find_code(lengths: Seq<nat>, l: nat, code: nat, from: nat) -> Option<nat>
    decreases lengths.len() - from,
{
    if from >= lengths.len() {
        None
    } else if lengths[from as int] == l && code_of(lengths, from) == code {
        Some(from)
    } else {
        find_code(lengths, l, code, from + 1)
    }
}

/// The symbol whose code stands at bit `pos`, and the number of bits of
/// that code, trying codes of `l` bits and more.
pub open spec fn symbol_at(lengths: Seq<nat>, s: Seq<u8>, pos: int, l: nat) -> Option<(nat, nat)>
    decreases 16 - l,
{
    if l < 1 || l > 15 {
        None
    } else {
        match find_code(lengths, l, bits_be(s, pos, l), 0) {
            Some(sym) => Some((sym, l)),
            None => symbol_at(lengths, s, pos, l + 1),
        }
    }
}

/// The least length that a symbol of lengths stands for.
pub open spec fn length_base(sym: nat) -> nat {
    if sym < 265 {
        (sym - 254) as nat
    } else if sym < 269 {
        (11 + 2 * (sym - 265)) as nat
    } else if sym < 273 {
        (19 + 4 * (sym - 269)) as nat
    } else if sym < 277 {
        (35 + 8 * (sym - 273)) as nat
    } else if sym < 281 {
        (67 + 16 * (sym - 277)) as nat
    } else if sym < 285 {
        (131 + 32 * (sym - 281)) as nat
    } else {
        258
    }
}

/// The number of extra bits after a symbol of lengths.
pub open spec fn length_extra(sym: nat) -> nat {
    if sym < 265 || sym >= 285 {
        0
    } else {
        ((sym - 261) / 4) as nat
    }
}

/// The number of extra bits after a symbol of distances.
pub open spec fn distance_extra(sym: nat) -> nat {
    if sym < 4 {
        0
    } else {
        ((sym - 2) / 2) as nat
    }
}

/// The least distance that a symbol of distances stands for.
pub open spec fn distance_base(sym: nat) -> nat {
    if sym < 4 {
        sym + 1
    } else {
        1 + (2 + sym % 2) * two_to(distance_extra(sym))
    }
}

/// What was read with `n` more bytes copied from `distance` bytes back,
/// one by one, so that the copy may run into itself.
pub open spec fn copied(out: Seq<u8>, distance: nat, n: nat) -> Seq<u8>
    decreases n,
{
    if n == 0 || distance == 0 || distance > out.len() {
        out
    } else {
        copied(out.push(out[out.len() - distance]), distance, (n - 1) as nat)
    }
}

/// What a decoder reads from the data of a compressed sub-block from bit
/// `pos` on, after `out`, up to the symbol that ends the sub-block, and
/// the bit after that symbol. `lit` holds the code lengths of literals
/// and lengths, `dist` those of distances.
pub open spec fn symbols_from(lit: Seq<nat>, dist: Seq<nat>, s: Seq<u8>, pos: int, out: Seq<u8>)
    -> Option<(Seq<u8>, int)>
    decreases 8 * s.len() - pos,
{
    if pos < 0 || pos >= 8 * s.len() {
        None
    } else {
        match symbol_at(lit, s, pos, 1) {
            None => None,
            Some((sym, l)) => {
                let next = pos + l;
                if l < 1 || next > 8 * s.len() {
                    None
                } else if sym < 256 {
                    symbols_from(lit, dist, s, next, out.push(sym as u8))
                } else if sym == 256 {
                    Some((out, next))
                } else if sym > 285 {
                    None
                } else {
                    let n = length_base(sym) + bits_le(s, next, length_extra(sym));
                    let at = next + length_extra(sym);
                    match symbol_at(dist, s, at, 1) {
                        None => None,
                        Some((d, dl)) => {
                            let distance = distance_base(d) + bits_le(
                                s,
                                at + dl,
                                distance_extra(d),
                            );
                            if d > 29 || distance > out.len() || at + dl + distance_extra(d) > 8
                                * s.len() {
                                None
                            } else {
                                symbols_from(
                                    lit,
                                    dist,
                                    s,
                                    at + dl + distance_extra(d),
                                    copied(out, distance, n),
                                )
                            }
                        },
                    }
                }
            },
        }
    }
}

/// The order in which the lengths of the codes for code lengths stand in
/// the header of a compressed sub-block.
pub open spec fn length_order() -> Seq<nat> {
    seq![16, 17, 18, 0, 8, 7, 9, 6, 10, 5, 11, 4, 12, 3, 13, 2, 14, 1, 15]
}

/// The lengths of the codes for code lengths: `count` numbers of three
/// bits from bit `pos` on, each for the symbol that `length_order` gives
/// its place; the others are zero.
pub open spec fn meta_lengths(s: Seq<u8>, pos: int, count: nat) -> Seq<nat>
    decreases count,
{
    if count == 0 || count > 19 {
        Seq::new(19, |i: int| 0nat)
    } else {
        meta_lengths(s, pos, (count - 1) as nat).update(
            length_order()[count - 1] as int,
            bits_le(s, pos + 3 * (count - 1), 3),
        )
    }
}

/// `out` with `n` times `x` after it.
pub open spec fn padded(out: Seq<nat>, x: nat, n: nat) -> Seq<nat> {
    out + Seq::new(n, |i: int| x)
}

/// The number of extra bits after a symbol of the code for code lengths.
pub open spec fn repeat_extra(sym: nat) -> nat {
    if sym == 16 {
        2
    } else if sym == 17 {
        3
    } else if sym == 18 {
        7
    } else {
        0
    }
}

/// The code lengths that stand from bit `pos` on, after those in `out`,
/// until there are `total` of them, and the bit after them. They are
/// written in the code `meta`: a symbol below 16 is a length, 16 repeats
/// the length before three to six times, 17 and 18 give runs of zeros.
pub open spec fn lengths_from(meta: Seq<nat>, s: Seq<u8>, pos: int, out: Seq<nat>, total: nat)
    -> Option<(Seq<nat>, int)>
    decreases 8 * s.len() - pos,
{
    if out.len() == total {
        Some((out, pos))
    } else if out.len() > total || pos < 0 || pos >= 8 * s.len() {
        None
    } else {
        match symbol_at(meta, s, pos, 1) {
            None => None,
            Some((sym, l)) => {
                let next = pos + l;
                let extra = bits_le(s, next, repeat_extra(sym));
                let after = next + repeat_extra(sym);
                if l < 1 || after > 8 * s.len() || sym > 18 {
                    None
                } else if sym < 16 {
                    lengths_from(meta, s, after, out.push(sym), total)
                } else if sym == 16 {
                    if out.len() == 0 {
                        None
                    } else {
                        lengths_from(meta, s, after, padded(out, out.last(), 3 + extra), total)
                    }
                } else if sym == 17 {
                    lengths_from(meta, s, after, padded(out, 0, 3 + extra), total)
                } else {
                    lengths_from(meta, s, after, padded(out, 0, 11 + extra), total)
                }
            },
        }
    }
}

/// What a decoder reads from a compressed sub-block with codes of its own
/// whose header stands at bit `pos`, after the three bits that say so:
/// the numbers of codes, the lengths of the codes for code lengths, the
/// code lengths of both alphabets, and the data.
pub open spec fn dynamic_from(s: Seq<u8>, pos: int, out: Seq<u8>) -> Option<(Seq<u8>, int)> {
    let literals = 257 + bits_le(s, pos, 5);
    let distances = 1 + bits_le(s, pos + 5, 5);
    let count = 4 + bits_le(s, pos + 10, 4);
    let meta = meta_lengths(s, pos + 14, count);
    match lengths_from(meta, s, pos + 14 + 3 * count, Seq::empty(), literals + distances) {
        None => None,
        Some((lengths, data)) => symbols_from(
            lengths.take(literals as int),
            lengths.skip(literals as int),
            s,
            data,
            out,
        ),
    }
}

/// What a decoder reads from the sub-blocks that begin at bit `pos`, after
/// `out`, up to the end of the final one. A sub-block begins with a bit
/// that says whether it is final and two bits for its kind. A stored one
/// goes on at the next whole byte with its length and the complement of
/// that, each of two bytes, least significant first, and the bytes
/// themselves. There is nothing to read from a sub-block in the fixed
/// codes, nor where the stream does not have this form.
#[verifier::opaque]
pub open spec fn inflate_from(s: Seq<u8>, pos: int, out: Seq<u8>) -> Option<Seq<u8>>
    decreases 8 * s.len() - pos,
{
    if pos < 0 || pos + 3 > 8 * s.len() {
        None
    } else {
        let last = bit_at(s, pos) == 1;
        let kind = bits_le(s, pos + 1, 2);
        if kind == 0 {
            let at = (pos + 3 + 7) / 8;
            if at + 4 > s.len() {
                None
            } else {
                let n = s[at] as int + 256 * (s[at + 1] as int);
                if s[at + 2] != 255 - s[at] || s[at + 3] != 255 - s[at + 1] || at + 4 + n
                    > s.len() {
                    None
                } else if last {
                    Some(out + s.subrange(at + 4, at + 4 + n))
                } else {
                    inflate_from(s, 8 * (at + 4 + n), out + s.subrange(at + 4, at + 4 + n))
                }
            }
        } else if kind == 2 {
            match dynamic_from(s, pos + 3, out) {
                None => None,
                Some((more, next)) => if last {
                    Some(more)
                } else if pos < next <= 8 * s.len() {
                    inflate_from(s, next, more)
                } else {
                    None
                },
            }
        } else {
            None
        }
    }
}

/// What a decoder reads from a raw DEFLATE stream.
pub open spec fn inflate(s: Seq<u8>) -> Option<Seq<u8>> {
    inflate_from(s, 0, Seq::empty())
}

/// A bit is zero or one.
pub proof fn lemma_bit_range(s: Seq<u8>, i: int)
    ensures
        bit_at(s, i) <= 1,
{
    reveal(bit_at);
}

/// Bit `j` of byte `i` of a stream is bit `8 i + j` of the stream.
pub proof fn lemma_bit_of_byte(s: Seq<u8>, i: int, j: int)
    requires
        0 <= i,
        0 <= j < 8,
    ensures
        bit_at(s, 8 * i + j) == ((s[i] as nat) / two_to(j as nat)) % 2,
{
    reveal(bit_at);
}

/// The powers of two below 256.
pub proof fn lemma_two_to()
    ensures
        two_to(0) == 1,
        two_to(1) == 2,
        two_to(2) == 4,
        two_to(3) == 8,
        two_to(4) == 16,
        two_to(5) == 32,
        two_to(6) == 64,
        two_to(7) == 128,
{
    reveal_with_fuel(two_to, 9);
}

/// The eight bits of byte `i` of a stream.
pub proof fn lemma_bits_of_byte(s: Seq<u8>, i: int)
    requires
        0 <= i,
    ensures
        bit_at(s, 8 * i) == (s[i] as nat) % 2,
        bit_at(s, 8 * i + 1) == (s[i] as nat / 2) % 2,
        bit_at(s, 8 * i + 2) == (s[i] as nat / 4) % 2,
        bit_at(s, 8 * i + 3) == (s[i] as nat / 8) % 2,
        bit_at(s, 8 * i + 4) == (s[i] as nat / 16) % 2,
        bit_at(s, 8 * i + 5) == (s[i] as nat / 32) % 2,
        bit_at(s, 8 * i + 6) == (s[i] as nat / 64) % 2,
        bit_at(s, 8 * i + 7) == (s[i] as nat / 128) % 2,
{
    lemma_two_to();
    lemma_bit_of_byte(s, i, 0);
    assert(bit_at(s, 8 * i) == ((s[i] as nat) / 1) % 2);
    lemma_bit_of_byte(s, i, 1);
    lemma_bit_of_byte(s, i, 2);
    lemma_bit_of_byte(s, i, 3);
    lemma_bit_of_byte(s, i, 4);
    lemma_bit_of_byte(s, i, 5);
    lemma_bit_of_byte(s, i, 6);
    lemma_bit_of_byte(s, i, 7);
}

} // verus!
