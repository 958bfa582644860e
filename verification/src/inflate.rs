//! The proof that a decoder reads back what the synthesizer wrote: from
//! the raw DEFLATE stream of a layer, once filled, the bytes of the layer
//! below.
//!
//! The decoder is the one that the module `huffman` describes. The proof
//! follows the stream group by group: the stored sub-blocks of a frame,
//! the compressed sub-block that a frame begins before a run of `0x55`,
//! and the lead byte that ends it.
use crate::adler::adler32;
use crate::crc32::{crc32, le_bytes};
use crate::deflate::{
    chunks, deflatable, deflate_raw_view, deflate_segments, frame, frame_len, group_end,
    group_stop, groups_from, gzip_header, gzip_view, known_segment, length_field,
    lemma_fill_inflates, lemma_frame_len, lemma_group_end, lemma_literal_len, lemma_wrap_wf,
    run_segment, terminator, trailer_segment, wrapper_block, zlib_header, zlib_view,
};
use crate::framing::{first_byte, lemma_frame_long, lemma_frame_short, run_header};
use crate::header::{header_at, lemma_header_fields, lemma_run_block};
use crate::huffman::{bit_at, bits_le, inflate, inflate_from, lemma_bit_range, lemma_bits_of_byte};
use crate::payload::{
    concat, cycle, filled_all, filled_segment, inflated_size, lemma_fill_below,
    lemma_fill_layering, lemma_fill_segments, lemma_literal_len_same, lemma_size_is_length,
    literal_len_of, literal_of, PayloadView, Resolver, SegmentView,
};
use vstd::prelude::*;

verus! {

/// The literal bytes of a run of blocks are its bytes.
pub proof fn lemma_literal_of_blocks(segs: Seq<SegmentView>)
    requires
        forall|i: int| 0 <= i < segs.len() ==> (#[trigger] segs[i]) is Block,
    ensures
        literal_of(segs) == concat(segs),
    decreases segs.len(),
{
    if segs.len() > 0 {
        lemma_literal_of_blocks(segs.drop_last());
        assert(segs.last() == segs[segs.len() - 1]);
    }
}

/// The bytes of the segments of a layer, where there are but a few.
proof fn lemma_concat_few(segs: Seq<SegmentView>)
    ensures
        segs.len() == 0 ==> concat(segs) == Seq::<u8>::empty(),
        segs.len() == 1 ==> concat(segs) == segs[0].bytes(),
        segs.len() == 2 ==> concat(segs) == segs[0].bytes() + segs[1].bytes(),
        segs.len() == 3 ==> concat(segs) == segs[0].bytes() + segs[1].bytes() + segs[2].bytes(),
        segs.len() == 4 ==> concat(segs) == segs[0].bytes() + segs[1].bytes() + segs[2].bytes()
            + segs[3].bytes(),
{
    reveal_with_fuel(concat, 5);
    let none = Seq::<u8>::empty();
    if segs.len() == 1 {
        assert(concat(segs) =~= none + segs[0].bytes());
    }
    if segs.len() == 2 {
        let a = segs.drop_last();
        assert(concat(segs) =~= (none + a[0].bytes()) + segs[1].bytes());
    }
    if segs.len() == 3 {
        let a = segs.drop_last();
        let b = a.drop_last();
        assert(concat(segs) =~= ((none + b[0].bytes()) + a[1].bytes()) + segs[2].bytes());
    }
    if segs.len() == 4 {
        let a = segs.drop_last();
        let b = a.drop_last();
        let c = b.drop_last();
        assert(concat(segs) =~= (((none + c[0].bytes()) + b[1].bytes()) + a[2].bytes())
            + segs[3].bytes());
    }
}

/// Whether the bytes `x` stand in the stream `s` from byte `at` on.
pub open spec fn holds(s: Seq<u8>, at: int, x: Seq<u8>) -> bool {
    0 <= at && at + x.len() <= s.len() && s.subrange(at, at + x.len()) == x
}

/// Where two runs of bytes stand in a stream one after the other, each of
/// them stands there.
pub proof fn lemma_holds_both(s: Seq<u8>, at: int, a: Seq<u8>, b: Seq<u8>)
    requires
        holds(s, at, a + b),
    ensures
        holds(s, at, a),
        holds(s, at + a.len(), b),
{
    let x = a + b;
    assert(s.subrange(at, at + a.len()) =~= a) by {
        assert forall|i: int| 0 <= i < a.len() implies s[at + i] == a[i] by {
            assert(s.subrange(at, at + x.len())[i] == x[i]);
        }
    }
    assert(s.subrange(at + a.len(), at + a.len() + b.len()) =~= b) by {
        assert forall|i: int| 0 <= i < b.len() implies s[at + a.len() + i] == b[i] by {
            assert(s.subrange(at, at + x.len())[a.len() + i] == x[a.len() + i]);
        }
    }
}

/// What a decoder reads from a stored sub-block whose header stands in
/// the three bits from bit `pos` on, and whose length field and bytes
/// `data` stand from byte `at` on, the next whole byte: `data`, and, if
/// the sub-block is not final, what it reads from the bytes after it.
pub proof fn lemma_stored_block(s: Seq<u8>, pos: int, at: int, data: Seq<u8>, out: Seq<u8>)
    requires
        0 <= pos,
        pos + 3 <= 8 * s.len(),
        bits_le(s, pos + 1, 2) == 0,
        at == (pos + 10) / 8,
        data.len() <= 0xffff,
        holds(s, at, length_field(data.len()) + data),
    ensures
        inflate_from(s, pos, out) == (if bit_at(s, pos) == 1 {
            Some(out + data)
        } else {
            inflate_from(s, 8 * (at + 4 + data.len()), out + data)
        }),
{
    let n = data.len();
    let field = length_field(n);
    lemma_holds_both(s, at, field, data);
    assert(s[at] == field[0] && s[at + 1] == field[1] && s[at + 2] == field[2] && s[at + 3]
        == field[3]) by {
        let held = s.subrange(at, at + 4);
        assert(held[0] == field[0] && held[1] == field[1] && held[2] == field[2] && held[3]
            == field[3]);
    }
    assert(s[at] as int + 256 * (s[at + 1] as int) == n);
    lemma_bit_range(s, pos);
    reveal(inflate_from);
}

/// The bits of the byte that holds the header of a stored sub-block: the
/// header stands at bit 5 of a lead byte and at bit 0 of a byte of its
/// own, and the sub-block goes on at the next byte.
pub proof fn lemma_first_byte(s: Seq<u8>, q: int, lead: bool, last: bool)
    requires
        0 <= q < s.len(),
        s[q] == first_byte(lead, last),
    ensures
        ({
            let pos = if lead {
                8 * q + 5
            } else {
                8 * q
            };
            &&& bit_at(s, pos) == (if last {
                1nat
            } else {
                0nat
            })
            &&& bits_le(s, pos + 1, 2) == 0
            &&& (pos + 10) / 8 == q + 1
        }),
{
    lemma_bits_of_byte(s, q);
    reveal_with_fuel(bits_le, 3);
}

/// Where a decoder stands when it comes to a frame at byte `q`: at bit 5
/// of a lead byte, of which it has read the five bits before, or at the
/// first bit of the frame.
pub open spec fn entry(q: int, lead: bool) -> int {
    if lead {
        8 * q + 5
    } else {
        8 * q
    }
}

/// What a decoder reads from a frame around no more bytes than one
/// sub-block holds.
proof fn lemma_short_frame_reads(
    s: Seq<u8>,
    q: int,
    lit: Seq<u8>,
    lead: bool,
    has_rep: bool,
    fin: bool,
    out: Seq<u8>,
)
    requires
        0 < lit.len() <= 0xffff,
        has_rep || fin,
        holds(s, q, frame(lit, lead, has_rep, fin)),
    ensures
        inflate_from(s, entry(q, lead), out) == (if has_rep {
            inflate_from(s, 8 * (q + 5 + lit.len()), out + lit)
        } else {
            Some(out + lit)
        }),
        has_rep ==> holds(s, q + 5 + lit.len(), run_header(fin && !lead)),
{
    let n = lit.len();
    let first = seq![first_byte(lead, fin && !has_rep)];
    let tail = if has_rep {
        run_header(fin && !lead)
    } else {
        Seq::<u8>::empty()
    };
    lemma_frame_short(lit, lead, has_rep, fin);
    assert(first + (length_field(n) + lit + tail) =~= first + length_field(n) + lit + tail);
    lemma_holds_both(s, q, first, length_field(n) + lit + tail);
    lemma_holds_both(s, q + 1, length_field(n) + lit, tail);
    assert(s[q] == first[0]) by {
        assert(s.subrange(q, q + 1)[0] == first[0]);
    }
    lemma_first_byte(s, q, lead, fin && !has_rep);
    lemma_stored_block(s, entry(q, lead), q + 1, lit, out);
}

/// What a decoder reads from the first sub-block of a frame around more
/// bytes than one sub-block holds: 65535 bytes, and what it reads from
/// the frame around the rest.
proof fn lemma_long_frame_reads(
    s: Seq<u8>,
    q: int,
    lit: Seq<u8>,
    lead: bool,
    has_rep: bool,
    fin: bool,
    out: Seq<u8>,
)
    requires
        lit.len() > 0xffff,
        holds(s, q, frame(lit, lead, has_rep, fin)),
    ensures
        inflate_from(s, entry(q, lead), out) == inflate_from(
            s,
            8 * (q + 0x10004),
            out + lit.take(0xffff),
        ),
        holds(s, q + 0x10004, frame(lit.skip(0xffff), false, has_rep, fin)),
{
    let first = seq![first_byte(lead, false)];
    let head = lit.take(0xffff);
    let after = frame(lit.skip(0xffff), false, has_rep, fin);
    lemma_frame_long(lit, lead, has_rep, fin);
    assert(first + (length_field(0xffff) + head + after) =~= first + length_field(0xffff) + head
        + after);
    lemma_holds_both(s, q, first, length_field(0xffff) + head + after);
    lemma_holds_both(s, q + 1, length_field(0xffff) + head, after);
    assert(s[q] == first[0]) by {
        assert(s.subrange(q, q + 1)[0] == first[0]);
    }
    lemma_first_byte(s, q, lead, false);
    lemma_stored_block(s, entry(q, lead), q + 1, head, out);
}

/// What a decoder reads from the stored sub-blocks of a frame around
/// `lit` that stands at byte `q`: the bytes `lit`. If they are all there
/// is to the frame, and the frame is the last, the stream ends with them;
/// if the header of a compressed sub-block follows them, the decoder goes
/// on at that header, which is final only where the frame is the last,
/// and is longer than one sub-block or has no lead byte.
pub proof fn lemma_frame_reads(
    s: Seq<u8>,
    q: int,
    lit: Seq<u8>,
    lead: bool,
    has_rep: bool,
    fin: bool,
    out: Seq<u8>,
)
    requires
        lit.len() > 0,
        has_rep || fin,
        holds(s, q, frame(lit, lead, has_rep, fin)),
    ensures
        inflate_from(s, entry(q, lead), out) == (if has_rep {
            inflate_from(s, 8 * (q + frame_len(lit.len(), lead, has_rep) - 13), out + lit)
        } else {
            Some(out + lit)
        }),
        has_rep ==> holds(
            s,
            q + frame_len(lit.len(), lead, has_rep) - 13,
            run_header(fin && !(lead && lit.len() <= 0xffff)),
        ),
    decreases lit.len(),
{
    if lit.len() <= 0xffff {
        lemma_short_frame_reads(s, q, lit, lead, has_rep, fin, out);
        lemma_frame_len_step(lit.len(), lead, has_rep);
    } else {
        let head = lit.take(0xffff);
        let rest = lit.skip(0xffff);
        lemma_long_frame_reads(s, q, lit, lead, has_rep, fin, out);
        lemma_frame_reads(s, q + 0x10004, rest, false, has_rep, fin, out + head);
        assert(out + head + rest =~= out + lit);
        lemma_frame_len_step(lit.len(), lead, has_rep);
    }
}

/// The length of a frame around some bytes: five bytes more than the
/// bytes, and thirteen for the header before a run, where one sub-block
/// holds them; else 65540 more than that of the frame around the bytes
/// after the first 65535.
proof fn lemma_frame_len_step(n: nat, lead: bool, has_rep: bool)
    requires
        n > 0,
    ensures
        n <= 0xffff ==> frame_len(n, lead, has_rep) == n + 5 + (if has_rep {
            13nat
        } else {
            0nat
        }),
        n > 0xffff ==> frame_len(n, lead, has_rep) == frame_len(
            (n - 0xffff) as nat,
            false,
            has_rep,
        ) + 0x10004,
{
    if n > 0xffff {
        assert(chunks(n) == chunks((n - 0xffff) as nat) + 1) by {
            vstd::arithmetic::div_mod::lemma_div_plus_one((n - 0xffff + 0xfffe) as int, 0xffff);
        }
    } else {
        assert(chunks(n) == 1);
    }
}

/// Whether all that the segments stand for is known: the bytes of each
/// block, and of each bomb that it repeats one byte and has the size that
/// a run of `size` bytes gives it.
pub open spec fn laid_out(data: Seq<SegmentView>, size: nat) -> bool {
    forall|i: int|
        0 <= i < data.len() ==> match #[trigger] data[i] {
            SegmentView::Block(b) => b.data is Known && b.bytes().len() == b.len,
            SegmentView::Bomb(b) => b.pattern.len() == 1 && b.size == inflated_size(size),
        }
}

/// The literal bytes of a group of segments whose blocks are known are as
/// many as its literal length.
proof fn lemma_group_len(data: Seq<SegmentView>, start: int, stop: int, size: nat)
    requires
        0 <= start <= stop <= data.len(),
        laid_out(data, size),
    ensures
        literal_of(data.subrange(start, stop)).len() == literal_len_of(data.subrange(start, stop)),
{
    let group = data.subrange(start, stop);
    assert forall|i: int| 0 <= i < group.len() implies (#[trigger] group[i]).resolved()
        && group[i].sized() by {
        assert(group[i] == data[start + i]);
    }
    lemma_literal_len(group);
}

/// The raw DEFLATE stream of the segments from `start` on, with runs of
/// `size` bytes: for each group its frame and, for its bomb, the run; and
/// after a bomb at the very end, the byte that ends its sub-block.
pub open spec fn stream_from(data: Seq<SegmentView>, start: int, size: nat) -> Seq<u8>
    decreases data.len() - start,
    via stream_from_decreases
{
    if start < 0 || start >= data.len() {
        if data.len() > 0 && data.last() is Bomb {
            seq![0x05u8]
        } else {
            Seq::empty()
        }
    } else {
        let stop = group_stop(data, start);
        let has_rep = group_end(data, start) < data.len();
        frame(literal_of(data.subrange(start, stop)), start != 0, has_rep, stop >= data.len()) + (
        if has_rep {
            cycle(seq![0x55u8], size)
        } else {
            Seq::empty()
        }) + stream_from(data, stop, size)
    }
}

#[via_fn]
proof fn stream_from_decreases(data: Seq<SegmentView>, start: int, size: nat) {
    if 0 <= start < data.len() {
        lemma_group_end(data, start);
    }
}

/// Whether a decoder can read the stream of the segments from `start` on
/// to its end. Each group must have literal bytes, as no stored sub-block
/// is written for none. And where the last group ends with a bomb and
/// follows another, it must have more literal bytes than one sub-block
/// holds: the final bit of its compressed sub-block is set by the mask of
/// the lead byte otherwise, which changes nothing in its header.
pub open spec fn readable(data: Seq<SegmentView>, start: int) -> bool
    decreases data.len() - start,
    via readable_decreases
{
    if start < 0 || start >= data.len() {
        true
    } else {
        let stop = group_stop(data, start);
        let has_rep = group_end(data, start) < data.len();
        let n = literal_len_of(data.subrange(start, stop));
        &&& n > 0
        &&& has_rep && stop >= data.len() && start != 0 ==> n > 0xffff
        &&& readable(data, stop)
    }
}

#[via_fn]
proof fn readable_decreases(data: Seq<SegmentView>, start: int) {
    if 0 <= start < data.len() {
        lemma_group_end(data, start);
    }
}

/// The bytes of two runs of segments, one after the other.
pub proof fn lemma_concat_add(a: Seq<SegmentView>, b: Seq<SegmentView>)
    ensures
        concat(a + b) == concat(a) + concat(b),
    decreases b.len(),
{
    if b.len() == 0 {
        assert(a + b =~= a);
        assert(concat(a) + concat(b) =~= concat(a));
    } else {
        lemma_concat_add(a, b.drop_last());
        assert((a + b).drop_last() =~= a + b.drop_last());
        assert((a + b).last() == b.last());
        assert(concat(a) + concat(b.drop_last()) + b.last().bytes() =~= concat(a) + (concat(
            b.drop_last(),
        ) + b.last().bytes()));
    }
}

/// The bytes of a group are its literal bytes and, where it ends with a
/// bomb, the last of them as many times more as the bomb has bytes but
/// one.
pub proof fn lemma_group_bytes(data: Seq<SegmentView>, start: int, size: nat)
    requires
        0 <= start < data.len(),
        laid_out(data, size),
    ensures
        ({
            let stop = group_stop(data, start);
            let lit = literal_of(data.subrange(start, stop));
            if group_end(data, start) < data.len() {
                lit.len() > 0 && concat(data.subrange(start, stop)) == lit + Seq::new(
                    1032 * size + 1290,
                    |i: int| lit.last(),
                )
            } else {
                concat(data.subrange(start, stop)) == lit
            }
        }),
{
    lemma_group_end(data, start);
    let end = group_end(data, start);
    let stop = group_stop(data, start);
    let group = data.subrange(start, stop);
    let blocks = data.subrange(start, end);
    assert forall|i: int| 0 <= i < blocks.len() implies (#[trigger] blocks[i]) is Block by {
        assert(data[start + i] is Block);
    }
    lemma_literal_of_blocks(blocks);
    if end < data.len() {
        let bomb = data[end]->Bomb_0;
        assert(group.drop_last() =~= blocks);
        assert(group.last() == data[end]);
        let lit = literal_of(group);
        assert(lit == concat(blocks) + bomb.pattern);
        assert(concat(group) == concat(blocks) + cycle(bomb.pattern, bomb.size));
        assert(lit.last() == bomb.pattern[0]);
        assert(concat(blocks) + cycle(bomb.pattern, bomb.size) =~= lit + Seq::new(
            1032 * size + 1290,
            |i: int| lit.last(),
        ));
    } else {
        assert(group =~= blocks);
    }
}

/// What a decoder reads from the compressed sub-block of a bomb whose
/// header stands at byte `h`, before a run of `size` bytes `0x55` and a
/// lead byte: after `out`, the last byte of `out` 1032 times for each
/// byte of the run and 1290 times more; and, if the sub-block is not
/// final, what it reads from bit 5 of the lead byte on.
pub proof fn lemma_compressed_reads(s: Seq<u8>, h: int, size: nat, out: Seq<u8>, last: bool)
    requires
        out.len() > 0,
        holds(s, h, run_header(last)),
        holds(s, h + 13, cycle(seq![0x55u8], size)),
        h + 13 + size < s.len(),
        s[h + 13 + size] == 0x05 || s[h + 13 + size] == 0x25,
    ensures
        inflate_from(s, 8 * h, out) == (if last {
            Some(out + Seq::new(1032 * size + 1290, |i: int| out.last()))
        } else {
            inflate_from(
                s,
                8 * (h + 13 + size) + 5,
                out + Seq::new(1032 * size + 1290, |i: int| out.last()),
            )
        }),
{
    let header = run_header(last);
    let run = cycle(seq![0x55u8], size);
    assert(header_at(s, h)) by {
        let held = s.subrange(h, h + 13);
        assert(held[0] == header[0]);
        assert(held[1] == header[1]);
        assert(held[2] == header[2]);
        assert(held[3] == header[3]);
        assert(held[4] == header[4]);
        assert(held[5] == header[5]);
        assert(held[6] == header[6]);
        assert(held[7] == header[7]);
        assert(held[8] == header[8]);
        assert(held[9] == header[9]);
        assert(held[10] == header[10]);
        assert(held[11] == header[11]);
        assert(held[12] == header[12]);
    }
    assert(s[h] == header[0]);
    assert forall|i: int| h + 13 <= i < h + 13 + size implies #[trigger] s[i] == 0x55 by {
        assert(s.subrange(h + 13, h + 13 + size)[i - h - 13] == run[i - h - 13]);
    }
    lemma_header_fields(s, h);
    lemma_run_block(s, h, size, out);
    reveal(inflate_from);
}

/// The stream of the segments from a group on that follows another, or
/// from the end on after a bomb, begins with a lead byte.
pub proof fn lemma_stream_head(data: Seq<SegmentView>, start: int, size: nat)
    requires
        0 < start <= data.len(),
        data[start - 1] is Bomb,
        laid_out(data, size),
        readable(data, start),
    ensures
        stream_from(data, start, size).len() > 0,
        stream_from(data, start, size)[0] == 0x05 || stream_from(data, start, size)[0] == 0x25,
{
    if start < data.len() {
        let stop = group_stop(data, start);
        let has_rep = group_end(data, start) < data.len();
        let fin = stop >= data.len();
        let lit = literal_of(data.subrange(start, stop));
        lemma_group_end(data, start);
        lemma_group_len(data, start, stop, size);
        if lit.len() <= 0xffff {
            lemma_frame_short(lit, true, has_rep, fin);
        } else {
            lemma_frame_long(lit, true, has_rep, fin);
        }
    }
}

/// How the stream of the segments from `start` on is laid out, where it
/// stands at byte `q` and ends the stream `s`: the frame of the first
/// group, the run for its bomb if it has one, and the stream of the
/// segments after the group.
proof fn lemma_stream_layout(s: Seq<u8>, data: Seq<SegmentView>, start: int, size: nat, q: int)
    requires
        0 <= start < data.len(),
        0 <= q <= s.len(),
        s.subrange(q, s.len() as int) == stream_from(data, start, size),
    ensures
        ({
            let stop = group_stop(data, start);
            let has_rep = group_end(data, start) < data.len();
            let lit = literal_of(data.subrange(start, stop));
            let wrapper = frame(lit, start != 0, has_rep, stop >= data.len());
            let t = q + wrapper.len() + (if has_rep {
                size
            } else {
                0
            });
            &&& holds(s, q, wrapper)
            &&& has_rep ==> holds(s, q + wrapper.len(), cycle(seq![0x55u8], size))
            &&& t <= s.len()
            &&& s.subrange(t, s.len() as int) == stream_from(data, stop, size)
        }),
{
    let stop = group_stop(data, start);
    let has_rep = group_end(data, start) < data.len();
    let lit = literal_of(data.subrange(start, stop));
    let wrapper = frame(lit, start != 0, has_rep, stop >= data.len());
    let run = if has_rep {
        cycle(seq![0x55u8], size)
    } else {
        Seq::<u8>::empty()
    };
    let rest = stream_from(data, stop, size);
    assert(stream_from(data, start, size) == wrapper + run + rest);
    assert(wrapper + (run + rest) =~= wrapper + run + rest);
    assert(holds(s, q, wrapper + (run + rest)));
    lemma_holds_both(s, q, wrapper, run + rest);
    lemma_holds_both(s, q + wrapper.len(), run, rest);
    assert(s.subrange(q + wrapper.len() + run.len(), s.len() as int) =~= rest);
}

/// What a decoder reads from a frame around `lit` at byte `q` and, where
/// a run follows it, from the compressed sub-block that the frame begins
/// and a lead byte ends: the bytes `lit` and, for the run, the last of
/// them 1032 times for each byte of the run and 1290 times more. After a
/// last frame the stream ends; else the decoder goes on at bit 5 of the
/// lead byte.
proof fn lemma_wrapped_reads(
    s: Seq<u8>,
    q: int,
    lit: Seq<u8>,
    lead: bool,
    has_rep: bool,
    fin: bool,
    size: nat,
    out: Seq<u8>,
)
    requires
        lit.len() > 0,
        has_rep || fin,
        fin && has_rep && lead ==> lit.len() > 0xffff,
        holds(s, q, frame(lit, lead, has_rep, fin)),
        has_rep ==> {
            let t = q + frame_len(lit.len(), lead, has_rep) + size;
            &&& holds(s, t - size, cycle(seq![0x55u8], size))
            &&& t < s.len()
            &&& (s[t] == 0x05 || s[t] == 0x25)
        },
    ensures
        inflate_from(s, entry(q, lead), out) == (if !has_rep {
            Some(out + lit)
        } else if fin {
            Some(out + lit + Seq::new(1032 * size + 1290, |i: int| lit.last()))
        } else {
            inflate_from(
                s,
                8 * (q + frame_len(lit.len(), lead, has_rep) + size) + 5,
                out + lit + Seq::new(1032 * size + 1290, |i: int| lit.last()),
            )
        }),
{
    lemma_frame_reads(s, q, lit, lead, has_rep, fin, out);
    if has_rep {
        let h = q + frame_len(lit.len(), lead, has_rep) - 13;
        assert((out + lit).last() == lit.last());
        lemma_compressed_reads(s, h, size, out + lit, fin);
    }
}

/// A decoder that comes to the stream of the segments from `start` on,
/// which stands at byte `q` and ends the stream `s`, reads the bytes of
/// those segments.
pub proof fn lemma_stream_reads(
    s: Seq<u8>,
    data: Seq<SegmentView>,
    start: int,
    size: nat,
    q: int,
    out: Seq<u8>,
)
    requires
        0 <= start < data.len(),
        laid_out(data, size),
        readable(data, start),
        0 <= q <= s.len(),
        s.subrange(q, s.len() as int) == stream_from(data, start, size),
    ensures
        inflate_from(s, entry(q, start != 0), out) == Some(
            out + concat(data.subrange(start, data.len() as int)),
        ),
    decreases data.len() - start,
{
    lemma_group_end(data, start);
    lemma_group_bytes(data, start, size);
    lemma_stream_layout(s, data, start, size, q);
    let len = data.len() as int;
    let stop = group_stop(data, start);
    let has_rep = group_end(data, start) < len;
    let fin = stop >= len;
    let group = data.subrange(start, stop);
    let lit = literal_of(group);
    let rest = stream_from(data, stop, size);
    lemma_frame_len(lit, start != 0, has_rep, fin);
    lemma_group_len(data, start, stop, size);
    let t = q + frame_len(lit.len(), start != 0, has_rep) + size;
    if has_rep {
        assert(data[stop - 1] is Bomb);
        lemma_stream_head(data, stop, size);
        assert(s[t] == rest[0]) by {
            assert(s.subrange(t, s.len() as int)[0] == rest[0]);
        }
    }
    lemma_wrapped_reads(s, q, lit, start != 0, has_rep, fin, size, out);
    let more = out + concat(group);
    if has_rep {
        assert(more =~= out + lit + Seq::new(1032 * size + 1290, |i: int| lit.last()));
    }
    if fin {
        assert(data.subrange(start, len) =~= group);
    } else {
        lemma_stream_reads(s, data, stop, size, t, more);
        lemma_concat_add(group, data.subrange(stop, len));
        assert(data.subrange(start, len) =~= group + data.subrange(stop, len));
        assert(more + concat(data.subrange(stop, len)) =~= out + (concat(group) + concat(
            data.subrange(stop, len),
        )));
    }
}

/// Whether two runs of segments are as many, with bombs at the same
/// places and the same literal length at each place.
pub open spec fn alike(a: Seq<SegmentView>, b: Seq<SegmentView>) -> bool {
    &&& a.len() == b.len()
    &&& forall|j: int|
        0 <= j < a.len() ==> ((#[trigger] a[j]) is Bomb <==> b[j] is Bomb) && a[j].literal_len()
            == b[j].literal_len()
}

/// Segments that are alike fall into the same groups.
proof fn lemma_same_groups(a: Seq<SegmentView>, b: Seq<SegmentView>, start: int)
    requires
        alike(a, b),
        0 <= start <= a.len(),
    ensures
        group_end(a, start) == group_end(b, start),
        group_stop(a, start) == group_stop(b, start),
    decreases a.len() - start,
{
    if start < a.len() {
        assert(a[start] is Bomb <==> b[start] is Bomb);
        if !(a[start] is Bomb) {
            lemma_same_groups(a, b, start + 1);
        }
    }
}

/// Where a decoder can read the stream of some segments, it can read the
/// stream of segments that are alike.
proof fn lemma_readable_same(a: Seq<SegmentView>, b: Seq<SegmentView>, start: int)
    requires
        alike(a, b),
        0 <= start <= a.len(),
        readable(a, start),
    ensures
        readable(b, start),
    decreases a.len() - start,
{
    if start < a.len() {
        lemma_group_end(a, start);
        lemma_same_groups(a, b, start);
        let stop = group_stop(a, start);
        assert forall|j: int| 0 <= j < a.len() implies (#[trigger] b[j]).literal_len()
            == a[j].literal_len() by {
            assert(a[j].literal_len() == b[j].literal_len());
        }
        lemma_literal_len_same(a, b, start, stop);
        lemma_readable_same(a, b, stop);
    }
}

/// The byte `0x05` after a bomb at the very end, as segments.
pub open spec fn ending(data: Seq<SegmentView>) -> Seq<SegmentView> {
    if data.len() > 0 && data.last() is Bomb {
        seq![terminator()]
    } else {
        Seq::empty()
    }
}

/// The bytes of the segments that stand for the segments `data` from
/// `start` on, once they are filled over the filled layer `below`, which
/// is like `data`: the stream of the segments of `below` from `start` on.
proof fn lemma_groups_stream(data: Seq<SegmentView>, below: PayloadView, start: int, size: nat)
    requires
        alike(data, below.data),
        0 <= start <= data.len() <= usize::MAX,
    ensures
        concat(filled_all(groups_from(data, start) + ending(data), Some(Box::new(below)), size))
            == stream_from(below.data, start, size),
    decreases data.len() - start,
{
    let some = Some(Box::new(below));
    let all = groups_from(data, start) + ending(data);
    if start >= data.len() {
        assert(all =~= ending(data));
        if data.len() > 0 {
            assert(data.last() is Bomb <==> below.data.last() is Bomb);
        }
        lemma_concat_few(filled_all(all, some, size));
    } else {
        lemma_group_end(data, start);
        lemma_same_groups(data, below.data, start);
        let end = group_end(data, start);
        let stop = group_stop(data, start);
        let has_rep = end < data.len();
        let head = if has_rep {
            seq![wrapper_block(data, start, stop, has_rep), run_segment(end)]
        } else {
            seq![wrapper_block(data, start, stop, has_rep)]
        };
        let rest = groups_from(data, stop) + ending(data);
        lemma_groups_stream(data, below, stop, size);
        assert(all =~= head + rest);
        assert(filled_all(all, some, size) =~= filled_all(head, some, size) + filled_all(
            rest,
            some,
            size,
        ));
        lemma_concat_add(filled_all(head, some, size), filled_all(rest, some, size));
        lemma_concat_few(filled_all(head, some, size));
        let lit = literal_of(below.data.subrange(start, stop));
        let wrapper = frame(lit, start != 0, has_rep, stop >= data.len());
        assert(filled_all(head, some, size)[0].bytes() == wrapper);
        if has_rep {
            assert(filled_all(head, some, size)[1].bytes() == cycle(seq![0x55u8], size));
        } else {
            assert(wrapper + Seq::<u8>::empty() =~= wrapper);
        }
    }
}

/// Among the segments that stand for the segments from `start` on,
/// there is the run of `0x55` for each bomb among them: the result is its
/// place.
proof fn lemma_run_index(data: Seq<SegmentView>, start: int, j: int) -> (i: int)
    requires
        0 <= start <= j < data.len(),
        data[j] is Bomb,
    ensures
        0 <= i < groups_from(data, start).len(),
        groups_from(data, start)[i] == run_segment(j),
    decreases data.len() - start,
{
    lemma_group_end(data, start);
    let end = group_end(data, start);
    if end > j {
        assert(data[j] is Block);
    }
    let rest = groups_from(data, end + 1);
    assert(groups_from(data, start) == seq![
        wrapper_block(data, start, end + 1, true),
        run_segment(end),
    ] + rest);
    if end == j {
        1
    } else {
        let k = lemma_run_index(data, end + 1, j);
        assert(groups_from(data, start)[k + 2] == rest[k]);
        k + 2
    }
}

/// After a layer was filled that holds, from its segment `k` on, the raw
/// DEFLATE stream of the layer below, all that the segments of the layer
/// below stand for is known, and each bomb there has the size that a run
/// of `size` bytes gives it.
proof fn lemma_laid_out(w: PayloadView, k: int, size: nat)
    requires
        w.wf(),
        w.child is Some,
        w.child->0.data.len() <= usize::MAX,
        deflatable(w.child->0.data),
        0 <= k,
        k + deflate_segments(w.child->0.data).len() <= w.data.len(),
        w.data.subrange(k, k + deflate_segments(w.child->0.data).len()) == deflate_segments(
            w.child->0.data,
        ),
    ensures
        w.fill(size).child is Some,
        laid_out(w.fill(size).child->0.data, size),
{
    let p = *w.child->0;
    let segs = deflate_segments(p.data);
    lemma_fill_below(w, size);
    let c = *w.fill(size).child->0;
    assert forall|j: int| 0 <= j < c.data.len() implies match #[trigger] c.data[j] {
        SegmentView::Block(b) => b.data is Known && b.bytes().len() == b.len,
        SegmentView::Bomb(b) => b.pattern.len() == 1 && b.size == inflated_size(size),
    } by {
        assert(c.data[j].resolved());
        assert(c.data[j].wf(c.child));
        if c.data[j] is Bomb {
            assert(p.data[j] is Bomb);
            let i = lemma_run_index(p.data, 0, j);
            assert(segs[i] == run_segment(j));
            assert(w.data.subrange(k, k + segs.len())[i] == w.data[k + i]);
            lemma_fill_layering(w, size, k + i);
        }
    }
}

/// After a layer was filled that holds, from its segment `k` on, the raw
/// DEFLATE stream of the layer below, the bytes of those segments are the
/// stream of the filled layer below, and a decoder reads from them the
/// bytes of the filled layer below, where it can read such a stream to
/// its end.
proof fn lemma_wrapper_reads(w: PayloadView, k: int, size: nat)
    requires
        w.wf(),
        w.child is Some,
        0 < w.child->0.data.len() <= usize::MAX,
        deflatable(w.child->0.data),
        readable(w.child->0.data, 0),
        0 <= k,
        k + deflate_segments(w.child->0.data).len() <= w.data.len(),
        w.data.subrange(k, k + deflate_segments(w.child->0.data).len()) == deflate_segments(
            w.child->0.data,
        ),
    ensures
        w.fill(size).child is Some,
        w.fill(size).data.len() == w.data.len(),
        concat(w.fill(size).data.subrange(k, k + deflate_segments(w.child->0.data).len()))
            == stream_from(w.fill(size).child->0.data, 0, size),
        inflate(stream_from(w.fill(size).child->0.data, 0, size)) == Some(
            w.fill(size).child->0.bytes(),
        ),
{
    let p = *w.child->0;
    let segs = deflate_segments(p.data);
    let filled = w.fill(size);
    lemma_fill_below(w, size);
    lemma_fill_segments(w, size);
    lemma_laid_out(w, k, size);
    let c = *filled.child->0;
    assert(alike(p.data, c.data)) by {
        assert forall|j: int| 0 <= j < p.data.len() implies ((#[trigger] p.data[j]) is Bomb
            <==> c.data[j] is Bomb) && p.data[j].literal_len() == c.data[j].literal_len() by {
            assert(c.data[j].literal_len() == p.data[j].literal_len());
        }
    }
    lemma_readable_same(p.data, c.data, 0);
    lemma_groups_stream(p.data, c, 0, size);
    assert(filled.child == Some(Box::new(c)));
    assert(filled.data.subrange(k, k + segs.len()) =~= filled_all(segs, filled.child, size)) by {
        assert forall|i: int| 0 <= i < segs.len() implies filled.data[k + i] == filled_segment(
            segs[i],
            filled.child,
            size,
        ) by {
            assert(w.data.subrange(k, k + segs.len())[i] == w.data[k + i]);
        }
    }
    let stream = stream_from(c.data, 0, size);
    assert(stream.subrange(0, stream.len() as int) =~= stream);
    lemma_stream_reads(stream, c.data, 0, size, 0, Seq::empty());
    assert(c.data.subrange(0, c.data.len() as int) =~= c.data);
    assert(Seq::<u8>::empty() + c.bytes() =~= c.bytes());
}

/// The literal length of a run of segments is at least that of each of
/// them.
proof fn lemma_literal_len_at_least(segs: Seq<SegmentView>, i: int)
    requires
        0 <= i < segs.len(),
    ensures
        literal_len_of(segs) >= segs[i].literal_len(),
    decreases segs.len(),
{
    if i < segs.len() - 1 {
        lemma_literal_len_at_least(segs.drop_last(), i);
    }
}

/// Whether a block of at least one byte follows each bomb among the
/// segments from `start` on.
pub open spec fn blocks_follow(data: Seq<SegmentView>, start: int) -> bool {
    forall|i: int|
        start <= i < data.len() && (#[trigger] data[i]) is Bomb ==> i + 1 < data.len() && data[i
            + 1] is Block && data[i + 1].literal_len() > 0
}

/// A decoder can read the stream of segments to its end where they begin
/// with a block of at least one byte, and such a block follows each bomb
/// among them.
pub proof fn lemma_readable_blocks(data: Seq<SegmentView>, start: int)
    requires
        0 <= start <= data.len(),
        start < data.len() ==> data[start] is Block && data[start].literal_len() > 0,
        blocks_follow(data, start),
    ensures
        readable(data, start),
    decreases data.len() - start,
{
    if start < data.len() {
        lemma_group_end(data, start);
        let end = group_end(data, start);
        let stop = group_stop(data, start);
        let group = data.subrange(start, stop);
        assert(group[0] == data[start]);
        lemma_literal_len_at_least(group, 0);
        if end < data.len() {
            assert(data[end] is Bomb);
        }
        lemma_readable_blocks(data, stop);
    }
}

/// A decoder can read to its end the stream of segments of which the last
/// is a bomb and the others are blocks.
pub proof fn lemma_readable_bomb(data: Seq<SegmentView>)
    requires
        data.len() > 0,
        data.last() is Bomb,
        data.last()->Bomb_0.pattern.len() > 0,
        forall|i: int| 0 <= i < data.len() - 1 ==> (#[trigger] data[i]) is Block,
    ensures
        readable(data, 0),
{
    let n = data.len() as int;
    let end = group_end(data, 0);
    lemma_group_end(data, 0);
    if end < n - 1 {
        assert(data[end] is Block);
    }
    if end == n {
        assert(data[n - 1] is Block);
    }
    assert(group_stop(data, 0) == n);
    assert(data.subrange(0, n)[n - 1] == data.last());
    lemma_literal_len_at_least(data.subrange(0, n), n - 1);
    assert(readable(data, n));
}

/// Among the segments that stand for the segments of a layer from `start`
/// on, a block of at least one byte follows each run of `0x55`: the frame
/// of the next group, which begins with a lead byte, or the byte that ends
/// the stream.
proof fn lemma_groups_follow(data: Seq<SegmentView>, start: int)
    requires
        0 <= start <= data.len(),
    ensures
        blocks_follow(groups_from(data, start) + ending(data), 0),
        start < data.len() ==> groups_from(data, start)[0] == wrapper_block(
            data,
            start,
            group_stop(data, start),
            group_end(data, start) < data.len(),
        ),
    decreases data.len() - start,
{
    let all = groups_from(data, start) + ending(data);
    if start < data.len() {
        lemma_group_end(data, start);
        let end = group_end(data, start);
        let stop = group_stop(data, start);
        let has_rep = end < data.len();
        let rest = groups_from(data, stop) + ending(data);
        lemma_groups_follow(data, stop);
        let k: int = if has_rep {
            2
        } else {
            1
        };
        assert(all.len() == k + rest.len());
        assert(all[0] == wrapper_block(data, start, stop, has_rep));
        assert forall|i: int| 0 <= i < rest.len() implies all[i + k] == #[trigger] rest[i] by {}
        if has_rep {
            assert(all[1] == run_segment(end));
            if stop < data.len() {
                assert(rest[0] == wrapper_block(
                    data,
                    stop,
                    group_stop(data, stop),
                    group_end(data, stop) < data.len(),
                ));
            } else {
                assert(data.last() == data[end]);
                assert(rest[0] == terminator());
            }
            assert(all[2] == rest[0]);
        }
        assert forall|i: int| 0 <= i < all.len() && (#[trigger] all[i]) is Bomb implies i + 1
            < all.len() && all[i + 1] is Block && all[i + 1].literal_len() > 0 by {
            if i >= k {
                assert(all[i] == rest[i - k]);
                assert(all[i + 1] == rest[i - k + 1]);
            }
        }
    } else {
        assert(groups_from(data, start) =~= Seq::<SegmentView>::empty());
    }
}

/// A decoder can read the raw DEFLATE stream of a zlib or gzip stream to
/// its end, whatever the layer below: a layer wrapped twice is read back
/// where it is read back once.
pub proof fn lemma_containers_readable(p: PayloadView)
    ensures
        readable(zlib_view(p).data, 0),
        readable(gzip_view(p).data, 0),
{
    let segs = deflate_segments(p.data);
    lemma_groups_follow(p.data, 0);
    assert(segs == groups_from(p.data, 0) + ending(p.data));
    let z = zlib_view(p).data;
    assert forall|i: int| 0 <= i < z.len() && (#[trigger] z[i]) is Bomb implies i + 1 < z.len()
        && z[i + 1] is Block && z[i + 1].literal_len() > 0 by {
        assert(z[i] == segs[i - 1]);
        if i < segs.len() {
            assert(z[i + 1] == segs[i]);
        }
    }
    lemma_readable_blocks(z, 0);
    let g = gzip_view(p).data;
    assert forall|i: int| 0 <= i < g.len() && (#[trigger] g[i]) is Bomb implies i + 1 < g.len()
        && g[i + 1] is Block && g[i + 1].literal_len() > 0 by {
        assert(g[i] == segs[i - 1]);
        if i < segs.len() {
            assert(g[i + 1] == segs[i]);
        }
    }
    lemma_readable_blocks(g, 0);
}

/// A decoder reads from a raw DEFLATE stream, once it was filled with a
/// size, the bytes of the layer below, filled with 1032 times that size
/// and 1291 more: where the layer below is consistent and not empty, each
/// of its bombs repeats one byte, and a decoder can read its stream to the
/// end.
pub proof fn lemma_round_trip(p: PayloadView, size: nat)
    requires
        p.wf(),
        0 < p.data.len() <= usize::MAX,
        deflatable(p.data),
        readable(p.data, 0),
    ensures
        inflate(deflate_raw_view(p).fill(size).bytes()) == Some(
            p.fill(size * 1032 + 1291).bytes(),
        ),
{
    let w = deflate_raw_view(p);
    let n = w.data.len() as int;
    lemma_wrap_wf(p);
    lemma_fill_inflates(p, size);
    assert(w.data.subrange(0, n) =~= w.data);
    lemma_wrapper_reads(w, 0, size);
    assert(w.fill(size).data.subrange(0, n) =~= w.fill(size).data);
}

/// A zlib stream, once it was filled with a size, is the header, the raw
/// DEFLATE stream of the filled layer below, and the Adler-32 checksum of
/// the bytes of that layer, big-endian; and a decoder reads those bytes
/// from the DEFLATE stream.
pub proof fn lemma_zlib_round_trip(p: PayloadView, size: nat)
    requires
        p.wf(),
        0 < p.data.len() <= usize::MAX,
        deflatable(p.data),
        readable(p.data, 0),
    ensures
        ({
            let below = p.fill(size * 1032 + 1291);
            let stream = stream_from(below.data, 0, size);
            &&& zlib_view(p).fill(size).bytes() == zlib_header() + stream + adler32(below.bytes())
            &&& inflate(stream) == Some(below.bytes())
        }),
{
    let w = zlib_view(p);
    let below = p.fill(size * 1032 + 1291);
    let segs = deflate_segments(p.data);
    let n = segs.len() as int;
    let first = seq![known_segment(zlib_header())];
    let last = seq![trailer_segment(Resolver::Adler32)];
    lemma_wrap_wf(p);
    lemma_fill_inflates(p, size);
    assert(w.data.subrange(1, 1 + n) =~= segs);
    lemma_wrapper_reads(w, 1, size);
    lemma_fill_segments(w, size);
    let filled = w.fill(size);
    let middle = filled.data.subrange(1, 1 + n);
    assert(filled.data =~= filled_all(first, filled.child, size) + middle + filled_all(
        last,
        filled.child,
        size,
    ));
    lemma_concat_add(filled_all(first, filled.child, size) + middle, filled_all(
        last,
        filled.child,
        size,
    ));
    lemma_concat_add(filled_all(first, filled.child, size), middle);
    lemma_concat_few(filled_all(first, filled.child, size));
    lemma_concat_few(filled_all(last, filled.child, size));
}

/// A gzip stream, once it was filled with a size, is the header, the raw
/// DEFLATE stream of the filled layer below, the CRC-32 checksum of the
/// bytes of that layer and their number modulo 2^32, each little-endian;
/// and a decoder reads those bytes from the DEFLATE stream.
pub proof fn lemma_gzip_round_trip(p: PayloadView, size: nat)
    requires
        p.wf(),
        0 < p.data.len() <= usize::MAX,
        deflatable(p.data),
        readable(p.data, 0),
    ensures
        ({
            let below = p.fill(size * 1032 + 1291);
            let stream = stream_from(below.data, 0, size);
            &&& gzip_view(p).fill(size).bytes() == gzip_header() + stream + le_bytes(
                crc32(below.bytes()),
            ) + le_bytes((below.bytes().len() % 0x1_0000_0000) as u32)
            &&& inflate(stream) == Some(below.bytes())
        }),
{
    let w = gzip_view(p);
    let below = p.fill(size * 1032 + 1291);
    let segs = deflate_segments(p.data);
    let n = segs.len() as int;
    let first = seq![known_segment(gzip_header())];
    let last = seq![trailer_segment(Resolver::Crc32), trailer_segment(Resolver::Isize)];
    lemma_wrap_wf(p);
    lemma_fill_inflates(p, size);
    assert(w.data.subrange(1, 1 + n) =~= segs);
    lemma_wrapper_reads(w, 1, size);
    lemma_fill_segments(w, size);
    lemma_fill_below(w, size);
    let filled = w.fill(size);
    let middle = filled.data.subrange(1, 1 + n);
    assert(filled.data =~= filled_all(first, filled.child, size) + middle + filled_all(
        last,
        filled.child,
        size,
    ));
    lemma_concat_add(filled_all(first, filled.child, size) + middle, filled_all(
        last,
        filled.child,
        size,
    ));
    lemma_concat_add(filled_all(first, filled.child, size), middle);
    lemma_concat_few(filled_all(first, filled.child, size));
    lemma_concat_few(filled_all(last, filled.child, size));
    assert(below.size() == below.bytes().len()) by {
        assert forall|i: int| 0 <= i < below.data.len() implies (
        #[trigger] below.data[i]).expandable() && below.data[i].sized() by {
            assert(below.data[i].resolved());
            assert(below.data[i].wf(below.child));
        }
        lemma_size_is_length(below.data);
    }
}

} // verus!
