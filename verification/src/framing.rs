//! The wrapper block, sub-block by sub-block: what `frame` writes, taken
//! apart from the front.
use crate::deflate::{
    bomb_header, chunks, final_mask, final_pos, frame, frame_body, frame_len, length_field,
    lemma_frame_len, lemma_stored_len, stored,
};
use vstd::prelude::*;

verus! {

/// The byte that holds the header of a stored sub-block: a byte of its
/// own, or with `lead` the byte `0x05` that ends the compressed sub-block
/// before; with `last`, with the bit that marks the sub-block as final.
pub open spec fn first_byte(lead: bool, last: bool) -> u8 {
    if lead {
        if last {
            0x25
        } else {
            0x05
        }
    } else {
        if last {
            0x01
        } else {
            0x00
        }
    }
}

/// The header of the compressed sub-block of a bomb; with `last`, with the
/// bit that marks the sub-block as final.
pub open spec fn run_header(last: bool) -> Seq<u8> {
    bomb_header().update(
        0,
        if last {
            0xedu8
        } else {
            0xecu8
        },
    )
}

/// The frame around no more bytes than one sub-block holds: one stored
/// sub-block, and the header of the compressed sub-block if a run follows.
/// Of a last frame, the final bit is in the stored sub-block if no run
/// follows; else in the header of the compressed one, but lost where the
/// frame begins with a lead byte.
pub proof fn lemma_frame_short(lit: Seq<u8>, lead: bool, has_rep: bool, fin: bool)
    requires
        0 < lit.len() <= 0xffff,
    ensures
        frame(lit, lead, has_rep, fin) == seq![first_byte(lead, fin && !has_rep)] + length_field(
            lit.len(),
        ) + lit + (if has_rep {
            run_header(fin && !lead)
        } else {
            Seq::empty()
        }),
{
    let n = lit.len();
    let body = frame_body(lit, lead, has_rep);
    let tail = if has_rep {
        bomb_header()
    } else {
        Seq::<u8>::empty()
    };
    assert(stored(lit.skip(n as int), false) =~= Seq::<u8>::empty());
    assert(lit.take(n as int) =~= lit);
    assert(body =~= seq![first_byte(lead, false)] + length_field(n) + lit + tail);
    assert(chunks(n) == 1);
    assert(0x00u8 | 0x01u8 == 0x01u8) by (bit_vector);
    assert(0x05u8 | 0x20u8 == 0x25u8) by (bit_vector);
    assert(0xecu8 | 0x01u8 == 0xedu8) by (bit_vector);
    assert(0xecu8 | 0x20u8 == 0xecu8) by (bit_vector);
    assert(frame(lit, lead, has_rep, fin) =~= seq![first_byte(lead, fin && !has_rep)]
        + length_field(n) + lit + (if has_rep {
        run_header(fin && !lead)
    } else {
        Seq::empty()
    }));
}

/// The frame around more bytes than one sub-block holds: a stored
/// sub-block of 65535 bytes that is not final, and the frame around the
/// rest, which begins with a header byte of its own.
pub proof fn lemma_frame_long(lit: Seq<u8>, lead: bool, has_rep: bool, fin: bool)
    requires
        lit.len() > 0xffff,
    ensures
        frame(lit, lead, has_rep, fin) == seq![first_byte(lead, false)] + length_field(0xffff)
            + lit.take(0xffff) + frame(lit.skip(0xffff), false, has_rep, fin),
{
    let head = seq![first_byte(lead, false)] + length_field(0xffff) + lit.take(0xffff);
    let rest = lit.skip(0xffff);
    let body = frame_body(lit, lead, has_rep);
    let tail = frame_body(rest, false, has_rep);
    lemma_frame_len(rest, false, has_rep, fin);
    lemma_frame_len(lit, lead, has_rep, fin);
    lemma_stored_len(rest, false);
    assert(body =~= head + tail);
    let pos = final_pos(lit.len(), lead, has_rep);
    let tail_pos = final_pos(rest.len(), false, has_rep);
    assert((lit.len() - 1) / 0xffff == (rest.len() - 1) / 0xffff + 1) by {
        vstd::arithmetic::div_mod::lemma_div_plus_one(rest.len() - 1, 0xffff);
    }
    assert(chunks(lit.len()) == chunks(rest.len()) + 1) by {
        vstd::arithmetic::div_mod::lemma_div_plus_one((rest.len() + 0xfffe) as int, 0xffff);
    }
    assert(head.len() == 0x10004);
    assert(pos == tail_pos + 0x10004);
    lemma_last_header(rest.len(), has_rep);
    assert(final_mask(lit.len(), lead) == final_mask(rest.len(), false));
    assert(frame(lit, lead, has_rep, fin) =~= head + frame(rest, false, has_rep, fin));
}

/// The last header of a frame without a lead byte lies within the frame.
proof fn lemma_last_header(n: nat, has_rep: bool)
    requires
        n > 0,
    ensures
        0 <= final_pos(n, false, has_rep) < frame_len(n, false, has_rep),
{
    let k = (n - 1) as int / 0xffff;
    vstd::arithmetic::div_mod::lemma_fundamental_div_mod(n - 1, 0xffff);
    assert(chunks(n) == k + 1) by {
        vstd::arithmetic::div_mod::lemma_div_plus_one(n - 1, 0xffff);
    }
}

} // verus!
