//! Raw DEFLATE synthesis, and the zlib and gzip containers around it.
//!
//! The stream is made of stored sub-blocks, which carry the literal bytes
//! of the layer below, and of one compressed sub-block per bomb, whose
//! thirteen-byte header makes every following byte `0x55` inflate to 1032
//! copies of the literal byte before it.
use crate::adler::adler32;
use crate::crc32::{crc32, le_bytes};
use crate::payload::{
    inflated_size, lemma_blocks_pass_nothing, lemma_passed_add, lemma_set_bombs_blocks,
    lemma_set_bombs_over_blocks, lemma_set_bombs_passes, literal_len_of, literal_of, passed_on,
    segments_view, Block, BlockDataView, BlockView, Bomb, BombView, Payload, PayloadView,
    Propagate, Resolver, Segment, SegmentView,
};
use vstd::prelude::*;

verus! {

/// The most literal bytes that one stored sub-block holds.
pub const CHUNK: usize = 0xffff;

/// The header of the compressed sub-block that a run of `0x55` continues.
pub open spec fn bomb_header() -> Seq<u8> {
    seq![0xecu8, 0xc0u8, 0x81u8, 0x00u8, 0x00u8, 0x00u8, 0x00u8, 0x00u8, 0x90u8, 0xffu8, 0x6bu8,
        0x23u8, 0x54u8]
}

/// The LEN and NLEN fields of a stored sub-block of `n` bytes: the length,
/// then its complement, each little-endian.
pub open spec fn length_field(n: nat) -> Seq<u8> {
    seq![
        (n % 256) as u8,
        ((n / 256) % 256) as u8,
        (255 - n % 256) as u8,
        (255 - (n / 256) % 256) as u8,
    ]
}

/// The stored sub-blocks that carry `lit`, each of at most 65535 bytes:
/// a header byte `0x00`, the length field, the bytes. With `bare`, the
/// first sub-block comes without its header byte, which the byte before
/// it then holds.
pub open spec fn stored(lit: Seq<u8>, bare: bool) -> Seq<u8>
    decreases lit.len(),
{
    if lit.len() == 0 {
        Seq::empty()
    } else {
        let n = if lit.len() < CHUNK {
            lit.len() as int
        } else {
            CHUNK as int
        };
        (if bare {
            Seq::empty()
        } else {
            seq![0x00u8]
        }) + length_field(n as nat) + lit.take(n) + stored(lit.skip(n), false)
    }
}

/// The number of stored sub-blocks that carry `n` literal bytes.
pub open spec fn chunks(n: nat) -> nat {
    (n + 0xfffe) / 0xffff
}

/// The length of a wrapper block around `n` literal bytes: five bytes of
/// header for each stored sub-block, the first of which is the lead byte
/// where there is one, the literal bytes, and thirteen bytes of header
/// before a run of `0x55`. A lead byte that no sub-block follows counts for
/// itself.
pub open spec fn frame_len(n: nat, lead: bool, has_rep: bool) -> nat {
    (if lead && n == 0 {
        1nat
    } else {
        0nat
    }) + chunks(n) * 5 + n + (if has_rep {
        13nat
    } else {
        0nat
    })
}

/// A wrapper block before the final bit is set. With `lead` it follows a
/// run of `0x55` and begins with the byte `0x05`, which ends the
/// compressed sub-block and holds the header of the first stored one.
/// With `has_rep` a run of `0x55` follows it, and it ends with the header
/// of the compressed sub-block.
pub open spec fn frame_body(lit: Seq<u8>, lead: bool, has_rep: bool) -> Seq<u8> {
    (if lead {
        seq![0x05u8]
    } else {
        Seq::empty()
    }) + stored(lit, lead) + (if has_rep {
        bomb_header()
    } else {
        Seq::empty()
    })
}

/// The bit that marks the last stored sub-block of `n` literal bytes as
/// final: `0x01` in a header byte of its own, `0x20` where the lead byte
/// holds the header.
pub open spec fn final_mask(n: nat, lead: bool) -> u8 {
    if lead && n <= CHUNK {
        0x20
    } else if n > 0 {
        0x01
    } else {
        0x00
    }
}

/// Where the final bit goes: into the first byte of the compressed
/// sub-block's header if there is one, else into the header byte of the
/// last stored sub-block.
pub open spec fn final_pos(n: nat, lead: bool, has_rep: bool) -> int {
    if has_rep {
        frame_len(n, lead, has_rep) - 13
    } else if n == 0 {
        0
    } else {
        ((n - 1) / 0xffff) * 0x10004
    }
}

/// A wrapper block: the frame around `lit`, and with `fin`, where no
/// segment follows, the final bit set in its last header. The mask is that
/// of the last stored sub-block also where the last header is that of the
/// compressed sub-block.
pub open spec fn frame(lit: Seq<u8>, lead: bool, has_rep: bool, fin: bool) -> Seq<u8> {
    let body = frame_body(lit, lead, has_rep);
    let pos = final_pos(lit.len(), lead, has_rep);
    if fin && body.len() > 0 {
        body.update(pos, body[pos] | final_mask(lit.len(), lead))
    } else {
        body
    }
}

/// Where the group of segments that begins at `start` ends: at the first
/// bomb from there on, or after the last segment.
pub open spec fn group_end(data: Seq<SegmentView>, start: int) -> int
    decreases data.len() - start,
{
    if start >= data.len() {
        data.len() as int
    } else if data[start] is Bomb {
        start
    } else {
        group_end(data, start + 1)
    }
}

/// The deferred wrapper block for the segments `start..stop` of the layer
/// below.
pub open spec fn wrapper_block(data: Seq<SegmentView>, start: int, stop: int, has_rep: bool)
    -> SegmentView
{
    SegmentView::Block(
        BlockView {
            data: BlockDataView::Unfilled(
                Resolver::Deflate {
                    start: start as usize,
                    stop: stop as usize,
                    has_rep,
                    is_last: stop >= data.len(),
                },
            ),
            len: frame_len(literal_len_of(data.subrange(start, stop)), start != 0, has_rep),
        },
    )
}

/// The run of `0x55` that stands for the bomb at `target` in the layer
/// below.
pub open spec fn run_segment(target: int) -> SegmentView {
    SegmentView::Bomb(
        BombView {
            pattern: seq![0x55u8],
            size: 0,
            fill: Propagate::Deflate { target: target as usize },
        },
    )
}

/// The segments that stand for the segments of the layer below from
/// `start` on. The layer below is cut after every bomb; each group, a run
/// of blocks and the bomb after it if there is one, gives a wrapper block
/// and, for the bomb, a run of `0x55`.
pub open spec fn groups_from(data: Seq<SegmentView>, start: int) -> Seq<SegmentView>
    decreases data.len() - start,
    via groups_from_decreases
{
    if start < 0 || start >= data.len() {
        Seq::empty()
    } else {
        let end = group_end(data, start);
        let has_rep = end < data.len();
        let stop = if has_rep {
            end + 1
        } else {
            end
        };
        (if has_rep {
            seq![wrapper_block(data, start, stop, has_rep), run_segment(end)]
        } else {
            seq![wrapper_block(data, start, stop, has_rep)]
        }) + groups_from(data, stop)
    }
}

#[via_fn]
proof fn groups_from_decreases(data: Seq<SegmentView>, start: int) {
    if 0 <= start < data.len() {
        lemma_group_end(data, start);
    }
}

/// A group ends at or after its start and within the segments; all
/// before its end are blocks, and what stands at its end is a bomb.
pub proof fn lemma_group_end(data: Seq<SegmentView>, start: int)
    requires
        0 <= start <= data.len(),
    ensures
        start <= group_end(data, start) <= data.len(),
        forall|k: int| start <= k < group_end(data, start) ==> data[k] is Block,
        group_end(data, start) < data.len() ==> data[group_end(data, start)] is Bomb,
    decreases data.len() - start,
{
    if start < data.len() && !(data[start] is Bomb) {
        lemma_group_end(data, start + 1);
    }
}

/// The byte that ends the compressed sub-block of a bomb after which no
/// segment follows.
pub open spec fn terminator() -> SegmentView {
    SegmentView::Block(BlockView { data: BlockDataView::Known(seq![0x05u8]), len: 1 })
}

/// The segments of a raw DEFLATE stream of the layer below: its groups,
/// and a terminator if its last segment is a bomb.
pub open spec fn deflate_segments(data: Seq<SegmentView>) -> Seq<SegmentView> {
    groups_from(data, 0) + (if data.len() > 0 && data.last() is Bomb {
        seq![terminator()]
    } else {
        Seq::empty()
    })
}

/// Whether a layer can be wrapped in DEFLATE: each of its bombs repeats a
/// single byte, and the length of each wrapper block fits in a `usize`.
pub open spec fn deflatable(data: Seq<SegmentView>) -> bool {
    &&& forall|i: int|
        0 <= i < data.len() && (#[trigger] data[i]) is Bomb ==> data[i]->Bomb_0.pattern.len() == 1
    &&& blocks_fit(groups_from(data, 0))
}

/// Whether the length of each of the segments fits in a `usize`.
pub open spec fn blocks_fit(segs: Seq<SegmentView>) -> bool {
    forall|i: int| 0 <= i < segs.len() ==> (#[trigger] segs[i]).literal_len() <= usize::MAX
}

/// The stored sub-blocks of `n` literal bytes take five bytes each besides
/// the literal bytes, less the header byte that a bare start leaves out.
pub proof fn lemma_stored_len(lit: Seq<u8>, bare: bool)
    ensures
        stored(lit, bare).len() == chunks(lit.len()) * 5 + lit.len() - (if bare && lit.len() > 0 {
            1int
        } else {
            0int
        }),
    decreases lit.len(),
{
    if lit.len() > 0 {
        let n = if lit.len() < CHUNK {
            lit.len() as int
        } else {
            CHUNK as int
        };
        lemma_stored_len(lit.skip(n), false);
        assert(chunks(lit.len()) == chunks((lit.len() - n) as nat) + 1) by {
            if lit.len() >= CHUNK {
                vstd::arithmetic::div_mod::lemma_div_plus_one(lit.len() - n + 0xfffe, 0xffff);
            }
        }
    }
}

/// A wrapper block is as long as `frame_len` says.
pub proof fn lemma_frame_len(lit: Seq<u8>, lead: bool, has_rep: bool, fin: bool)
    ensures
        frame(lit, lead, has_rep, fin).len() == frame_len(lit.len(), lead, has_rep),
        frame_body(lit, lead, has_rep).len() == frame_len(lit.len(), lead, has_rep),
{
    lemma_stored_len(lit, lead);
}

/// How the length of the frame, and the place and mask of its last
/// header, move when one more sub-block, from `pos` to `end`, is written.
proof fn lemma_chunk_step(total: nat, pos: nat, end: nat, lead: bool)
    requires
        pos % 0xffff == 0,
        pos < end <= total,
        end - pos == (if total - pos < 0xffff {
            total - pos
        } else {
            0xffff
        }),
    ensures
        end % 0xffff == 0 || end == total,
        frame_len(end, lead, false) == frame_len(pos, lead, false) + (if lead && pos == 0 {
            4int
        } else {
            5int
        }) + (end - pos),
        final_pos(end, lead, false) == (if lead && pos == 0 {
            0int
        } else {
            frame_len(pos, lead, false) as int
        }),
        final_mask(end, lead) == (if lead && pos == 0 {
            0x20u8
        } else {
            0x01u8
        }),
{
}

/// The stored sub-blocks of what is left at `pos` begin with the one that
/// ends at `end`.
proof fn lemma_stored_step(lit: Seq<u8>, pos: int, end: int, bare: bool)
    requires
        0 <= pos < end <= lit.len(),
        end - pos == (if lit.len() - pos < CHUNK {
            lit.len() - pos
        } else {
            CHUNK as int
        }),
    ensures
        stored(lit.skip(pos), bare) == (if bare {
            Seq::<u8>::empty()
        } else {
            seq![0x00u8]
        }) + length_field((end - pos) as nat) + lit.subrange(pos, end) + stored(
            lit.skip(end),
            false,
        ),
{
    let rest = lit.skip(pos);
    assert(rest.take(end - pos) == lit.subrange(pos, end));
    assert(rest.skip(end - pos) == lit.skip(end));
}

/// The four bytes pushed for a length are its length field.
proof fn lemma_length_field(len: u32)
    requires
        len <= 0xffff,
    ensures
        length_field(len as nat) == seq![
            (len & 0xff) as u8,
            (len >> 8) as u8,
            (!len & 0xff) as u8,
            ((!len >> 8) & 0xff) as u8,
        ],
{
    assert((len & 0xff) == len % 256 && (len >> 8) == (len / 256) % 256 && (!len & 0xff) == 255
        - len % 256 && ((!len >> 8) & 0xff) == 255 - (len / 256) % 256) by (bit_vector)
        requires
            len <= 0xffff,
    ;
}

/// Appends the header of the compressed sub-block.
fn push_bomb_header(ret: &mut Vec<u8>)
    ensures
        final(ret)@ == old(ret)@ + bomb_header(),
{
    ret.push(0xec);
    ret.push(0xc0);
    ret.push(0x81);
    ret.push(0x00);
    ret.push(0x00);
    ret.push(0x00);
    ret.push(0x00);
    ret.push(0x00);
    ret.push(0x90);
    ret.push(0xff);
    ret.push(0x6b);
    ret.push(0x23);
    ret.push(0x54);
    assert(ret@ =~= old(ret)@ + bomb_header());
}

/// Appends one stored sub-block with the bytes of `lit` from `pos` to
/// `end`, without its header byte if `bare`.
fn push_chunk(ret: &mut Vec<u8>, lit: &[u8], pos: usize, end: usize, bare: bool)
    requires
        pos <= end <= lit@.len(),
        end - pos <= 0xffff,
    ensures
        final(ret)@ == old(ret)@ + ((if bare {
            Seq::<u8>::empty()
        } else {
            seq![0x00u8]
        }) + length_field((end - pos) as nat) + lit@.subrange(pos as int, end as int)),
{
    let len: u32 = (end - pos) as u32;
    if !bare {
        ret.push(0x00);
    }
    ret.push((len & 0xff) as u8);
    ret.push((len >> 8) as u8);
    ret.push((!len & 0xff) as u8);
    ret.push(((!len >> 8) & 0xff) as u8);
    ret.extend_from_slice(&lit[pos..end]);
    proof {
        lemma_length_field(len);
        assert(ret@ =~= old(ret)@ + ((if bare {
            Seq::<u8>::empty()
        } else {
            seq![0x00u8]
        }) + length_field((end - pos) as nat) + lit@.subrange(pos as int, end as int)));
    }
}

/// The wrapper block around the literal bytes `lit`: see `frame`.
pub fn frame_bytes(lit: &[u8], lead: bool, has_rep: bool, fin: bool) -> (r: Vec<u8>)
    requires
        frame_len(lit@.len(), lead, has_rep) <= usize::MAX,
    ensures
        r@ == frame(lit@, lead, has_rep, fin),
{
    let mut ret: Vec<u8> = Vec::new();
    let mut last_block: usize = 0;
    let mut last_bit: u8 = 0;
    if lead {
        last_bit = 0x20;
        ret.push(0x05);
    }
    let ghost init = ret@;
    let n = lit.len();
    let mut pos: usize = 0;
    proof {
        assert(lit@.skip(0) =~= lit@);
    }
    while pos < n
        invariant
            n == lit@.len(),
            pos <= n,
            pos % 0xffff == 0 || pos == n,
            frame_len(n as nat, lead, has_rep) <= usize::MAX,
            ret@ + stored(lit@.skip(pos as int), lead && pos == 0) == init + stored(lit@, lead),
            ret@.len() == frame_len(pos as nat, lead, false),
            last_block as int == final_pos(pos as nat, lead, false),
            last_bit == final_mask(pos as nat, lead),
        decreases n - pos,
    {
        let end = if n - pos < CHUNK {
            n
        } else {
            pos + CHUNK
        };
        let bare = lead && pos == 0;
        let ghost before = ret@;
        proof {
            lemma_chunk_step(n as nat, pos as nat, end as nat, lead);
            lemma_stored_step(lit@, pos as int, end as int, bare);
        }
        if !bare {
            last_block = ret.len();
            last_bit = 0x01;
        }
        push_chunk(&mut ret, lit, pos, end, bare);
        proof {
            let chunk = (if bare {
                Seq::<u8>::empty()
            } else {
                seq![0x00u8]
            }) + length_field((end - pos) as nat) + lit@.subrange(pos as int, end as int);
            let rest = stored(lit@.skip(end as int), false);
            assert((before + chunk) + rest =~= before + (chunk + rest));
        }
        pos = end;
    }
    proof {
        assert(lit@.skip(n as int) =~= Seq::<u8>::empty());
        assert(ret@ =~= init + stored(lit@, lead));
    }
    if has_rep {
        last_block = ret.len();
        push_bomb_header(&mut ret);
    }
    proof {
        lemma_frame_len(lit@, lead, has_rep, fin);
        assert(ret@ =~= frame_body(lit@, lead, has_rep));
    }
    if fin && ret.len() > 0 {
        let b = ret[last_block];
        ret[last_block] = b | last_bit;
    }
    ret
}


/// The literal length of a run of segments grows by that of each segment
/// added at its end.
pub proof fn lemma_literal_len_step(data: Seq<SegmentView>, start: int, end: int)
    requires
        0 <= start <= end < data.len(),
    ensures
        literal_len_of(data.subrange(start, end + 1)) == literal_len_of(data.subrange(start, end))
            + data[end].literal_len(),
{
    assert(data.subrange(start, end + 1).drop_last() == data.subrange(start, end));
}

/// A longer run of segments has no fewer literal bytes.
pub proof fn lemma_literal_len_mono(data: Seq<SegmentView>, start: int, mid: int, end: int)
    requires
        0 <= start <= mid <= end <= data.len(),
    ensures
        literal_len_of(data.subrange(start, mid)) <= literal_len_of(data.subrange(start, end)),
    decreases end - mid,
{
    if mid < end {
        lemma_literal_len_mono(data, start, mid, end - 1);
        lemma_literal_len_step(data, start, end - 1);
    }
}

/// The length of a wrapper block around `n` literal bytes, if it fits in
/// a `usize`.
pub fn checked_frame_length(n: usize, lead: bool, has_rep: bool) -> (r: Option<usize>)
    ensures
        r is Some <==> frame_len(n as nat, lead, has_rep) <= usize::MAX,
        r is Some ==> r->0 == frame_len(n as nat, lead, has_rep),
{
    let full = n / CHUNK;
    let num = if n % CHUNK != 0 {
        full + 1
    } else {
        full
    };
    let extra: usize = (if lead && n == 0 {
        1usize
    } else {
        0usize
    }) + (if has_rep {
        13usize
    } else {
        0usize
    });
    let headers = match num.checked_mul(5) {
        Some(h) => h,
        None => {
            return None;
        },
    };
    match headers.checked_add(n) {
        Some(len) => len.checked_add(extra),
        None => None,
    }
}

/// The literal length of the segments `start..stop`, if it fits in a
/// `usize`.
pub fn literal_length(data: &Vec<Segment>, start: usize, stop: usize) -> (r: Option<usize>)
    requires
        start <= stop <= data@.len(),
    ensures
        r is Some <==> literal_len_of(
            segments_view(data@).subrange(start as int, stop as int),
        ) <= usize::MAX,
        r is Some ==> r->0 == literal_len_of(
            segments_view(data@).subrange(start as int, stop as int),
        ),
{
    let ghost v = segments_view(data@);
    let mut total: usize = 0;
    let mut i: usize = start;
    proof {
        assert(v.subrange(start as int, start as int) =~= Seq::<SegmentView>::empty());
    }
    while i < stop
        invariant
            v == segments_view(data@),
            start <= i <= stop <= v.len(),
            total == literal_len_of(v.subrange(start as int, i as int)),
        decreases stop - i,
    {
        proof {
            lemma_literal_len_step(v, start as int, i as int);
            lemma_literal_len_mono(v, start as int, i + 1, stop as int);
        }
        let len = match &data[i] {
            Segment::Block(b) => b.len(),
            Segment::Bomb(b) => b.pattern().len(),
        };
        match total.checked_add(len) {
            Some(sum) => {
                total = sum;
            },
            None => {
                return None;
            },
        }
        i += 1;
    }
    Some(total)
}

/// The segments for the groups from `start` on are the wrapper block of
/// the first group, the run of `0x55` for its bomb if it has one, and the
/// segments for the groups after it.
pub proof fn lemma_groups_head(data: Seq<SegmentView>, start: int)
    requires
        0 <= start < data.len(),
    ensures
        ({
            let end = group_end(data, start);
            let has_rep = end < data.len();
            let stop = if has_rep {
                end + 1
            } else {
                end
            };
            &&& start <= end < stop || (end == stop && start < stop)
            &&& stop <= data.len()
            &&& groups_from(data, start)[0] == wrapper_block(data, start, stop, has_rep)
            &&& blocks_fit(groups_from(data, start)) <==> (wrapper_block(
                data,
                start,
                stop,
                has_rep,
            ).literal_len() <= usize::MAX && blocks_fit(groups_from(data, stop)))
        }),
{
    lemma_group_end(data, start);
    let end = group_end(data, start);
    let has_rep = end < data.len();
    let stop = if has_rep {
        end + 1
    } else {
        end
    };
    let k: int = if has_rep {
        2
    } else {
        1
    };
    let all = groups_from(data, start);
    let rest = groups_from(data, stop);
    assert(all.len() == k + rest.len());
    assert forall|i: int| 0 <= i < rest.len() implies #[trigger] rest[i] == all[i + k] by {}
    if blocks_fit(all) {
        assert(all[0].literal_len() <= usize::MAX);
        assert forall|i: int| 0 <= i < rest.len() implies (#[trigger] rest[i]).literal_len()
            <= usize::MAX by {
            assert(all[i + k].literal_len() <= usize::MAX);
        }
    }
    if all[0].literal_len() <= usize::MAX && blocks_fit(rest) {
        assert forall|i: int| 0 <= i < all.len() implies (#[trigger] all[i]).literal_len()
            <= usize::MAX by {
            if i >= k {
                assert(all[i] == rest[i - k]);
            } else if i == 1 {
                assert(all[1] == run_segment(end));
            }
        }
    }
}

/// Where the group that begins at `start` stops: after its bomb, or after
/// the last segment.
pub open spec fn group_stop(data: Seq<SegmentView>, start: int) -> int {
    let end = group_end(data, start);
    if end < data.len() {
        end + 1
    } else {
        end
    }
}

/// Finds where the group that begins at `start` stops, the length of its
/// wrapper block, and whether it ends with a bomb. There is none where
/// its bomb repeats more than one byte or the length does not fit in a
/// `usize`.
fn measure_group(data: &Vec<Segment>, start: usize) -> (r: Option<(usize, usize, bool)>)
    requires
        start < data@.len(),
    ensures
        match r {
            Some((stop, len, has_rep)) => {
                &&& stop == group_stop(segments_view(data@), start as int)
                &&& has_rep == (group_end(segments_view(data@), start as int) < data@.len())
                &&& len == groups_from(segments_view(data@), start as int)[0].literal_len()
                &&& forall|k: int|
                    start <= k < stop && (#[trigger] segments_view(data@)[k]) is Bomb
                        ==> segments_view(data@)[k]->Bomb_0.pattern.len() == 1
            },
            None => !deflatable(segments_view(data@)) || !blocks_fit(
                groups_from(segments_view(data@), start as int),
            ),
        },
{
    let ghost v = segments_view(data@);
    let ghost end_ = group_end(v, start as int);
    let ghost stop_ = group_stop(v, start as int);
    let ghost total = literal_len_of(v.subrange(start as int, stop_));
    let n = data.len();
    proof {
        lemma_groups_head(v, start as int);
        lemma_group_end(v, start as int);
        lemma_frame_at_least(total, start != 0, end_ < n);
    }
    let mut end = start;
    let mut data_len: usize = 0;
    let mut has_rep = false;
    while end < n
        invariant_except_break
            !has_rep,
        invariant
            v == segments_view(data@),
            n == data@.len(),
            start <= end <= end_ <= stop_ <= n,
            end_ == group_end(v, start as int),
            group_end(v, end as int) == end_,
            total == literal_len_of(v.subrange(start as int, stop_)),
            blocks_fit(groups_from(v, start as int)) ==> total <= usize::MAX,
            data_len == literal_len_of(v.subrange(start as int, end as int)),
            forall|k: int| start <= k < end ==> (#[trigger] v[k]) is Block,
        ensures
            start <= end <= n,
            end == end_,
            has_rep == (end < n),
            has_rep ==> v[end as int] is Bomb && v[end as int]->Bomb_0.pattern.len() == 1,
            data_len == literal_len_of(v.subrange(start as int, end as int)),
            forall|k: int| start <= k < end ==> (#[trigger] v[k]) is Block,
        decreases n - end,
    {
        match &data[end] {
            Segment::Bomb(b) => {
                assert(v[end as int] is Bomb);
                if b.pattern().len() != 1 {
                    return None;
                }
                has_rep = true;
                break ;
            },
            Segment::Block(b) => {
                assert(v[end as int] is Block);
                proof {
                    lemma_group_end(v, end + 1);
                    lemma_literal_len_step(v, start as int, end as int);
                    lemma_literal_len_mono(v, start as int, end + 1, stop_);
                }
                match data_len.checked_add(b.len()) {
                    Some(sum) => {
                        data_len = sum;
                    },
                    None => {
                        return None;
                    },
                }
                end += 1;
            },
        }
    }
    let mut stop = end;
    if has_rep {
        proof {
            lemma_literal_len_step(v, start as int, end as int);
        }
        match data_len.checked_add(1) {
            Some(sum) => {
                data_len = sum;
            },
            None => {
                return None;
            },
        }
        stop = end + 1;
    }
    match checked_frame_length(data_len, start != 0, has_rep) {
        Some(len) => Some((stop, len, has_rep)),
        None => None,
    }
}

/// Whether `payload` can be wrapped in DEFLATE: see `deflatable`.
pub fn is_deflatable(payload: &Payload) -> (r: bool)
    ensures
        r == deflatable(payload@.data),
{
    let data = payload.segments();
    let ghost v = payload@.data;
    let n = data.len();
    let mut start: usize = 0;
    while start < n
        invariant
            v == payload@.data,
            v == segments_view(data@),
            n == data@.len(),
            start <= n,
            forall|k: int|
                0 <= k < start && (#[trigger] v[k]) is Bomb ==> v[k]->Bomb_0.pattern.len() == 1,
            blocks_fit(groups_from(v, 0)) <==> blocks_fit(groups_from(v, start as int)),
        decreases n - start,
    {
        proof {
            lemma_groups_head(v, start as int);
            lemma_group_end(v, start as int);
        }
        match measure_group(data, start) {
            Some((stop, _, _)) => {
                start = stop;
            },
            None => {
                assert(!deflatable(v));
                return false;
            },
        }
    }
    proof {
        assert(groups_from(v, n as int) =~= Seq::<SegmentView>::empty());
    }
    true
}

/// A wrapper block is at least as long as its literal bytes.
proof fn lemma_frame_at_least(n: nat, lead: bool, has_rep: bool)
    ensures
        frame_len(n, lead, has_rep) >= n,
{
}

/// Appends to `output` the segments of a raw DEFLATE stream of `payload`.
///
/// Every message is a series of wrapper blocks and runs of `0x55`: each
/// wrapper block carries the literal bytes of a run of blocks and the
/// header for the run of `0x55` that follows. Its length is known here;
/// its bytes are made when the payload is filled.
pub fn deflate_to_vec(payload: &Payload, output: &mut Vec<Segment>)
    requires
        deflatable(payload@.data),
    ensures
        segments_view(final(output)@) == segments_view(old(output)@) + deflate_segments(
            payload@.data,
        ),
{
    let data = payload.segments();
    let ghost v = payload@.data;
    let ghost before = segments_view(output@);
    let n = data.len();
    let mut start: usize = 0;
    while start < n
        invariant
            v == segments_view(data@),
            n == data@.len(),
            start <= n,
            deflatable(v),
            blocks_fit(groups_from(v, start as int)),
            segments_view(output@) + groups_from(v, start as int) == before + groups_from(v, 0),
        decreases n - start,
    {
        let ghost end_ = group_end(v, start as int);
        let ghost stop_ = group_stop(v, start as int);
        let ghost so_far = segments_view(output@);
        proof {
            lemma_group_end(v, start as int);
            lemma_groups_head(v, start as int);
        }
        let (stop, len, has_rep) = match measure_group(data, start) {
            Some(group) => group,
            None => (n, 0, false),
        };
        let block = Block::deferred(
            Resolver::Deflate { start, stop, has_rep, is_last: stop >= n },
            len,
        );
        output.push(Segment::Block(block));
        if has_rep {
            output.push(Segment::Bomb(Bomb::linked(stop - 1)));
        }
        proof {
            let head = if has_rep {
                seq![wrapper_block(v, start as int, stop_, has_rep), run_segment(end_)]
            } else {
                seq![wrapper_block(v, start as int, stop_, has_rep)]
            };
            assert(segments_view(output@) =~= so_far + head);
            assert((so_far + head) + groups_from(v, stop_) =~= so_far + (head + groups_from(
                v,
                stop_,
            )));
        }
        start = stop;
    }
    if n > 0 {
        if let Segment::Bomb(_) = &data[n - 1] {
            let ghost so_far = segments_view(output@);
            let byte = vec![0x05u8];
            assert(byte@ =~= seq![0x05u8]);
            output.push(Segment::Block(Block::known(byte)));
            proof {
                assert(segments_view(output@) =~= so_far + seq![terminator()]);
            }
        }
    }
    proof {
        assert(groups_from(v, n as int) =~= Seq::<SegmentView>::empty());
        assert(v.last() == v[n - 1]);
    }
}

/// The literal bytes of a run of segments grow by those of each segment
/// added at its end.
pub proof fn lemma_literal_step(data: Seq<SegmentView>, start: int, end: int)
    requires
        0 <= start <= end < data.len(),
    ensures
        literal_of(data.subrange(start, end + 1)) == literal_of(data.subrange(start, end))
            + data[end].literal(),
{
    assert(data.subrange(start, end + 1).drop_last() == data.subrange(start, end));
}

/// Where each known block is as long as it says, the literal bytes of a
/// run of segments are as many as its literal length.
pub proof fn lemma_literal_len(segs: Seq<SegmentView>)
    requires
        forall|i: int|
            0 <= i < segs.len() ==> (#[trigger] segs[i]).resolved() && segs[i].sized(),
    ensures
        literal_of(segs).len() == literal_len_of(segs),
    decreases segs.len(),
{
    if segs.len() > 0 {
        lemma_literal_len(segs.drop_last());
        assert(segs.last() == segs[segs.len() - 1]);
    }
}

/// The bytes of the wrapper block for the segments `start..stop` of
/// `child`: the frame around their literal bytes.
pub fn wrapper_bytes(child: &Payload, start: usize, stop: usize, has_rep: bool, is_last: bool)
    -> (r: Vec<u8>)
    requires
        start <= stop <= child@.data.len(),
        forall|i: int| start <= i < stop ==> (#[trigger] child@.data[i]).resolved(),
        frame_len(
            literal_of(child@.data.subrange(start as int, stop as int)).len(),
            start != 0,
            has_rep,
        ) <= usize::MAX,
    ensures
        r@ == frame(
            literal_of(child@.data.subrange(start as int, stop as int)),
            start != 0,
            has_rep,
            is_last,
        ),
{
    let data = child.segments();
    let ghost v = child@.data;
    let mut lit: Vec<u8> = Vec::new();
    let mut i: usize = start;
    proof {
        assert(v.subrange(start as int, start as int) =~= Seq::<SegmentView>::empty());
    }
    while i < stop
        invariant
            v == segments_view(data@),
            start <= i <= stop <= v.len(),
            forall|k: int| start <= k < stop ==> (#[trigger] v[k]).resolved(),
            lit@ == literal_of(v.subrange(start as int, i as int)),
        decreases stop - i,
    {
        proof {
            lemma_literal_step(v, start as int, i as int);
            assert(v[i as int].resolved());
        }
        let ghost before = lit@;
        match &data[i] {
            Segment::Block(b) => {
                if let Some(bytes) = b.bytes() {
                    lit.extend_from_slice(bytes.as_slice());
                    assert(lit@ =~= before + bytes@);
                }
            },
            Segment::Bomb(b) => {
                let pattern = b.pattern();
                lit.extend_from_slice(pattern.as_slice());
                assert(lit@ =~= before + pattern@);
            },
        }
        i += 1;
    }
    frame_bytes(lit.as_slice(), start != 0, has_rep, is_last)
}

/// A known block, as a segment value.
pub open spec fn known_segment(bytes: Seq<u8>) -> SegmentView {
    SegmentView::Block(BlockView { data: BlockDataView::Known(bytes), len: bytes.len() })
}

/// A deferred block of four bytes, as a segment value.
pub open spec fn trailer_segment(resolver: Resolver) -> SegmentView {
    SegmentView::Block(BlockView { data: BlockDataView::Unfilled(resolver), len: 4 })
}

/// The two header bytes of a zlib stream: DEFLATE with a 256-byte window,
/// fastest compression.
pub open spec fn zlib_header() -> Seq<u8> {
    seq![0x08u8, 0x1du8]
}

/// The ten header bytes of a gzip stream: the magic number, DEFLATE, no
/// flags, no modification time, maximum compression, unknown system.
pub open spec fn gzip_header() -> Seq<u8> {
    seq![0x1fu8, 0x8bu8, 0x08u8, 0x00u8, 0x00u8, 0x00u8, 0x00u8, 0x00u8, 0x02u8, 0xffu8]
}

/// The layer that is a raw DEFLATE stream of `p`.
pub open spec fn deflate_raw_view(p: PayloadView) -> PayloadView {
    PayloadView { data: deflate_segments(p.data), child: Some(Box::new(p)) }
}

/// The layer that is a zlib stream of `p`: the header, the DEFLATE stream,
/// and the Adler-32 checksum of `p`.
pub open spec fn zlib_view(p: PayloadView) -> PayloadView {
    PayloadView {
        data: seq![known_segment(zlib_header())] + deflate_segments(p.data) + seq![
            trailer_segment(Resolver::Adler32),
        ],
        child: Some(Box::new(p)),
    }
}

/// The layer that is a gzip stream of `p`: the header, the DEFLATE stream,
/// the CRC-32 checksum of `p` and its size modulo 2^32.
pub open spec fn gzip_view(p: PayloadView) -> PayloadView {
    PayloadView {
        data: seq![known_segment(gzip_header())] + deflate_segments(p.data) + seq![
            trailer_segment(Resolver::Crc32),
            trailer_segment(Resolver::Isize),
        ],
        child: Some(Box::new(p)),
    }
}

/// The segments that stand for a layer are consistent with it.
pub proof fn lemma_groups_wf(child: PayloadView, start: int)
    requires
        0 <= start <= child.data.len() <= usize::MAX,
    ensures
        forall|i: int|
            0 <= i < groups_from(child.data, start).len() ==> (#[trigger] groups_from(
                child.data,
                start,
            )[i]).wf(Some(Box::new(child))),
    decreases child.data.len() - start,
{
    let data = child.data;
    if start < data.len() {
        let end = group_end(data, start);
        lemma_group_end(data, start);
        let has_rep = end < data.len();
        let stop = if has_rep {
            end + 1
        } else {
            end
        };
        lemma_groups_wf(child, stop);
        let head = if has_rep {
            seq![wrapper_block(data, start, stop, has_rep), run_segment(end)]
        } else {
            seq![wrapper_block(data, start, stop, has_rep)]
        };
        let rest = groups_from(data, stop);
        assert(wrapper_block(data, start, stop, has_rep).wf(Some(Box::new(child))));
        if has_rep {
            assert(run_segment(end).wf(Some(Box::new(child))));
        }
        assert forall|i: int| 0 <= i < groups_from(data, start).len() implies (
        #[trigger] groups_from(data, start)[i]).wf(Some(Box::new(child))) by {
            if i >= head.len() {
                assert(groups_from(data, start)[i] == rest[i - head.len()]);
            }
        }
    }
}

/// The layers that wrap a consistent layer are consistent.
pub proof fn lemma_wrap_wf(child: PayloadView)
    requires
        child.wf(),
        child.data.len() <= usize::MAX,
    ensures
        deflate_raw_view(child).wf(),
        zlib_view(child).wf(),
        gzip_view(child).wf(),
{
    lemma_groups_wf(child, 0);
    let some = Some(Box::new(child));
    let d = deflate_segments(child.data);
    assert(terminator().wf(some));
    assert forall|i: int| 0 <= i < d.len() implies (#[trigger] d[i]).wf(some) by {
        if i < groups_from(child.data, 0).len() {
            assert(d[i] == groups_from(child.data, 0)[i]);
        }
    }
    let z = zlib_view(child);
    assert forall|i: int| 0 <= i < z.data.len() implies (#[trigger] z.data[i]).wf(z.child) by {
        if 1 <= i < 1 + d.len() {
            assert(z.data[i] == d[i - 1]);
        }
    }
    let g = gzip_view(child);
    assert forall|i: int| 0 <= i < g.data.len() implies (#[trigger] g.data[i]).wf(g.child) by {
        if 1 <= i < 1 + d.len() {
            assert(g.data[i] == d[i - 1]);
        }
    }
}

/// After a gzip stream was filled, its last eight bytes are the CRC-32
/// checksum of the layer below and the size of that layer modulo 2^32,
/// each little-endian.
pub proof fn lemma_gzip_trailer(p: PayloadView, size: nat)
    ensures
        ({
            let filled = gzip_view(p).fill(size);
            let n = filled.data.len();
            &&& filled.child is Some
            &&& n >= 3
            &&& filled.data[0] == known_segment(gzip_header())
            &&& filled.data[n - 2] == known_segment(le_bytes(crc32(filled.child->0.bytes())))
            &&& filled.data[n - 1] == known_segment(
                le_bytes((filled.child->0.size() % 0x1_0000_0000) as u32),
            )
        }),
{
    let g = gzip_view(p);
    let n = g.data.len();
    lemma_set_bombs_blocks(g, n, size);
    let sized = g.set_bombs(n, size);
    assert(g.data[0] == known_segment(gzip_header()));
    assert(g.data[n - 2] == trailer_segment(Resolver::Crc32));
    assert(g.data[n - 1] == trailer_segment(Resolver::Isize));
    assert(sized.data[0] == g.data[0]);
    assert(sized.data[n - 2] == g.data[n - 2]);
    assert(sized.data[n - 1] == g.data[n - 1]);
}

/// After a zlib stream was filled, its last four bytes are the Adler-32
/// checksum of the layer below, big-endian.
pub proof fn lemma_zlib_trailer(p: PayloadView, size: nat)
    ensures
        ({
            let filled = zlib_view(p).fill(size);
            let n = filled.data.len();
            &&& filled.child is Some
            &&& n >= 2
            &&& filled.data[0] == known_segment(zlib_header())
            &&& filled.data[n - 1] == known_segment(adler32(filled.child->0.bytes()))
        }),
{
    let z = zlib_view(p);
    let n = z.data.len();
    lemma_set_bombs_blocks(z, n, size);
    let sized = z.set_bombs(n, size);
    assert(z.data[0] == known_segment(zlib_header()));
    assert(z.data[n - 1] == trailer_segment(Resolver::Adler32));
    assert(sized.data[0] == z.data[0]);
    assert(sized.data[n - 1] == z.data[n - 1]);
}

/// The segments that stand for the segments of a layer from `start` on
/// pass on to that layer, after its first `start` segments were given the
/// inflated size, what giving all of them the inflated size makes of it.
proof fn lemma_groups_pass(p: PayloadView, start: int, size: nat)
    requires
        0 <= start <= p.data.len() <= usize::MAX,
    ensures
        passed_on(
            groups_from(p.data, start),
            p.set_bombs(start as nat, inflated_size(size)),
            size,
        ) == p.set_bombs(p.data.len(), inflated_size(size)),
    decreases p.data.len() - start,
{
    let data = p.data;
    let big = inflated_size(size);
    let from = p.set_bombs(start as nat, big);
    if start < data.len() {
        lemma_group_end(data, start);
        let end = group_end(data, start);
        let stop = group_stop(data, start);
        let has_rep = end < data.len();
        let head = if has_rep {
            seq![wrapper_block(data, start, stop, has_rep), run_segment(end)]
        } else {
            seq![wrapper_block(data, start, stop, has_rep)]
        };
        let rest = groups_from(data, stop);
        assert(groups_from(data, start) == head + rest);
        lemma_passed_add(head, rest, from, size);
        lemma_set_bombs_over_blocks(p, start as nat, end as nat, big);
        assert(passed_on(head, from, size) == p.set_bombs(stop as nat, big)) by {
            reveal_with_fuel(passed_on, 3);
            if has_rep {
                assert(head.drop_last() =~= seq![wrapper_block(data, start, stop, has_rep)]);
                assert(head.drop_last().drop_last().len() == 0);
            } else {
                assert(head.drop_last().len() == 0);
            }
        }
        lemma_groups_pass(p, stop, size);
    }
}

/// Filling a layer that holds the raw DEFLATE stream of the layer below
/// between blocks of its own fills the layer below with the inflated
/// size.
proof fn lemma_fill_passes(w: PayloadView, before: Seq<SegmentView>, after: Seq<SegmentView>,
    size: nat)
    requires
        w.child is Some,
        w.child->0.data.len() <= usize::MAX,
        w.data == before + deflate_segments(w.child->0.data) + after,
        forall|i: int| 0 <= i < before.len() ==> (#[trigger] before[i]) is Block,
        forall|i: int| 0 <= i < after.len() ==> (#[trigger] after[i]) is Block,
    ensures
        w.fill(size).child == Some(Box::new(w.child->0.fill(inflated_size(size)))),
{
    let p = *w.child->0;
    let groups = groups_from(p.data, 0);
    let last = if p.data.len() > 0 && p.data.last() is Bomb {
        seq![terminator()]
    } else {
        Seq::<SegmentView>::empty()
    };
    lemma_set_bombs_passes(w, w.data.len(), size);
    assert(w.data.take(w.data.len() as int) =~= w.data);
    assert(w.data =~= before + (groups + (last + after)));
    lemma_passed_add(before, groups + (last + after), p, size);
    lemma_blocks_pass_nothing(before, p, size);
    lemma_passed_add(groups, last + after, p, size);
    lemma_groups_pass(p, 0, size);
    lemma_blocks_pass_nothing(last + after, p.set_bombs(p.data.len(), inflated_size(size)), size);
}

/// Filling a raw DEFLATE, zlib or gzip layer with a size fills the layer
/// below with 1032 times that size and 1291 more.
pub proof fn lemma_fill_inflates(p: PayloadView, size: nat)
    requires
        p.data.len() <= usize::MAX,
    ensures
        deflate_raw_view(p).fill(size).child == Some(Box::new(p.fill(size * 1032 + 1291))),
        zlib_view(p).fill(size).child == Some(Box::new(p.fill(size * 1032 + 1291))),
        gzip_view(p).fill(size).child == Some(Box::new(p.fill(size * 1032 + 1291))),
{
    let none = Seq::<SegmentView>::empty();
    let segs = deflate_segments(p.data);
    assert(deflate_raw_view(p).data =~= none + segs + none);
    lemma_fill_passes(deflate_raw_view(p), none, none, size);
    lemma_fill_passes(
        zlib_view(p),
        seq![known_segment(zlib_header())],
        seq![trailer_segment(Resolver::Adler32)],
        size,
    );
    lemma_fill_passes(
        gzip_view(p),
        seq![known_segment(gzip_header())],
        seq![trailer_segment(Resolver::Crc32), trailer_segment(Resolver::Isize)],
        size,
    );
}

/// Wraps `payload` in a raw DEFLATE stream.
pub fn deflate_raw(payload: Payload) -> (r: Payload)
    requires
        deflatable(payload@.data),
    ensures
        r@ == deflate_raw_view(payload@),
        payload@.wf() ==> r@.wf(),
{
    let count = payload.segments().len();
    proof {
        assert(payload@.data.len() == count);
        if payload@.wf() {
            lemma_wrap_wf(payload@);
        }
    }
    let mut blocks: Vec<Segment> = Vec::new();
    deflate_to_vec(&payload, &mut blocks);
    proof {
        assert(segments_view(blocks@) =~= deflate_segments(payload@.data));
    }
    Payload::layer(blocks, payload)
}

/// Wraps `payload` in a zlib stream.
pub fn zlib(payload: Payload) -> (r: Payload)
    requires
        deflatable(payload@.data),
    ensures
        r@ == zlib_view(payload@),
        payload@.wf() ==> r@.wf(),
{
    let count = payload.segments().len();
    proof {
        assert(payload@.data.len() == count);
        if payload@.wf() {
            lemma_wrap_wf(payload@);
        }
    }
    let mut blocks: Vec<Segment> = Vec::new();
    let header = vec![0x08u8, 0x1du8];
    assert(header@ =~= zlib_header());
    blocks.push(Segment::Block(Block::known(header)));
    assert(segments_view(blocks@) =~= seq![known_segment(zlib_header())]);
    deflate_to_vec(&payload, &mut blocks);
    let ghost so_far = segments_view(blocks@);
    blocks.push(Segment::Block(Block::deferred(Resolver::Adler32, 4)));
    proof {
        assert(segments_view(blocks@) =~= so_far + seq![trailer_segment(Resolver::Adler32)]);
    }
    Payload::layer(blocks, payload)
}

/// Wraps `payload` in a gzip stream.
pub fn gzip(payload: Payload) -> (r: Payload)
    requires
        deflatable(payload@.data),
    ensures
        r@ == gzip_view(payload@),
        payload@.wf() ==> r@.wf(),
{
    let count = payload.segments().len();
    proof {
        assert(payload@.data.len() == count);
        if payload@.wf() {
            lemma_wrap_wf(payload@);
        }
    }
    let mut blocks: Vec<Segment> = Vec::new();
    let header = vec![
        0x1fu8, 0x8bu8, 0x08u8, 0x00u8, 0x00u8, 0x00u8, 0x00u8, 0x00u8, 0x02u8, 0xffu8,
    ];
    assert(header@ =~= gzip_header());
    blocks.push(Segment::Block(Block::known(header)));
    assert(segments_view(blocks@) =~= seq![known_segment(gzip_header())]);
    deflate_to_vec(&payload, &mut blocks);
    let ghost so_far = segments_view(blocks@);
    blocks.push(Segment::Block(Block::deferred(Resolver::Crc32, 4)));
    blocks.push(Segment::Block(Block::deferred(Resolver::Isize, 4)));
    proof {
        assert(segments_view(blocks@) =~= so_far + seq![
            trailer_segment(Resolver::Crc32),
            trailer_segment(Resolver::Isize),
        ]);
    }
    Payload::layer(blocks, payload)
}

} // verus!
