//! The lazy, layered description of a byte stream.
//!
//! A payload is a sequence of segments. A block is a finite run of bytes,
//! either known or deferred until the layer below is complete. A bomb is a
//! short pattern repeated cyclically up to an arbitrary-precision size.
use crate::adler::{adler32, adler_feed, adler_init, lemma_adler_feed_concat, AdlerEngine};
use crate::bignat::BigNat;
use crate::checksum::{lemma_cycle_split, repeat, ChecksumEngine};
use crate::crc32::{be_bytes, crc32, crc_feed, le_bytes, lemma_crc_feed_concat, Crc32Engine};
use crate::deflate::{
    checked_frame_length, frame, frame_len, lemma_frame_len, lemma_literal_len, literal_length,
    wrapper_bytes,
};
use vstd::prelude::*;

verus! {

/// What a deferred block computes from the layer below, once that layer
/// is complete.
#[derive(Clone, Copy, Debug)]
pub enum Resolver {
    /// The DEFLATE framing of the literal bytes of the child's segments
    /// `start..stop`. `has_rep` says that the last of them is a bomb, whose
    /// repetitions follow this block; `is_last`, that no segment follows
    /// them.
    Deflate { start: usize, stop: usize, has_rep: bool, is_last: bool },
    /// The Adler-32 checksum of the child, big-endian.
    Adler32,
    /// The CRC-32 checksum of the child, little-endian.
    Crc32,
    /// The size of the child modulo 2^32, little-endian.
    Isize,
}

/// What setting a bomb's size does to the layer below.
#[derive(Clone, Copy, Debug)]
pub enum Propagate {
    /// Nothing: the bomb stands in the lowest layer.
    Nothing,
    /// The bomb is a run of `0x55` in a DEFLATE stream: each of its bytes
    /// inflates to 1032 bytes of the child's bomb at `target`, and the
    /// frame around the run to 1291 more.
    Deflate { target: usize },
}

/// The contents of a block, as a value.
pub enum BlockDataView {
    Known(Seq<u8>),
    Unfilled(Resolver),
}

/// A block, as a value: its contents and its length, which is known
/// before the contents are.
pub struct BlockView {
    pub data: BlockDataView,
    pub len: nat,
}

/// A bomb, as a value.
pub struct BombView {
    pub pattern: Seq<u8>,
    pub size: nat,
    pub fill: Propagate,
}

/// A segment, as a value.
pub enum SegmentView {
    Block(BlockView),
    Bomb(BombView),
}

/// A payload, as a value: its segments and the layer below, if any.
pub struct PayloadView {
    pub data: Seq<SegmentView>,
    pub child: Option<Box<PayloadView>>,
}

/// The first `n` bytes of `pattern` repeated without end.
pub open spec fn cycle(pattern: Seq<u8>, n: nat) -> Seq<u8> {
    Seq::new(n, |i: int| pattern[i % (pattern.len() as int)])
}

/// The size that a bomb in the layer below takes when the run of `0x55`
/// above it has `size` bytes.
pub open spec fn inflated_size(size: nat) -> nat {
    size * 1032 + 1291
}

impl BlockView {
    /// The bytes of the block; none while it is deferred.
    pub open spec fn bytes(self) -> Seq<u8> {
        match self.data {
            BlockDataView::Known(b) => b,
            BlockDataView::Unfilled(_) => Seq::empty(),
        }
    }

    /// The block once the layer below is complete: a deferred block
    /// becomes known, a known one stays as it is.
    pub open spec fn resolve(self, child: Option<Box<PayloadView>>) -> BlockView {
        match (self.data, child) {
            (BlockDataView::Unfilled(r), Some(c)) => BlockView {
                data: BlockDataView::Known(r.output(*c)),
                len: self.len,
            },
            _ => self,
        }
    }
}

impl BombView {
    /// The bytes of the bomb: its pattern, cyclically, `size` bytes long.
    pub open spec fn bytes(self) -> Seq<u8> {
        cycle(self.pattern, self.size)
    }
}

impl SegmentView {
    /// The bytes that the segment stands for.
    pub open spec fn bytes(self) -> Seq<u8> {
        match self {
            SegmentView::Block(b) => b.bytes(),
            SegmentView::Bomb(b) => b.bytes(),
        }
    }

    /// The number of bytes that the segment stands for.
    pub open spec fn size(self) -> nat {
        match self {
            SegmentView::Block(b) => b.len,
            SegmentView::Bomb(b) => b.size,
        }
    }

    /// What the segment contributes to the literal part of a DEFLATE
    /// stream: a block all its bytes, a bomb one pass of its pattern.
    pub open spec fn literal(self) -> Seq<u8> {
        match self {
            SegmentView::Block(b) => b.bytes(),
            SegmentView::Bomb(b) => b.pattern,
        }
    }

    /// The length of `literal`, known before the bytes are.
    pub open spec fn literal_len(self) -> nat {
        match self {
            SegmentView::Block(b) => b.len,
            SegmentView::Bomb(b) => b.pattern.len(),
        }
    }

    /// Whether the bytes of the segment can be told: it is a block whose
    /// bytes are known, or a bomb with a pattern.
    pub open spec fn expandable(self) -> bool {
        match self {
            SegmentView::Block(b) => b.data is Known,
            SegmentView::Bomb(b) => b.pattern.len() >= 1,
        }
    }

    /// Whether the segment is `other` but for the size of a bomb.
    pub open spec fn same_shape(self, other: SegmentView) -> bool {
        match (self, other) {
            (SegmentView::Block(a), SegmentView::Block(b)) => a == b,
            (SegmentView::Bomb(a), SegmentView::Bomb(b)) => a.pattern == b.pattern && a.fill
                == b.fill,
            _ => false,
        }
    }

    /// Whether the segment, if it is a known block, is as long as it says.
    pub open spec fn sized(self) -> bool {
        match self {
            SegmentView::Block(b) => match b.data {
                BlockDataView::Known(bytes) => bytes.len() == b.len,
                BlockDataView::Unfilled(_) => true,
            },
            SegmentView::Bomb(_) => true,
        }
    }

    /// Whether the segment is a block whose bytes are known, or a bomb.
    pub open spec fn resolved(self) -> bool {
        match self {
            SegmentView::Block(b) => b.data is Known,
            SegmentView::Bomb(_) => true,
        }
    }

    /// The segment once the layer below is complete.
    pub open spec fn resolve(self, child: Option<Box<PayloadView>>) -> SegmentView {
        match self {
            SegmentView::Block(b) => SegmentView::Block(b.resolve(child)),
            SegmentView::Bomb(_) => self,
        }
    }

    /// Whether the segment is consistent with the layer below: a known
    /// block is as long as it says, a deferred one has a layer to read and
    /// says how long its result will be, a bomb has a pattern, and a bomb
    /// that passes its size on has a bomb to pass it to.
    pub open spec fn wf(self, child: Option<Box<PayloadView>>) -> bool {
        match self {
            SegmentView::Block(b) => match b.data {
                BlockDataView::Known(bytes) => bytes.len() == b.len,
                BlockDataView::Unfilled(r) => {
                    &&& child is Some
                    &&& r.wf(*child->0)
                    &&& b.len == r.output_len(*child->0)
                },
            },
            SegmentView::Bomb(b) => {
                &&& b.pattern.len() >= 1
                &&& match b.fill {
                    Propagate::Nothing => true,
                    Propagate::Deflate { target } => {
                        &&& child is Some
                        &&& target < child->0.data.len()
                        &&& child->0.data[target as int] is Bomb
                    },
                }
            },
        }
    }
}

/// The bytes of a run of segments, one after the other.
pub open spec fn concat(segs: Seq<SegmentView>) -> Seq<u8>
    decreases segs.len(),
{
    if segs.len() == 0 {
        Seq::empty()
    } else {
        concat(segs.drop_last()) + segs.last().bytes()
    }
}

/// The bytes of the first segments of a run are no more than the bytes
/// of the run.
pub proof fn lemma_concat_prefix(segs: Seq<SegmentView>, n: int)
    requires
        0 <= n <= segs.len(),
    ensures
        concat(segs.take(n)).len() <= concat(segs).len(),
    decreases segs.len() - n,
{
    if n < segs.len() {
        lemma_concat_prefix(segs, n + 1);
        assert(segs.take(n + 1).drop_last() == segs.take(n));
    } else {
        assert(segs.take(n) == segs);
    }
}

/// The number of bytes that a run of segments stands for: the lengths of
/// its blocks and the sizes of its bombs.
pub open spec fn total_size(segs: Seq<SegmentView>) -> nat
    decreases segs.len(),
{
    if segs.len() == 0 {
        0
    } else {
        total_size(segs.drop_last()) + segs.last().size()
    }
}

/// The bytes of a run of segments, of which each known block is as long as
/// it says and each bomb has a pattern, are as many as the run says.
pub proof fn lemma_size_is_length(segs: Seq<SegmentView>)
    requires
        forall|i: int|
            0 <= i < segs.len() ==> (#[trigger] segs[i]).expandable() && segs[i].sized(),
    ensures
        concat(segs).len() == total_size(segs),
    decreases segs.len(),
{
    if segs.len() > 0 {
        lemma_size_is_length(segs.drop_last());
        assert(segs.last() == segs[segs.len() - 1]);
    }
}

/// The literal bytes of a run of segments, one after the other.
pub open spec fn literal_of(segs: Seq<SegmentView>) -> Seq<u8>
    decreases segs.len(),
{
    if segs.len() == 0 {
        Seq::empty()
    } else {
        literal_of(segs.drop_last()) + segs.last().literal()
    }
}

/// The length of the literal bytes of a run of segments.
pub open spec fn literal_len_of(segs: Seq<SegmentView>) -> nat
    decreases segs.len(),
{
    if segs.len() == 0 {
        0
    } else {
        literal_len_of(segs.drop_last()) + segs.last().literal_len()
    }
}

impl Resolver {
    /// Whether the resolver can read what it needs from `child`.
    pub open spec fn wf(self, child: PayloadView) -> bool {
        match self {
            Resolver::Deflate { start, stop, has_rep, is_last } => start <= stop
                <= child.data.len(),
            _ => true,
        }
    }

    /// The number of bytes that the resolver will produce.
    pub open spec fn output_len(self, child: PayloadView) -> nat {
        match self {
            Resolver::Deflate { start, stop, has_rep, is_last } => frame_len(
                literal_len_of(child.data.subrange(start as int, stop as int)),
                start != 0,
                has_rep,
            ),
            _ => 4,
        }
    }

    /// The bytes that the resolver produces from the complete layer below.
    pub open spec fn output(self, child: PayloadView) -> Seq<u8> {
        match self {
            Resolver::Deflate { start, stop, has_rep, is_last } => frame(
                literal_of(child.data.subrange(start as int, stop as int)),
                start != 0,
                has_rep,
                is_last,
            ),
            Resolver::Adler32 => adler32(child.bytes()),
            Resolver::Crc32 => le_bytes(crc32(child.bytes())),
            Resolver::Isize => le_bytes((child.size() % 0x1_0000_0000) as u32),
        }
    }
}

impl PayloadView {
    /// The bytes that this layer stands for.
    pub open spec fn bytes(self) -> Seq<u8> {
        concat(self.data)
    }

    /// The number of bytes that this layer stands for.
    pub open spec fn size(self) -> nat {
        total_size(self.data)
    }

    /// Whether the bytes of this layer can be told.
    pub open spec fn expandable(self) -> bool {
        forall|i: int| 0 <= i < self.data.len() ==> (#[trigger] self.data[i]).expandable()
    }

    /// The size of the lowest layer.
    pub open spec fn final_size(self) -> nat
        decreases self,
    {
        match self.child {
            Some(c) => c.final_size(),
            None => self.size(),
        }
    }

    /// The number of layers below this one.
    pub open spec fn depth(self) -> nat
        decreases self,
    {
        match self.child {
            Some(c) => c.depth() + 1,
            None => 0,
        }
    }

    /// Whether every block of this layer and of the layers below is known.
    pub open spec fn resolved(self) -> bool
        decreases self,
    {
        &&& forall|i: int| 0 <= i < self.data.len() ==> (#[trigger] self.data[i]).resolved()
        &&& match self.child {
            Some(c) => c.resolved(),
            None => true,
        }
    }

    /// Whether every segment of this layer and of the layers below is
    /// consistent with the layer under it.
    pub open spec fn wf(self) -> bool
        decreases self,
    {
        &&& forall|i: int| 0 <= i < self.data.len() ==> (#[trigger] self.data[i]).wf(self.child)
        &&& match self.child {
            Some(c) => c.wf(),
            None => true,
        }
    }

    /// The payload with every deferred block made known, lowest layer
    /// first.
    pub open spec fn resolve(self) -> PayloadView
        decreases self,
    {
        let child = match self.child {
            Some(c) => Some(Box::new(c.resolve())),
            None => None,
        };
        PayloadView { data: Seq::new(self.data.len(), |i: int| self.data[i].resolve(child)), child }
    }

    /// The payload after the bomb at `idx` was given `size`: the bomb has
    /// that size, and the bomb below that it passes its size on to has the
    /// inflated size, and so on downwards. A block at `idx` changes
    /// nothing.
    pub open spec fn set_bomb(self, idx: int, size: nat) -> PayloadView
        decreases self,
    {
        if 0 <= idx < self.data.len() && self.data[idx] is Bomb {
            let b = self.data[idx]->Bomb_0;
            let child = match (b.fill, self.child) {
                (Propagate::Deflate { target }, Some(c)) => Some(
                    Box::new(c.set_bomb(target as int, inflated_size(size))),
                ),
                _ => self.child,
            };
            PayloadView {
                data: self.data.update(
                    idx,
                    SegmentView::Bomb(BombView { pattern: b.pattern, size, fill: b.fill }),
                ),
                child,
            }
        } else {
            self
        }
    }

    /// The payload after the first `n` segments were given `size`, in
    /// order, as `set_bomb` does.
    pub open spec fn set_bombs(self, n: nat, size: nat) -> PayloadView
        decreases n,
    {
        if n == 0 {
            self
        } else {
            self.set_bombs((n - 1) as nat, size).set_bomb(n - 1, size)
        }
    }

    /// The payload after `fill`: every bomb of this layer has `size`, the
    /// bombs below have the sizes that follow from it, and every block is
    /// known.
    pub open spec fn fill(self, size: nat) -> PayloadView {
        self.set_bombs(self.data.len(), size).resolve()
    }
}

/// A resolver that can read what it needs from a complete layer produces
/// as many bytes as it says.
pub proof fn lemma_output_len(r: Resolver, child: PayloadView)
    requires
        child.wf(),
        child.resolved(),
        r.wf(child),
    ensures
        r.output(child).len() == r.output_len(child),
{
    match r {
        Resolver::Deflate { start, stop, has_rep, is_last } => {
            let segs = child.data.subrange(start as int, stop as int);
            assert forall|i: int| 0 <= i < segs.len() implies (#[trigger] segs[i]).resolved()
                && segs[i].sized() by {
                assert(child.data[start + i].resolved());
                assert(child.data[start + i].wf(child.child));
            }
            lemma_literal_len(segs);
            lemma_frame_len(crate::payload::literal_of(segs), start != 0, has_rep, is_last);
        },
        _ => {},
    }
}

/// Runs of segments with the same literal lengths have the same literal
/// length.
pub proof fn lemma_literal_len_same(
    c: Seq<SegmentView>,
    d: Seq<SegmentView>,
    start: int,
    stop: int,
)
    requires
        c.len() == d.len(),
        0 <= start <= stop <= c.len(),
        forall|i: int| 0 <= i < c.len() ==> (#[trigger] d[i]).literal_len() == c[i].literal_len(),
    ensures
        literal_len_of(d.subrange(start, stop)) == literal_len_of(c.subrange(start, stop)),
    decreases stop - start,
{
    if start < stop {
        lemma_literal_len_same(c, d, start, stop - 1);
        assert(c.subrange(start, stop).drop_last() == c.subrange(start, stop - 1));
        assert(d.subrange(start, stop).drop_last() == d.subrange(start, stop - 1));
        assert(d[stop - 1].literal_len() == c[stop - 1].literal_len());
    }
}

/// Resolving keeps a payload consistent, and leaves every block known.
/// It changes neither the number of segments of a layer, nor the length of
/// any of them, nor its bombs.
pub proof fn lemma_resolve(p: PayloadView)
    requires
        p.wf(),
    ensures
        p.resolve().wf(),
        p.resolve().resolved(),
        p.resolve().data.len() == p.data.len(),
        p.resolve().child is Some == p.child is Some,
        forall|i: int|
            0 <= i < p.data.len() ==> (#[trigger] p.resolve().data[i]).literal_len()
                == p.data[i].literal_len(),
        forall|i: int|
            0 <= i < p.data.len() && (#[trigger] p.data[i]) is Bomb ==> p.resolve().data[i]
                == p.data[i],
    decreases p,
{
    let q = p.resolve();
    match p.child {
        Some(c) => {
            lemma_resolve(*c);
            let rc = c.resolve();
            assert forall|i: int| 0 <= i < q.data.len() implies (#[trigger] q.data[i]).wf(
                q.child,
            ) && q.data[i].resolved() by {
                assert(p.data[i].wf(p.child));
                match p.data[i] {
                    SegmentView::Block(b) => {
                        match b.data {
                            BlockDataView::Unfilled(r) => {
                                match r {
                                    Resolver::Deflate { start, stop, has_rep, is_last } => {
                                        lemma_literal_len_same(
                                            c.data,
                                            rc.data,
                                            start as int,
                                            stop as int,
                                        );
                                    },
                                    _ => {},
                                }
                                lemma_output_len(r, rc);
                            },
                            BlockDataView::Known(_) => {},
                        }
                    },
                    SegmentView::Bomb(b) => {
                        match b.fill {
                            Propagate::Deflate { target } => {
                                assert(c.data[target as int] is Bomb);
                            },
                            Propagate::Nothing => {},
                        }
                    },
                }
            }
        },
        None => {
            assert forall|i: int| 0 <= i < q.data.len() implies (#[trigger] q.data[i]).wf(
                q.child,
            ) && q.data[i].resolved() by {
                assert(p.data[i].wf(p.child));
            }
        },
    }
}

/// A segment that is consistent with a layer is consistent with that
/// layer resolved.
pub proof fn lemma_wf_over_resolved(seg: SegmentView, d: PayloadView)
    requires
        seg.wf(Some(Box::new(d))),
        d.wf(),
    ensures
        seg.wf(Some(Box::new(d.resolve()))),
{
    lemma_resolve(d);
    match seg {
        SegmentView::Block(b) => {
            match b.data {
                BlockDataView::Unfilled(Resolver::Deflate { start, stop, has_rep, is_last }) => {
                    lemma_literal_len_same(d.data, d.resolve().data, start as int, stop as int);
                },
                _ => {},
            }
        },
        SegmentView::Bomb(b) => {
            match b.fill {
                Propagate::Deflate { target } => {
                    assert(d.data[target as int] is Bomb);
                },
                Propagate::Nothing => {},
            }
        },
    }
}

/// Giving a bomb a size keeps a payload consistent. It changes neither
/// the number of segments of a layer, nor which of them are bombs, nor
/// any block.
pub proof fn lemma_set_bomb(p: PayloadView, idx: int, size: nat)
    requires
        p.wf(),
    ensures
        p.set_bomb(idx, size).wf(),
        p.set_bomb(idx, size).data.len() == p.data.len(),
        p.set_bomb(idx, size).child is Some == p.child is Some,
        forall|i: int|
            0 <= i < p.data.len() ==> (#[trigger] p.set_bomb(idx, size).data[i]).same_shape(
                p.data[i],
            ),
        forall|i: int|
            0 <= i < p.data.len() && i != idx ==> #[trigger] p.set_bomb(idx, size).data[i]
                == p.data[i],
    decreases p,
{
    let q = p.set_bomb(idx, size);
    if 0 <= idx < p.data.len() && p.data[idx] is Bomb {
        let b = p.data[idx]->Bomb_0;
        assert(p.data[idx].wf(p.child));
        match (b.fill, p.child) {
            (Propagate::Deflate { target }, Some(c)) => {
                lemma_set_bomb(*c, target as int, inflated_size(size));
                let qc = c.set_bomb(target as int, inflated_size(size));
                assert forall|i: int| 0 <= i < q.data.len() implies (#[trigger] q.data[i]).wf(
                    q.child,
                ) by {
                    assert(p.data[i].wf(p.child));
                    lemma_shape_wf(p.data[i], *c, qc);
                }
            },
            _ => {
                assert forall|i: int| 0 <= i < q.data.len() implies (#[trigger] q.data[i]).wf(
                    q.child,
                ) by {
                    assert(p.data[i].wf(p.child));
                }
            },
        }
    }
}

/// A segment that is consistent with a layer is consistent with a layer
/// of the same shape.
pub proof fn lemma_shape_wf(seg: SegmentView, c: PayloadView, d: PayloadView)
    requires
        seg.wf(Some(Box::new(c))),
        c.data.len() == d.data.len(),
        forall|i: int| 0 <= i < c.data.len() ==> (#[trigger] d.data[i]).same_shape(c.data[i]),
    ensures
        seg.wf(Some(Box::new(d))),
{
    match seg {
        SegmentView::Block(b) => {
            match b.data {
                BlockDataView::Unfilled(Resolver::Deflate { start, stop, has_rep, is_last }) => {
                    assert forall|i: int| 0 <= i < c.data.len() implies (
                    #[trigger] d.data[i]).literal_len() == c.data[i].literal_len() by {
                        assert(d.data[i].same_shape(c.data[i]));
                    }
                    lemma_literal_len_same(c.data, d.data, start as int, stop as int);
                },
                _ => {},
            }
        },
        SegmentView::Bomb(b) => {
            match b.fill {
                Propagate::Deflate { target } => {
                    assert(d.data[target as int].same_shape(c.data[target as int]));
                },
                Propagate::Nothing => {},
            }
        },
    }
}

/// Giving the first `n` segments a size changes neither the number of
/// segments, nor whether there is a layer below, nor any block.
pub proof fn lemma_set_bombs_blocks(p: PayloadView, n: nat, size: nat)
    ensures
        p.set_bombs(n, size).data.len() == p.data.len(),
        p.set_bombs(n, size).child is Some == p.child is Some,
        forall|i: int|
            0 <= i < p.data.len() && (#[trigger] p.data[i]) is Block ==> p.set_bombs(
                n,
                size,
            ).data[i] == p.data[i],
        forall|i: int|
            0 <= i < p.data.len() ==> (#[trigger] p.set_bombs(n, size).data[i]).same_shape(
                p.data[i],
            ),
        forall|i: int|
            0 <= i < n && i < p.data.len() && (#[trigger] p.data[i]) is Bomb ==> p.set_bombs(
                n,
                size,
            ).data[i]->Bomb_0.size == size,
    decreases n,
{
    if n > 0 {
        lemma_set_bombs_blocks(p, (n - 1) as nat, size);
    }
}

/// Whether the bomb at `idx` has `size`, and the bombs below that it
/// passes its size on to have the sizes that follow from it.
pub open spec fn sizes_set(p: PayloadView, idx: int, size: nat) -> bool
    decreases p,
{
    0 <= idx < p.data.len() && p.data[idx] is Bomb ==> {
        &&& p.data[idx]->Bomb_0.size == size
        &&& match (p.data[idx]->Bomb_0.fill, p.child) {
            (Propagate::Deflate { target }, Some(c)) => sizes_set(
                *c,
                target as int,
                inflated_size(size),
            ),
            _ => true,
        }
    }
}

/// Giving a bomb a size sets the sizes from it downwards, and keeps the
/// sizes that were set from another bomb of its layer for the same size.
pub proof fn lemma_set_bomb_sizes(p: PayloadView, j: int, idx: int, size: nat)
    ensures
        sizes_set(p.set_bomb(j, size), j, size),
        sizes_set(p, idx, size) ==> sizes_set(p.set_bomb(j, size), idx, size),
    decreases p,
{
    if 0 <= j < p.data.len() && p.data[j] is Bomb {
        let b = p.data[j]->Bomb_0;
        match (b.fill, p.child) {
            (Propagate::Deflate { target }, Some(c)) => {
                lemma_set_bomb_sizes(*c, target as int, target as int, inflated_size(size));
                if 0 <= idx < p.data.len() && p.data[idx] is Bomb {
                    match p.data[idx]->Bomb_0.fill {
                        Propagate::Deflate { target: other } => {
                            lemma_set_bomb_sizes(
                                *c,
                                target as int,
                                other as int,
                                inflated_size(size),
                            );
                        },
                        Propagate::Nothing => {},
                    }
                }
            },
            _ => {},
        }
    }
}

/// Where the sizes are set from a bomb downwards, giving it that size
/// changes nothing.
pub proof fn lemma_set_bomb_same(p: PayloadView, idx: int, size: nat)
    requires
        sizes_set(p, idx, size),
    ensures
        p.set_bomb(idx, size) == p,
    decreases p,
{
    if 0 <= idx < p.data.len() && p.data[idx] is Bomb {
        let b = p.data[idx]->Bomb_0;
        let q = p.set_bomb(idx, size);
        match (b.fill, p.child) {
            (Propagate::Deflate { target }, Some(c)) => {
                lemma_set_bomb_same(*c, target as int, inflated_size(size));
            },
            _ => {},
        }
        assert(q.data =~= p.data);
    }
}

/// Resolving keeps the sizes that are set.
pub proof fn lemma_resolve_sizes(p: PayloadView, idx: int, size: nat)
    requires
        sizes_set(p, idx, size),
    ensures
        sizes_set(p.resolve(), idx, size),
    decreases p,
{
    if 0 <= idx < p.data.len() && p.data[idx] is Bomb {
        match (p.data[idx]->Bomb_0.fill, p.child) {
            (Propagate::Deflate { target }, Some(c)) => {
                lemma_resolve_sizes(*c, target as int, inflated_size(size));
            },
            _ => {},
        }
    }
}

/// Resolving a payload whose blocks are all known changes nothing.
pub proof fn lemma_resolve_same(p: PayloadView)
    requires
        p.resolved(),
    ensures
        p.resolve() == p,
    decreases p,
{
    match p.child {
        Some(c) => {
            lemma_resolve_same(*c);
        },
        None => {},
    }
    assert forall|i: int| 0 <= i < p.data.len() implies #[trigger] p.resolve().data[i]
        == p.data[i] by {
        assert(p.data[i].resolved());
    }
    assert(p.resolve().data =~= p.data);
}

/// After the first `n` segments were given a size, the sizes are set from
/// each of them downwards.
pub proof fn lemma_set_bombs_sizes(p: PayloadView, n: nat, size: nat, idx: int)
    requires
        0 <= idx < n,
    ensures
        sizes_set(p.set_bombs(n, size), idx, size),
    decreases n,
{
    let m = (n - 1) as nat;
    let before = p.set_bombs(m, size);
    if idx < m {
        lemma_set_bombs_sizes(p, m, size, idx);
    }
    lemma_set_bomb_sizes(before, n - 1, idx, size);
}

/// Filling twice with the same size is filling once.
pub proof fn lemma_fill_idempotent(p: PayloadView, size: nat)
    requires
        p.wf(),
    ensures
        p.fill(size).fill(size) == p.fill(size),
{
    let n = p.data.len();
    let sized = p.set_bombs(n, size);
    let q = p.fill(size);
    lemma_set_bombs_wf(p, n, size);
    lemma_resolve(sized);
    lemma_set_bombs_blocks(p, n, size);
    assert forall|k: nat| k <= n implies #[trigger] q.set_bombs(k, size) == q by {
        lemma_fill_sets(p, size, k);
    }
    lemma_resolve_same(q);
}

/// Giving a filled payload the size it was filled with changes nothing.
proof fn lemma_fill_sets(p: PayloadView, size: nat, k: nat)
    requires
        k <= p.data.len(),
    ensures
        p.fill(size).set_bombs(k, size) == p.fill(size),
    decreases k,
{
    if k > 0 {
        let q = p.fill(size);
        lemma_fill_sets(p, size, (k - 1) as nat);
        lemma_set_bombs_sizes(p, p.data.len(), size, k - 1);
        lemma_resolve_sizes(p.set_bombs(p.data.len(), size), k - 1, size);
        lemma_set_bomb_same(q, k - 1, size);
    }
}

/// Giving the first `n` segments a size keeps a payload consistent.
pub proof fn lemma_set_bombs_wf(p: PayloadView, n: nat, size: nat)
    requires
        p.wf(),
    ensures
        p.set_bombs(n, size).wf(),
    decreases n,
{
    if n > 0 {
        lemma_set_bombs_wf(p, (n - 1) as nat, size);
        lemma_set_bomb(p.set_bombs((n - 1) as nat, size), n - 1, size);
    }
}

/// After a payload was filled, each run of `0x55` has the size it was
/// filled with, and the bomb below that it stands for has 1032 times that
/// size and 1291 more.
pub proof fn lemma_fill_layering(p: PayloadView, size: nat, idx: int)
    requires
        0 <= idx < p.data.len(),
        p.data[idx] is Bomb,
    ensures
        p.fill(size).data.len() == p.data.len(),
        p.fill(size).data[idx] is Bomb,
        p.fill(size).data[idx]->Bomb_0.size == size,
        match (p.data[idx]->Bomb_0.fill, p.fill(size).child) {
            (Propagate::Deflate { target }, Some(c)) => 0 <= target < c.data.len() && c.data[
                target as int
            ] is Bomb ==> c.data[target as int]->Bomb_0.size == size * 1032 + 1291,
            _ => true,
        },
{
    let n = p.data.len();
    let sized = p.set_bombs(n, size);
    lemma_set_bombs_blocks(p, n, size);
    lemma_set_bombs_sizes(p, n, size, idx);
    lemma_resolve_sizes(sized, idx, size);
    assert(sized.data[idx].same_shape(p.data[idx]));
    assert(sized.resolve().data[idx] == sized.data[idx]);
    let q = p.fill(size);
    assert(sizes_set(q, idx, size));
    match (q.data[idx]->Bomb_0.fill, q.child) {
        (Propagate::Deflate { target }, Some(c)) => {
            assert(sizes_set(*c, target as int, inflated_size(size)));
        },
        _ => {},
    }
}

/// A segment after its layer was filled with `size`, over the filled
/// layer `below`: a bomb has the size, a deferred block is known from the
/// layer below, a known block is as it was.
pub open spec fn filled_segment(seg: SegmentView, below: Option<Box<PayloadView>>, size: nat)
    -> SegmentView {
    match seg {
        SegmentView::Block(b) => SegmentView::Block(b.resolve(below)),
        SegmentView::Bomb(b) => SegmentView::Bomb(
            BombView { pattern: b.pattern, size, fill: b.fill },
        ),
    }
}

/// The segments of a run after their layer was filled.
pub open spec fn filled_all(segs: Seq<SegmentView>, below: Option<Box<PayloadView>>, size: nat)
    -> Seq<SegmentView> {
    Seq::new(segs.len(), |i: int| filled_segment(segs[i], below, size))
}

/// Filling changes each segment of a layer for itself: it depends on the
/// other segments of the layer only through the filled layer below.
pub proof fn lemma_fill_segments(p: PayloadView, size: nat)
    ensures
        p.fill(size).child is Some == p.child is Some,
        p.fill(size).data == filled_all(p.data, p.fill(size).child, size),
{
    let n = p.data.len();
    let sized = p.set_bombs(n, size);
    let q = p.fill(size);
    lemma_set_bombs_blocks(p, n, size);
    assert forall|i: int| 0 <= i < n implies #[trigger] q.data[i] == filled_segment(
        p.data[i],
        q.child,
        size,
    ) by {
        assert(sized.data[i].same_shape(p.data[i]));
        if p.data[i] is Bomb {
            assert(sized.data[i]->Bomb_0.size == size);
        }
    }
    assert(q.data =~= filled_all(p.data, q.child, size));
}

/// Giving the first `n` segments a size keeps the layer below consistent.
/// It changes neither the number of its segments, nor which of them are
/// bombs, nor any of its blocks.
pub proof fn lemma_set_bombs_below(p: PayloadView, n: nat, size: nat)
    requires
        p.wf(),
        p.child is Some,
    ensures
        p.set_bombs(n, size).child is Some,
        p.set_bombs(n, size).child->0.wf(),
        p.set_bombs(n, size).child->0.data.len() == p.child->0.data.len(),
        forall|i: int|
            0 <= i < p.child->0.data.len() ==> (#[trigger] p.set_bombs(
                n,
                size,
            ).child->0.data[i]).same_shape(p.child->0.data[i]),
    decreases n,
{
    if n > 0 {
        let before = p.set_bombs((n - 1) as nat, size);
        lemma_set_bombs_below(p, (n - 1) as nat, size);
        lemma_set_bombs_wf(p, (n - 1) as nat, size);
        let after = before.set_bomb(n - 1, size);
        let c = *before.child->0;
        if 0 <= n - 1 < before.data.len() && before.data[n - 1] is Bomb {
            match before.data[n - 1]->Bomb_0.fill {
                Propagate::Deflate { target } => {
                    lemma_set_bomb(c, target as int, inflated_size(size));
                    let d = c.set_bomb(target as int, inflated_size(size));
                    assert(*after.child->0 == d);
                    assert forall|i: int| 0 <= i < p.child->0.data.len() implies (
                    #[trigger] d.data[i]).same_shape(p.child->0.data[i]) by {
                        assert(d.data[i].same_shape(c.data[i]));
                        assert(c.data[i].same_shape(p.child->0.data[i]));
                    }
                },
                Propagate::Nothing => {},
            }
        }
    }
}

/// Filling keeps the layer below consistent and leaves every block of it
/// known. It changes neither the number of its segments, nor the literal
/// length of any of them, nor which of them are bombs, nor what a bomb
/// repeats.
pub proof fn lemma_fill_below(p: PayloadView, size: nat)
    requires
        p.wf(),
        p.child is Some,
    ensures
        p.fill(size).child is Some,
        p.fill(size).child->0.wf(),
        p.fill(size).child->0.resolved(),
        p.fill(size).child->0.data.len() == p.child->0.data.len(),
        forall|i: int|
            0 <= i < p.child->0.data.len() ==> {
                let seg = #[trigger] p.fill(size).child->0.data[i];
                let was = p.child->0.data[i];
                &&& seg.literal_len() == was.literal_len()
                &&& seg is Bomb <==> was is Bomb
                &&& seg is Bomb ==> seg->Bomb_0.pattern == was->Bomb_0.pattern
            },
{
    let n = p.data.len();
    let sized = p.set_bombs(n, size);
    lemma_set_bombs_below(p, n, size);
    let c = *sized.child->0;
    lemma_resolve(c);
    assert(*p.fill(size).child->0 == c.resolve());
    assert forall|i: int| 0 <= i < p.child->0.data.len() implies {
        let seg = #[trigger] p.fill(size).child->0.data[i];
        let was = p.child->0.data[i];
        &&& seg.literal_len() == was.literal_len()
        &&& seg is Bomb <==> was is Bomb
        &&& seg is Bomb ==> seg->Bomb_0.pattern == was->Bomb_0.pattern
    } by {
        assert(c.data[i].same_shape(p.child->0.data[i]));
        assert(c.resolve().data[i].literal_len() == c.data[i].literal_len());
    }
}

/// The layer `below` after each of the segments `segs` above it was
/// given `size`: every bomb among them that passes its size on has given
/// the inflated size to its bomb below, in order.
pub open spec fn passed_on(segs: Seq<SegmentView>, below: PayloadView, size: nat) -> PayloadView
    decreases segs.len(),
{
    if segs.len() == 0 {
        below
    } else {
        let before = passed_on(segs.drop_last(), below, size);
        match segs.last() {
            SegmentView::Bomb(BombView { fill: Propagate::Deflate { target }, .. }) => {
                before.set_bomb(target as int, inflated_size(size))
            },
            _ => before,
        }
    }
}

/// Giving the first `n` segments of a layer a size makes of the layer
/// below what those segments pass on to it.
pub proof fn lemma_set_bombs_passes(p: PayloadView, n: nat, size: nat)
    requires
        p.child is Some,
        n <= p.data.len(),
    ensures
        p.set_bombs(n, size).child == Some(
            Box::new(passed_on(p.data.take(n as int), *p.child->0, size)),
        ),
    decreases n,
{
    if n > 0 {
        let m = (n - 1) as nat;
        lemma_set_bombs_passes(p, m, size);
        lemma_set_bombs_blocks(p, m, size);
        let before = p.set_bombs(m, size);
        assert(before.data[n - 1].same_shape(p.data[n - 1]));
        assert(p.data.take(n as int).drop_last() =~= p.data.take(m as int));
        assert(p.data.take(n as int).last() == p.data[n - 1]);
    } else {
        assert(p.data.take(0).len() == 0);
    }
}

/// What two runs of segments pass on to the layer below, one after the
/// other.
pub proof fn lemma_passed_add(
    a: Seq<SegmentView>,
    b: Seq<SegmentView>,
    below: PayloadView,
    size: nat,
)
    ensures
        passed_on(a + b, below, size) == passed_on(b, passed_on(a, below, size), size),
    decreases b.len(),
{
    if b.len() == 0 {
        assert(a + b =~= a);
    } else {
        lemma_passed_add(a, b.drop_last(), below, size);
        assert((a + b).drop_last() =~= a + b.drop_last());
        assert((a + b).last() == b.last());
    }
}

/// Blocks pass nothing on to the layer below.
pub proof fn lemma_blocks_pass_nothing(segs: Seq<SegmentView>, below: PayloadView, size: nat)
    requires
        forall|i: int| 0 <= i < segs.len() ==> (#[trigger] segs[i]) is Block,
    ensures
        passed_on(segs, below, size) == below,
    decreases segs.len(),
{
    if segs.len() > 0 {
        lemma_blocks_pass_nothing(segs.drop_last(), below, size);
        assert(segs.last() == segs[segs.len() - 1]);
    }
}

/// Giving the segments from `from` to `to` a size changes nothing where
/// they are all blocks.
pub proof fn lemma_set_bombs_over_blocks(p: PayloadView, from: nat, to: nat, size: nat)
    requires
        from <= to <= p.data.len(),
        forall|i: int| from <= i < to ==> (#[trigger] p.data[i]) is Block,
    ensures
        p.set_bombs(to, size) == p.set_bombs(from, size),
    decreases to - from,
{
    if from < to {
        lemma_set_bombs_over_blocks(p, from, (to - 1) as nat, size);
        lemma_set_bombs_blocks(p, (to - 1) as nat, size);
        assert(p.data[to - 1] is Block);
    }
}

/// The contents of a block.
enum BlockData {
    Known(Vec<u8>),
    Unfilled(Resolver),
}

/// A fixed piece of data: a header, a trailer, a checksum, literal
/// content. Its length is known from the start; its bytes may be deferred
/// until the layer below is complete.
pub struct Block {
    data: BlockData,
    len: usize,
}

/// A very repetitive piece of data: a pattern and the number of bytes that
/// it is repeated to.
pub struct Bomb {
    data: Vec<u8>,
    size: BigNat,
    fill: Propagate,
}

/// A segment is either a block or a bomb.
pub enum Segment {
    Block(Block),
    Bomb(Bomb),
}

/// An ordered sequence of segments, and the layer below that this one
/// compresses, if any.
pub struct Payload {
    data: Vec<Segment>,
    child: Option<Box<Payload>>,
}

impl View for Block {
    type V = BlockView;

    closed spec fn view(&self) -> BlockView {
        BlockView {
            data: match self.data {
                BlockData::Known(b) => BlockDataView::Known(b@),
                BlockData::Unfilled(r) => BlockDataView::Unfilled(r),
            },
            len: self.len as nat,
        }
    }
}

impl View for Bomb {
    type V = BombView;

    closed spec fn view(&self) -> BombView {
        BombView { pattern: self.data@, size: self.size@, fill: self.fill }
    }
}

impl View for Segment {
    type V = SegmentView;

    open spec fn view(&self) -> SegmentView {
        match self {
            Segment::Block(b) => SegmentView::Block(b@),
            Segment::Bomb(b) => SegmentView::Bomb(b@),
        }
    }
}

impl Segment {
    /// The bytes of the segment from `offset` on, `limit` of them at most.
    pub fn chunk(&self, offset: &BigNat, limit: usize) -> (r: Vec<u8>)
        requires
            self@.expandable(),
            offset@ <= self@.bytes().len(),
        ensures
            r@.len() == (if self@.bytes().len() - offset@ < limit {
                self@.bytes().len() - offset@
            } else {
                limit as int
            }),
            r@ == self@.bytes().subrange(offset@ as int, (offset@ + r@.len()) as int),
    {
        match self {
            Segment::Block(b) => {
                let mut out: Vec<u8> = Vec::new();
                if let BlockData::Known(bytes) = &b.data {
                    let start = match offset.to_u64() {
                        Some(o) => o as usize,
                        None => 0,
                    };
                    let rest = bytes.len() - start;
                    let end = if rest < limit {
                        bytes.len()
                    } else {
                        start + limit
                    };
                    out.extend_from_slice(&bytes.as_slice()[start..end]);
                    assert(out@ =~= bytes@.subrange(start as int, end as int));
                }
                out
            },
            Segment::Bomb(b) => {
                let len = b.data.len();
                let rest = b.size.sub(offset);
                let count = match rest.to_u64() {
                    Some(c) => if c < limit as u64 {
                        c as usize
                    } else {
                        limit
                    },
                    None => limit,
                };
                let mut idx = offset.rem_small(len as u64) as usize;
                let mut out: Vec<u8> = Vec::new();
                let mut k: usize = 0;
                while k < count
                    invariant
                        len == b.data@.len(),
                        len >= 1,
                        k <= count,
                        offset@ + count <= b.size@,
                        idx == (offset@ + k) % (len as int),
                        out@.len() == k,
                        forall|j: int|
                            0 <= j < k ==> #[trigger] out@[j] == b.data@[(offset@ + j) % (
                            len as int)],
                    decreases count - k,
                {
                    proof {
                        lemma_mod_succ(offset@ + k, len as int);
                    }
                    out.push(b.data[idx]);
                    idx = if idx + 1 == len {
                        0
                    } else {
                        idx + 1
                    };
                    k += 1;
                }
                proof {
                    assert(out@ =~= self@.bytes().subrange(
                        offset@ as int,
                        (offset@ + count) as int,
                    ));
                }
                out
            },
        }
    }

    /// Whether the bytes of the segment can be told: see `expandable`.
    pub fn is_expandable(&self) -> (r: bool)
        ensures
            r == self@.expandable(),
    {
        match self {
            Segment::Block(b) => match &b.data {
                BlockData::Known(_) => true,
                BlockData::Unfilled(_) => false,
            },
            Segment::Bomb(b) => b.data.len() >= 1,
        }
    }

    /// Whether the segment is consistent with the layer below: see `wf`.
    pub fn is_wf(&self, child: Option<&Payload>) -> (r: bool)
        ensures
            r == self@.wf(
                match child {
                    Some(c) => Some(Box::new(c@)),
                    None => None,
                },
            ),
    {
        match self {
            Segment::Block(b) => match &b.data {
                BlockData::Known(bytes) => bytes.len() == b.len,
                BlockData::Unfilled(r) => match child {
                    Some(c) => match r {
                        Resolver::Deflate { start, stop, has_rep, is_last } => {
                            if *start <= *stop && *stop <= c.data.len() {
                                match literal_length(&c.data, *start, *stop) {
                                    Some(n) => match checked_frame_length(
                                        n,
                                        *start != 0,
                                        *has_rep,
                                    ) {
                                        Some(len) => len == b.len,
                                        None => false,
                                    },
                                    None => {
                                        proof {
                                            let total = literal_len_of(
                                                c@.data.subrange(*start as int, *stop as int),
                                            );
                                            assert(frame_len(total, *start != 0, *has_rep)
                                                >= total);
                                        }
                                        false
                                    },
                                }
                            } else {
                                false
                            }
                        },
                        _ => b.len == 4,
                    },
                    None => false,
                },
            },
            Segment::Bomb(b) => {
                if b.data.len() < 1 {
                    return false;
                }
                match b.fill {
                    Propagate::Nothing => true,
                    Propagate::Deflate { target } => match child {
                        Some(c) => {
                            if target < c.data.len() {
                                match &c.data[target] {
                                    Segment::Bomb(_) => true,
                                    Segment::Block(_) => false,
                                }
                            } else {
                                false
                            }
                        },
                        None => false,
                    },
                }
            },
        }
    }
}

/// The segments of a vector, as values.
pub open spec fn segments_view(data: Seq<Segment>) -> Seq<SegmentView> {
    Seq::new(data.len(), |i: int| data[i]@)
}

impl View for Payload {
    type V = PayloadView;

    closed spec fn view(&self) -> PayloadView
        decreases self,
    {
        PayloadView {
            data: segments_view(self.data@),
            child: match self.child {
                Some(c) => Some(Box::new((*c)@)),
                None => None,
            },
        }
    }
}

impl Block {
    /// A known block with the bytes of `data`.
    pub fn new(data: Box<[u8]>) -> (r: Block)
        ensures
            r@ == (BlockView { data: BlockDataView::Known(data@), len: data@.len() }),
    {
        let bytes = data.into_vec();
        Block { len: bytes.len(), data: BlockData::Known(bytes) }
    }

    /// A known block with the bytes of `bytes`.
    pub(crate) fn known(bytes: Vec<u8>) -> (r: Block)
        ensures
            r@ == (BlockView { data: BlockDataView::Known(bytes@), len: bytes@.len() }),
    {
        Block { len: bytes.len(), data: BlockData::Known(bytes) }
    }

    /// Makes a deferred block known, from the complete layer below. A
    /// known block stays as it is.
    pub fn fill(&mut self, child: Option<&mut Payload>)
        requires
            SegmentView::Block(old(self)@).wf(
                match child {
                    Some(c) => Some(Box::new(c@)),
                    None => None,
                },
            ),
            match child {
                Some(c) => c@.wf() && c@.resolved(),
                None => true,
            },
        ensures
            final(self)@ == old(self)@.resolve(
                match child {
                    Some(c) => Some(Box::new(c@)),
                    None => None,
                },
            ),
            match child {
                Some(c) => *final(c) == *c,
                None => true,
            },
    {
        let resolver = match &self.data {
            BlockData::Unfilled(r) => Some(*r),
            BlockData::Known(_) => None,
        };
        if let Some(r) = resolver {
            if let Some(c) = child {
                proof {
                    lemma_output_len(r, c@);
                    assert forall|i: int| 0 <= i < c@.data.len() implies (
                    #[trigger] c@.data[i]).expandable() by {
                        assert(c@.data[i].resolved());
                        assert(c@.data[i].wf(c@.child));
                    }
                }
                let bytes = match r {
                    Resolver::Deflate { start, stop, has_rep, is_last } => {
                        proof {
                            let segs = c@.data.subrange(start as int, stop as int);
                            assert forall|i: int| 0 <= i < segs.len() implies (
                            #[trigger] segs[i]).resolved() && segs[i].sized() by {
                                assert(c@.data[start + i].resolved());
                                assert(c@.data[start + i].wf(c@.child));
                            }
                            lemma_literal_len(segs);
                        }
                        wrapper_bytes(&*c, start, stop, has_rep, is_last)
                    },
                    Resolver::Adler32 => {
                        let sum = c.adler32();
                        let bytes = vec![sum[0], sum[1], sum[2], sum[3]];
                        assert(bytes@ =~= sum@);
                        bytes
                    },
                    Resolver::Crc32 => {
                        let sum = c.crc32();
                        let bytes = vec![sum[3], sum[2], sum[1], sum[0]];
                        assert(bytes@ =~= le_bytes(crc32(c@.bytes())));
                        bytes
                    },
                    Resolver::Isize => {
                        let x = c.size().rem_small(0x1_0000_0000) as u32;
                        let bytes = vec![
                            (x & 0xff) as u8,
                            ((x >> 8) & 0xff) as u8,
                            ((x >> 16) & 0xff) as u8,
                            (x >> 24) as u8,
                        ];
                        assert(bytes@ =~= le_bytes(x));
                        bytes
                    },
                };
                self.data = BlockData::Known(bytes);
            }
        }
    }

    /// The bytes of the block, if they are known.
    pub fn bytes(&self) -> (r: Option<&Vec<u8>>)
        ensures
            match r {
                Some(bytes) => self@.data == BlockDataView::Known(bytes@),
                None => self@.data is Unfilled,
            },
    {
        match &self.data {
            BlockData::Known(bytes) => Some(bytes),
            BlockData::Unfilled(_) => None,
        }
    }

    /// The length of the block.
    pub fn len(&self) -> (r: usize)
        ensures
            r == self@.len,
    {
        self.len
    }

    /// A deferred block of `len` bytes.
    pub(crate) fn deferred(resolver: Resolver, len: usize) -> (r: Block)
        ensures
            r@ == (BlockView { data: BlockDataView::Unfilled(resolver), len: len as nat }),
    {
        Block { len, data: BlockData::Unfilled(resolver) }
    }
}

impl Bomb {
    /// A bomb of size zero that repeats `data` and stands in the lowest
    /// layer.
    pub fn new(data: Box<[u8]>) -> (r: Bomb)
        requires
            data@.len() >= 1,
        ensures
            r@ == (BombView { pattern: data@, size: 0, fill: Propagate::Nothing }),
    {
        Bomb { data: data.into_vec(), size: BigNat::zero(), fill: Propagate::Nothing }
    }

    /// Gives the bomb the size `size`, after the bomb of the layer below
    /// that it stands for, if there is one, was given the size that
    /// follows from it.
    pub fn fill(&mut self, child: Option<&mut Payload>, size: &BigNat)
        requires
            SegmentView::Bomb(old(self)@).wf(
                match child {
                    Some(c) => Some(Box::new(c@)),
                    None => None,
                },
            ),
            match child {
                Some(c) => c@.wf(),
                None => true,
            },
        ensures
            final(self)@ == (BombView {
                pattern: old(self)@.pattern,
                size: size@,
                fill: old(self)@.fill,
            }),
            match child {
                Some(c) => final(c)@ == (match old(self)@.fill {
                    Propagate::Deflate { target } => c@.set_bomb(
                        target as int,
                        inflated_size(size@),
                    ),
                    Propagate::Nothing => c@,
                }),
                None => true,
            },
        decreases
                (match child {
                    Some(c) => c@.depth() + 1,
                    None => 0,
                }),
    {
        if let Propagate::Deflate { target } = self.fill {
            if let Some(c) = child {
                let child_size = size.mul_small(1032).add(&BigNat::from_u64(1291));
                let ghost before = c@;
                proof {
                    assert(before.data[target as int].wf(before.child));
                }
                let Payload { data, child: grandchild } = c;
                if let Segment::Bomb(b) = &mut data[target] {
                    match grandchild {
                        Some(g) => {
                            b.fill(Some(&mut **g), &child_size);
                        },
                        None => {
                            b.fill(None, &child_size);
                        },
                    }
                }
                proof {
                    assert(c@.data =~= before.set_bomb(
                        target as int,
                        inflated_size(size@),
                    ).data);
                }
            }
        }
        self.size = size.clone();
    }

    /// The pattern that the bomb repeats.
    pub fn pattern(&self) -> (r: &Vec<u8>)
        ensures
            r@ == self@.pattern,
    {
        &self.data
    }

    /// The number of bytes that the bomb stands for.
    pub fn size(&self) -> (r: &BigNat)
        ensures
            r@ == self@.size,
    {
        &self.size
    }

    /// A run of `0x55` of size zero that passes its size on to the bomb at
    /// `target` in the layer below.
    pub(crate) fn linked(target: usize) -> (r: Bomb)
        ensures
            r@ == (BombView {
                pattern: seq![0x55u8],
                size: 0,
                fill: Propagate::Deflate { target },
            }),
    {
        let data = vec![0x55u8];
        assert(data@ =~= seq![0x55u8]);
        Bomb { data, size: BigNat::zero(), fill: Propagate::Deflate { target } }
    }
}

/// The successor of a number modulo `m`, from the number modulo `m`.
proof fn lemma_mod_succ(x: int, m: int)
    requires
        x >= 0,
        m > 0,
    ensures
        (x + 1) % m == (if x % m + 1 == m {
            0
        } else {
            x % m + 1
        }),
{
    vstd::arithmetic::div_mod::lemma_fundamental_div_mod(x, m);
    vstd::arithmetic::div_mod::lemma_mod_bound(x, m);
    assert((x / m) * m == m * (x / m)) by (nonlinear_arith);
    assert((x / m + 1) * m == m * (x / m) + m) by (nonlinear_arith);
    if x % m + 1 == m {
        assert(m * (x / m + 1) == m * (x / m) + m) by (nonlinear_arith);
        vstd::arithmetic::div_mod::lemma_fundamental_div_mod_converse(x + 1, m, x / m + 1, 0);
    } else {
        vstd::arithmetic::div_mod::lemma_fundamental_div_mod_converse(
            x + 1,
            m,
            x / m,
            x % m + 1,
        );
    }
}

/// Feeds the bytes of a segment to an Adler-32 engine: those of a block
/// as they are, those of a bomb as its full passes and the start of one
/// more.
fn feed_adler(engine: &mut AdlerEngine, segment: &Segment)
    requires
        segment@.expandable(),
    ensures
        final(engine)@ == adler_feed(old(engine)@, segment@.bytes()),
{
    match segment {
        Segment::Block(b) => {
            if let BlockData::Known(bytes) = &b.data {
                engine.apply(bytes.as_slice());
            }
        },
        Segment::Bomb(b) => {
            let len = b.data.len();
            let full = b.size.div_small(len as u64);
            let extra = b.size.rem_small(len as u64) as usize;
            proof {
                lemma_cycle_split(b.data@, b.size@);
                lemma_adler_feed_concat(
                    engine@,
                    repeat(b.data@, b.size@ / b.data@.len()),
                    b.data@.take(extra as int),
                );
            }
            engine.apply_rep(b.data.as_slice(), full);
            let head = &b.data.as_slice()[0..extra];
            assert(head@ == b.data@.take(extra as int));
            engine.apply(head);
        },
    }
}

/// Feeds the bytes of a segment to a CRC-32 engine: those of a block as
/// they are, those of a bomb as its full passes and the start of one
/// more.
fn feed_crc32(engine: &mut Crc32Engine, segment: &Segment)
    requires
        segment@.expandable(),
    ensures
        final(engine)@ == crc_feed(old(engine)@, segment@.bytes()),
{
    match segment {
        Segment::Block(b) => {
            if let BlockData::Known(bytes) = &b.data {
                proof {
                    engine.lemma_fed_view(bytes@);
                }
                engine.apply(bytes.as_slice());
            }
        },
        Segment::Bomb(b) => {
            let len = b.data.len();
            let full = b.size.div_small(len as u64);
            let extra = b.size.rem_small(len as u64) as usize;
            proof {
                lemma_cycle_split(b.data@, b.size@);
                lemma_crc_feed_concat(
                    engine@,
                    repeat(b.data@, b.size@ / b.data@.len()),
                    b.data@.take(extra as int),
                );
            }
            engine.apply_rep(b.data.as_slice(), full);
            let head = &b.data.as_slice()[0..extra];
            assert(head@ == b.data@.take(extra as int));
            proof {
                engine.lemma_fed_view(head@);
            }
            engine.apply(head);
        },
    }
}

impl Payload {
    /// The Adler-32 checksum of the bytes of this layer, big-endian, in
    /// time that does not depend on the sizes of its bombs.
    pub fn adler32(&self) -> (r: [u8; 4])
        requires
            self@.expandable(),
        ensures
            r@ == adler32(self@.bytes()),
    {
        let mut engine = AdlerEngine::new();
        let n = self.data.len();
        let mut i: usize = 0;
        while i < n
            invariant
                n == self.data@.len(),
                i <= n,
                self@.expandable(),
                engine@ == adler_feed(adler_init(), concat(self@.data.take(i as int))),
            decreases n - i,
        {
            proof {
                let before = self@.data.take(i as int);
                assert(self@.data.take(i + 1).drop_last() == before);
                assert(self@.data[i as int].expandable());
                lemma_adler_feed_concat(adler_init(), concat(before), self@.data[i as int].bytes());
            }
            feed_adler(&mut engine, &self.data[i]);
            i += 1;
        }
        proof {
            assert(self@.data.take(n as int) == self@.data);
        }
        engine.bytes()
    }

    /// The CRC-32 checksum of the bytes of this layer, big-endian, in time
    /// logarithmic in the sizes of its bombs.
    pub fn crc32(&self) -> (r: [u8; 4])
        requires
            self@.expandable(),
        ensures
            r@ == be_bytes(crc32(self@.bytes())),
    {
        let mut engine = Crc32Engine::new();
        let n = self.data.len();
        let mut i: usize = 0;
        while i < n
            invariant
                n == self.data@.len(),
                i <= n,
                self@.expandable(),
                engine@ == crc_feed(0xffff_ffff, concat(self@.data.take(i as int))),
            decreases n - i,
        {
            proof {
                let before = self@.data.take(i as int);
                assert(self@.data.take(i + 1).drop_last() == before);
                assert(self@.data[i as int].expandable());
                lemma_crc_feed_concat(0xffff_ffff, concat(before), self@.data[i as int].bytes());
            }
            feed_crc32(&mut engine, &self.data[i]);
            i += 1;
        }
        proof {
            assert(self@.data.take(n as int) == self@.data);
            engine.lemma_digest_view();
        }
        engine.bytes()
    }

    /// Appends the bytes of this layer to `output`, and returns their
    /// number.
    pub fn write(&self, output: &mut Vec<u8>) -> (written: usize)
        requires
            self@.expandable(),
            self@.bytes().len() <= usize::MAX,
        ensures
            final(output)@ == old(output)@ + self@.bytes(),
            written == self@.bytes().len(),
    {
        let mut size: usize = 0;
        let n = self.data.len();
        let mut i: usize = 0;
        let zero = BigNat::zero();
        proof {
            assert(output@ =~= old(output)@ + concat(self@.data.take(0)));
        }
        while i < n
            invariant
                n == self.data@.len(),
                i <= n,
                zero@ == 0,
                self@.expandable(),
                self@.bytes().len() <= usize::MAX,
                output@ == old(output)@ + concat(self@.data.take(i as int)),
                size == concat(self@.data.take(i as int)).len(),
            decreases n - i,
        {
            proof {
                assert(self@.data.take(i + 1).drop_last() == self@.data.take(i as int));
                assert(self@.data[i as int].expandable());
                lemma_concat_prefix(self@.data, i + 1);
            }
            let ghost before = output@;
            let chunk = self.data[i].chunk(&zero, usize::MAX);
            output.extend_from_slice(chunk.as_slice());
            proof {
                let bytes = self@.data[i as int].bytes();
                assert(chunk@ =~= bytes);
                assert(output@ =~= before + bytes);
                assert(output@ =~= old(output)@ + concat(self@.data.take(i + 1)));
            }
            size += chunk.len();
            i += 1;
        }
        proof {
            assert(self@.data.take(n as int) == self@.data);
        }
        size
    }

    /// Makes every deferred block known, lowest layer first.
    pub fn fill_preset(&mut self)
        requires
            old(self)@.wf(),
        ensures
            final(self)@ == old(self)@.resolve(),
            final(self)@.wf(),
            final(self)@.resolved(),
        decreases old(self)@.depth(),
    {
        let ghost before = self@;
        proof {
            lemma_resolve(before);
        }
        if let Some(child) = &mut self.child {
            child.fill_preset();
        }
        let ghost target = before.resolve();
        let ghost lower = target.child;
        let n = self.data.len();
        let mut i: usize = 0;
        while i < n
            invariant
                n == self.data@.len(),
                n == before.data.len(),
                i <= n,
                before.wf(),
                target == before.resolve(),
                lower == target.child,
                self@.child == lower,
                match lower {
                    Some(c) => c.wf() && c.resolved(),
                    None => true,
                },
                lower is Some == before.child is Some,
                match (lower, before.child) {
                    (Some(c), Some(d)) => *c == d.resolve(),
                    _ => true,
                },
                forall|k: int| 0 <= k < i ==> #[trigger] self@.data[k] == target.data[k],
                forall|k: int| i <= k < n ==> #[trigger] self@.data[k] == before.data[k],
            decreases n - i,
        {
            let ghost current = self@;
            proof {
                assert(before.data[i as int].wf(before.child));
                assert(current.data[i as int] == before.data[i as int]);
                match before.child {
                    Some(d) => {
                        lemma_wf_over_resolved(before.data[i as int], *d);
                    },
                    None => {},
                }
                assert(current.data[i as int].wf(current.child));
            }
            let Payload { data, child } = &mut *self;
            if let Segment::Block(b) = &mut data[i] {
                match child {
                    Some(c) => {
                        b.fill(Some(&mut **c));
                    },
                    None => {
                        b.fill(None);
                    },
                }
            }
            proof {
                assert(self@.child == current.child);
                assert(self@.data[i as int] == target.data[i as int]);
                assert forall|k: int| 0 <= k < i + 1 implies #[trigger] self@.data[k]
                    == target.data[k] by {
                    if k < i {
                        assert(self@.data[k] == current.data[k]);
                    }
                }
                assert forall|k: int| i + 1 <= k < n implies #[trigger] self@.data[k]
                    == before.data[k] by {
                    assert(self@.data[k] == current.data[k]);
                }
            }
            i += 1;
        }
        proof {
            assert(self@.data =~= target.data);
        }
    }

    /// Gives every bomb of this layer the size `bomb_size` and the bombs
    /// below the sizes that follow from it, then makes every deferred
    /// block known.
    pub fn fill(&mut self, bomb_size: &BigNat)
        requires
            old(self)@.wf(),
        ensures
            final(self)@ == old(self)@.fill(bomb_size@),
            final(self)@.wf(),
            final(self)@.resolved(),
    {
        let ghost before = self@;
        let n = self.data.len();
        let mut i: usize = 0;
        while i < n
            invariant
                n == self.data@.len(),
                n == before.data.len(),
                i <= n,
                self@ == before.set_bombs(i as nat, bomb_size@),
                self@.wf(),
            decreases n - i,
        {
            let ghost current = self@;
            proof {
                lemma_set_bomb(current, i as int, bomb_size@);
                assert(current.data[i as int].wf(current.child));
            }
            let Payload { data, child } = &mut *self;
            if let Segment::Bomb(b) = &mut data[i] {
                match child {
                    Some(c) => {
                        b.fill(Some(&mut **c), bomb_size);
                    },
                    None => {
                        b.fill(None, bomb_size);
                    },
                }
            }
            proof {
                assert(self@.data =~= current.set_bomb(i as int, bomb_size@).data);
            }
            i += 1;
        }
        self.fill_preset();
    }

    /// Whether the bytes of this layer can be told: see `expandable`.
    pub fn is_expandable(&self) -> (r: bool)
        ensures
            r == self@.expandable(),
    {
        let n = self.data.len();
        let mut i: usize = 0;
        while i < n
            invariant
                n == self.data@.len(),
                i <= n,
                forall|k: int| 0 <= k < i ==> (#[trigger] self@.data[k]).expandable(),
            decreases n - i,
        {
            if !self.data[i].is_expandable() {
                assert(!self@.data[i as int].expandable());
                return false;
            }
            i += 1;
        }
        true
    }

    /// Whether every segment of this layer and of the layers below is
    /// consistent with the layer under it: see `wf`.
    pub fn is_wf(&self) -> (r: bool)
        ensures
            r == self@.wf(),
        decreases self,
    {
        let below = match &self.child {
            Some(c) => {
                if !c.is_wf() {
                    return false;
                }
                Some(&**c)
            },
            None => None,
        };
        let n = self.data.len();
        let mut i: usize = 0;
        while i < n
            invariant
                n == self.data@.len(),
                i <= n,
                match below {
                    Some(c) => self@.child == Some(Box::new(c@)) && c@.wf(),
                    None => self@.child is None,
                },
                forall|k: int| 0 <= k < i ==> (#[trigger] self@.data[k]).wf(self@.child),
            decreases n - i,
        {
            if !self.data[i].is_wf(below) {
                assert(!self@.data[i as int].wf(self@.child));
                return false;
            }
            i += 1;
        }
        true
    }

    /// The segments of this layer.
    pub fn segments(&self) -> (r: &Vec<Segment>)
        ensures
            segments_view(r@) == self@.data,
    {
        &self.data
    }

    /// A payload of the lowest layer, with the segments of `data`.
    pub fn new(data: Box<[Segment]>) -> (r: Payload)
        ensures
            r@ == (PayloadView { data: segments_view(data@), child: None }),
            (forall|i: int| 0 <= i < data@.len() ==> (#[trigger] data@[i]@).wf(None)) ==> r@.wf(),
    {
        Payload { data: data.into_vec(), child: None }
    }

    /// A payload with the segments of `data` above the layer `child`.
    pub(crate) fn layer(data: Vec<Segment>, child: Payload) -> (r: Payload)
        ensures
            r@ == (PayloadView { data: segments_view(data@), child: Some(Box::new(child@)) }),
    {
        Payload { data, child: Some(Box::new(child)) }
    }

    /// The size of this layer: the lengths of its blocks and the sizes of
    /// its bombs.
    pub fn size(&self) -> (r: BigNat)
        ensures
            r@ == self@.size(),
    {
        let mut ret = BigNat::zero();
        let n = self.data.len();
        let mut i: usize = 0;
        while i < n
            invariant
                n == self.data@.len(),
                i <= n,
                ret@ == total_size(self@.data.take(i as int)),
            decreases n - i,
        {
            proof {
                assert(self@.data.take(i + 1).drop_last() == self@.data.take(i as int));
            }
            match &self.data[i] {
                Segment::Block(b) => {
                    ret = ret.add(&BigNat::from_u64(b.len as u64));
                },
                Segment::Bomb(b) => {
                    ret = ret.add(&b.size);
                },
            }
            i += 1;
        }
        proof {
            assert(self@.data.take(n as int) == self@.data);
        }
        ret
    }

    /// The size of the lowest layer.
    pub fn final_size(&self) -> (r: BigNat)
        ensures
            r@ == self@.final_size(),
        decreases self,
    {
        match &self.child {
            Some(child) => child.final_size(),
            None => self.size(),
        }
    }
}

} // verus!
