use flate2::read::{DeflateDecoder, GzDecoder, ZlibDecoder};
use ied::bignat::BigNat;
use ied::deflate::{deflate_raw, frame_bytes, gzip, is_deflatable, zlib};
use ied::payload::{Block, Bomb, Payload, Segment};
use std::io::Read;

fn block(bytes: &[u8]) -> Segment {
    Segment::Block(Block::new(bytes.to_vec().into_boxed_slice()))
}

fn bomb(byte: u8) -> Segment {
    Segment::Bomb(Bomb::new(vec![byte].into_boxed_slice()))
}

fn payload(segments: Vec<Segment>) -> Payload {
    Payload::new(segments.into_boxed_slice())
}

fn written(p: &Payload) -> Vec<u8> {
    let mut out = Vec::new();
    let n = p.write(&mut out);
    assert_eq!(n, out.len());
    out
}

fn gunzip(bytes: &[u8]) -> Vec<u8> {
    let mut out = Vec::new();
    GzDecoder::new(bytes).read_to_end(&mut out).expect("a gzip stream");
    out
}

fn unzlib(bytes: &[u8]) -> Vec<u8> {
    let mut out = Vec::new();
    ZlibDecoder::new(bytes).read_to_end(&mut out).expect("a zlib stream");
    out
}

fn inflate(bytes: &[u8]) -> Vec<u8> {
    let mut out = Vec::new();
    DeflateDecoder::new(bytes).read_to_end(&mut out).expect("a DEFLATE stream");
    out
}

fn crc_le(data: &[u8]) -> [u8; 4] {
    let mut v: u32 = 0xffff_ffff;
    for b in data {
        v ^= *b as u32;
        for _ in 0..8 {
            v = if v & 1 != 0 { (v >> 1) ^ 0xedb8_8320 } else { v >> 1 };
        }
    }
    (!v).to_le_bytes()
}

#[test]
fn single_bomb_is_written_out() {
    let mut p = payload(vec![bomb(0x41)]);
    p.fill(&BigNat::from_u64(5));
    assert_eq!(written(&p), vec![0x41, 0x41, 0x41, 0x41, 0x41]);
}

#[test]
fn bomb_of_size_zero_writes_nothing() {
    let mut p = payload(vec![block(b"x"), bomb(0x41), block(b"y")]);
    p.fill(&BigNat::zero());
    assert_eq!(written(&p), b"xy".to_vec());
}

#[test]
fn multi_byte_pattern_cycles() {
    let mut p = payload(vec![Segment::Bomb(Bomb::new(b"abc".to_vec().into_boxed_slice()))]);
    p.fill(&BigNat::from_u64(8));
    assert_eq!(written(&p), b"abcabcab".to_vec());
    assert_eq!(p.size().to_u64(), Some(8));
}

#[test]
fn gzip_of_two_bytes() {
    let mut p = gzip(payload(vec![block(&[0x41, 0x42])]));
    p.fill(&BigNat::zero());
    let out = written(&p);
    let expected: Vec<u8> = vec![
        0x1f, 0x8b, 0x08, 0x00, 0x00, 0x00, 0x00, 0x00, 0x02, 0xff, // header
        0x01, 0x02, 0x00, 0xfd, 0xff, 0x41, 0x42, // one final stored sub-block
        0x07, 0x4c, 0x69, 0x30, // CRC-32 of "AB", little-endian
        0x02, 0x00, 0x00, 0x00, // ISIZE
    ];
    assert_eq!(out, expected);
    assert_eq!(gunzip(&out), b"AB".to_vec());
}

#[test]
fn zlib_of_two_bytes() {
    let mut p = zlib(payload(vec![block(&[0x41, 0x42])]));
    p.fill(&BigNat::zero());
    let out = written(&p);
    let expected: Vec<u8> = vec![
        0x08, 0x1d, // header
        0x01, 0x02, 0x00, 0xfd, 0xff, 0x41, 0x42, // one final stored sub-block
        0x00, 0xc6, 0x00, 0x84, // Adler-32 of "AB", big-endian
    ];
    assert_eq!(out, expected);
    assert_eq!(unzlib(&out), b"AB".to_vec());
}

#[test]
fn raw_deflate_of_two_blocks() {
    let mut p = deflate_raw(payload(vec![block(b"ab"), block(b"cd")]));
    p.fill(&BigNat::zero());
    let out = written(&p);
    assert_eq!(out, vec![0x01, 0x04, 0x00, 0xfb, 0xff, b'a', b'b', b'c', b'd']);
    assert_eq!(inflate(&out), b"abcd".to_vec());
}

#[test]
fn gzip_bomb_inflates_to_the_size_below() {
    let mut p = gzip(payload(vec![bomb(0x41)]));
    p.fill(&BigNat::from_u64(10));
    let out = written(&p);
    // header, wrapper block, ten bytes of 0x55, terminator, two trailers
    assert_eq!(out.len(), 10 + 19 + 10 + 1 + 8);
    assert_eq!(&out[29..39], &[0x55; 10]);
    let inner = gunzip(&out);
    assert_eq!(inner, vec![0x41; 10 * 1032 + 1291]);
    assert_eq!(&out[out.len() - 8..out.len() - 4], &crc_le(&inner));
    assert_eq!(&out[out.len() - 4..], &(inner.len() as u32).to_le_bytes());
    assert_eq!(p.final_size().to_u64(), Some(11611));
}

#[test]
fn double_gzip_inflates_twice() {
    let mut p = gzip(gzip(payload(vec![bomb(0x41)])));
    p.fill(&BigNat::from_u64(1));
    let out = written(&p);
    let middle = gunzip(&out);
    // The run of 0x55 in the middle stream has 1 * 1032 + 1291 bytes.
    assert_eq!(middle.len(), 10 + 19 + 2323 + 1 + 8);
    assert_eq!(&out[out.len() - 4..], &(middle.len() as u32).to_le_bytes());
    let inner_size: u32 = 2323 * 1032 + 1291;
    assert_eq!(&middle[middle.len() - 4..], &inner_size.to_le_bytes());
    let inner = gunzip(&middle);
    assert_eq!(inner, vec![0x41; inner_size as usize]);
    assert_eq!(p.final_size().to_u64(), Some(inner_size as u64));
}

#[test]
fn round_trips_through_reference_decoders() {
    let long: Vec<u8> = (0..150_000u32).map(|i| (i % 251) as u8).collect();
    for size in [0u64, 1, 3, 200] {
        let cases: Vec<Vec<Segment>> = vec![
            vec![block(b"hello")],
            vec![block(&long)],
            vec![block(&long[..65535])],
            vec![block(&long[..65536])],
            vec![bomb(0x00)],
            vec![block(b"head"), bomb(0x41)],
            vec![bomb(0x41), block(b"tail")],
            vec![block(&long), bomb(0x42), block(&long)],
            vec![block(b"a"), block(b"b"), bomb(0x43), block(b"c"), block(b"d")],
            vec![bomb(0x44), block(&long), bomb(0x45)],
            vec![bomb(0x46), block(&long[..65535]), bomb(0x47), block(b"e"), block(&long)],
            vec![block(b"f"), bomb(0x48), bomb(0x49), block(b"g")],
        ];
        for segments in cases {
            let mut plain = payload(segments);
            plain.fill(&BigNat::from_u64(size * 1032 + 1291));
            let expected = written(&plain);
            for wrap in 0..3 {
                let mut p = match wrap {
                    0 => gzip(plain_again(&expected)),
                    1 => zlib(plain_again(&expected)),
                    _ => deflate_raw(plain_again(&expected)),
                };
                p.fill(&BigNat::from_u64(size));
                let out = written(&p);
                let back = match wrap {
                    0 => gunzip(&out),
                    1 => unzlib(&out),
                    _ => inflate(&out),
                };
                assert_eq!(back.len(), expected.len());
                assert!(back == expected);
            }
        }
    }
}

// A payload with the shape that `round_trips_through_reference_decoders`
// wrote out: runs of equal bytes longer than 1000 are bombs, the rest blocks.
fn plain_again(expected: &[u8]) -> Payload {
    let mut segments = Vec::new();
    let mut i = 0;
    let mut lit = Vec::new();
    while i < expected.len() {
        let mut j = i;
        while j < expected.len() && expected[j] == expected[i] {
            j += 1;
        }
        if j - i >= 1291 {
            if !lit.is_empty() {
                segments.push(block(&lit));
                lit.clear();
            }
            segments.push(bomb(expected[i]));
        } else {
            lit.extend_from_slice(&expected[i..j]);
        }
        i = j;
    }
    if !lit.is_empty() {
        segments.push(block(&lit));
    }
    payload(segments)
}

#[test]
fn filling_twice_is_filling_once() {
    let mut once = gzip(payload(vec![block(b"head"), bomb(0x41), block(b"tail")]));
    once.fill(&BigNat::from_u64(7));
    let mut twice = gzip(payload(vec![block(b"head"), bomb(0x41), block(b"tail")]));
    twice.fill(&BigNat::from_u64(7));
    twice.fill(&BigNat::from_u64(7));
    assert_eq!(written(&once), written(&twice));
    assert_eq!(written(&twice), written(&twice));
}

#[test]
fn gzip_length_field_wraps_at_two_to_the_32() {
    let mut p = gzip(payload(vec![block(b"abc"), bomb(0x41)]));
    p.fill(&BigNat::from_u64(5_000_000));
    let out = written(&p);
    let size: u64 = 3 + 5_000_000 * 1032 + 1291;
    assert!(size > u32::MAX as u64);
    assert_eq!(&out[out.len() - 4..], &((size % (1 << 32)) as u32).to_le_bytes());
    assert_eq!(p.final_size().to_u64(), Some(size));
}

#[test]
fn checksums_of_a_huge_bomb_agree_with_their_parts() {
    // 10^30 bytes of "ab": the checksum of the layer is that of the engine.
    let n = num::BigUint::from(10u8).pow(30);
    let size = BigNat::from_digits(n.to_u32_digits());
    let mut p = payload(vec![
        block(b"head"),
        Segment::Bomb(Bomb::new(b"ab".to_vec().into_boxed_slice())),
    ]);
    p.fill(&size);
    let mut crc = ied::crc32::Crc32Engine::new();
    let mut adler = ied::adler::AdlerEngine::new();
    ied::checksum::ChecksumEngine::apply(&mut crc, b"head");
    adler.apply(b"head");
    ied::checksum::ChecksumEngine::apply_rep(&mut crc, b"ab", size.div_small(2));
    adler.apply_rep(b"ab", size.div_small(2));
    assert_eq!(p.crc32(), ied::checksum::ChecksumEngine::bytes(&crc));
    assert_eq!(p.adler32(), adler.bytes());
}

#[test]
fn checksums_of_a_layer_agree_with_its_bytes() {
    for size in [0u64, 1, 2, 3, 4, 5, 1000, 65521 * 3 + 1] {
        let mut p = payload(vec![
            block(b"one"),
            Segment::Bomb(Bomb::new(b"xyz".to_vec().into_boxed_slice())),
            block(b""),
            bomb(0xff),
            block(b"two"),
        ]);
        p.fill(&BigNat::from_u64(size));
        let bytes = written(&p);
        let mut crc = p.crc32();
        crc.reverse();
        assert_eq!(crc, crc_le(&bytes));
        let mut s1: u32 = 1;
        let mut s2: u32 = 0;
        for b in &bytes {
            s1 = (s1 + *b as u32) % 65521;
            s2 = (s2 + s1) % 65521;
        }
        assert_eq!(p.adler32(), [(s2 >> 8) as u8, s2 as u8, (s1 >> 8) as u8, s1 as u8]);
        assert_eq!(p.size().to_u64(), Some(bytes.len() as u64));
    }
}

#[test]
fn frames_of_literal_bytes() {
    // first group, last: one final stored sub-block
    assert_eq!(frame_bytes(b"hi", false, false, true), vec![0x01, 2, 0, 0xfd, 0xff, b'h', b'i']);
    // first group, more follows
    assert_eq!(frame_bytes(b"hi", false, false, false), vec![0x00, 2, 0, 0xfd, 0xff, b'h', b'i']);
    // after a run: the lead byte holds the header, and the final bit is 0x20
    assert_eq!(frame_bytes(b"hi", true, false, true), vec![0x25, 2, 0, 0xfd, 0xff, b'h', b'i']);
    assert_eq!(frame_bytes(b"hi", true, false, false), vec![0x05, 2, 0, 0xfd, 0xff, b'h', b'i']);
    // before a run: the header of the compressed sub-block follows
    let header = [0xec, 0xc0, 0x81, 0x00, 0x00, 0x00, 0x00, 0x00, 0x90, 0xff, 0x6b, 0x23, 0x54];
    let mut expected = vec![0x00, 1, 0, 0xfe, 0xff, b'A'];
    expected.extend_from_slice(&header);
    assert_eq!(frame_bytes(b"A", false, true, false), expected);
    expected[6] = 0xed;
    assert_eq!(frame_bytes(b"A", false, true, true), expected);
    // nothing at all
    assert_eq!(frame_bytes(b"", false, false, true), Vec::<u8>::new());
    assert_eq!(frame_bytes(b"", true, false, true), vec![0x25]);
}

#[test]
fn frames_are_cut_every_65535_bytes() {
    let lit = vec![0x77u8; 65536];
    let out = frame_bytes(&lit, false, false, true);
    assert_eq!(out.len(), 65536 + 10);
    assert_eq!(&out[..5], &[0x00, 0xff, 0xff, 0x00, 0x00]);
    assert_eq!(&out[65540..65545], &[0x01, 0x01, 0x00, 0xfe, 0xff]);
    let exact = frame_bytes(&lit[..65535], false, false, true);
    assert_eq!(exact.len(), 65535 + 5);
    assert_eq!(&exact[..5], &[0x01, 0xff, 0xff, 0x00, 0x00]);
    let led = frame_bytes(&lit, true, false, true);
    assert_eq!(led.len(), 65536 + 10);
    assert_eq!(&led[..5], &[0x05, 0xff, 0xff, 0x00, 0x00]);
    assert_eq!(led[65540], 0x01);
}

#[test]
fn only_single_byte_bombs_can_be_deflated() {
    assert!(is_deflatable(&payload(vec![block(b"abc"), bomb(1), bomb(2)])));
    assert!(is_deflatable(&payload(vec![])));
    assert!(!is_deflatable(&payload(vec![
        block(b"abc"),
        Segment::Bomb(Bomb::new(b"ab".to_vec().into_boxed_slice())),
    ])));
}

#[test]
fn wrapping_nothing_gives_the_container_alone() {
    let mut p = gzip(payload(vec![]));
    p.fill(&BigNat::from_u64(3));
    assert_eq!(
        written(&p),
        vec![0x1f, 0x8b, 0x08, 0, 0, 0, 0, 0, 0x02, 0xff, 0, 0, 0, 0, 0, 0, 0, 0]
    );
}

#[test]
fn wrapper_lengths_are_known_before_filling() {
    let p = gzip(payload(vec![block(b"head"), bomb(0x41), block(b"tail")]));
    // header, wrapper (5 + 5 + 13), run, wrapper (5 + 4), CRC-32, ISIZE
    let lens: Vec<u64> = p
        .segments()
        .iter()
        .map(|s| match s {
            Segment::Block(b) => b.len() as u64,
            Segment::Bomb(b) => b.size().to_u64().unwrap(),
        })
        .collect();
    assert_eq!(lens, vec![10, 23, 0, 9, 4, 4]);
    assert_eq!(p.size().to_u64(), Some(50));
    let unfilled: Vec<bool> = p
        .segments()
        .iter()
        .map(|s| match s {
            Segment::Block(b) => b.bytes().is_none(),
            Segment::Bomb(_) => false,
        })
        .collect();
    assert_eq!(unfilled, vec![false, true, false, true, true, true]);
}

#[test]
fn segments_come_out_in_chunks() {
    let mut p = payload(vec![
        block(b"abcdefgh"),
        Segment::Bomb(Bomb::new(b"xyz".to_vec().into_boxed_slice())),
    ]);
    p.fill(&BigNat::from_u64(10));
    let segs = p.segments();
    assert_eq!(segs[0].chunk(&BigNat::zero(), 3), b"abc".to_vec());
    assert_eq!(segs[0].chunk(&BigNat::from_u64(6), 3), b"gh".to_vec());
    assert_eq!(segs[0].chunk(&BigNat::from_u64(8), 3), b"".to_vec());
    assert_eq!(segs[1].chunk(&BigNat::zero(), 4), b"xyzx".to_vec());
    assert_eq!(segs[1].chunk(&BigNat::from_u64(4), 4), b"yzxy".to_vec());
    assert_eq!(segs[1].chunk(&BigNat::from_u64(8), 4), b"zx".to_vec());
    assert_eq!(segs[1].chunk(&BigNat::from_u64(10), 4), b"".to_vec());
}

#[test]
fn built_payloads_are_consistent() {
    let plain = payload(vec![block(b"head"), bomb(0x41), block(b"tail")]);
    assert!(plain.is_wf());
    assert!(plain.is_expandable());
    let mut wrapped = gzip(zlib(plain));
    assert!(wrapped.is_wf());
    // The wrapper blocks and the trailers are yet to be made.
    assert!(!wrapped.is_expandable());
    wrapped.fill(&BigNat::from_u64(2));
    assert!(wrapped.is_wf());
    assert!(wrapped.is_expandable());
    for segment in wrapped.segments().iter() {
        assert!(segment.is_expandable());
    }
}

#[test]
fn wrapper_blocks_are_as_long_as_they_say() {
    let long = vec![0x33u8; 200_000];
    let mut p = zlib(payload(vec![block(&long), bomb(0x41), block(b"x"), bomb(0x42)]));
    let before: Vec<usize> = p
        .segments()
        .iter()
        .map(|s| match s {
            Segment::Block(b) => b.len(),
            Segment::Bomb(_) => 0,
        })
        .collect();
    p.fill(&BigNat::from_u64(1));
    for (segment, len) in p.segments().iter().zip(before) {
        if let Segment::Block(b) = segment {
            assert_eq!(b.len(), len);
            assert_eq!(b.bytes().map(|bytes| bytes.len()), Some(len));
        }
    }
}

#[test]
fn final_bit_of_the_header_before_a_run() {
    // In the first group the mask is that of a header byte of its own.
    let first = frame_bytes(b"A", false, true, true);
    assert_eq!(first[0], 0x00);
    assert_eq!(first[6], 0xed);
    // After a run the lead byte holds the header of the only sub-block, and
    // its mask leaves the header before the next run as it is.
    let led = frame_bytes(b"A", true, true, true);
    assert_eq!(led[0], 0x05);
    assert_eq!(led[5], b'A');
    assert_eq!(led[6], 0xec);
    // With a second sub-block the mask is 0x01 again.
    let long = vec![0x11u8; 65536];
    let led_long = frame_bytes(&long, true, true, true);
    assert_eq!(led_long.len(), 65536 + 10 + 13);
    assert_eq!(led_long[0], 0x05);
    assert_eq!(led_long[65540], 0x00);
    assert_eq!(led_long[65546], 0xed);
    // Where more follows nothing is marked.
    assert_eq!(frame_bytes(b"A", false, true, false)[6], 0xec);
}

#[test]
fn sizes_follow_from_the_size_above() {
    let mut p = gzip(gzip(payload(vec![block(b"x"), bomb(0x41)])));
    p.fill(&BigNat::from_u64(3));
    let top: Vec<u64> = p
        .segments()
        .iter()
        .filter_map(|s| match s {
            Segment::Bomb(b) => b.size().to_u64(),
            Segment::Block(_) => None,
        })
        .collect();
    assert_eq!(top, vec![3]);
    // 3 -> 3 * 1032 + 1291 = 4387 -> 4387 * 1032 + 1291 = 4528675
    assert_eq!(p.final_size().to_u64(), Some(1 + 4528675));
}

#[test]
fn a_last_run_after_a_short_group_is_never_closed() {
    // The group of the second bomb follows a run and fits one stored
    // sub-block: the mask of its lead byte is used on the header before
    // the run, where that bit is set already, so no sub-block is final.
    let mut p = deflate_raw(payload(vec![bomb(0x41), block(b"x"), bomb(0x42)]));
    p.fill(&BigNat::from_u64(1));
    let out = written(&p);
    assert_eq!(out[0], 0x00);
    assert_eq!(out[6], 0xec);
    assert_eq!(out[20], 0x05);
    assert_eq!(out[27], 0xec);
    assert_eq!(*out.last().unwrap(), 0x05);
    let mut back = Vec::new();
    assert!(DeflateDecoder::new(&out[..]).read_to_end(&mut back).is_err());
    // With more literal bytes than one sub-block holds, the mask is that
    // of a header byte of its own, and the last header is marked.
    let long = vec![0x11u8; 65535];
    let mut q = deflate_raw(payload(vec![bomb(0x41), block(&long), bomb(0x42)]));
    q.fill(&BigNat::from_u64(1));
    let out = written(&q);
    let expected = 2323 + 65535 + 2323;
    assert_eq!(inflate(&out).len(), expected);
}
