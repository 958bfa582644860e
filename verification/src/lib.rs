//! Decompression bombs: tiny gzip and zlib streams that inflate to
//! astronomically large outputs.
//!
//! A [`payload::Payload`] describes a byte stream lazily, as literal blocks
//! interleaved with repetition bombs whose sizes are arbitrary-precision
//! naturals. Wrapping a payload in [`deflate::gzip`] or [`deflate::zlib`]
//! yields another payload, one layer up, whose bytes are a DEFLATE stream
//! of the wrapped one. Checksums of a payload are evaluated in closed form,
//! without ever expanding a bomb.
//!
//! The modules [`huffman`], [`codes`], [`header`], [`framing`] and
//! [`inflate`] hold no code that runs: they say what a DEFLATE decoder
//! reads from a stream, and prove that it reads a payload back from the
//! stream that was made of it.
pub mod adler;
pub mod bignat;
pub mod checksum;
pub mod codes;
pub mod crc32;
pub mod deflate;
pub mod framing;
pub mod header;
pub mod huffman;
pub mod inflate;
pub mod matrix;
pub mod payload;
