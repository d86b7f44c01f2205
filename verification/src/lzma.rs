//! The transport wrapper of the frame stream: legacy LZMA compression.
//!
//! The compressed frame block of the container is a legacy LZMA ("LZMA
//! alone") stream.  Compression and decompression are liblzma's work,
//! reached through xz2; what they guarantee — the encoder always produces
//! a stream, and decoding succeeds exactly on well-formed streams, in
//! particular on everything the encoder produced, yielding the original
//! bytes — is stated here over the `lzma_inflate` and `lzma_deflate`
//! names and taken on trust.

use vstd::prelude::*;

use crate::error::Error;

verus! {

/// What decompressing a byte buffer yields: the inflated bytes when the
/// buffer begins with a well-formed, complete legacy LZMA stream, nothing
/// otherwise (a truncated or corrupt stream has no value).  A name for
/// what liblzma's alone decoder computes; its result depends on the input
/// bytes alone.
pub uninterp spec fn lzma_inflate(data: Seq<u8>) -> Option<Seq<u8>>;

/// What compressing a byte buffer yields at this crate's fixed preset.  A
/// name for what liblzma's alone encoder computes; its result depends on
/// the input bytes alone.
pub uninterp spec fn lzma_deflate(data: Seq<u8>) -> Seq<u8>;

/// Relies on xz2's `Stream::new_lzma_decoder` and `process_vec`: decoding
/// is a function of the input bytes, consuming them until the stream ends.
/// The decoder is fed the whole buffer and must report the end of the
/// stream, with the output buffer grown as far as it asks, so it fails —
/// memory exhaustion aside — exactly on the buffers that hold no
/// well-formed stream: the ones `lzma_inflate` maps to nothing.
#[verifier::external_body]
pub fn decompress_replay_data(compressed_data: &Vec<u8>) -> (r: Result<Vec<u8>, Error>)
    ensures
        match r {
            Ok(v) => lzma_inflate(compressed_data@) == Some(v@),
            Err(e) => e == Error::DecompressionFailure && lzma_inflate(compressed_data@)
                is None,
        },
{
    let mut s = match xz2::stream::Stream::new_lzma_decoder(u64::MAX) { Ok(s) => s, Err(_) => return Err(Error::DecompressionFailure) };
    let mut out: Vec<u8> = Vec::new();
    loop {
        out.reserve(65536);
        let seen = (s.total_in(), s.total_out());
        match s.process_vec(&compressed_data[seen.0 as usize..], &mut out, xz2::stream::Action::Finish) {
            Ok(xz2::stream::Status::StreamEnd) => return Ok(out),
            Ok(_) if (s.total_in(), s.total_out()) != seen => {},
            _ => return Err(Error::DecompressionFailure),
        }
    }
}

/// Relies on xz2's `Stream::new_lzma_encoder`, `LzmaOptions::new_preset`
/// and `process_vec`: the alone encoder accepts every byte buffer — the
/// preset is a valid constant and, memory exhaustion aside, nothing can
/// fail — and emits the stream `lzma_deflate` names, which the decoder
/// above inflates back to exactly the input bytes (lossless compression,
/// liblzma's documented contract).  The compression level shapes only the
/// stream's size, never what it inflates to.
#[verifier::external_body]
pub fn compress_replay_data(uncompressed_data: &Vec<u8>) -> (r: Result<Vec<u8>, Error>)
    ensures
        r is Ok,
        match r {
            Ok(c) => c@ == lzma_deflate(uncompressed_data@) && lzma_inflate(c@) == Some(
                uncompressed_data@,
            ),
            Err(_) => true,
        },
{
    let o = match xz2::stream::LzmaOptions::new_preset(6) { Ok(o) => o, Err(_) => return Err(Error::CompressionFailure) };
    let mut s = match xz2::stream::Stream::new_lzma_encoder(&o) { Ok(s) => s, Err(_) => return Err(Error::CompressionFailure) };
    let mut out: Vec<u8> = Vec::new();
    loop {
        out.reserve(65536);
        let seen = (s.total_in(), s.total_out());
        match s.process_vec(&uncompressed_data[seen.0 as usize..], &mut out, xz2::stream::Action::Finish) {
            Ok(xz2::stream::Status::StreamEnd) => return Ok(out),
            Ok(_) if (s.total_in(), s.total_out()) != seen => {},
            _ => return Err(Error::CompressionFailure),
        }
    }
}

} // verus!
