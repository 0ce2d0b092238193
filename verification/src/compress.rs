//! Compression of stored objects: zlib streams, as `flate2` makes and reads
//! them. Objects are hashed before they are compressed, so nothing here
//! bears on what an object is called.

use crate::error::StoreError;
use flate2::read::ZlibDecoder;
use flate2::write::ZlibEncoder;
use flate2::Compression;
use std::io::{Read, Write};
use vstd::prelude::*;

verus! {

/// The zlib stream that `flate2` makes of `data` at its default level, if it
/// makes one.
pub uninterp spec fn zlib_deflated(data: Seq<u8>) -> Option<Seq<u8>>;

/// The bytes that `flate2` reads out of the zlib stream at the start of
/// `stream`, if there is a whole one.
pub uninterp spec fn zlib_inflated(stream: Seq<u8>) -> Option<Seq<u8>>;

/// `flate2::write::ZlibEncoder` over a `Vec`, at `Compression::default()`:
/// `data` goes in with `write_all`, and `finish` hands out the stream. The
/// stream is a function of `data`. What comes out is a zlib stream of
/// `data`: the crate's decoder reads `data` back from it. An error of the
/// encoder comes back as `None`.
#[verifier::external_body]
fn zlib_deflate(data: &[u8]) -> (out: Option<Vec<u8>>)
    ensures
        match out {
            Some(stream) => zlib_deflated(data@) == Some(stream@) && zlib_inflated(stream@)
                == Some(data@),
            None => zlib_deflated(data@) is None,
        },
{
    let mut encoder = ZlibEncoder::new(Vec::new(), Compression::default());
    match encoder.write_all(data) {
        Ok(()) => encoder.finish().ok(),
        Err(_) => None,
    }
}

/// `flate2::read::ZlibDecoder` over a byte slice, read to its end. It reads
/// one zlib stream from the start of `stream` and stops there, whatever
/// follows. A stream that is cut short or damaged is an error, which comes
/// back as `None`.
#[verifier::external_body]
fn zlib_inflate(stream: &[u8]) -> (out: Option<Vec<u8>>)
    ensures
        match out {
            Some(data) => zlib_inflated(stream@) == Some(data@),
            None => zlib_inflated(stream@) is None,
        },
{
    let mut data = Vec::new();
    match ZlibDecoder::new(stream).read_to_end(&mut data) {
        Ok(_) => Some(data),
        Err(_) => None,
    }
}

/// What is kept for compressed `data`, for each outcome of the compressor.
pub fn stream_or_failure(deflated: Option<Vec<u8>>) -> (out: Result<Vec<u8>, StoreError>)
    ensures
        match deflated {
            Some(stream) => out matches Ok(kept) && kept == stream,
            None => out matches Err(e) && e == StoreError::CompressionFailed,
        },
{
    match deflated {
        Some(stream) => Ok(stream),
        None => Err(StoreError::CompressionFailed),
    }
}

/// What is read from a stored stream, for each outcome of the decompressor.
pub fn data_or_corrupt(inflated: Option<Vec<u8>>) -> (out: Result<Vec<u8>, StoreError>)
    ensures
        match inflated {
            Some(data) => out matches Ok(read) && read == data,
            None => out matches Err(e) && e == StoreError::CorruptStream,
        },
{
    match inflated {
        Some(data) => Ok(data),
        None => Err(StoreError::CorruptStream),
    }
}

/// Compresses `data` into a zlib stream. Whatever stream comes out,
/// `decompress` reads `data` back from it. Fails with `CompressionFailed`
/// where the compressor does.
pub fn compress(data: &[u8]) -> (out: Result<Vec<u8>, StoreError>)
    ensures
        match zlib_deflated(data@) {
            Some(stream) => out matches Ok(made) && made@ == stream && zlib_inflated(made@)
                == Some(data@),
            None => out matches Err(e) && e == StoreError::CompressionFailed,
        },
{
    stream_or_failure(zlib_deflate(data))
}

/// Reads the data out of a zlib stream. Fails with `CorruptStream` where
/// `stream` does not start with a whole and sound one.
pub fn decompress(stream: &[u8]) -> (out: Result<Vec<u8>, StoreError>)
    ensures
        match zlib_inflated(stream@) {
            Some(data) => out matches Ok(read) && read@ == data,
            None => out matches Err(e) && e == StoreError::CorruptStream,
        },
{
    data_or_corrupt(zlib_inflate(stream))
}

} // verus!
