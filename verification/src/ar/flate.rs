//! The DEFLATE and gzip streams that file payloads are stored as, made and
//! read by `flate2`.

use vstd::prelude::*;
use std::io::{Read, Write};
use flate2::read::{DeflateDecoder, GzDecoder};
use flate2::write::{DeflateEncoder, GzEncoder};
use flate2::Compression;
use super::entry::{CompressMethod, CompressType};

verus! {

/// The raw DEFLATE stream that `flate2` makes of `data` at a level, where
/// its compressor reports no error.
pub uninterp spec fn deflated(data: Seq<u8>, level: u32) -> Option<Seq<u8>>;

/// The gzip stream that `flate2` makes of `data` at a level, with the
/// header of a new encoder: no name, no time, no system; where its
/// compressor reports no error.
pub uninterp spec fn gzipped(data: Seq<u8>, level: u32) -> Option<Seq<u8>>;

/// The bytes that `flate2` reads from a raw DEFLATE stream, where it reads
/// it to its end without an error.
pub uninterp spec fn inflated(stream: Seq<u8>) -> Option<Seq<u8>>;

/// The bytes that `flate2` reads from a gzip stream, where it reads it to
/// its end without an error.
pub uninterp spec fn gunzipped(stream: Seq<u8>) -> Option<Seq<u8>>;

/// `flate2::write::DeflateEncoder` over a vector: writes all of `data` and
/// finishes the stream. The vector takes every byte, so the outcome, the
/// stream or the error of the compressor, depends on `data` and the level
/// alone.
#[verifier::external_body]
pub(crate) fn deflate(data: &[u8], level: u32) -> (stream: Result<Vec<u8>, std::io::Error>)
    requires
        level <= 9,
    ensures
        match stream {
            Ok(stream) => deflated(data@, level) == Some(stream@),
            Err(_) => deflated(data@, level) is None,
        },
{
    let mut encoder = DeflateEncoder::new(Vec::new(), Compression::new(level));
    encoder.write_all(data)?;
    encoder.finish()
}

/// `flate2::write::GzEncoder` over a vector: writes all of `data` and
/// finishes the stream. The vector takes every byte, so the outcome, the
/// stream or the error of the compressor, depends on `data` and the level
/// alone.
#[verifier::external_body]
pub(crate) fn gzip(data: &[u8], level: u32) -> (stream: Result<Vec<u8>, std::io::Error>)
    requires
        level <= 9,
    ensures
        match stream {
            Ok(stream) => gzipped(data@, level) == Some(stream@),
            Err(_) => gzipped(data@, level) is None,
        },
{
    let mut encoder = GzEncoder::new(Vec::new(), Compression::new(level));
    encoder.write_all(data)?;
    encoder.finish()
}

/// `flate2::read::DeflateDecoder` over a slice, read to its end: the bytes
/// of the stream, or the error of a stream that is not well formed. It
/// undoes the encoder: the stream that `flate2` made of some bytes, at
/// whatever level, is read as those bytes.
#[verifier::external_body]
pub(crate) fn inflate(stream: &[u8]) -> (data: Result<Vec<u8>, std::io::Error>)
    ensures
        match data {
            Ok(data) => inflated(stream@) == Some(data@),
            Err(_) => inflated(stream@) is None,
        },
        forall|bytes: Seq<u8>, level: u32|
            level <= 9 && #[trigger] deflated(bytes, level) == Some(stream@) ==> data is Ok
                && data->Ok_0@ == bytes,
{
    let mut data = Vec::new();
    DeflateDecoder::new(stream).read_to_end(&mut data)?;
    Ok(data)
}

/// `flate2::read::GzDecoder` over a slice, read to its end: the bytes of
/// the stream, or the error of a stream that is not well formed. It undoes
/// the encoder: the stream that `flate2` made of some bytes, at whatever
/// level, is read as those bytes.
#[verifier::external_body]
pub(crate) fn gunzip(stream: &[u8]) -> (data: Result<Vec<u8>, std::io::Error>)
    ensures
        match data {
            Ok(data) => gunzipped(stream@) == Some(data@),
            Err(_) => gunzipped(stream@) is None,
        },
        forall|bytes: Seq<u8>, level: u32|
            level <= 9 && #[trigger] gzipped(bytes, level) == Some(stream@) ==> data is Ok
                && data->Ok_0@ == bytes,
{
    let mut data = Vec::new();
    GzDecoder::new(stream).read_to_end(&mut data)?;
    Ok(data)
}

/// The payload that is stored for the bytes of a file; nothing where the
/// compressor reports an error.
pub open spec fn packed_form(compression: CompressType, bytes: Seq<u8>) -> Option<Seq<u8>> {
    match compression.1 {
        CompressMethod::Stored => Some(bytes),
        CompressMethod::Deflate => deflated(bytes, CompressType::level_of(compression.0)),
        CompressMethod::Gzip => gzipped(bytes, CompressType::level_of(compression.0)),
    }
}

/// The bytes of a file that a stored payload stands for, where the payload
/// is well formed.
pub open spec fn unpacked_form(compression: CompressType, payload: Seq<u8>) -> Option<Seq<u8>> {
    match compression.1 {
        CompressMethod::Stored => Some(payload),
        CompressMethod::Deflate => inflated(payload),
        CompressMethod::Gzip => gunzipped(payload),
    }
}

/// Copies a slice into a vector.
pub fn copy_of(bytes: &[u8]) -> (copy: Vec<u8>)
    ensures
        copy@ == bytes@,
{
    let mut copy: Vec<u8> = Vec::new();
    copy.extend_from_slice(bytes);
    assert(copy@ =~= bytes@);
    copy
}

/// Turns the bytes of a file into the payload that is stored for them:
/// the bytes as they are, or their DEFLATE or gzip stream at the level of
/// the quality. Where the compressor fails, its error is handed on.
pub fn pack_payload(compression: CompressType, bytes: Vec<u8>) -> (payload: Result<
    Vec<u8>,
    std::io::Error,
>)
    ensures
        match packed_form(compression, bytes@) {
            Some(stream) => payload is Ok && payload->Ok_0@ == stream,
            None => payload is Err,
        },
{
    match compression.1 {
        CompressMethod::Stored => Ok(bytes),
        CompressMethod::Deflate => deflate(bytes.as_slice(), compression.level()),
        CompressMethod::Gzip => gzip(bytes.as_slice(), compression.level()),
    }
}

/// Turns a stored payload back into the bytes of the file; a payload that
/// is not well formed gives the decompressor's error. The payload that was
/// stored for some bytes is turned back into those bytes.
pub fn unpack_payload(compression: CompressType, payload: Vec<u8>) -> (bytes: Result<
    Vec<u8>,
    std::io::Error,
>)
    ensures
        match bytes {
            Ok(bytes) => unpacked_form(compression, payload@) == Some(bytes@),
            Err(_) => unpacked_form(compression, payload@) is None,
        },
        forall|raw: Seq<u8>| #[trigger]
            packed_form(compression, raw) == Some(payload@) ==> bytes is Ok && bytes->Ok_0@
                == raw,
{
    match compression.1 {
        CompressMethod::Stored => Ok(payload),
        CompressMethod::Deflate => inflate(payload.as_slice()),
        CompressMethod::Gzip => gunzip(payload.as_slice()),
    }
}

} // verus!
