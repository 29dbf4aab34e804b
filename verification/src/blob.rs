//! The stored form of an object: its content, gzip-compressed at a fixed
//! level.

use std::io::{Read, Write};
use vstd::prelude::*;
use crate::error::{Missing, StoreError};

verus! {

/// The compression level of every stored object.
pub const COMPRESSION_LEVEL: u32 = 4;

/// `std::io::Error`, which the library carries through without looking
/// inside.
#[verifier::external_type_specification]
#[verifier::external_body]
pub struct ExIoError(std::io::Error);

/// The gzip stream that `flate2` writes for `data` at `level`; `None` where
/// the encoder reports an error. The encoder writes to a buffer in memory,
/// so its outcome depends on `data` and `level` alone.
pub uninterp spec fn gzip_encoded(data: Seq<u8>, level: u32) -> Option<Seq<u8>>;

/// What `flate2` reads out of the gzip stream `blob`; `None` where it
/// rejects the stream.
pub uninterp spec fn gzip_decoded(blob: Seq<u8>) -> Option<Seq<u8>>;

/// Calls `flate2::write::GzEncoder` on a fresh buffer: `new` with
/// `Compression::new(level)`, `write_all` with `data`, `finish`. The result
/// is what `gzip_encoded(data, level)` names: the stream on success, `None`
/// for an error. A stream that comes back is one that
/// `flate2::read::GzDecoder` reads back as `data`.
#[verifier::external_body]
fn gzip_encode(data: &[u8], level: u32) -> (r: Result<Vec<u8>, std::io::Error>)
    requires
        level <= 9,
    ensures
        match r {
            Ok(blob) => gzip_encoded(data@, level) == Some(blob@) && gzip_decoded(blob@) == Some(
                data@,
            ),
            Err(_) => gzip_encoded(data@, level) is None,
        },
{
    let mut encoder = flate2::write::GzEncoder::new(Vec::new(), flate2::Compression::new(level));
    encoder.write_all(data)?;
    encoder.finish()
}

/// Calls `flate2::read::GzDecoder::new` on `blob` and reads it to its end.
/// The result is what `gzip_decoded(blob)` names: the content on success,
/// `None` for an error.
#[verifier::external_body]
fn gzip_decode(blob: &[u8]) -> (r: Result<Vec<u8>, std::io::Error>)
    ensures
        match r {
            Ok(data) => gzip_decoded(blob@) == Some(data@),
            Err(_) => gzip_decoded(blob@) is None,
        },
{
    let mut decoder = flate2::read::GzDecoder::new(blob);
    let mut data = Vec::new();
    decoder.read_to_end(&mut data)?;
    Ok(data)
}

/// The content that a stored blob stands for, or the failure to read it.
pub open spec fn object_content(blob: Seq<u8>) -> Result<Seq<u8>, StoreError> {
    match gzip_decoded(blob) {
        Some(data) => Ok(data),
        None => Err(StoreError::IoFailure),
    }
}

/// What the store makes of the outcome of an I/O call: the value as it is,
/// and `IoFailure` for every error.
pub fn io_outcome<T>(outcome: Result<T, std::io::Error>) -> (r: Result<T, StoreError>)
    ensures
        match outcome {
            Ok(value) => r == Ok::<T, StoreError>(value),
            Err(_) => r == Err::<T, StoreError>(StoreError::IoFailure),
        },
{
    match outcome {
        Ok(value) => Ok(value),
        Err(_) => Err(StoreError::IoFailure),
    }
}

/// The stored form of `data`: the bytes that `put` writes.
///
/// It is the gzip stream of `data` at `COMPRESSION_LEVEL`, and reading it
/// back with `decode_object` gives exactly `data`. The one failure is
/// `IoFailure`, and it comes exactly where the encoder has no stream for
/// `data`.
pub fn encode_object(data: &[u8]) -> (r: Result<Vec<u8>, StoreError>)
    ensures
        match r {
            Ok(blob) => gzip_encoded(data@, COMPRESSION_LEVEL) == Some(blob@) && object_content(
                blob@,
            ) == Ok::<Seq<u8>, StoreError>(data@),
            Err(e) => e == StoreError::IoFailure && gzip_encoded(data@, COMPRESSION_LEVEL) is None,
        },
{
    io_outcome(gzip_encode(data, COMPRESSION_LEVEL))
}

/// The content of a stored blob: the bytes that `get` returns.
///
/// Fails with `IoFailure` exactly where `blob` is no gzip stream that can be
/// read to its end.
pub fn decode_object(blob: &[u8]) -> (r: Result<Vec<u8>, StoreError>)
    ensures
        match r {
            Ok(data) => object_content(blob@) == Ok::<Seq<u8>, StoreError>(data@),
            Err(e) => object_content(blob@) == Err::<Seq<u8>, StoreError>(e),
        },
{
    io_outcome(gzip_decode(blob))
}

/// What `get` returns for a path, `found` being the blob that the store
/// holds there, if it holds one.
///
/// An absent path is not found; a blob that is present is read as
/// `decode_object` reads it.
pub fn get_object(found: Option<&[u8]>) -> (r: Result<Vec<u8>, StoreError>)
    ensures
        match found {
            None => r == Err::<Vec<u8>, StoreError>(StoreError::NotFound(Missing::Path)),
            Some(blob) => match r {
                Ok(data) => object_content(blob@) == Ok::<Seq<u8>, StoreError>(data@),
                Err(e) => object_content(blob@) == Err::<Seq<u8>, StoreError>(e),
            },
        },
{
    match found {
        None => Err(StoreError::NotFound(Missing::Path)),
        Some(blob) => decode_object(blob),
    }
}

} // verus!
