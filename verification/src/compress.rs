//! The compressor: a gzip stream around the serialized report.

use crate::error::ProfileError;
use flate2::read::GzDecoder;
use flate2::write::GzEncoder;
use flate2::Compression;
use std::io::{Read, Write};
use vstd::prelude::*;

verus! {

/// The error type of `std::io`, carried through without a look inside.
#[verifier::external_type_specification]
#[verifier::external_body]
pub struct ExIoError(std::io::Error);

/// What `flate2::write::GzEncoder` makes of `input` at the default
/// compression level: the finished gzip stream, or nothing where the
/// encoder fails. The encoder writes a fixed header without a time stamp
/// or a platform byte, and it writes into memory, so its outcome depends
/// on the input alone.
pub uninterp spec fn gzip_outcome(input: Seq<u8>) -> Option<Seq<u8>>;

/// What `flate2::read::GzDecoder` reads out of `stream`: the bytes of its
/// first gzip member, or nothing where the stream is not one.
pub uninterp spec fn gunzip(stream: Seq<u8>) -> Option<Seq<u8>>;

/// Runs `flate2::write::GzEncoder` over `input`: `new` with the default
/// level, `write_all`, then `finish`, which writes the trailer.
///
/// Trusted: the outcome is the encoder's outcome on `input`, which the
/// name [`gzip_outcome`] stands for, and decoding a stream that comes back
/// gives `input` back.
#[verifier::external_body]
fn gzip(input: &[u8]) -> (outcome: Result<Vec<u8>, std::io::Error>)
    ensures
        match outcome {
            Ok(stream) => gzip_outcome(input@) == Some(stream@) && gunzip(stream@) == Some(
                input@,
            ),
            Err(_) => gzip_outcome(input@) is None,
        },
{
    let mut encoder = GzEncoder::new(Vec::new(), Compression::default());
    encoder.write_all(input)?;
    encoder.finish()
}

/// Runs `flate2::read::GzDecoder` over `stream` with `read_to_end`.
///
/// Trusted: the outcome is what the decoder reads, which the name
/// [`gunzip`] stands for; an error means that it reads nothing.
#[verifier::external_body]
fn gunzip_bytes(stream: &[u8]) -> (outcome: Result<Vec<u8>, std::io::Error>)
    ensures
        outcome matches Ok(bytes) ==> gunzip(stream@) == Some(bytes@),
        outcome is Err ==> gunzip(stream@) is None,
{
    let mut bytes = Vec::new();
    GzDecoder::new(stream).read_to_end(&mut bytes)?;
    Ok(bytes)
}

/// What the compressor returns for an outcome of the encoder: the stream
/// as it is, or a compression failure for any error.
pub fn compression_outcome(outcome: Result<Vec<u8>, std::io::Error>) -> (result: Result<
    Vec<u8>,
    ProfileError,
>)
    ensures
        outcome matches Ok(stream) ==> result == Ok::<Vec<u8>, ProfileError>(stream),
        outcome is Err ==> result == Err::<Vec<u8>, ProfileError>(ProfileError::Compression),
{
    match outcome {
        Ok(stream) => Ok(stream),
        Err(_) => Err(ProfileError::Compression),
    }
}

/// Compresses `bytes` into a finished gzip stream at the default, balanced
/// level.
///
/// The result is the encoder's outcome on `bytes`: its stream, complete
/// with the trailer, from which decoding gives `bytes` back, or a
/// compression failure where the encoder fails.
pub fn compress(bytes: &Vec<u8>) -> (result: Result<Vec<u8>, ProfileError>)
    ensures
        match result {
            Ok(stream) => gzip_outcome(bytes@) == Some(stream@) && gunzip(stream@) == Some(
                bytes@,
            ),
            Err(error) => error == ProfileError::Compression && gzip_outcome(bytes@) is None,
        },
{
    compression_outcome(gzip(bytes.as_slice()))
}

/// Decodes a gzip stream. Returns `None` where `stream` is not one.
pub fn decompress(stream: &Vec<u8>) -> (result: Option<Vec<u8>>)
    ensures
        result matches Some(bytes) ==> gunzip(stream@) == Some(bytes@),
        result is None ==> gunzip(stream@) is None,
{
    match gunzip_bytes(stream.as_slice()) {
        Ok(bytes) => Some(bytes),
        Err(_) => None,
    }
}

} // verus!
