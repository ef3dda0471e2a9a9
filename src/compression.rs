//! Gzip for record batch payloads, through the flate2 crate.
use vstd::prelude::*;
use std::io::{Read, Write};
use crate::error::{Compression, Error, ErrorKind};

verus! {

/// The gzip stream that flate2 writes for these bytes.
pub uninterp spec fn gzip_of(b: Seq<u8>) -> Seq<u8>;

/// The bytes that flate2 inflates from this gzip stream, if it is one.
pub uninterp spec fn gunzip_of(b: Seq<u8>) -> Option<Seq<u8>>;

/// Relies on flate2::write::GzEncoder at the default level: the stream it
/// writes depends on the input alone (its header carries no time and a fixed
/// operating-system byte), and writing into a `Vec` does not fail.
#[verifier::external_body]
fn gzip_encode(b: &[u8]) -> (r: Option<Vec<u8>>)
    ensures
        r is Some,
        r matches Some(v) ==> v@ == gzip_of(b@),
{
    let mut e = flate2::write::GzEncoder::new(Vec::new(), flate2::Compression::default());
    e.write_all(b).ok()?;
    e.finish().ok()
}

/// Relies on flate2::read::GzDecoder: whether the bytes inflate, and to
/// what, depends on the bytes alone.
#[verifier::external_body]
fn gzip_decode(b: &[u8]) -> (r: Option<Vec<u8>>)
    ensures
        r is Some <==> gunzip_of(b@) is Some,
        r matches Some(v) ==> v@ == gunzip_of(b@)->0,
{
    let mut out = Vec::new();
    flate2::read::GzDecoder::new(b).read_to_end(&mut out).ok()?;
    Some(out)
}

/// Gzip-compresses `src`.
pub fn compress(src: &[u8]) -> (r: Result<Vec<u8>, Error>)
    ensures
        r is Ok,
        r matches Ok(v) ==> v@ == gzip_of(src@),
{
    match gzip_encode(src) {
        Some(v) => Ok(v),
        None => Err(Error::new(ErrorKind::CompressionFailed)),
    }
}

/// Inflates the gzip stream `src`.
pub fn decompress(src: &[u8]) -> (r: Result<Vec<u8>, Error>)
    ensures
        match gunzip_of(src@) {
            Some(v) => r matches Ok(x) && x@ == v,
            None => r matches Err(e) && e.kind == ErrorKind::CompressionFailed,
        },
{
    match gzip_decode(src) {
        Some(v) => Ok(v),
        None => Err(Error::new(ErrorKind::CompressionFailed)),
    }
}

/// The codec named by the three low bits of a batch's attributes.
pub open spec fn compression_of(attributes: i16) -> Compression {
    let c = attributes & 7;
    if c == 0 {
        Compression::Uncompressed
    } else if c == 1 {
        Compression::Gzip
    } else if c == 2 {
        Compression::Snappy
    } else if c == 3 {
        Compression::Lz4
    } else if c == 4 {
        Compression::Zstd
    } else {
        Compression::Unknown
    }
}

} // verus!
