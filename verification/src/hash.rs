//! Trusted boundary to the hashing and compression crates.
//!
//! The two digests below are named by uninterpreted spec functions: nothing in
//! this crate states what their values are, only that they are functions of
//! the input bytes alone.

use std::io::Read;
use std::io::Write;
use vstd::prelude::*;

verus! {

/// The SHA-1 digest (20 bytes) of a byte string.
pub uninterp spec fn sha1_of(data: Seq<u8>) -> Seq<u8>;

/// What decompressing a byte string as a zlib stream yields: the decompressed
/// bytes, or `None` when the input is not a valid zlib stream.
pub uninterp spec fn zlib_inflate_of(data: Seq<u8>) -> Option<Seq<u8>>;

/// Relies on `sha1::Sha1` (via the `digest::Digest` trait): the 20-byte SHA-1
/// digest of the input, a function of the input bytes alone.
#[verifier::external_body]
pub fn sha1_digest(data: &Vec<u8>) -> (r: Vec<u8>)
    ensures
        r@ == sha1_of(data@),
        r@.len() == 20,
{
    let out = <sha1::Sha1 as sha1::Digest>::digest(data.as_slice());
    out.to_vec()
}

/// Relies on `flate2::write::ZlibEncoder` with `Compression::best`: the
/// output is a valid zlib stream that decompresses to exactly the input.
#[verifier::external_body]
pub fn zlib_compress(data: &Vec<u8>) -> (r: Vec<u8>)
    ensures
        zlib_inflate_of(r@) == Some(data@),
{
    let mut enc = flate2::write::ZlibEncoder::new(Vec::new(), flate2::Compression::best());
    enc.write_all(data.as_slice()).expect("in-memory compression failed");
    enc.finish().expect("in-memory compression failed")
}

/// Relies on `flate2::read::ZlibDecoder`: decompresses a zlib stream, failing
/// exactly on inputs that are not a valid zlib stream.
#[verifier::external_body]
pub fn zlib_decompress(data: &Vec<u8>) -> (r: Option<Vec<u8>>)
    ensures
        match r {
            Some(v) => zlib_inflate_of(data@) == Some(v@),
            None => zlib_inflate_of(data@) is None,
        },
{
    let mut dec = flate2::read::ZlibDecoder::new(data.as_slice());
    let mut out = Vec::new();
    match dec.read_to_end(&mut out) {
        Ok(_) => Some(out),
        Err(_) => None,
    }
}

} // verus!
