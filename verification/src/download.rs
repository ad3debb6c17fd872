//! The stored form of a blob: gzip, then base64, and back.

use base64::Engine;
use crate::error::EncodingFailure;
use flate2::Compression;
use flate2::read::GzDecoder;
use flate2::write::GzEncoder;
use std::io::Read;
use std::io::Write;
use vstd::prelude::*;
use vstd::slice::slice_to_vec;
use vstd::string::*;

verus! {

/// `DecodeError` of the crate base64: why a text is no base64, carried
/// through and not looked into.
#[verifier::external_type_specification]
#[verifier::external_body]
pub struct ExDecodeError(base64::DecodeError);

/// `std::io::Error`: why reading or writing failed, carried through and
/// not looked into.
#[verifier::external_type_specification]
#[verifier::external_body]
pub struct ExIoError(std::io::Error);

/// The bytes that a standard base64 text stands for, where it is one.
pub uninterp spec fn base64_decoding(text: Seq<u8>) -> Option<Seq<u8>>;

/// The standard base64 text of `data`, with padding.
pub uninterp spec fn base64_encoding(data: Seq<u8>) -> Seq<u8>;

/// The content of the gzip stream at the start of `data`, where there is one.
pub uninterp spec fn gzip_decoding(data: Seq<u8>) -> Option<Seq<u8>>;

/// The gzip stream that the compressor makes of `data` at its default level,
/// with neither file name nor time stamp in its header; nothing where the
/// compressor fails on `data`.
pub uninterp spec fn gzip_encoding(data: Seq<u8>) -> Option<Seq<u8>>;

/// `Engine::decode` of the crate base64, on `BASE64_STANDARD`. Trusted:
/// whether the text decodes, and to what, depends on the text alone.
#[verifier::external_body]
fn base64_decode(text: &[u8]) -> (result: Result<Vec<u8>, base64::DecodeError>)
    ensures
        match result {
            Ok(data) => base64_decoding(text@) == Some(data@),
            Err(_) => base64_decoding(text@) is None,
        },
{
    base64::prelude::BASE64_STANDARD.decode(text)
}

/// `Engine::encode` of the crate base64, on `BASE64_STANDARD`. Trusted: the
/// text depends on the data alone, and decodes to the data. Data of more
/// than half the address space is left out: the call panics where the
/// text's length does not fit.
#[verifier::external_body]
fn base64_encode(data: &[u8]) -> (text: Vec<u8>)
    requires
        data@.len() <= usize::MAX / 2,
    ensures
        text@ == base64_encoding(data@),
        base64_decoding(text@) == Some(data@),
{
    base64::prelude::BASE64_STANDARD.encode(data).into_bytes()
}

/// `read_to_end` on a `GzDecoder` of the crate flate2 over `data`.
/// Trusted: whether the stream decodes, and to what, depends on the bytes
/// alone.
#[verifier::external_body]
fn gzip_decode(data: &[u8]) -> (result: Result<Vec<u8>, std::io::Error>)
    ensures
        match result {
            Ok(content) => gzip_decoding(data@) == Some(content@),
            Err(_) => gzip_decoding(data@) is None,
        },
{
    let mut decoder = GzDecoder::new(data);
    let mut content = Vec::new();
    match decoder.read_to_end(&mut content) {
        Ok(_) => Ok(content),
        Err(e) => Err(e),
    }
}

/// `write_all` and `finish` on a `GzEncoder` of the crate flate2 with
/// `Compression::default()`. Trusted: whether a stream comes back, and
/// which, depends on the data alone; a stream that comes back decodes to
/// the data.
#[verifier::external_body]
fn gzip_encode(data: &[u8]) -> (result: Result<Vec<u8>, std::io::Error>)
    ensures
        match result {
            Ok(stream) => gzip_encoding(data@) == Some(stream@) && gzip_decoding(stream@) == Some(
                data@,
            ),
            Err(_) => gzip_encoding(data@) is None,
        },
{
    let mut encoder = GzEncoder::new(Vec::new(), Compression::default());
    match encoder.write_all(data) {
        Ok(_) => encoder.finish(),
        Err(e) => Err(e),
    }
}

/// The request that fetches a blob from a repository's server: the path
/// and the query of `com.atproto.sync.getBlob` for the repository `did`
/// and the blob `cid`.
pub fn blob_request(did: &str, cid: &str) -> (request: String)
    ensures
        request@ == "/xrpc/com.atproto.sync.getBlob?did="@ + did@ + "&cid="@ + cid@,
{
    let mut request = "/xrpc/com.atproto.sync.getBlob?did=".to_owned();
    request.append(did);
    request.append("&cid=");
    request.append(cid);
    request
}

/// What decoding `data` gives: the base64 text decoded where `is_base64`,
/// then the gzip stream unpacked where `is_gzipped`.
pub open spec fn decoded(data: Seq<u8>, is_base64: bool, is_gzipped: bool) -> Result<
    Seq<u8>,
    EncodingFailure,
> {
    if is_base64 && base64_decoding(data) is None {
        Err(EncodingFailure::Base64)
    } else {
        let binary = if is_base64 {
            base64_decoding(data)->0
        } else {
            data
        };
        if !is_gzipped {
            Ok(binary)
        } else {
            match gzip_decoding(binary) {
                Some(content) => Ok(content),
                None => Err(EncodingFailure::Gzip),
            }
        }
    }
}

/// Whether a result over bytes is what a result over their views says.
pub open spec fn same_outcome(
    got: Result<Vec<u8>, EncodingFailure>,
    want: Result<Seq<u8>, EncodingFailure>,
) -> bool {
    match got {
        Ok(bytes) => want == Ok::<Seq<u8>, EncodingFailure>(bytes@),
        Err(e) => want == Err::<Seq<u8>, EncodingFailure>(e),
    }
}

/// Decompress and decode a blob (base64 + gzip).
pub fn decompress_blob(data: &[u8], is_base64: bool, is_gzipped: bool) -> (result: Result<
    Vec<u8>,
    EncodingFailure,
>)
    ensures
        same_outcome(result, decoded(data@, is_base64, is_gzipped)),
{
    let mut current_data = slice_to_vec(data);
    if is_base64 {
        match base64_decode(current_data.as_slice()) {
            Ok(binary) => {
                current_data = binary;
            },
            Err(_) => {
                return Err(EncodingFailure::Base64);
            },
        }
    }
    if is_gzipped {
        match gzip_decode(current_data.as_slice()) {
            Ok(content) => {
                current_data = content;
            },
            Err(_) => {
                return Err(EncodingFailure::Gzip);
            },
        }
    }
    Ok(current_data)
}

/// The stored form of a file's bytes: the base64 text of their gzip
/// stream. There is none where the compressor fails, or where the stream
/// takes more than half of what can be addressed, so that its text would
/// not fit.
pub open spec fn stored_form(data: Seq<u8>) -> Result<Seq<u8>, EncodingFailure> {
    match gzip_encoding(data) {
        None => Err(EncodingFailure::Gzip),
        Some(stream) => if stream.len() > usize::MAX / 2 {
            Err(EncodingFailure::TooLarge)
        } else {
            Ok(base64_encoding(stream))
        },
    }
}

/// Bring a file's bytes into their stored form, from which
/// `decompress_blob` gives them back.
pub fn compress_blob(data: &[u8]) -> (result: Result<Vec<u8>, EncodingFailure>)
    ensures
        same_outcome(result, stored_form(data@)),
        match result {
            Ok(stored) => decoded(stored@, true, true) == Ok::<Seq<u8>, EncodingFailure>(data@),
            Err(_) => true,
        },
{
    match gzip_encode(data) {
        Err(_) => Err(EncodingFailure::Gzip),
        Ok(gzipped) => {
            if gzipped.len() > usize::MAX / 2 {
                Err(EncodingFailure::TooLarge)
            } else {
                Ok(base64_encode(gzipped.as_slice()))
            }
        },
    }
}

} // verus!
