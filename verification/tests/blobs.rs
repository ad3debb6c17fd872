use base64::Engine;
use std::io::Write;
use wisp_cli::download::{compress_blob, decompress_blob};
use wisp_cli::error::EncodingFailure;

fn gzip(data: &[u8]) -> Vec<u8> {
    let mut encoder = flate2::write::GzEncoder::new(Vec::new(), flate2::Compression::default());
    encoder.write_all(data).unwrap();
    encoder.finish().unwrap()
}

#[test]
fn decompress_blob_plain_is_the_input() {
    assert_eq!(decompress_blob(b"as it is", false, false).unwrap(), b"as it is".to_vec());
    assert_eq!(decompress_blob(b"", false, false).unwrap(), Vec::<u8>::new());
}

#[test]
fn decompress_blob_base64_only() {
    assert_eq!(
        decompress_blob(b"aGVsbG8gd29ybGQ=", true, false).unwrap(),
        b"hello world".to_vec()
    );
}

#[test]
fn decompress_blob_gzip_only() {
    let stream = gzip(b"hello world");
    assert_ne!(stream, b"hello world".to_vec());
    assert_eq!(decompress_blob(&stream, false, true).unwrap(), b"hello world".to_vec());
}

#[test]
fn decompress_blob_base64_then_gzip() {
    let text = base64::prelude::BASE64_STANDARD.encode(gzip(b"<html></html>")).into_bytes();
    assert_eq!(decompress_blob(&text, true, true).unwrap(), b"<html></html>".to_vec());
}

#[test]
fn decompress_blob_refuses_bad_base64() {
    assert_eq!(decompress_blob(b"not base64!", true, false), Err(EncodingFailure::Base64));
    assert_eq!(decompress_blob(b"not base64!", true, true), Err(EncodingFailure::Base64));
}

#[test]
fn decompress_blob_refuses_bad_gzip() {
    assert_eq!(decompress_blob(b"no gzip stream", false, true), Err(EncodingFailure::Gzip));
    assert_eq!(decompress_blob(b"aGVsbG8gd29ybGQ=", true, true), Err(EncodingFailure::Gzip));
}

#[test]
fn compress_blob_is_base64_of_gzip() {
    let stored = compress_blob(b"hello world").unwrap();
    assert_ne!(stored, b"hello world".to_vec());
    let stream = base64::prelude::BASE64_STANDARD.decode(&stored).unwrap();
    assert_eq!(&stream[..2], &[0x1f, 0x8b]);
    assert_eq!(stored, base64::prelude::BASE64_STANDARD.encode(gzip(b"hello world")).into_bytes());
}

#[test]
fn compress_blob_round_trip() {
    for data in [&b""[..], &b"a"[..], &b"hello world"[..], &[0u8; 5000][..]] {
        let stored = compress_blob(data).unwrap();
        assert_eq!(decompress_blob(&stored, true, true).unwrap(), data.to_vec());
    }
}

#[test]
fn compress_blob_is_repeatable() {
    assert_eq!(compress_blob(b"same content").unwrap(), compress_blob(b"same content").unwrap());
}

#[test]
fn blob_request_names_repository_and_blob() {
    assert_eq!(
        wisp_cli::download::blob_request("did:plc:abc", "bafkreic"),
        "/xrpc/com.atproto.sync.getBlob?did=did:plc:abc&cid=bafkreic"
    );
}
