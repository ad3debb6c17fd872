use base64::Engine;
use std::io::Write;
use wisp_cli::cid::compute_cid;

#[test]
fn test_compute_cid() {
    let content = b"hello";
    let cid = compute_cid(content);
    assert!(cid.starts_with("baf"));
}

#[test]
fn test_compute_cid_base64_encoded() {
    let plain = b"hello world";

    let mut encoder = flate2::write::GzEncoder::new(Vec::new(), flate2::Compression::default());
    encoder.write_all(plain).unwrap();
    let gzipped = encoder.finish().unwrap();

    let base64_bytes = base64::prelude::BASE64_STANDARD.encode(&gzipped).into_bytes();

    let cid = compute_cid(&base64_bytes);

    assert!(cid.starts_with("baf"));
    assert!(cid.len() > 10);
}

#[test]
fn compute_cid_known_values() {
    assert_eq!(
        compute_cid(b"hello"),
        "bafkreibm6jg3ux5qumhcn2b3flc3tyu6dmlb4xa7u5bf44yegnrjhc4yeq"
    );
    assert_eq!(
        compute_cid(b""),
        "bafkreihdwdcefgh4dqkjv67uzcmw7ojee6xedzdetojuzjevtenxquvyku"
    );
    assert_eq!(
        compute_cid(b"world"),
        "bafkreicin2sgejgrxnh3nahtj56jvwlkr4sozcf6opvi4wtmmuta5hfyu4"
    );
}

#[test]
fn compute_cid_is_a_function_of_the_bytes() {
    let a = compute_cid(b"the same bytes");
    let b = compute_cid(&b"the same bytes".to_vec());
    assert_eq!(a, b);
    assert_ne!(a, compute_cid(b"other bytes"));
}

#[test]
fn compute_cid_has_the_raw_sha256_prefix() {
    for content in [&b""[..], &b"a"[..], &b"hello world"[..], &[0u8, 255, 7][..]] {
        let cid = compute_cid(content);
        assert!(cid.starts_with("bafkrei"));
        assert_eq!(cid.len(), 59);
        assert!(cid.chars().all(|c| ('a'..='z').contains(&c) || ('2'..='7').contains(&c)));
    }
}
