//! Content identifiers of blobs.

use jacquard_common::types::cid::IpldCid;
use sha2::{Digest, Sha256};
use vstd::prelude::*;

verus! {

/// Codec tag of raw content.
pub const RAW_CODEC: u64 = 0x55;

/// Hash function tag of SHA-256.
pub const SHA2_256: u64 = 0x12;

/// The SHA-256 digest of `data`.
pub uninterp spec fn sha256(data: Seq<u8>) -> Seq<u8>;

/// The text, in lower-case base 32 with its multibase prefix, of the
/// version 1 identifier with the codec `codec` and the multihash made of
/// `hash_code` and `digest`.
pub uninterp spec fn cid_v1_base32(codec: u64, hash_code: u64, digest: Seq<u8>) -> Seq<char>;

/// The content identifier of `content`: SHA-256, raw codec, base 32.
pub open spec fn cid_of(content: Seq<u8>) -> Seq<char> {
    cid_v1_base32(RAW_CODEC, SHA2_256, sha256(content))
}

/// `Sha256::digest` of the crate sha2. Trusted: the result is the SHA-256
/// digest of the input, 32 bytes long.
#[verifier::external_body]
fn sha256_digest(content: &[u8]) -> (digest: Vec<u8>)
    ensures
        digest@ == sha256(content@),
        digest@.len() == 32,
{
    Sha256::digest(content).to_vec()
}

/// Whether a character is one of lower-case base 32.
pub open spec fn base32_char(c: char) -> bool {
    ('a' <= c <= 'z') || ('2' <= c <= '7')
}

/// `Cid::to_string_of_base` of the crate cid, with `Base::Base32Lower`, on
/// the identifier that `Cid::new_v1` makes of `codec` and of the multihash
/// that `Multihash::wrap` makes of `hash_code` and `digest`. Trusted: the
/// text depends on these three alone; it begins with `b`, the multibase
/// code of lower-case base 32, and holds characters of that base alone;
/// for raw content under a SHA-256 digest of 32 bytes, whose identifier
/// begins with the bytes 01 55 12 20 and takes 36, it is 59 characters
/// long and begins with `bafkrei`. A digest of more than 64 bytes is left
/// out: `wrap` refuses it.
#[verifier::external_body]
fn cid_v1_text(codec: u64, hash_code: u64, digest: &[u8]) -> (text: String)
    requires
        digest@.len() <= 64,
    ensures
        text@ == cid_v1_base32(codec, hash_code, digest@),
        text@.len() > 0,
        text@[0] == 'b',
        forall|i: int| 0 <= i < text@.len() ==> base32_char(#[trigger] text@[i]),
        codec == RAW_CODEC && hash_code == SHA2_256 && digest@.len() == 32 ==> text@.len() == 59
            && text@.subrange(0, 7) == "bafkrei"@,
{
    let hash = multihash::Multihash::<64>::wrap(hash_code, digest).expect(
        "a digest of at most 64 bytes fits in a multihash",
    );
    let cid = IpldCid::new_v1(codec, hash);
    match cid.to_string_of_base(multibase::Base::Base32Lower) {
        Ok(text) => text,
        Err(_) => cid.to_string(),
    }
}

/// Compute the CID (content identifier) of blob content: CIDv1 with raw
/// codec and SHA-256, in base 32, which always begins with `bafkrei`. The
/// content is taken as it is stored: for a site's files, gzipped and
/// base64 encoded.
pub fn compute_cid(content: &[u8]) -> (cid: String)
    ensures
        cid@ == cid_of(content@),
        cid@.len() == 59,
        cid@.subrange(0, 7) == "bafkrei"@,
        forall|i: int| 0 <= i < cid@.len() ==> base32_char(#[trigger] cid@[i]),
{
    let hash = sha256_digest(content);
    cid_v1_text(RAW_CODEC, SHA2_256, hash.as_slice())
}

} // verus!
