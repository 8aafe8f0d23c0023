//! Digests of file contents, and their hexadecimal text.
use vstd::prelude::*;
use md5::Digest;
use crate::enumerate::FileHashType;

verus! {

/// The MD5 digest of `data`, as the `md-5` crate computes it.
pub uninterp spec fn md5_of(data: Seq<u8>) -> Seq<u8>;

/// The SHA-1 digest of `data`, as the `sha1` crate computes it.
pub uninterp spec fn sha1_of(data: Seq<u8>) -> Seq<u8>;

/// The SHA-256 digest of `data`, as the `sha2` crate computes it.
pub uninterp spec fn sha256_of(data: Seq<u8>) -> Seq<u8>;

/// The SHA3-224 digest of `data`, as the `sha3` crate computes it.
pub uninterp spec fn sha3_224_of(data: Seq<u8>) -> Seq<u8>;

/// The SHA3-256 digest of `data`, as the `sha3` crate computes it.
pub uninterp spec fn sha3_256_of(data: Seq<u8>) -> Seq<u8>;

/// The SHA3-384 digest of `data`, as the `sha3` crate computes it.
pub uninterp spec fn sha3_384_of(data: Seq<u8>) -> Seq<u8>;

/// The SHA3-512 digest of `data`, as the `sha3` crate computes it.
pub uninterp spec fn sha3_512_of(data: Seq<u8>) -> Seq<u8>;

/// The digest of `data` under the algorithm `t`.
pub open spec fn digest_of(t: FileHashType, data: Seq<u8>) -> Seq<u8> {
    match t {
        FileHashType::MD5 => md5_of(data),
        FileHashType::SHA1 => sha1_of(data),
        FileHashType::SHA256 => sha256_of(data),
        FileHashType::SHA3_224 => sha3_224_of(data),
        FileHashType::SHA3_256 => sha3_256_of(data),
        FileHashType::SHA3_384 => sha3_384_of(data),
        FileHashType::SHA3_512 => sha3_512_of(data),
    }
}

/// The length in bytes of a digest under the algorithm `t`.
pub open spec fn digest_len(t: FileHashType) -> nat {
    match t {
        FileHashType::MD5 => 16,
        FileHashType::SHA1 => 20,
        FileHashType::SHA256 => 32,
        FileHashType::SHA3_224 => 28,
        FileHashType::SHA3_256 => 32,
        FileHashType::SHA3_384 => 48,
        FileHashType::SHA3_512 => 64,
    }
}

/// `md5::Md5::digest`. Trusted: the result is the MD5 digest of `data`
/// (named, not stated), 16 bytes long.
#[verifier::external_body]
fn md5_digest(data: &[u8]) -> (res: Vec<u8>)
    ensures
        res@ == md5_of(data@),
        res@.len() == 16,
{
    md5::Md5::digest(data).to_vec()
}

/// `sha1::Sha1::digest`. Trusted: the result is the SHA-1 digest of `data`
/// (named, not stated), 20 bytes long.
#[verifier::external_body]
fn sha1_digest(data: &[u8]) -> (res: Vec<u8>)
    ensures
        res@ == sha1_of(data@),
        res@.len() == 20,
{
    sha1::Sha1::digest(data).to_vec()
}

/// `sha2::Sha256::digest`. Trusted: the result is the SHA-256 digest of
/// `data` (named, not stated), 32 bytes long.
#[verifier::external_body]
fn sha256_digest(data: &[u8]) -> (res: Vec<u8>)
    ensures
        res@ == sha256_of(data@),
        res@.len() == 32,
{
    sha2::Sha256::digest(data).to_vec()
}

/// `sha3::Sha3_224::digest`. Trusted: the result is the SHA3-224 digest of
/// `data` (named, not stated), 28 bytes long.
#[verifier::external_body]
fn sha3_224_digest(data: &[u8]) -> (res: Vec<u8>)
    ensures
        res@ == sha3_224_of(data@),
        res@.len() == 28,
{
    sha3::Sha3_224::digest(data).to_vec()
}

/// `sha3::Sha3_256::digest`. Trusted: the result is the SHA3-256 digest of
/// `data` (named, not stated), 32 bytes long.
#[verifier::external_body]
fn sha3_256_digest(data: &[u8]) -> (res: Vec<u8>)
    ensures
        res@ == sha3_256_of(data@),
        res@.len() == 32,
{
    sha3::Sha3_256::digest(data).to_vec()
}

/// `sha3::Sha3_384::digest`. Trusted: the result is the SHA3-384 digest of
/// `data` (named, not stated), 48 bytes long.
#[verifier::external_body]
fn sha3_384_digest(data: &[u8]) -> (res: Vec<u8>)
    ensures
        res@ == sha3_384_of(data@),
        res@.len() == 48,
{
    sha3::Sha3_384::digest(data).to_vec()
}

/// `sha3::Sha3_512::digest`. Trusted: the result is the SHA3-512 digest of
/// `data` (named, not stated), 64 bytes long.
#[verifier::external_body]
fn sha3_512_digest(data: &[u8]) -> (res: Vec<u8>)
    ensures
        res@ == sha3_512_of(data@),
        res@.len() == 64,
{
    sha3::Sha3_512::digest(data).to_vec()
}

/// The digest of the bytes `data` under the algorithm `hash_type`.
pub fn compute_hash(data: &[u8], hash_type: FileHashType) -> (res: Vec<u8>)
    ensures
        res@ == digest_of(hash_type, data@),
        res@.len() == digest_len(hash_type),
{
    match hash_type {
        FileHashType::MD5 => md5_digest(data),
        FileHashType::SHA1 => sha1_digest(data),
        FileHashType::SHA256 => sha256_digest(data),
        FileHashType::SHA3_224 => sha3_224_digest(data),
        FileHashType::SHA3_256 => sha3_256_digest(data),
        FileHashType::SHA3_384 => sha3_384_digest(data),
        FileHashType::SHA3_512 => sha3_512_digest(data),
    }
}

/// The hexadecimal digit for `n` (below 16), in lower or upper case.
pub open spec fn hex_digit(n: int, upper: bool) -> char {
    if n < 10 {
        ('0' as int + n) as char
    } else if upper {
        ('A' as int + n - 10) as char
    } else {
        ('a' as int + n - 10) as char
    }
}

/// The hexadecimal text of `data`: two digits per byte, the high half first.
pub open spec fn hex_text(data: Seq<u8>, upper: bool) -> Seq<char>
    decreases data.len(),
{
    if data.len() == 0 {
        Seq::empty()
    } else {
        seq![hex_digit(data[0] as int / 16, upper), hex_digit(data[0] as int % 16, upper)] + hex_text(
            data.drop_first(),
            upper,
        )
    }
}

/// `hex::encode`. Trusted: the result is the lower-case hexadecimal text of
/// `data`, two digits per byte with the high half first.
#[verifier::external_body]
pub(crate) fn hex_lower(data: &[u8]) -> (res: String)
    ensures
        res@ == hex_text(data@, false),
{
    hex::encode(data)
}

/// `hex::encode_upper`. Trusted: the result is the upper-case hexadecimal
/// text of `data`, two digits per byte with the high half first.
#[verifier::external_body]
pub(crate) fn hex_upper(data: &[u8]) -> (res: String)
    ensures
        res@ == hex_text(data@, true),
{
    hex::encode_upper(data)
}

/// The hexadecimal text of a digest, in upper case where `upper` holds.
pub fn digest_hex(hash: &[u8], upper: bool) -> (res: String)
    ensures
        res@ == hex_text(hash@, upper),
{
    if upper {
        hex_upper(hash)
    } else {
        hex_lower(hash)
    }
}

/// A digest's hexadecimal text has two characters per byte.
pub proof fn lemma_hex_text_len(data: Seq<u8>, upper: bool)
    ensures
        hex_text(data, upper).len() == 2 * data.len(),
    decreases data.len(),
{
    if data.len() > 0 {
        lemma_hex_text_len(data.drop_first(), upper);
    }
}

/// The upper-case text of a digest is its lower-case text with every letter
/// made upper case.
pub proof fn lemma_hex_upper_is_uppercased_lower(data: Seq<u8>)
    ensures
        hex_text(data, true) == hex_text(data, false).map_values(|c: char| crate::text::ascii_upper(c)),
    decreases data.len(),
{
    if data.len() > 0 {
        lemma_hex_upper_is_uppercased_lower(data.drop_first());
        let hi = data[0] as int / 16;
        let lo = data[0] as int % 16;
        let head = seq![hex_digit(hi, false), hex_digit(lo, false)];
        let rest = hex_text(data.drop_first(), false);
        assert((head + rest).map_values(|c: char| crate::text::ascii_upper(c)) =~= head.map_values(
            |c: char| crate::text::ascii_upper(c),
        ) + rest.map_values(|c: char| crate::text::ascii_upper(c)));
        assert(head.map_values(|c: char| crate::text::ascii_upper(c)) =~= seq![
            hex_digit(hi, true),
            hex_digit(lo, true),
        ]);
    }
}

} // verus!
