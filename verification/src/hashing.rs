//! The digests of file contents and texts.

use vstd::prelude::*;
use vstd::utf8::*;
use sha2::{Digest, Sha256};

verus! {

/// The hash functions an audit can use.
#[derive(Clone, Copy, Debug, PartialEq, Eq, Structural)]
pub enum HashAlgorithm {
    Sha256,
    Blake3,
}

impl Default for HashAlgorithm {
    fn default() -> (algorithm: Self)
        ensures
            algorithm == HashAlgorithm::Sha256,
    {
        HashAlgorithm::Sha256
    }
}

/// How an algorithm is written in reports and logs.
pub open spec fn algorithm_label(algorithm: HashAlgorithm) -> Seq<char> {
    match algorithm {
        HashAlgorithm::Sha256 => "SHA-256"@,
        HashAlgorithm::Blake3 => "BLAKE3"@,
    }
}

impl HashAlgorithm {
    /// How the algorithm is written in reports and logs.
    pub fn label(&self) -> (label: &'static str)
        ensures
            label@ == algorithm_label(*self),
            *self == HashAlgorithm::Sha256 ==> label@ == "SHA-256"@,
            *self == HashAlgorithm::Blake3 ==> label@ == "BLAKE3"@,
    {
        match self {
            HashAlgorithm::Sha256 => "SHA-256",
            HashAlgorithm::Blake3 => "BLAKE3",
        }
    }
}

/// The SHA-256 digest of some bytes, in lower-case hexadecimal.
pub uninterp spec fn sha256_hex(bytes: Seq<u8>) -> Seq<char>;

/// The BLAKE3 digest of some bytes, in lower-case hexadecimal.
pub uninterp spec fn blake3_hex(bytes: Seq<u8>) -> Seq<char>;

/// A lower-case hexadecimal digit.
pub open spec fn is_hex_digit(c: char) -> bool {
    '0' <= c <= '9' || 'a' <= c <= 'f'
}

/// A digest of 32 bytes in lower-case hexadecimal.
pub open spec fn is_digest_text(text: Seq<char>) -> bool {
    &&& text.len() == 64
    &&& forall|i: int| 0 <= i < text.len() ==> is_hex_digit(#[trigger] text[i])
}

/// `Sha256` of the `sha2` crate, fed with all the bytes and formatted in
/// lower-case hexadecimal. The text is a function of the bytes, and two
/// hexadecimal digits are written for each of the digest's 32 bytes.
#[verifier::external_body]
fn sha256_text(bytes: &[u8]) -> (text: String)
    ensures
        text@ == sha256_hex(bytes@),
        is_digest_text(text@),
{
    let mut hasher = Sha256::new();
    hasher.update(bytes);
    format!("{:x}", hasher.finalize())
}

/// `hash` of the `blake3` crate, with the digest's `to_hex`. The text is a
/// function of the bytes, and two hexadecimal digits are written for each of
/// the digest's 32 bytes.
#[verifier::external_body]
fn blake3_text(bytes: &[u8]) -> (text: String)
    ensures
        text@ == blake3_hex(bytes@),
        is_digest_text(text@),
{
    blake3::hash(bytes).to_hex().to_string()
}

/// The digest of some bytes under an algorithm.
pub open spec fn digest_hex(algorithm: HashAlgorithm, bytes: Seq<u8>) -> Seq<char> {
    match algorithm {
        HashAlgorithm::Sha256 => sha256_hex(bytes),
        HashAlgorithm::Blake3 => blake3_hex(bytes),
    }
}

/// The digest of some bytes.
pub fn hash_string_bytes(bytes: &[u8], algorithm: HashAlgorithm) -> (text: String)
    ensures
        text@ == digest_hex(algorithm, bytes@),
        algorithm == HashAlgorithm::Sha256 ==> text@ == sha256_hex(bytes@),
        algorithm == HashAlgorithm::Blake3 ==> text@ == blake3_hex(bytes@),
        is_digest_text(text@),
{
    match algorithm {
        HashAlgorithm::Sha256 => sha256_text(bytes),
        HashAlgorithm::Blake3 => blake3_text(bytes),
    }
}

/// What stands in place of the digest of a file that could not be read.
pub open spec fn unreadable_mark() -> Seq<char> {
    "EMPTY_OR_UNREADABLE"@
}

/// The hash of a file, given what reading it returned.
pub open spec fn file_hash(contents: Option<Seq<u8>>, algorithm: HashAlgorithm) -> Seq<char> {
    match contents {
        Some(bytes) => digest_hex(algorithm, bytes),
        None => unreadable_mark(),
    }
}

/// The hash of a file from its contents, or the mark for a file that could
/// not be read where there are none.
pub fn hash_single_file(contents: Option<&[u8]>, algorithm: HashAlgorithm) -> (text: String)
    ensures
        text@ == file_hash(
            match contents {
                Some(bytes) => Some(bytes@),
                None => None,
            },
            algorithm,
        ),
        contents matches Some(bytes) ==> algorithm == HashAlgorithm::Sha256 ==> text@
            == sha256_hex(bytes@),
        contents matches Some(bytes) ==> algorithm == HashAlgorithm::Blake3 ==> text@
            == blake3_hex(bytes@),
        contents is None ==> text@ == "EMPTY_OR_UNREADABLE"@,
        is_hash_text(text@),
{
    match contents {
        Some(bytes) => hash_string_bytes(bytes, algorithm),
        None => "EMPTY_OR_UNREADABLE".to_owned(),
    }
}

/// A readable file is hashed whole, whatever its length: its hash is the
/// SHA-256 digest of its complete contents under SHA-256 and the BLAKE3 digest
/// of them under BLAKE3. A file that could not be read gets a fixed mark.
pub proof fn law_file_hash_is_of_whole_contents(
    contents: Option<Seq<u8>>,
    algorithm: HashAlgorithm,
)
    ensures
        contents matches Some(bytes) ==> algorithm == HashAlgorithm::Sha256 ==> file_hash(
            contents,
            algorithm,
        ) == sha256_hex(bytes),
        contents matches Some(bytes) ==> algorithm == HashAlgorithm::Blake3 ==> file_hash(
            contents,
            algorithm,
        ) == blake3_hex(bytes),
        contents is None ==> file_hash(contents, algorithm) == "EMPTY_OR_UNREADABLE"@,
{
}

/// Two readable files with equal hashes have equal contents, or their complete
/// contents are a collision of the hash function itself.
pub proof fn law_equal_file_hashes(a: Seq<u8>, b: Seq<u8>, algorithm: HashAlgorithm)
    requires
        file_hash(Some(a), algorithm) == file_hash(Some(b), algorithm),
    ensures
        a == b || (algorithm == HashAlgorithm::Sha256 && sha256_hex(a) == sha256_hex(b)) || (
        algorithm == HashAlgorithm::Blake3 && blake3_hex(a) == blake3_hex(b)),
{
    law_file_hash_is_of_whole_contents(Some(a), algorithm);
    law_file_hash_is_of_whole_contents(Some(b), algorithm);
}

/// The digest of a text is that of all its UTF-8 bytes, under the algorithm
/// that is asked for.
pub proof fn law_text_digest_is_of_utf8(algorithm: HashAlgorithm, text: Seq<char>)
    ensures
        algorithm == HashAlgorithm::Sha256 ==> text_digest(algorithm, text) == sha256_hex(
            encode_utf8(text),
        ),
        algorithm == HashAlgorithm::Blake3 ==> text_digest(algorithm, text) == blake3_hex(
            encode_utf8(text),
        ),
{
}

/// What a hash in an audited table looks like.
pub open spec fn is_hash_text(text: Seq<char>) -> bool {
    is_digest_text(text) || text == unreadable_mark()
}

/// The digest of a text, through its UTF-8 bytes.
pub open spec fn text_digest(algorithm: HashAlgorithm, text: Seq<char>) -> Seq<char> {
    digest_hex(algorithm, encode_utf8(text))
}

} // verus!
