use sha2::Digest;
use vstd::prelude::*;

verus! {

/// The lowercase hex SHA-256 digest of a byte sequence.
pub uninterp spec fn sha256_hex(b: Seq<u8>) -> Seq<char>;

/// The MIME type that `infer` recognises in a byte sequence, if any.
pub uninterp spec fn sniffed_mime(b: Seq<u8>) -> Option<Seq<char>>;

/// A digit of lowercase hexadecimal.
pub open spec fn is_lower_hex_digit(c: char) -> bool {
    ('0' <= c && c <= '9') || ('a' <= c && c <= 'f')
}

/// Relies on sha2::Sha256 and generic-array's lowercase hex formatting: the
/// 32-byte digest of the bytes, depending on the bytes alone, written as two
/// lowercase hex digits per byte.
#[verifier::external_body]
pub(crate) fn hash_file(file: &[u8]) -> (r: String)
    ensures
        r@ == sha256_hex(file@),
        r@.len() == 64,
        forall|i: int| 0 <= i < r@.len() ==> is_lower_hex_digit(#[trigger] r@[i]),
{
    let mut hasher = sha2::Sha256::new();
    hasher.update(file);
    let hash = hasher.finalize();
    format!("{:x}", hash)
}

/// Relies on infer::get: the matcher that recognises the leading bytes, if
/// any, and its MIME type; the answer depends on the bytes alone.
#[verifier::external_body]
fn infer_mime(buf: &[u8]) -> (r: Option<String>)
    ensures
        r matches Some(s) ==> sniffed_mime(buf@) == Some(s@),
        r is None ==> sniffed_mime(buf@) is None,
{
    infer::get(buf).map(|t| t.mime_type().to_string())
}

/// The MIME type recognised from the content's bytes, or the empty string
/// where none is recognised.
pub open spec fn mime_of(b: Seq<u8>) -> Seq<char> {
    match sniffed_mime(b) {
        Some(m) => m,
        None => Seq::empty(),
    }
}

pub fn sniff_mime_type(buf: &[u8]) -> (r: String)
    ensures
        r@ == mime_of(buf@),
{
    match infer_mime(buf) {
        Some(m) => m,
        None => String::new(),
    }
}

} // verus!
