//! The passage between bytes and text, and the two operations on text
//! that Unicode defines by tables: lower-casing and lossy decoding.
//!
//! Each function here hands its work to the standard library; what is
//! stated of the result is taken on trust.

use vstd::prelude::*;
use vstd::utf8::*;

verus! {

/// The lower-case form of a text, as `str::to_lowercase` computes it from
/// the Unicode tables.
pub uninterp spec fn lowercase_of(text: Seq<char>) -> Seq<char>;

/// The text that `String::from_utf8_lossy` reads out of bytes: the decoded
/// characters, with U+FFFD in place of each ill-formed part.
pub uninterp spec fn lossy_decoding(bytes: Seq<u8>) -> Seq<char>;

/// Reads `bytes` as UTF-8 with `core::str::from_utf8`.
///
/// Trusted: the call succeeds exactly on well-formed UTF-8, and the text
/// it returns is the one that `bytes` encodes.
#[verifier::external_body]
pub(crate) fn utf8_text(bytes: &[u8]) -> (text: Option<&str>)
    ensures
        text is Some <==> valid_utf8(bytes@),
        text matches Some(t) ==> encode_utf8(t@) == bytes@,
{
    match core::str::from_utf8(bytes) {
        Ok(t) => Some(t),
        Err(_) => None,
    }
}

/// Collects characters into a `String` with `String::from_iter`.
///
/// Trusted: the string holds the given characters in their order.
#[verifier::external_body]
pub(crate) fn text_of(chars: &[char]) -> (text: String)
    ensures
        text@ == chars@,
{
    String::from_iter(chars.iter())
}

/// Lower-cases `text` with `str::to_lowercase`.
///
/// Trusted: the result is a function of the characters of `text` alone,
/// named `lowercase_of`.
#[verifier::external_body]
pub(crate) fn lowercase(text: &str) -> (lower: String)
    ensures
        lower@ == lowercase_of(text@),
{
    text.to_lowercase()
}

/// Decodes `bytes` with `String::from_utf8_lossy`.
///
/// Trusted: the result is a function of `bytes` alone, named
/// `lossy_decoding`, and on well-formed UTF-8 it is the text that `bytes`
/// encodes.
#[verifier::external_body]
pub(crate) fn lossy_text(bytes: &[u8]) -> (text: String)
    ensures
        text@ == lossy_decoding(bytes@),
        valid_utf8(bytes@) ==> encode_utf8(text@) == bytes@,
{
    String::from_utf8_lossy(bytes).into_owned()
}

} // verus!
