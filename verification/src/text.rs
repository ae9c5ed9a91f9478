//! Text for bytes: the URL-safe base64 alphabet without padding, and the
//! bounded string that a session token travels in.

use arrayvec::ArrayString;
use base64::prelude::BASE64_URL_SAFE_NO_PAD;
use base64::Engine;
use vstd::prelude::*;
use vstd::string::StringSliceAdditionalSpecFns;
use vstd::utf8::{encode_utf8, is_ascii_chars};

verus! {

#[verifier::external_type_specification]
#[verifier::external_body]
pub struct ExBase64DecodeError(base64::DecodeError);

#[verifier::external_type_specification]
#[verifier::external_body]
pub struct ExArrayString<const CAP: usize>(ArrayString<CAP>);

#[verifier::external_type_specification]
#[verifier::external_body]
#[verifier::reject_recursive_types(T)]
pub struct ExCapacityError<T>(arrayvec::CapacityError<T>);

/// The text that stands for `bytes`.
pub uninterp spec fn base64_text(bytes: Seq<u8>) -> Seq<char>;

/// The bytes that `text` stands for; `None` where it stands for none.
pub uninterp spec fn base64_bytes(text: Seq<char>) -> Option<Seq<u8>>;

/// The characters that a bounded string holds.
pub uninterp spec fn bounded_chars(s: ArrayString<1024>) -> Seq<char>;

/// Whether `c` is of the alphabet: a letter, a digit, `-` or `_`.
pub open spec fn url_safe(c: char) -> bool {
    'A' <= c <= 'Z' || 'a' <= c <= 'z' || '0' <= c <= '9' || c == '-' || c == '_'
}

/// Whether `text` holds characters of the alphabet only: no padding, no
/// blank, nothing that a URL would have to escape.
pub open spec fn alphabet_only(text: Seq<char>) -> bool {
    forall|i: int| 0 <= i < text.len() ==> url_safe(#[trigger] text[i])
}

/// The length of the text that stands for `n` bytes: four characters for
/// every three bytes, and two or three for one or two bytes left over.
pub open spec fn base64_len(n: nat) -> nat {
    4 * (n / 3) + if n % 3 == 0 {
        0
    } else {
        n % 3 + 1
    }
}

/// `Engine::encode` of `BASE64_URL_SAFE_NO_PAD`. The result is named
/// `base64_text`; it is made of the URL-safe alphabet, has the length that
/// `encoded_len` computes without padding, and decodes to `bytes` again. The
/// call panics where that length does not fit `usize`.
#[verifier::external_body]
pub(crate) fn to_base64(bytes: &[u8]) -> (text: String)
    requires
        bytes@.len() <= usize::MAX / 2,
    ensures
        text@ == base64_text(bytes@),
        text@.len() == base64_len(bytes@.len()),
        alphabet_only(text@),
        base64_bytes(text@) == Some(bytes@),
{
    BASE64_URL_SAFE_NO_PAD.encode(bytes)
}

/// `Engine::decode` of `BASE64_URL_SAFE_NO_PAD`. The result is named
/// `base64_bytes`: an error stands for `None`. Text with a character outside
/// the URL-safe alphabet is an error.
#[verifier::external_body]
pub(crate) fn from_base64(text: &str) -> (r: Result<Vec<u8>, base64::DecodeError>)
    ensures
        match r {
            Ok(bytes) => base64_bytes(text@) == Some(bytes@) && alphabet_only(text@),
            Err(_) => base64_bytes(text@) is None,
        },
{
    BASE64_URL_SAFE_NO_PAD.decode(text)
}

/// `ArrayString::from`: a copy of `s` where its UTF-8 form has at most 1024
/// bytes, an error where it has more.
#[verifier::external_body]
pub(crate) fn bounded(s: &str) -> (r: Result<ArrayString<1024>, arrayvec::CapacityError<&str>>)
    ensures
        r is Ok <==> s.spec_bytes().len() <= 1024,
        r is Ok ==> bounded_chars(r->Ok_0) == s@,
{
    ArrayString::from(s)
}

/// The text for at most 512 bytes has at most 683 characters.
pub proof fn lemma_base64_len_bound(n: nat)
    ensures
        base64_len(n) <= 4 * n / 3 + 1,
        n <= 512 ==> base64_len(n) <= 683,
{
}

/// Text of the alphabet is ASCII: one byte for each character.
pub proof fn lemma_alphabet_is_ascii(text: Seq<char>)
    requires
        alphabet_only(text),
    ensures
        is_ascii_chars(text),
        encode_utf8(text).len() == text.len(),
{
    assert forall|i: int| 0 <= i < text.len() implies '\0' <= #[trigger] text[i] <= '\u{7f}' by {
        assert(url_safe(text[i]));
    }
    vstd::utf8::is_ascii_chars_encode_utf8(text);
}

} // verus!
