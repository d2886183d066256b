//! Cookies of the form `name=payload`, where the payload is base64 (standard alphabet,
//! with padding) of a UTF-8 text.

use vstd::prelude::*;
use vstd::string::StringSliceAdditionalSpecFns;
use vstd::utf8::{decode_utf8, valid_utf8};

verus! {

#[verifier::external_type_specification]
#[verifier::external_body]
pub struct ExDecodeError(base64::DecodeError);

#[verifier::external_type_specification]
#[verifier::external_body]
pub struct ExFromUtf8Error(std::string::FromUtf8Error);

/// The bytes that the `STANDARD` engine of the `base64` crate decodes `input` to, or
/// `None` where it reports a `DecodeError`.
pub uninterp spec fn base64_standard_decode(input: Seq<u8>) -> Option<Seq<u8>>;

/// Calls `Engine::decode` of `base64::engine::general_purpose::STANDARD`. Claimed of
/// it: its outcome depends on the input bytes alone, and it returns `Ok` with the bytes
/// named by `base64_standard_decode` exactly where that name gives bytes.
#[verifier::external_body]
fn decode_base64(input: &[u8]) -> (r: Result<Vec<u8>, base64::DecodeError>)
    ensures
        r is Ok <==> base64_standard_decode(input@) is Some,
        r matches Ok(v) ==> base64_standard_decode(input@) == Some(v@),
{
    base64::Engine::decode(&base64::engine::general_purpose::STANDARD, input)
}

/// Calls `String::from_utf8`. Claimed of it: it succeeds exactly on valid UTF-8, and
/// the string then holds the characters that the bytes encode.
#[verifier::external_body]
fn string_from_utf8(bytes: Vec<u8>) -> (r: Result<String, std::string::FromUtf8Error>)
    ensures
        r is Ok <==> valid_utf8(bytes@),
        r matches Ok(s) ==> s@ == decode_utf8(bytes@),
{
    String::from_utf8(bytes)
}

/// Why a cookie gives no text.
#[derive(Debug, PartialEq, Eq, Clone, Copy, Structural)]
pub enum CookieError {
    /// The header has no `=`.
    MissingSeparator,
    /// The payload is not base64.
    InvalidBase64,
    /// The decoded payload is not UTF-8.
    InvalidUtf8,
}

/// `i` is the first `=` of `s`.
pub open spec fn is_first_eq(s: Seq<char>, i: int) -> bool {
    &&& 0 <= i < s.len()
    &&& s[i] == '='
    &&& forall|j: int| 0 <= j < i ==> s[j] != '='
}

pub open spec fn has_eq(s: Seq<char>) -> bool {
    exists|i: int| 0 <= i < s.len() && s[i] == '='
}

/// What follows the first `=` of `s`, as `split_once('=')` gives it.
pub open spec fn after_first_eq(s: Seq<char>) -> Seq<char> {
    s.skip((choose|i: int| is_first_eq(s, i)) + 1)
}

/// The text that a cookie header holds.
pub open spec fn decode_spec(header: Seq<char>) -> Result<Seq<char>, CookieError> {
    if !has_eq(header) {
        Err(CookieError::MissingSeparator)
    } else {
        match base64_standard_decode(vstd::utf8::encode_utf8(after_first_eq(header))) {
            None => Err(CookieError::InvalidBase64),
            Some(bytes) => if valid_utf8(bytes) {
                Ok(decode_utf8(bytes))
            } else {
                Err(CookieError::InvalidUtf8)
            },
        }
    }
}

/// The payload of a cookie header: what follows its first `=`.
pub fn cookie_payload(header: &str) -> (r: Option<&str>)
    ensures
        r is Some <==> has_eq(header@),
        r matches Some(p) ==> p@ == after_first_eq(header@),
{
    broadcast use vstd::string::group_string_axioms;
    let n = header.unicode_len();
    let mut i: usize = 0;
    for c in it: header.chars()
        invariant
            n == header@.len(),
            i == it.index(),
            it.seq() == header@,
            forall|j: int| 0 <= j < i ==> header@[j] != '=',
    {
        assert(i < n);
        if c == '=' {
            proof {
                assert(is_first_eq(header@, i as int));
                let k = choose|k: int| is_first_eq(header@, k);
                if k > i {
                    assert(header@[i as int] != '=');
                }
                assert(k == i);
            }
            return Some(header.substring_char(i + 1, n));
        }
        i = i + 1;
    }
    None
}

/// The text of decoded cookie bytes: `None` stands for bytes that were not base64.
pub fn decoded_text(decoded: Option<Vec<u8>>) -> (r: Result<String, CookieError>)
    ensures
        decoded is None ==> r == Err::<String, CookieError>(CookieError::InvalidBase64),
        decoded matches Some(b) ==> (valid_utf8(b@) ==> (r matches Ok(s) && s@ == decode_utf8(
            b@,
        ))),
        decoded matches Some(b) ==> (!valid_utf8(b@) ==> r == Err::<String, CookieError>(
            CookieError::InvalidUtf8,
        )),
{
    match decoded {
        None => Err(CookieError::InvalidBase64),
        Some(bytes) => match string_from_utf8(bytes) {
            Ok(s) => Ok(s),
            Err(_) => Err(CookieError::InvalidUtf8),
        },
    }
}

/// Decodes a cookie header: the payload after the first `=` is decoded from base64,
/// and the bytes are read as UTF-8.
pub fn decode(header: &str) -> (r: Result<String, CookieError>)
    ensures
        r matches Ok(s) ==> decode_spec(header@) == Ok::<Seq<char>, CookieError>(s@),
        r matches Err(e) ==> decode_spec(header@) == Err::<Seq<char>, CookieError>(e),
{
    match cookie_payload(header) {
        None => Err(CookieError::MissingSeparator),
        Some(payload) => {
            let decoded = match decode_base64(payload.as_bytes()) {
                Ok(bytes) => Some(bytes),
                Err(_) => None,
            };
            decoded_text(decoded)
        },
    }
}

} // verus!
