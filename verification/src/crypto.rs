//! The outside primitives the authentication logic is built from: HMAC-SHA256,
//! MD5, Base64 in two alphabets, constant-time comparison and the clock.
//!
//! Each function here makes one call into an outside crate (or std) and its
//! contract is believed, not proved; the names below stand for what those
//! crates compute.
use base64::engine::general_purpose::{STANDARD, URL_SAFE_NO_PAD};
use base64::Engine;
use hmac::{Hmac, Mac};
use sha2::Sha256;
use subtle::ConstantTimeEq;
use vstd::prelude::*;
use vstd::utf8::*;

verus! {

/// HMAC-SHA256 of `message` under `key`, as the `hmac` and `sha2` crates compute it.
pub uninterp spec fn hmac_sha256(key: Seq<u8>, message: Seq<u8>) -> Seq<u8>;

/// The MD5 digest of `data`, as `md5::compute` gives it.
pub uninterp spec fn md5_digest(data: Seq<u8>) -> Seq<u8>;

/// Base64 of `data` with the standard alphabet and padding (`base64`'s `STANDARD` engine).
pub uninterp spec fn base64_standard_encode(data: Seq<u8>) -> Seq<char>;

/// What `base64`'s `STANDARD` engine decodes from the bytes `text`: the data,
/// or the text of the decoding error.
pub uninterp spec fn base64_standard_decode(text: Seq<u8>) -> Result<Seq<u8>, Seq<char>>;

/// Base64 of `data` with the URL-safe alphabet and no padding (`base64`'s `URL_SAFE_NO_PAD` engine).
pub uninterp spec fn base64_url_encode(data: Seq<u8>) -> Seq<char>;

/// What `base64`'s `URL_SAFE_NO_PAD` engine decodes from the bytes `text`: the
/// data, or the text of the decoding error.
pub uninterp spec fn base64_url_decode(text: Seq<u8>) -> Result<Seq<u8>, Seq<char>>;

/// HMAC-SHA256 of `message` under `key`.
///
/// Trusted: calls `Hmac::<Sha256>::new_from_slice` (which accepts keys of any
/// length), `update` and `finalize`. The contract claims the result is the
/// named HMAC of the arguments and that it is 32 bytes long, the SHA-256
/// output size.
#[verifier::external_body]
pub(crate) fn hmac_sha256_of(key: &[u8], message: &[u8]) -> (mac: Vec<u8>)
    ensures
        mac@ == hmac_sha256(key@, message@),
        mac@.len() == 32,
{
    let mut m = <Hmac<Sha256> as Mac>::new_from_slice(key).expect("HMAC accepts keys of any size");
    m.update(message);
    m.finalize().into_bytes().to_vec()
}

/// The MD5 digest of `data`.
///
/// Trusted: calls `md5::compute`. The contract claims the result is the named
/// digest of `data` and is 16 bytes long, the size of `md5::Digest`.
#[verifier::external_body]
pub(crate) fn md5_of(data: &[u8]) -> (digest: Vec<u8>)
    ensures
        digest@ == md5_digest(data@),
        digest@.len() == 16,
{
    md5::compute(data).0.to_vec()
}

/// Whether two byte strings are equal, compared in constant time.
///
/// Trusted: calls `subtle::ConstantTimeEq::ct_eq` on slices, which yields 1
/// exactly when the slices have the same length and the same bytes; the
/// contract claims that.
#[verifier::external_body]
pub(crate) fn constant_time_eq(a: &[u8], b: &[u8]) -> (equal: bool)
    ensures
        equal == (a@ == b@),
{
    bool::from(a.ct_eq(b))
}

/// A character of the standard Base64 alphabet, or the padding `=`.
pub open spec fn is_base64_char(c: char) -> bool {
    ('A' <= c && c <= 'Z') || ('a' <= c && c <= 'z') || ('0' <= c && c <= '9') || c == '+' || c == '/' || c == '='
}

/// Text made of standard Base64 characters only.
pub open spec fn is_base64_text(s: Seq<char>) -> bool {
    forall|i: int| 0 <= i < s.len() ==> is_base64_char(#[trigger] s[i])
}

/// Whether the standard, padded decoding of the text `text` is `data`.
pub open spec fn standard_decodes_to(text: Seq<char>, data: Seq<u8>) -> bool {
    base64_standard_decode(encode_utf8(text)) == Ok::<Seq<u8>, Seq<char>>(data)
}

/// Base64 of `data` with the standard alphabet and padding.
///
/// Trusted: calls `Engine::encode` on `STANDARD`. The contract claims the
/// result is the named encoding of `data`, that it consists of the
/// alphabet's characters and `=` only, that it has four characters for
/// each started group of three bytes (padding is on), and that the same
/// engine decodes it back to `data` (the engine encodes canonically and
/// its decoder accepts canonical padded input).
#[verifier::external_body]
pub(crate) fn standard_encode(data: &[u8]) -> (text: String)
    ensures
        text@ == base64_standard_encode(data@),
        is_base64_text(text@),
        text@.len() == 4 * ((data@.len() + 2) / 3),
        standard_decodes_to(text@, data@),
{
    STANDARD.encode(data)
}

/// Decodes `text` with the standard alphabet and padding.
///
/// Trusted: calls `Engine::decode` on `STANDARD`; the error is turned into
/// its display text. The contract claims the result is the named decoding
/// of the bytes of `text`.
#[verifier::external_body]
pub(crate) fn standard_decode(text: &[u8]) -> (data: Result<Vec<u8>, String>)
    ensures
        match data {
            Ok(d) => base64_standard_decode(text@) == Ok::<Seq<u8>, Seq<char>>(d@),
            Err(e) => base64_standard_decode(text@) == Err::<Seq<u8>, Seq<char>>(e@),
        },
{
    STANDARD.decode(text).map_err(|e| e.to_string())
}

/// Whether the URL-safe, unpadded decoding of the text `text` is `data`.
pub open spec fn url_decodes_to(text: Seq<char>, data: Seq<u8>) -> bool {
    base64_url_decode(encode_utf8(text)) == Ok::<Seq<u8>, Seq<char>>(data)
}

/// Base64 of `data` with the URL-safe alphabet and no padding.
///
/// Trusted: calls `Engine::encode` on `URL_SAFE_NO_PAD`. The contract claims
/// the result is the named encoding of `data`, that it consists of ASCII
/// characters only, and that the same engine decodes it back to `data`
/// (the engine encodes canonically and its decoder accepts canonical
/// unpadded input).
#[verifier::external_body]
pub(crate) fn url_encode(data: &[u8]) -> (text: String)
    ensures
        text@ == base64_url_encode(data@),
        is_ascii_chars(text@),
        url_decodes_to(text@, data@),
{
    URL_SAFE_NO_PAD.encode(data)
}

/// Decodes `text` with the URL-safe alphabet and no padding.
///
/// Trusted: calls `Engine::decode` on `URL_SAFE_NO_PAD`; the error is turned
/// into its display text. The contract claims the result is the named
/// decoding of the bytes of `text`.
#[verifier::external_body]
pub(crate) fn url_decode(text: &[u8]) -> (data: Result<Vec<u8>, String>)
    ensures
        match data {
            Ok(d) => base64_url_decode(text@) == Ok::<Seq<u8>, Seq<char>>(d@),
            Err(e) => base64_url_decode(text@) == Err::<Seq<u8>, Seq<char>>(e@),
        },
{
    URL_SAFE_NO_PAD.decode(text).map_err(|e| e.to_string())
}

/// A reading of the system clock.
#[verifier::external_type_specification]
#[verifier::external_body]
pub struct ExSystemTime(std::time::SystemTime);

/// The current reading of the system clock.
///
/// Trusted: calls `SystemTime::now` (std). Nothing is claimed of the result,
/// which depends on the clock.
#[verifier::external_body]
fn system_now() -> (t: std::time::SystemTime) {
    std::time::SystemTime::now()
}

/// The time from the Unix epoch to `t`, or `None` where `t` is before it.
///
/// Trusted: calls `SystemTime::duration_since` (std) with `UNIX_EPOCH`; its
/// error, which says that `t` is earlier, becomes `None`. Nothing is claimed
/// of the result: a clock reading is opaque here.
#[verifier::external_body]
fn since_unix_epoch(t: std::time::SystemTime) -> (d: Option<std::time::Duration>) {
    t.duration_since(std::time::UNIX_EPOCH).ok()
}

/// The whole seconds of `d`.
///
/// Trusted: calls `Duration::as_secs` (std). Nothing is claimed of the
/// result: a duration is opaque here.
#[verifier::external_body]
fn whole_secs(d: &std::time::Duration) -> (secs: u64) {
    d.as_secs()
}

/// Seconds since the Unix epoch by the system clock (0 if the clock is set
/// before the epoch).
pub(crate) fn unix_time_secs() -> (secs: u64) {
    match since_unix_epoch(system_now()) {
        Some(d) => whole_secs(&d),
        None => 0,
    }
}

} // verus!
