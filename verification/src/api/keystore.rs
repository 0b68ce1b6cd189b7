//! How the API key is kept in the settings table: the key's UTF-8 bytes are
//! protected for the current user, and the protected blob is written as
//! standard base64 text. Reading it back undoes each step in turn.
use base64::engine::general_purpose::STANDARD;
use base64::Engine;
use vstd::prelude::*;
use vstd::utf8::{decode_utf8, encode_utf8, valid_utf8};

use crate::api::auth::{key_shape, normalized_key, ApiKey};
use crate::error::AppError;
use crate::text::{ascii_upper, concat, is_ascii_hexdigit, is_ws, trim, trim_end, trim_start};

verus! {

/// The settings key under which the protected key is stored.
pub const KEY_SETTING: &'static str = "gw2_api_key_dpapi_b64";

/// The symbol of a 6-bit value in the standard base64 alphabet of RFC 4648
/// (`A`-`Z`, `a`-`z`, `0`-`9`, `+`, `/`).
pub open spec fn b64_symbol(v: int) -> char {
    if v < 26 {
        (65 + v) as char
    } else if v < 52 {
        (71 + v) as char
    } else if v < 62 {
        (v - 4) as char
    } else if v == 62 {
        '+'
    } else {
        '/'
    }
}

/// Standard base64 of `b` (RFC 4648, with `=` padding): each group of three
/// bytes becomes four symbols of six bits each, and a last group of one or
/// two bytes is padded to four symbols.
pub open spec fn base64_standard(b: Seq<u8>) -> Seq<char>
    decreases b.len(),
{
    if b.len() == 0 {
        seq![]
    } else if b.len() == 1 {
        seq![b64_symbol(b[0] as int / 4), b64_symbol((b[0] as int % 4) * 16), '=', '=']
    } else if b.len() == 2 {
        seq![
            b64_symbol(b[0] as int / 4),
            b64_symbol((b[0] as int % 4) * 16 + b[1] as int / 16),
            b64_symbol((b[1] as int % 16) * 4),
            '=',
        ]
    } else {
        seq![
            b64_symbol(b[0] as int / 4),
            b64_symbol((b[0] as int % 4) * 16 + b[1] as int / 16),
            b64_symbol((b[1] as int % 16) * 4 + b[2] as int / 64),
            b64_symbol(b[2] as int % 64),
        ] + base64_standard(b.skip(3))
    }
}

/// What the standard base64 engine's `decode` gives for `text`: the bytes,
/// or the text of its `DecodeError`.
pub uninterp spec fn base64_decoded(text: Seq<char>) -> Result<Seq<u8>, Seq<char>>;

/// `base64::Engine::encode` on the `STANDARD` engine. Claimed: the result is
/// the RFC 4648 standard encoding with padding (`base64_standard`). The
/// engine panics when the encoded length overflows `usize`, which the
/// `requires` rules out.
#[verifier::external_body]
fn b64_encode(bytes: &[u8]) -> (r: String)
    requires
        bytes@.len() / 3 * 4 + 4 <= usize::MAX,
    ensures
        r@ == base64_standard(bytes@),
{
    STANDARD.encode(bytes)
}

/// `base64::Engine::decode` on the `STANDARD` engine, its `DecodeError`
/// turned into the error's text. Claimed: the result is `base64_decoded` of
/// the input, and the standard encoding of any bytes decodes to those bytes.
#[verifier::external_body]
fn b64_decode(text: &str) -> (r: Result<Vec<u8>, String>)
    ensures
        match r {
            Ok(v) => base64_decoded(text@) == Ok::<Seq<u8>, Seq<char>>(v@),
            Err(m) => base64_decoded(text@) == Err::<Seq<u8>, Seq<char>>(m@),
        },
        forall|b: Seq<u8>| #[trigger] base64_standard(b) == text@ ==> (r is Ok && r->Ok_0@ == b),
{
    match STANDARD.decode(text) {
        Ok(v) => Ok(v),
        Err(e) => Err(e.to_string()),
    }
}

/// `String::from_utf8`: the text of `bytes` when they are valid UTF-8,
/// `None` when they are not.
#[verifier::external_body]
fn utf8_text(bytes: Vec<u8>) -> (r: Option<String>)
    ensures
        match r {
            Some(s) => valid_utf8(bytes@) && s@ == decode_utf8(bytes@),
            None => !valid_utf8(bytes@),
        },
{
    String::from_utf8(bytes).ok()
}

/// The settings text for a protected key blob: its standard base64.
pub fn encode_key_blob(blob: &[u8]) -> (r: String)
    requires
        blob@.len() / 3 * 4 + 4 <= usize::MAX,
    ensures
        r@ == base64_standard(blob@),
{
    b64_encode(blob)
}

/// The protected key blob held in the settings text `text`. Text that is
/// not base64 is refused with `WinCrypto("base64: <reason>")`; the standard
/// encoding of a blob gives that blob back.
pub fn decode_key_blob(text: &str) -> (r: Result<Vec<u8>, AppError>)
    ensures
        match base64_decoded(text@) {
            Ok(b) => r matches Ok(v) && v@ == b,
            Err(m) => r matches Err(AppError::WinCrypto(w)) && w@ == "base64: "@ + m,
        },
        forall|b: Seq<u8>| #[trigger] base64_standard(b) == text@ ==> (r matches Ok(v) && v@ == b),
{
    match b64_decode(text) {
        Ok(v) => Ok(v),
        Err(m) => Err(AppError::WinCrypto(concat("base64: ", m.as_str()))),
    }
}

/// The API key recovered from unprotected bytes: they must be UTF-8 text
/// that `ApiKey::parse` accepts, and are refused with `BadKeyFormat`
/// otherwise.
pub fn key_from_plaintext(plain: Vec<u8>) -> (r: Result<ApiKey, AppError>)
    ensures
        valid_utf8(plain@) && key_shape(trim(decode_utf8(plain@))) ==> (r matches Ok(k) && k.view()
            == normalized_key(decode_utf8(plain@))),
        !(valid_utf8(plain@) && key_shape(trim(decode_utf8(plain@)))) ==> r matches Err(
            AppError::BadKeyFormat,
        ),
{
    match utf8_text(plain) {
        Some(text) => ApiKey::parse(text.as_str()),
        None => Err(AppError::BadKeyFormat),
    }
}

/// A canonical upper-case key survives the trip through its UTF-8 bytes:
/// the bytes are valid UTF-8, decode to the key, and parse back to it.
pub proof fn lemma_key_bytes_round_trip(t: Seq<char>)
    requires
        key_shape(t),
        ascii_upper(t) == t,
    ensures
        valid_utf8(encode_utf8(t)),
        decode_utf8(encode_utf8(t)) == t,
        key_shape(trim(t)),
        normalized_key(t) == t,
{
    broadcast use vstd::utf8::encode_utf8_valid_utf8, vstd::utf8::encode_utf8_decode_utf8;

    assert(!is_ws(t[0])) by {
        assert(is_ascii_hexdigit(t[0]));
    };
    assert(!is_ws(t.last())) by {
        assert(is_ascii_hexdigit(t[71]));
    };
    assert(trim_start(t) == t);
    assert(trim_end(t) == t);
}

} // verus!
