//! The GW2 API key: its canonical format and the text derived from it.
use vstd::prelude::*;
use vstd::utf8::encode_utf8;

use crate::error::{AppError, Result};
use crate::text::{
    ascii_upper, char_is_ws, chars_of, concat, is_ascii_hexdigit, trim, trim_bounds, string_of,
    uppercase, to_upper,
};

verus! {

/// Positions of the eight separators in a canonical key
/// (segments of 8-4-4-4-20-4-4-4-12 characters).
pub open spec fn is_dash_pos(i: int) -> bool {
    i == 8 || i == 13 || i == 18 || i == 23 || i == 44 || i == 49 || i == 54 || i == 59
}

/// `t` is a canonical GW2 API key: nine hexadecimal segments of
/// 8-4-4-4-20-4-4-4-12 characters joined by `-`.
pub open spec fn key_shape(t: Seq<char>) -> bool {
    &&& t.len() == 72
    &&& forall|i: int|
        0 <= i < 72 ==> if is_dash_pos(i) {
            t[i] == '-'
        } else {
            is_ascii_hexdigit(#[trigger] t[i])
        }
}

/// The key of accepted `input`, normalised to upper case.
pub open spec fn normalized_key(input: Seq<char>) -> Seq<char> {
    ascii_upper(trim(input))
}

/// A validated GW2 API key, held in upper case.
pub struct ApiKey(String);

impl ApiKey {
    #[verifier::type_invariant]
    spec fn inv(self) -> bool {
        key_shape(self.0@) && ascii_upper(self.0@) == self.0@
    }

    /// The characters of the key.
    pub closed spec fn view(&self) -> Seq<char> {
        self.0@
    }

    /// Validate the canonical GW2 API key format after trimming surrounding
    /// whitespace; the accepted key is kept in upper case.
    pub fn parse(input: &str) -> (r: Result<ApiKey>)
        ensures
            key_shape(trim(input@)) ==> (r matches Ok(k) && k.view() == normalized_key(input@)),
            !key_shape(trim(input@)) ==> r matches Err(AppError::BadKeyFormat),
    {
        let cs = chars_of(input);
        let (lo, hi) = trim_bounds(&cs);
        let ghost t = cs@.subrange(lo as int, hi as int);
        if hi - lo != 72 {
            return Err(AppError::BadKeyFormat);
        }
        let mut k: usize = 0;
        while k < 72
            invariant
                lo <= hi <= cs.len(),
                hi - lo == 72,
                t == cs@.subrange(lo as int, hi as int),
                t == trim(input@),
                k <= 72,
                forall|i: int|
                    0 <= i < k ==> if is_dash_pos(i) {
                        t[i] == '-'
                    } else {
                        is_ascii_hexdigit(#[trigger] t[i])
                    },
            decreases 72 - k,
        {
            let c = cs[lo + k];
            let dash = k == 8 || k == 13 || k == 18 || k == 23 || k == 44 || k == 49 || k == 54
                || k == 59;
            let ok = if dash {
                c == '-'
            } else {
                ('0' <= c && c <= '9') || ('a' <= c && c <= 'f') || ('A' <= c && c <= 'F')
            };
            if !ok {
                assert(!(if is_dash_pos(k as int) {
                    t[k as int] == '-'
                } else {
                    is_ascii_hexdigit(t[k as int])
                }));
                assert(!key_shape(t));
                return Err(AppError::BadKeyFormat);
            }
            k = k + 1;
        }
        let trimmed = string_of(&cs, lo, hi);
        let key = uppercase(trimmed.as_str());
        proof {
            assert(key_shape(key@)) by {
                assert forall|i: int| 0 <= i < 72 implies if is_dash_pos(i) {
                    key@[i] == '-'
                } else {
                    is_ascii_hexdigit(#[trigger] key@[i])
                } by {
                    assert(key@[i] == to_upper(t[i]));
                };
            };
            assert(ascii_upper(key@) =~= key@);
        }
        Ok(ApiKey(key))
    }

    /// `Bearer <key>`, the value of the HTTP `Authorization` header.
    pub fn as_bearer(&self) -> (r: String)
        ensures
            r@ == "Bearer "@ + self.view(),
    {
        concat("Bearer ", self.0.as_str())
    }

    /// The key's UTF-8 bytes, the plaintext that is protected for storage.
    /// The key is canonical and upper case.
    pub fn plaintext(&self) -> (r: Vec<u8>)
        ensures
            r@ == encode_utf8(self.view()),
            key_shape(self.view()),
            ascii_upper(self.view()) == self.view(),
    {
        proof {
            use_type_invariant(self);
        }
        vstd::slice::slice_to_vec(self.0.as_str().as_bytes())
    }

    /// The account part of the key (its first 36 characters), safe to log.
    pub fn account_id(&self) -> (r: &str)
        ensures
            r@ == self.view().take(36),
    {
        proof {
            use_type_invariant(self);
            assert(vstd::utf8::is_ascii_chars(self.0@)) by {
                assert forall|i: int| 0 <= i < self.0@.len() implies '\0' <= #[trigger] self.0@[i]
                    <= '\u{7f}' by {
                    if is_dash_pos(i) {
                    } else {
                        assert(is_ascii_hexdigit(self.0@[i]));
                    }
                };
            };
        }
        self.0.as_str().substring_ascii(0, 36)
    }
}

impl Clone for ApiKey {
    fn clone(&self) -> (r: Self)
        ensures
            r.view() == self.view(),
    {
        proof {
            use_type_invariant(self);
        }
        ApiKey(self.0.clone())
    }
}

} // verus!
