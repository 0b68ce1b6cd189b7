//! Key protection on hosts without the Windows data-protection service:
//! every request is refused with `AppError::WinCrypto`. (The Windows
//! implementation lives with the application, beside the operating-system
//! calls it makes.)
use vstd::prelude::*;

use crate::error::{AppError, Result};
use crate::text::owned;

verus! {

/// The description attached to protected blobs.
pub const KEY_DESCRIPTION: &'static str = "gw2-overlay-api-key";

/// The refusal text on hosts without the data-protection service.
pub open spec fn unsupported_message() -> Seq<char> {
    "DPAPI only supported on Windows"@
}

/// `KEY_DESCRIPTION` as a NUL-terminated UTF-16 string.
pub fn description_wide() -> (r: Vec<u16>)
    ensures
        r@ == KEY_DESCRIPTION@.map_values(|c: char| c as u16).push(0u16),
{
    let mut out: Vec<u16> = Vec::new();
    for c in it: KEY_DESCRIPTION.chars()
        invariant
            it.seq() == KEY_DESCRIPTION@,
            out@ == it.seq().take(it.index() as int).map_values(|c: char| c as u16),
    {
        proof {
            reveal_strlit("gw2-overlay-api-key");
        }
        assert(it.seq().take(it.index() + 1) == it.seq().take(it.index() as int).push(c));
        out.push(c as u32 as u16);
    }
    proof {
        reveal_strlit("gw2-overlay-api-key");
        assert(KEY_DESCRIPTION@.take(KEY_DESCRIPTION@.len() as int) == KEY_DESCRIPTION@);
    }
    out.push(0u16);
    out
}

/// Protect `plain` for the current user. Refused on this host.
pub fn protect(plain: &[u8]) -> (r: Result<Vec<u8>>)
    ensures
        r matches Err(AppError::WinCrypto(m)) && m@ == unsupported_message(),
{
    Err(AppError::WinCrypto(owned("DPAPI only supported on Windows")))
}

/// Recover a blob protected for the current user. Refused on this host.
pub fn unprotect(cipher: &[u8]) -> (r: Result<Vec<u8>>)
    ensures
        r matches Err(AppError::WinCrypto(m)) && m@ == unsupported_message(),
{
    Err(AppError::WinCrypto(owned("DPAPI only supported on Windows")))
}

} // verus!
