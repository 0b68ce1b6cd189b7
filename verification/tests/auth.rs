use gw2_overlay::api::auth::ApiKey;
use gw2_overlay::api::dpapi;
use gw2_overlay::error::AppError;

const SAMPLE_KEY: &str =
    "D15CCC05-29C4-C045-87C3-5473312233E8EF75EBEA-309B-4D11-AB3C-8AC6D81BEFE6";

#[test]
fn parses_canonical_key() {
    let key = ApiKey::parse(SAMPLE_KEY).unwrap();
    assert_eq!(key.account_id(), "D15CCC05-29C4-C045-87C3-5473312233E8");
    assert!(key.as_bearer().starts_with("Bearer D15CCC05"));
}

#[test]
fn normalizes_lowercase_to_uppercase() {
    let key = ApiKey::parse(&SAMPLE_KEY.to_ascii_lowercase()).unwrap();
    assert_eq!(key.account_id(), "D15CCC05-29C4-C045-87C3-5473312233E8");
}

#[test]
fn rejects_bad_format() {
    assert!(matches!(ApiKey::parse("not-a-key"), Err(AppError::BadKeyFormat)));
    assert!(matches!(ApiKey::parse(""), Err(AppError::BadKeyFormat)));
    assert!(matches!(
        ApiKey::parse("D15CCC05-29C4-C045-87C3-5473312233E8"),
        Err(AppError::BadKeyFormat)
    ));
    // Non-hex
    assert!(matches!(
        ApiKey::parse("Z15CCC05-29C4-C045-87C3-5473312233E8EF75EBEA-309B-4D11-AB3C-8AC6D81BEFE6"),
        Err(AppError::BadKeyFormat)
    ));
}

#[test]
fn key_is_trimmed_before_checking() {
    let padded = format!("  {}\n", SAMPLE_KEY);
    let key = ApiKey::parse(&padded).unwrap();
    assert_eq!(key.account_id(), "D15CCC05-29C4-C045-87C3-5473312233E8");
    assert_eq!(key.as_bearer(), format!("Bearer {}", SAMPLE_KEY));
}

#[test]
fn key_with_misplaced_dash_is_refused() {
    let bad = "D15CCC0-529C4-C045-87C3-5473312233E8EF75EBEA-309B-4D11-AB3C-8AC6D81BEFE6";
    assert!(matches!(ApiKey::parse(bad), Err(AppError::BadKeyFormat)));
}

/// The data-protection service exists on Windows only; on this host both
/// directions are refused with the same error.
#[test]
fn dpapi_round_trip() {
    let plain = b"hello world";
    let refused = dpapi::protect(plain).unwrap_err();
    assert_eq!(refused.message(), "windows crypto error: DPAPI only supported on Windows");
    let back = dpapi::unprotect(plain).unwrap_err();
    assert!(matches!(back, AppError::WinCrypto(_)));
}

#[test]
fn description_is_nul_terminated_utf16() {
    let wide = dpapi::description_wide();
    let expected: Vec<u16> = "gw2-overlay-api-key".encode_utf16().chain(std::iter::once(0)).collect();
    assert_eq!(wide, expected);
}
