use chrono::{TimeZone, Utc};

use gw2_overlay::api::auth::ApiKey;
use gw2_overlay::api::endpoints::AchievementTier;
use gw2_overlay::api::keystore::{decode_key_blob, encode_key_blob, key_from_plaintext};
use gw2_overlay::error::AppError;
use gw2_overlay::sync::achievements::{
    page_path, page_step, staleness, sync_is_stale, total_points, PageStep,
};
use gw2_overlay::sync::cache::{id_batches, missing_ids, referenced_ids, unknown_ids, BATCH_SIZE};
use gw2_overlay::sync::wizardsvault::vault_period_start;
use gw2_overlay::views::BitDef;

const SAMPLE_KEY: &str =
    "D15CCC05-29C4-C045-87C3-5473312233E8EF75EBEA-309B-4D11-AB3C-8AC6D81BEFE6";

fn utc(y: i32, mo: u32, d: u32, h: u32, mi: u32) -> i128 {
    Utc.with_ymd_and_hms(y, mo, d, h, mi, 0).unwrap().timestamp_nanos_opt().unwrap() as i128
}

#[test]
fn key_blob_uses_standard_base64() {
    assert_eq!(encode_key_blob(b"\xFF\xEC\x20\x55\0"), "/+wgVQA=");
    assert_eq!(encode_key_blob(b""), "");
    assert_eq!(encode_key_blob(b"hello world"), "aGVsbG8gd29ybGQ=");
    assert_eq!(decode_key_blob("+uwgVQA=").unwrap(), b"\xFA\xEC\x20\x55\0".to_vec());
}

#[test]
fn key_blob_rejects_text_that_is_not_base64() {
    match decode_key_blob("not base64!") {
        Err(AppError::WinCrypto(m)) => assert!(m.starts_with("base64: "), "{m}"),
        other => panic!("unexpected {:?}", other.map(|v| v.len())),
    }
}

#[test]
fn stored_key_round_trips_through_its_bytes_and_text() {
    let key = ApiKey::parse(SAMPLE_KEY).unwrap();
    let plain = key.plaintext();
    assert_eq!(plain, SAMPLE_KEY.as_bytes());
    let text = encode_key_blob(&plain);
    let back = decode_key_blob(&text).unwrap();
    let loaded = key_from_plaintext(back).unwrap();
    assert_eq!(loaded.account_id(), key.account_id());
    assert_eq!(loaded.as_bearer(), key.as_bearer());
}

#[test]
fn plaintext_that_is_not_a_key_is_refused() {
    assert!(matches!(key_from_plaintext(vec![0xff, 0xfe]), Err(AppError::BadKeyFormat)));
    assert!(matches!(key_from_plaintext(b"hello".to_vec()), Err(AppError::BadKeyFormat)));
    let lower = SAMPLE_KEY.to_ascii_lowercase().into_bytes();
    assert_eq!(key_from_plaintext(lower).unwrap().account_id(), "D15CCC05-29C4-C045-87C3-5473312233E8");
}

fn def(kind: Option<&str>, id: Option<i64>) -> BitDef {
    BitDef { kind: kind.map(|s| s.to_string()), id, text: None }
}

#[test]
fn referenced_ids_follow_the_bits_of_one_kind() {
    let rows = vec![
        vec![def(Some("Item"), Some(10)), def(Some("Skin"), Some(20)), def(None, Some(30))],
        vec![def(Some("Item"), Some(-1)), def(Some("Item"), None), def(Some("Item"), Some(10))],
    ];
    assert_eq!(referenced_ids(&rows, "Item"), vec![10, 10]);
    assert_eq!(referenced_ids(&rows, "Skin"), vec![20]);
    assert!(referenced_ids(&vec![], "Item").is_empty());
}

#[test]
fn missing_ids_are_uncached_and_distinct() {
    assert_eq!(missing_ids(&vec![3, 1, 3, 2, 1, 4], &vec![2]), vec![3, 1, 4]);
    assert!(missing_ids(&vec![1, 2], &vec![2, 1]).is_empty());
}

#[test]
fn unknown_ids_keep_wallet_order() {
    assert_eq!(unknown_ids(&vec![1, 2, 3, 2], &vec![3]), vec![1, 2, 2]);
    assert!(unknown_ids(&vec![], &vec![3]).is_empty());
}

#[test]
fn ids_are_requested_in_batches_of_two_hundred() {
    let ids: Vec<u32> = (0..450).collect();
    let bs = id_batches(&ids, BATCH_SIZE);
    assert_eq!(bs.iter().map(|b| b.len()).collect::<Vec<_>>(), vec![200, 200, 50]);
    assert_eq!(bs.concat(), ids);
    assert!(id_batches(&vec![], BATCH_SIZE).is_empty());
    assert_eq!(id_batches(&vec![7; 200], BATCH_SIZE).len(), 1);
}

#[test]
fn definition_pages_and_their_end() {
    assert_eq!(page_path(0), "/v2/achievements?page=0&page_size=200");
    assert_eq!(page_path(17), "/v2/achievements?page=17&page_size=200");
    assert_eq!(page_step(0), PageStep::Stop);
    assert_eq!(page_step(57), PageStep::StoreAndStop);
    assert_eq!(page_step(200), PageStep::StoreAndContinue);
}

#[test]
fn points_sum_over_tiers() {
    let tiers = vec![
        AchievementTier { count: 1, points: 5 },
        AchievementTier { count: 5, points: 10 },
    ];
    assert_eq!(total_points(&tiers), 15);
    assert_eq!(total_points(&vec![]), 0);
}

#[test]
fn definition_cache_staleness() {
    let now = utc(2026, 5, 24, 12, 0);
    assert!(staleness(None, 10, now, 7));
    let secs = Utc.with_ymd_and_hms(2026, 5, 20, 12, 0, 0).unwrap().timestamp();
    assert!(!staleness(Some((secs, 0)), 10, now, 7));
    assert!(staleness(Some((secs, 0)), 0, now, 7));
    assert!(staleness(Some((secs, 0)), 10, now, 4));
    assert!(!staleness(Some((secs, 1)), 10, now, 4));
    assert!(!sync_is_stale(&Some("2026-05-20T12:00:00+00:00".into()), 10, now, 7));
    assert!(sync_is_stale(&Some("2026-05-20T12:00:00+00:00".into()), 0, now, 7));
    assert!(sync_is_stale(&Some("2026-05-10T12:00:00Z".into()), 10, now, 7));
    assert!(sync_is_stale(&Some("yesterday".into()), 10, now, 7));
    assert!(sync_is_stale(&None, 10, now, 7));
}

#[test]
fn vault_periods_are_named_by_their_first_day() {
    // Wednesday 2026-05-20: the weekly period began on Monday 2026-05-18.
    let now = utc(2026, 5, 20, 15, 0);
    assert_eq!(vault_period_start("daily", now), "2026-05-20");
    assert_eq!(vault_period_start("weekly", now), "2026-05-18");
    assert_eq!(vault_period_start("special", now), "2026-05-18");
    // Monday before the 07:30 reset still belongs to the previous week.
    assert_eq!(vault_period_start("weekly", utc(2026, 5, 18, 7, 29)), "2026-05-11");
}
