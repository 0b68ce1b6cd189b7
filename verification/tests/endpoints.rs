use gw2_overlay::api::endpoints::{
    achievements_batch_path, currencies_batch_path, default_unlocked, items_batch_path,
    required_missing, required_permissions, skins_batch_path, ApiKeyStatus, TokenInfo,
};
use gw2_overlay::error::AppError;

#[test]
fn permission_check_passes_when_all_present() {
    let info = TokenInfo {
        id: "x".into(),
        name: "x".into(),
        permissions: required_permissions(),
    };
    info.check_required_permissions().unwrap();
}

#[test]
fn permission_check_reports_all_missing() {
    let info = TokenInfo {
        id: "x".into(),
        name: "x".into(),
        permissions: vec!["account".into(), "wallet".into()],
    };
    let err = info.check_required_permissions().unwrap_err();
    let msg = err.message();
    for p in ["progression", "unlocks", "inventories", "characters"] {
        assert!(msg.contains(p), "expected {p} in {msg}");
    }
}

#[test]
fn missing_permissions_are_listed_in_order() {
    let info = TokenInfo {
        id: "x".into(),
        name: "x".into(),
        permissions: vec!["wallet".into(), "account".into(), "unlocks".into()],
    };
    match info.check_required_permissions() {
        Err(AppError::MissingPermissions(m)) => {
            assert_eq!(m, "progression, inventories, characters");
        }
        other => panic!("unexpected {other:?}"),
    }
    assert_eq!(required_missing(&info), vec!["progression", "inventories", "characters"]);
}

#[test]
fn required_permissions_are_the_six() {
    assert_eq!(
        required_permissions(),
        vec!["account", "progression", "unlocks", "inventories", "characters", "wallet"]
    );
}

#[test]
fn key_status_reports_missing() {
    let info = TokenInfo {
        id: "x".into(),
        name: "x".into(),
        permissions: vec!["account".into()],
    };
    let status = ApiKeyStatus::from("ACC".into(), info);
    assert_eq!(status.account_id, "ACC");
    assert_eq!(status.permissions, vec!["account"]);
    assert!(!status.permissions_ok);
    assert_eq!(status.missing.len(), 5);

    let full = TokenInfo { id: "y".into(), name: "y".into(), permissions: required_permissions() };
    let ok = ApiKeyStatus::from("B".into(), full);
    assert!(ok.permissions_ok);
    assert!(ok.missing.is_empty());
}

#[test]
fn unlocked_defaults_to_true() {
    assert!(default_unlocked());
}

#[test]
fn batch_paths_join_ids() {
    assert_eq!(
        achievements_batch_path(&vec![1, 22, 333]).unwrap(),
        "/v2/achievements?ids=1,22,333"
    );
    assert_eq!(items_batch_path(&vec![19976]).unwrap(), "/v2/items?ids=19976&lang=en");
    assert_eq!(skins_batch_path(&vec![4, 5]).unwrap(), "/v2/skins?ids=4,5&lang=en");
    assert_eq!(currencies_batch_path(&vec![1, 2]).unwrap(), "/v2/currencies?ids=1,2&lang=en");
}

#[test]
fn batch_paths_skip_empty_requests() {
    assert!(achievements_batch_path(&vec![]).is_none());
    assert!(items_batch_path(&vec![]).is_none());
    assert!(skins_batch_path(&vec![]).is_none());
    assert!(currencies_batch_path(&vec![]).is_none());
}
