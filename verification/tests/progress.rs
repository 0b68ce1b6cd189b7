use std::collections::HashMap;

use gw2_overlay::api::endpoints::AccountAchievement;
use gw2_overlay::sync::progress::{diff, ProgressChange, ProgressSnapshot};

fn aa(id: u32, current: Option<u32>, done: bool, unlocked: bool) -> AccountAchievement {
    AccountAchievement {
        id,
        current,
        max: Some(10),
        done,
        bits: vec![],
        repeated: None,
        unlocked,
    }
}

#[test]
fn diff_detects_newly_done() {
    let prev: HashMap<u32, AccountAchievement> =
        [(1, aa(1, Some(8), false, true))].into_iter().collect();
    let fresh = vec![aa(1, Some(10), true, true)];
    assert_eq!(diff(&prev, &fresh), vec![ProgressChange::NewlyDone { id: 1 }]);
}

#[test]
fn diff_detects_progress() {
    let prev: HashMap<u32, AccountAchievement> =
        [(1, aa(1, Some(2), false, true))].into_iter().collect();
    let fresh = vec![aa(1, Some(5), false, true)];
    assert_eq!(
        diff(&prev, &fresh),
        vec![ProgressChange::Progressed { id: 1, prev: Some(2), current: Some(5) }]
    );
}

#[test]
fn diff_detects_first_seen_done() {
    let prev: HashMap<u32, AccountAchievement> = HashMap::new();
    let fresh = vec![aa(42, Some(10), true, true)];
    assert_eq!(diff(&prev, &fresh), vec![ProgressChange::NewlyDone { id: 42 }]);
}

#[test]
fn diff_detects_first_seen_unlock_when_not_done() {
    let prev: HashMap<u32, AccountAchievement> = HashMap::new();
    let fresh = vec![aa(42, Some(1), false, true)];
    assert_eq!(diff(&prev, &fresh), vec![ProgressChange::NewlyUnlocked { id: 42 }]);
}

#[test]
fn diff_ignores_unchanged() {
    let prev: HashMap<u32, AccountAchievement> =
        [(1, aa(1, Some(5), false, true))].into_iter().collect();
    let fresh = vec![aa(1, Some(5), false, true)];
    assert!(diff(&prev, &fresh).is_empty());
}

#[test]
fn diff_done_takes_priority_over_progress() {
    let prev: HashMap<u32, AccountAchievement> =
        [(1, aa(1, Some(5), false, true))].into_iter().collect();
    let fresh = vec![aa(1, Some(10), true, true)];
    assert_eq!(diff(&prev, &fresh), vec![ProgressChange::NewlyDone { id: 1 }]);
}

#[test]
fn diff_reports_late_unlock_and_skips_locked_newcomers() {
    let prev: HashMap<u32, AccountAchievement> =
        [(1, aa(1, Some(0), false, false))].into_iter().collect();
    let fresh = vec![aa(1, Some(0), false, true), aa(2, None, false, false)];
    assert_eq!(diff(&prev, &fresh), vec![ProgressChange::NewlyUnlocked { id: 1 }]);
}

#[test]
fn snapshot_replace_then_resync_is_quiet() {
    let mut snap = ProgressSnapshot::new();
    assert!(snap.is_empty());
    let rows = vec![aa(1, Some(3), false, true), aa(2, Some(10), true, true), aa(99, None, false, true)];
    snap.replace(rows.clone());
    assert_eq!(snap.len(), 3);
    assert!(!snap.is_empty());
    assert!(snap.changes(&rows).is_empty());
    let later = vec![aa(1, Some(4), false, true)];
    assert_eq!(
        snap.changes(&later),
        vec![ProgressChange::Progressed { id: 1, prev: Some(3), current: Some(4) }]
    );
}

#[test]
fn snapshot_keeps_last_row_per_id() {
    let mut snap = ProgressSnapshot::new();
    snap.replace(vec![aa(7, Some(1), false, true), aa(7, Some(2), false, true)]);
    assert_eq!(snap.len(), 1);
    assert!(snap.changes(&vec![aa(7, Some(2), false, true)]).is_empty());
}
