use chrono::{TimeZone, Utc};

use gw2_overlay::pinned::{linked_additions, next_event_of, plan_pinned_view};
use gw2_overlay::timers::engine::{UpcomingEvent, UpcomingKind};
use gw2_overlay::timers::schedule::{Schedule, WorldBoss};

fn utc(y: i32, mo: u32, d: u32, h: u32, mi: u32) -> i128 {
    Utc.with_ymd_and_hms(y, mo, d, h, mi, 0).unwrap().timestamp_nanos_opt().unwrap() as i128
}

fn boss(id: &str, name: &str, times: &[&str]) -> WorldBoss {
    WorldBoss {
        id: id.into(),
        name: name.into(),
        tier: None,
        map: format!("{name} map"),
        area: None,
        waypoint_code: None,
        expansion: "Core".into(),
        schedule_utc: times.iter().map(|s| (*s).to_string()).collect(),
        duration_minutes: 15,
        wiki_event: None,
    }
}

fn schedule() -> Schedule {
    Schedule {
        world_bosses: vec![
            boss("teq", "Tequatl", &["12:00"]),
            boss("shatterer", "Shatterer", &["10:00"]),
        ],
        meta_events: vec![],
        ley_line_anomaly: None,
    }
}

#[test]
fn pinned_view_groups_by_boss_sorted_by_next_start() {
    let now = utc(2026, 5, 24, 9, 0);
    let pinned = vec!["teq".to_string()];
    let bosses = vec![
        Some("shatterer".to_string()),
        None,
        Some("teq".to_string()),
        Some("unknown".to_string()),
    ];
    let done = vec![true, false, false, true];
    let plan = plan_pinned_view(&schedule(), now, &pinned, &bosses, &done);
    assert_eq!(plan.standalone, vec![1]);
    assert_eq!(plan.boss_groups.len(), 2);
    let first = &plan.boss_groups[0];
    assert_eq!(first.info.id, "shatterer");
    assert_eq!(first.info.next_spawn, utc(2026, 5, 24, 10, 0));
    assert!(!first.explicitly_pinned);
    assert_eq!(first.members, vec![0]);
    assert!(!first.has_remaining);
    let second = &plan.boss_groups[1];
    assert_eq!(second.info.id, "teq");
    assert!(second.explicitly_pinned);
    assert_eq!(second.members, vec![2]);
    assert!(second.has_remaining);
}

#[test]
fn pinned_boss_without_achievements_still_has_a_group() {
    let now = utc(2026, 5, 24, 9, 0);
    let plan = plan_pinned_view(&schedule(), now, &vec!["teq".to_string()], &vec![], &vec![]);
    assert_eq!(plan.boss_groups.len(), 1);
    assert!(plan.boss_groups[0].members.is_empty());
    assert!(!plan.boss_groups[0].has_remaining);
    assert!(plan.standalone.is_empty());
}

fn upcoming(id: &str, start: i128) -> UpcomingEvent {
    UpcomingEvent {
        id: id.into(),
        name: id.into(),
        map: "map".into(),
        kind: UpcomingKind::WorldBoss,
        start_at: start,
        duration_minutes: 15,
        waypoint_code: None,
    }
}

#[test]
fn next_event_is_first_matching_upcoming() {
    let list = vec![upcoming("a", 1), upcoming("teq", 2), upcoming("teq", 3)];
    assert_eq!(next_event_of(&list, "teq"), Some(1));
    assert_eq!(next_event_of(&list, "a"), Some(0));
    assert_eq!(next_event_of(&list, "zzz"), None);
    assert_eq!(next_event_of(&vec![], "teq"), None);
}

#[test]
fn linked_additions_skip_achievements_already_grouped() {
    let linked = vec![5, 6, 7, 9];
    let pinned_ids = vec![6, 7, 9];
    let pinned_bosses = vec![Some("teq".to_string()), None, Some("x".to_string())];
    assert_eq!(linked_additions(&linked, &pinned_ids, &pinned_bosses), vec![0, 2]);
    assert_eq!(linked_additions(&linked, &vec![], &vec![]), vec![0, 1, 2, 3]);
}
