use chrono::{TimeZone, Utc};

use gw2_overlay::timers::feed::{expansion_rank_of, list_events, lookup_event, EventKind};
use gw2_overlay::timers::schedule::{LeyLineAnomaly, MetaEvent, MetaPhase, Schedule, WorldBoss};

fn utc(y: i32, mo: u32, d: u32, h: u32, mi: u32) -> i128 {
    Utc.with_ymd_and_hms(y, mo, d, h, mi, 0).unwrap().timestamp_nanos_opt().unwrap() as i128
}

fn boss(id: &str, name: &str, expansion: &str, times: &[&str]) -> WorldBoss {
    WorldBoss {
        id: id.into(),
        name: name.into(),
        tier: None,
        map: format!("{name} map"),
        area: None,
        waypoint_code: None,
        expansion: expansion.into(),
        schedule_utc: times.iter().map(|s| (*s).to_string()).collect(),
        duration_minutes: 15,
        wiki_event: None,
    }
}

fn schedule() -> Schedule {
    Schedule {
        world_bosses: vec![
            boss("teq", "Tequatl", "Core", &["12:00"]),
            boss("shatterer", "Shatterer", "Core", &["10:00"]),
            boss("octo", "Octovine", "HoT", &["09:30"]),
            boss("zed", "Zed", "Core", &["10:00"]),
        ],
        meta_events: vec![MetaEvent {
            id: "amnytas".into(),
            name: "Defense of Amnytas".into(),
            expansion: Some("SotO".into()),
            map: "Amnytas".into(),
            waypoint_code: Some("[&BDoBAAA=]".into()),
            cycle_minutes: 120,
            anchor_utc: "00:00".into(),
            phases: vec![
                MetaPhase { offset_minutes: 0, name: "Defense of Amnytas".into(), duration_minutes: 25 },
                MetaPhase { offset_minutes: 25, name: "Idle".into(), duration_minutes: 95 },
            ],
        }],
        ley_line_anomaly: Some(LeyLineAnomaly {
            id: "lla".into(),
            name: "Ley-Line Anomaly".into(),
            schedule_utc: vec!["09:20".into()],
            duration_minutes: 20,
            rotation_maps: vec!["Timberline Falls".into(), "Iron Marches".into()],
            wiki_event: None,
        }),
    }
}

#[test]
fn feed_orders_by_expansion_then_start_then_name() {
    let now = utc(2026, 5, 24, 9, 0);
    let events = list_events(&schedule(), now, &vec!["zed".to_string()]);
    let ids: Vec<&str> = events.iter().map(|e| e.id.as_str()).collect();
    assert_eq!(ids, vec!["shatterer", "zed", "teq", "octo", "amnytas", "lla"]);
    let zed = &events[1];
    assert!(zed.pinned);
    assert!(!events[0].pinned);
    let lla = &events[5];
    assert_eq!(lla.kind, EventKind::LeyLine);
    assert_eq!(lla.expansion, "Special");
    assert_eq!(lla.map, "Timberline Falls / Iron Marches");
    assert_eq!(lla.next_spawn, utc(2026, 5, 24, 9, 20));
    let meta = &events[4];
    assert_eq!(meta.kind, EventKind::MetaEvent);
    assert_eq!(meta.next_spawn, utc(2026, 5, 24, 10, 0));
    assert_eq!(meta.duration_minutes, 25);
}

#[test]
fn feed_shows_open_window_start() {
    let now = utc(2026, 5, 24, 12, 10);
    let events = list_events(&schedule(), now, &vec![]);
    let teq = events.iter().find(|e| e.id == "teq").unwrap();
    assert_eq!(teq.next_spawn, utc(2026, 5, 24, 12, 0));
}

#[test]
fn lookup_finds_each_kind() {
    let s = schedule();
    let now = utc(2026, 5, 24, 9, 0);
    let teq = lookup_event(&s, &"teq".to_string(), now).unwrap();
    assert_eq!(teq.next_spawn, utc(2026, 5, 24, 12, 0));
    assert_eq!(teq.expansion, "Core");
    let meta = lookup_event(&s, &"amnytas".to_string(), now).unwrap();
    assert_eq!(meta.expansion, "SotO");
    assert_eq!(meta.waypoint_code.as_deref(), Some("[&BDoBAAA=]"));
    let lla = lookup_event(&s, &"lla".to_string(), now).unwrap();
    assert_eq!(lla.map, "Timberline Falls / Iron Marches");
    assert!(lookup_event(&s, &"nope".to_string(), now).is_none());
}

#[test]
fn expansion_ranks() {
    assert_eq!(expansion_rank_of(&"Core".to_string()), 0);
    assert_eq!(expansion_rank_of(&"JW".to_string()), 7);
    assert_eq!(expansion_rank_of(&"Special".to_string()), 99);
    assert_eq!(expansion_rank_of(&"Unknown".to_string()), 50);
}
