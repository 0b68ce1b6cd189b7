use chrono::{TimeZone, Utc};

use gw2_overlay::notify::{boss_alerts, NotifiedLog};
use gw2_overlay::timers::schedule::{Schedule, WorldBoss};

fn utc(y: i32, mo: u32, d: u32, h: u32, mi: u32) -> i128 {
    Utc.with_ymd_and_hms(y, mo, d, h, mi, 0).unwrap().timestamp_nanos_opt().unwrap() as i128
}

fn schedule() -> Schedule {
    let boss = |id: &str, name: &str, t: &str| WorldBoss {
        id: id.into(),
        name: name.into(),
        tier: None,
        map: format!("{name} Map"),
        area: None,
        waypoint_code: None,
        expansion: "Core".into(),
        schedule_utc: vec![t.to_string()],
        duration_minutes: 15,
        wiki_event: None,
    };
    Schedule {
        world_bosses: vec![boss("teq", "Tequatl", "12:00"), boss("jormag", "Jormag", "12:30")],
        meta_events: vec![],
        ley_line_anomaly: None,
    }
}

#[test]
fn pinned_boss_within_lead_is_announced_once() {
    let s = schedule();
    let mut log = NotifiedLog::new();
    let pinned = vec!["teq".to_string(), "jormag".to_string(), "missing".to_string()];
    let now = utc(2026, 5, 24, 11, 58);
    let alerts = boss_alerts(&s, &pinned, now, 2, &mut log);
    assert_eq!(alerts.len(), 1);
    assert_eq!(alerts[0].boss_id, "teq");
    assert_eq!(alerts[0].spawn, utc(2026, 5, 24, 12, 0));
    assert_eq!(alerts[0].title, "GW2: Tequatl spawning soon");
    assert_eq!(alerts[0].body, "in 2m at Tequatl Map");
    let again = boss_alerts(&s, &pinned, now + 30_000_000_000, 2, &mut log);
    assert!(again.is_empty());
}

#[test]
fn under_a_minute_reads_now() {
    let s = schedule();
    let mut log = NotifiedLog::new();
    let now = utc(2026, 5, 24, 12, 29) + 30_000_000_000;
    let alerts = boss_alerts(&s, &vec!["jormag".to_string()], now, 2, &mut log);
    assert_eq!(alerts.len(), 1);
    assert_eq!(alerts[0].body, "now at Jormag Map");
}

#[test]
fn negative_lead_announces_nothing() {
    let s = schedule();
    let mut log = NotifiedLog::new();
    let now = utc(2026, 5, 24, 11, 59);
    assert!(boss_alerts(&s, &vec!["teq".to_string()], now, -1, &mut log).is_empty());
}
