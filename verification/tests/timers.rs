use chrono::{TimeZone, Utc};

use gw2_overlay::timers::engine::{
    all_upcoming, current_meta_phase, is_filler_phase_name, metas_fit, next_spawn, prev_spawn,
    UpcomingKind,
};
use gw2_overlay::timers::schedule::{
    parse_hm, LeyLineAnomaly, MetaEvent, MetaPhase, Schedule, WorldBoss,
};

fn utc(y: i32, mo: u32, d: u32, h: u32, mi: u32) -> i128 {
    Utc.with_ymd_and_hms(y, mo, d, h, mi, 0).unwrap().timestamp_nanos_opt().unwrap() as i128
}

fn boss(times: &[&str]) -> WorldBoss {
    WorldBoss {
        id: "test".into(),
        name: "Test Boss".into(),
        tier: None,
        map: "Test Map".into(),
        area: None,
        waypoint_code: Some("[&AAAAAAAA=]".into()),
        expansion: "Core".into(),
        schedule_utc: times.iter().map(|s| (*s).to_string()).collect(),
        duration_minutes: 15,
        wiki_event: None,
    }
}

#[test]
fn next_spawn_picks_first_future_today() {
    let b = boss(&["00:00", "06:00", "12:00", "18:00"]);
    let now = utc(2026, 5, 24, 7, 0);
    assert_eq!(next_spawn(&b, now), utc(2026, 5, 24, 12, 0));
}

#[test]
fn next_spawn_rolls_over_to_tomorrow() {
    let b = boss(&["00:00", "06:00", "12:00", "18:00"]);
    let now = utc(2026, 5, 24, 23, 30);
    assert_eq!(next_spawn(&b, now), utc(2026, 5, 25, 0, 0));
}

#[test]
fn next_spawn_exact_match_picks_next() {
    let b = boss(&["12:00", "18:00"]);
    let now = utc(2026, 5, 24, 12, 0);
    // Strictly greater: 18:00 is next, not 12:00.
    assert_eq!(next_spawn(&b, now), utc(2026, 5, 24, 18, 0));
}

#[test]
fn next_spawn_rolls_over_to_earliest_time_of_day() {
    let b = boss(&["18:00", "06:00"]);
    let now = utc(2026, 5, 24, 20, 0);
    assert_eq!(next_spawn(&b, now), utc(2026, 5, 25, 6, 0));
    let b = boss(&["bad", "18:00", "03:00"]);
    assert_eq!(next_spawn(&b, utc(2026, 5, 24, 19, 0)), utc(2026, 5, 25, 3, 0));
    let none = boss(&["xx:yy"]);
    assert_eq!(next_spawn(&none, utc(2026, 5, 24, 19, 0)), utc(2026, 5, 25, 0, 0));
}

#[test]
fn prev_spawn_finds_latest_today_or_yesterday() {
    let b = boss(&["01:45", "13:00", "bad"]);
    assert_eq!(prev_spawn(&b, utc(2026, 5, 24, 14, 0)), Some(utc(2026, 5, 24, 13, 0)));
    assert_eq!(prev_spawn(&b, utc(2026, 5, 24, 13, 0)), Some(utc(2026, 5, 24, 13, 0)));
    assert_eq!(prev_spawn(&b, utc(2026, 5, 24, 0, 30)), Some(utc(2026, 5, 23, 13, 0)));
    assert_eq!(prev_spawn(&boss(&["xx:yy"]), utc(2026, 5, 24, 0, 30)), None);
}

fn meta() -> MetaEvent {
    MetaEvent {
        id: "ds".into(),
        name: "Dragon's Stand".into(),
        expansion: None,
        map: "Dragon's Stand".into(),
        waypoint_code: None,
        cycle_minutes: 120,
        anchor_utc: "00:30".into(),
        phases: vec![
            MetaPhase { offset_minutes: 0, name: "Lanes".into(), duration_minutes: 90 },
            MetaPhase {
                offset_minutes: 90,
                name: "Mouth of Mordremoth".into(),
                duration_minutes: 30,
            },
        ],
    }
}

#[test]
fn meta_active_phase_inside_lanes() {
    let m = meta();
    let now = utc(2026, 5, 24, 1, 0); // 30 min into the cycle that started at 00:30
    let i = current_meta_phase(&m, now);
    let active = i.active.expect("should be active");
    assert_eq!(active.name, "Lanes");
    assert_eq!(active.started_at, utc(2026, 5, 24, 0, 30));
    assert_eq!(i.next.name, "Mouth of Mordremoth");
    assert_eq!(i.next.starts_at, utc(2026, 5, 24, 2, 0));
}

#[test]
fn meta_active_phase_inside_mouth() {
    let m = meta();
    let now = utc(2026, 5, 24, 2, 15); // 1h45 into cycle (in Mouth phase)
    let i = current_meta_phase(&m, now);
    let active = i.active.expect("should be active");
    assert_eq!(active.name, "Mouth of Mordremoth");
    assert_eq!(active.started_at, utc(2026, 5, 24, 2, 0));
    // Next phase wraps to the next cycle's first phase
    assert_eq!(i.next.name, "Lanes");
    assert_eq!(i.next.starts_at, utc(2026, 5, 24, 2, 30));
}

#[test]
fn meta_before_anchor_walks_back_a_cycle() {
    let m = meta();
    let now = utc(2026, 5, 24, 0, 15); // 15 min before today's anchor
    let i = current_meta_phase(&m, now);
    let active = i.active.expect("active");
    assert_eq!(active.name, "Mouth of Mordremoth");
    assert_eq!(i.next.name, "Lanes");
    assert_eq!(i.next.starts_at, utc(2026, 5, 24, 0, 30));
}

fn amnytas() -> MetaEvent {
    // SotO-shaped meta: one real 25-min phase, then 95 min of Idle.
    MetaEvent {
        id: "amnytas".into(),
        name: "Defense of Amnytas".into(),
        expansion: None,
        map: "Amnytas".into(),
        waypoint_code: None,
        cycle_minutes: 120,
        anchor_utc: "00:00".into(),
        phases: vec![
            MetaPhase {
                offset_minutes: 0,
                name: "Defense of Amnytas".into(),
                duration_minutes: 25,
            },
            MetaPhase { offset_minutes: 25, name: "Idle".into(), duration_minutes: 95 },
        ],
    }
}

#[test]
fn idle_phase_is_filler_no_active_reported() {
    let m = amnytas();
    let now = utc(2026, 5, 24, 1, 0);
    let i = current_meta_phase(&m, now);
    assert!(i.active.is_none(), "Idle is filler; must not be active");
    assert_eq!(i.next.name, "Defense of Amnytas");
    assert_eq!(i.next.starts_at, utc(2026, 5, 24, 2, 0));
}

#[test]
fn real_phase_still_reported_active() {
    let m = amnytas();
    let now = utc(2026, 5, 24, 0, 10);
    let i = current_meta_phase(&m, now);
    let active = i.active.expect("real phase must be active");
    assert_eq!(active.name, "Defense of Amnytas");
    assert_eq!(active.ends_at, utc(2026, 5, 24, 0, 25));
}

#[test]
fn next_skips_filler_to_real_phase() {
    let m = MetaEvent {
        id: "test".into(),
        name: "Test".into(),
        expansion: None,
        map: "Test".into(),
        waypoint_code: None,
        cycle_minutes: 120,
        anchor_utc: "00:00".into(),
        phases: vec![
            MetaPhase { offset_minutes: 0, name: "A".into(), duration_minutes: 20 },
            MetaPhase { offset_minutes: 20, name: "Idle".into(), duration_minutes: 30 },
            MetaPhase { offset_minutes: 50, name: "B".into(), duration_minutes: 20 },
            MetaPhase { offset_minutes: 70, name: "Idle".into(), duration_minutes: 50 },
        ],
    };
    let now = utc(2026, 5, 24, 0, 30);
    let i = current_meta_phase(&m, now);
    assert!(i.active.is_none());
    assert_eq!(i.next.name, "B");
    assert_eq!(i.next.starts_at, utc(2026, 5, 24, 0, 50));
}

#[test]
fn all_filler_meta_wraps_to_first_phase() {
    let m = MetaEvent {
        id: "f".into(),
        name: "Filler".into(),
        expansion: None,
        map: "M".into(),
        waypoint_code: None,
        cycle_minutes: 60,
        anchor_utc: "00:00".into(),
        phases: vec![MetaPhase { offset_minutes: 10, name: "Reset".into(), duration_minutes: 50 }],
    };
    let i = current_meta_phase(&m, utc(2026, 5, 24, 3, 20));
    assert!(i.active.is_none());
    assert_eq!(i.next.name, "Reset");
    assert_eq!(i.next.starts_at, utc(2026, 5, 24, 4, 10));
}

#[test]
fn meta_with_seconds_keeps_them_in_phase_times() {
    let m = meta();
    let now = utc(2026, 5, 24, 1, 0) + 30_000_000_000;
    let i = current_meta_phase(&m, now);
    let active = i.active.expect("active");
    assert_eq!(active.started_at, utc(2026, 5, 24, 0, 30) + 30_000_000_000);
}

#[test]
fn is_filler_phase_name_recognises_common_variants() {
    assert!(is_filler_phase_name("Idle"));
    assert!(is_filler_phase_name("idle"));
    assert!(is_filler_phase_name("Reset"));
    assert!(is_filler_phase_name("Prep"));
    assert!(is_filler_phase_name("Preparations"));
    assert!(is_filler_phase_name("Pinata/Reset"));
    assert!(!is_filler_phase_name("Defense of Amnytas"));
    assert!(!is_filler_phase_name("Day: Securing Verdant Brink"));
    // "Night Bosses" must not be filtered — it's a real Verdant Brink phase.
    assert!(!is_filler_phase_name("Night Bosses"));
}

#[test]
fn filler_names_are_trimmed_first() {
    assert!(is_filler_phase_name("  PINATA \t"));
    assert!(!is_filler_phase_name("Idle phase"));
}

#[test]
fn all_upcoming_is_sorted_and_respects_horizon() {
    let schedule = Schedule {
        world_bosses: vec![
            {
                let mut b = boss(&["10:00", "20:00"]);
                b.id = "early".into();
                b
            },
            {
                let mut b = boss(&["11:30"]);
                b.id = "late".into();
                b
            },
            {
                let mut b = boss(&["23:00"]);
                b.id = "outside".into();
                b
            },
        ],
        meta_events: vec![],
        ley_line_anomaly: None,
    };
    let now = utc(2026, 5, 24, 9, 0);
    let upcoming = all_upcoming(&schedule, now, 180); // 3h window
    let ids: Vec<&str> = upcoming.iter().map(|e| e.id.as_str()).collect();
    assert_eq!(ids, vec!["early", "late"]);
}

#[test]
fn upcoming_includes_open_windows_and_meta_phases() {
    let schedule = Schedule {
        world_bosses: vec![{
            let mut b = boss(&["08:50"]);
            b.id = "active".into();
            b
        }],
        meta_events: vec![meta()],
        ley_line_anomaly: None,
    };
    let now = utc(2026, 5, 24, 9, 0);
    let upcoming = all_upcoming(&schedule, now, 10);
    assert_eq!(upcoming.len(), 2);
    assert_eq!(upcoming[0].kind, UpcomingKind::MetaPhase);
    assert_eq!(upcoming[0].name, "Dragon's Stand — Lanes");
    assert_eq!(upcoming[0].start_at, utc(2026, 5, 24, 8, 30));
    assert_eq!(upcoming[0].duration_minutes, 90);
    assert_eq!(upcoming[1].id, "active");
    assert_eq!(upcoming[1].kind, UpcomingKind::WorldBoss);
    assert_eq!(upcoming[1].start_at, utc(2026, 5, 24, 8, 50));
}

#[test]
fn parse_hm_basic() {
    assert_eq!(parse_hm("00:00"), Ok((0, 0)));
    assert_eq!(parse_hm("23:59"), Ok((23, 59)));
    assert_eq!(parse_hm("07:30"), Ok((7, 30)));
    assert!(parse_hm("24:00").is_err());
    assert!(parse_hm("12:60").is_err());
    assert!(parse_hm("no").is_err());
    assert!(parse_hm("12-30").is_err());
}

#[test]
fn parse_hm_error_texts() {
    assert_eq!(parse_hm("12-30"), Err("missing ':' in \"12-30\"".to_string()));
    assert_eq!(parse_hm(":30"), Err("hour: cannot parse integer from empty string".to_string()));
    assert_eq!(parse_hm("1x:30"), Err("hour: invalid digit found in string".to_string()));
    assert_eq!(parse_hm("12:99999999999"), Err("minute: number too large to fit in target type".to_string()));
    assert_eq!(parse_hm("24:00"), Err("out of range: 24:0".to_string()));
    assert_eq!(parse_hm("+7:05"), Ok((7, 5)));
    assert_eq!(parse_hm("7:+"), Err("minute: invalid digit found in string".to_string()));
}

fn schedule_with(bosses: Vec<WorldBoss>, metas: Vec<MetaEvent>) -> Schedule {
    Schedule { world_bosses: bosses, meta_events: metas, ley_line_anomaly: None }
}

#[test]
fn validate_accepts_good_schedule() {
    assert!(schedule_with(vec![boss(&["00:00"])], vec![meta(), amnytas()]).validate().is_ok());
}

#[test]
fn validate_reports_first_problem() {
    let err = schedule_with(vec![boss(&["00:00", "25:00"])], vec![]).validate().unwrap_err();
    assert_eq!(
        err.message(),
        "serialization error: boss test: invalid schedule_utc \"25:00\": out of range: 25:0"
    );
    let mut m = meta();
    m.anchor_utc = "x".into();
    let err = schedule_with(vec![], vec![m]).validate().unwrap_err();
    assert_eq!(
        err.message(),
        "serialization error: meta ds: invalid anchor_utc \"x\": missing ':' in \"x\""
    );
    let mut m = meta();
    m.phases.clear();
    let err = schedule_with(vec![], vec![m]).validate().unwrap_err();
    assert_eq!(err.message(), "serialization error: meta ds: no phases");
    let mut m = meta();
    m.phases[1].offset_minutes = 120;
    let err = schedule_with(vec![], vec![m]).validate().unwrap_err();
    assert_eq!(
        err.message(),
        "serialization error: meta ds: phase Mouth of Mordremoth offset 120 exceeds cycle 120"
    );
}

#[test]
fn ley_line_schedule_type_holds_rotation() {
    let lla = LeyLineAnomaly {
        id: "lla".into(),
        name: "Ley-Line Anomaly".into(),
        schedule_utc: vec!["02:20".into()],
        duration_minutes: 20,
        rotation_maps: vec!["Timberline Falls".into(), "Iron Marches".into()],
        wiki_event: None,
    };
    assert_eq!(lla.rotation_maps.len(), 2);
}

#[test]
fn metas_fit_requires_cycle_phases_and_bounded_ends() {
    assert!(metas_fit(&schedule_with(vec![boss(&["00:00"])], vec![meta(), amnytas()])));
    let mut m = meta();
    m.phases.clear();
    assert!(!metas_fit(&schedule_with(vec![], vec![m])));
    let mut m = meta();
    m.cycle_minutes = 0;
    assert!(!metas_fit(&schedule_with(vec![], vec![m])));
    let mut m = meta();
    m.phases[0].offset_minutes = u32::MAX;
    m.phases[0].duration_minutes = 1;
    assert!(!metas_fit(&schedule_with(vec![], vec![meta(), m])));
}

#[test]
fn filler_names_ignore_padding_and_case() {
    for name in ["Idle", "reset", "Prep", "Preparations", "Pinata/Reset", "pinata", "Night Bosses", "Lanes"] {
        let expected = is_filler_phase_name(name);
        assert_eq!(is_filler_phase_name(&format!("  {}  ", name.to_ascii_uppercase())), expected);
        assert_eq!(is_filler_phase_name(&format!("\t{}\n", name.to_ascii_lowercase())), expected);
    }
    assert!(is_filler_phase_name(" \u{3000}PREP\u{a0}"));
}

#[test]
fn parse_hm_reads_back_every_time_of_day() {
    for h in 0..24u32 {
        for m in 0..60u32 {
            assert_eq!(parse_hm(&format!("{:02}:{:02}", h, m)), Ok((h, m)));
        }
    }
}

#[test]
fn all_upcoming_lists_each_boss_once() {
    let schedule = Schedule {
        world_bosses: vec![
            {
                let mut b = boss(&["09:05", "09:35", "10:05"]);
                b.id = "frequent".into();
                b
            },
            {
                let mut b = boss(&["08:55", "09:10"]);
                b.id = "open".into();
                b
            },
        ],
        meta_events: vec![],
        ley_line_anomaly: None,
    };
    let now = utc(2026, 5, 24, 9, 0);
    let upcoming = all_upcoming(&schedule, now, 120);
    let ids: Vec<&str> = upcoming.iter().map(|e| e.id.as_str()).collect();
    assert_eq!(ids, vec!["open", "frequent"]);
    assert_eq!(upcoming[0].start_at, utc(2026, 5, 24, 8, 55));
    assert_eq!(upcoming[1].start_at, utc(2026, 5, 24, 9, 5));
}
