use gw2_overlay::api::endpoints::ApiKeyStatus;
use gw2_overlay::builds::{filter_builds, Build};
use gw2_overlay::views::{
    achievement_name, bit_defs, bit_views, count_flags, done_indices, item_result, parse_bits,
    recent_log_lines, search_query, AccountItemLocation, BitDef, CachedItem,
};
use std::collections::HashMap;

#[test]
fn achievement_name_falls_back_to_id() {
    assert_eq!(achievement_name(Some("Tequatl Slayer".into()), 7), "Tequatl Slayer");
    assert_eq!(achievement_name(None, 42), "Achievement #42");
}

#[test]
fn search_query_trims_and_caps() {
    assert_eq!(search_query("  teq ", None), Some(("%teq%".to_string(), 30)));
    assert_eq!(search_query("vault", Some(10)), Some(("%vault%".to_string(), 10)));
    assert_eq!(search_query("vault", Some(500)), Some(("%vault%".to_string(), 100)));
    assert_eq!(search_query("vault", Some(100)), Some(("%vault%".to_string(), 100)));
    assert_eq!(search_query("   ", Some(5)), None);
    assert_eq!(search_query("", None), None);
}

fn loc(place: &str, count: u32) -> AccountItemLocation {
    AccountItemLocation { location: place.into(), location_detail: None, count }
}

#[test]
fn item_result_totals_every_location() {
    let r = item_result(19721, "Glob of Ectoplasm".into(), Some("Exotic".into()), vec![
        loc("bank", 250),
        loc("materials", 1000),
        loc("character", 3),
    ]);
    assert_eq!(r.total, 1253);
    assert_eq!(r.item_id, 19721);
    assert_eq!(r.locations.len(), 3);
    let empty = item_result(1, "x".into(), None, vec![]);
    assert_eq!(empty.total, 0);
}

#[test]
fn count_flags_counts_set_flags() {
    assert_eq!(count_flags(&vec![true, false, true, true]), 3);
    assert_eq!(count_flags(&vec![]), 0);
    assert_eq!(count_flags(&vec![false, false]), 0);
}

#[test]
fn unverified_status_keeps_account_and_reports_ok() {
    let s = ApiKeyStatus::unverified("ACC".into());
    assert_eq!(s.account_id, "ACC");
    assert!(s.permissions_ok);
    assert!(s.permissions.is_empty());
    assert!(s.missing.is_empty());
}

fn def(kind: Option<&str>, id: Option<i64>, text: Option<&str>) -> BitDef {
    BitDef { kind: kind.map(|s| s.to_string()), id, text: text.map(|s| s.to_string()) }
}

#[test]
fn bit_views_resolve_items_and_done_indices() {
    let defs = vec![
        def(Some("Item"), Some(100), None),
        def(None, None, Some("Kill the boss")),
        def(Some("Skin"), Some(5), Some("")),
        def(Some("Item"), Some(999), None),
    ];
    let mut items = HashMap::new();
    items.insert(100u32, CachedItem {
        name: "Mystic Coin".into(),
        rarity: Some("Rare".into()),
        description: None,
    });
    let v = bit_views(&defs, &vec![1, 3], &items);
    assert_eq!(v.len(), 4);
    assert_eq!(v[0].index, 0);
    assert_eq!(v[0].kind, "Item");
    assert_eq!(v[0].resolved_name.as_deref(), Some("Mystic Coin"));
    assert_eq!(v[0].resolved_rarity.as_deref(), Some("Rare"));
    assert!(!v[0].done);
    assert_eq!(v[1].kind, "Text");
    assert_eq!(v[1].text.as_deref(), Some("Kill the boss"));
    assert!(v[1].done);
    assert_eq!(v[2].kind, "Skin");
    assert_eq!(v[2].text, None);
    assert_eq!(v[2].resolved_name, None);
    assert_eq!(v[2].ref_id, Some(5));
    assert_eq!(v[3].resolved_name, None);
    assert!(v[3].done);
}

#[test]
fn recent_log_lines_keeps_the_last_lines() {
    let content = "a\r\nb\nc\nd\n";
    assert_eq!(recent_log_lines(content, Some(2)), "c\nd");
    assert_eq!(recent_log_lines(content, None), "a\nb\nc\nd");
    assert_eq!(recent_log_lines(content, Some(0)), "");
    assert_eq!(recent_log_lines("", None), "");
    assert_eq!(recent_log_lines("one\n\ntwo", Some(10)), "one\n\ntwo");
}

fn build(id: &str, profession: &str) -> Build {
    Build {
        id: id.into(),
        profession: profession.into(),
        elite_spec: None,
        role: "dps".into(),
        name: id.into(),
        source: "snowcrows".into(),
        source_url: String::new(),
        chat_code: String::new(),
        gear_summary: None,
        weapons: None,
        difficulty: Some(3),
        notes: None,
    }
}

#[test]
fn builds_filter_by_profession_ignoring_case() {
    let all = vec![build("a", "Guardian"), build("b", "Necromancer"), build("c", "guardian")];
    let g: Vec<String> =
        filter_builds(all.clone(), Some("GUARDIAN".into())).into_iter().map(|b| b.id).collect();
    assert_eq!(g, vec!["a".to_string(), "c".to_string()]);
    assert_eq!(filter_builds(all.clone(), None).len(), 3);
    assert!(filter_builds(all, Some("Thief".into())).is_empty());
}

#[test]
fn bit_defs_read_the_stored_json() {
    let json = Some(r#"[{"type":"Item","id":100},{"text":"Kill the boss","id":"x"},{"type":7,"id":-3,"text":""}]"#.to_string());
    let d = bit_defs(&json);
    assert_eq!(d.len(), 3);
    assert_eq!(d[0].kind.as_deref(), Some("Item"));
    assert_eq!(d[0].id, Some(100));
    assert_eq!(d[0].text, None);
    assert_eq!(d[1].kind, None);
    assert_eq!(d[1].id, None);
    assert_eq!(d[1].text.as_deref(), Some("Kill the boss"));
    assert_eq!(d[2].kind, None);
    assert_eq!(d[2].id, Some(-3));
    assert_eq!(d[2].text.as_deref(), Some(""));
    assert!(bit_defs(&None).is_empty());
    assert!(bit_defs(&Some("not json".to_string())).is_empty());
    assert!(bit_defs(&Some(r#"{"type":"Item"}"#.to_string())).is_empty());
}

#[test]
fn done_indices_read_the_stored_json() {
    assert_eq!(done_indices(&Some("[0, 2, 5]".to_string())), vec![0, 2, 5]);
    assert_eq!(done_indices(&Some("[]".to_string())), Vec::<u32>::new());
    assert!(done_indices(&None).is_empty());
    assert!(done_indices(&Some("[-1]".to_string())).is_empty());
    assert!(done_indices(&Some("garbage".to_string())).is_empty());
}

#[test]
fn parse_bits_joins_definitions_done_and_items() {
    let mut items = HashMap::new();
    items.insert(100u32, CachedItem {
        name: "Mystic Coin".into(),
        rarity: None,
        description: Some("Shiny".into()),
    });
    let defs = Some(r#"[{"type":"Item","id":100},{"text":"Kill the boss"}]"#.to_string());
    let v = parse_bits(&defs, &Some("[1]".to_string()), &items);
    assert_eq!(v.len(), 2);
    assert_eq!(v[0].kind, "Item");
    assert_eq!(v[0].resolved_name.as_deref(), Some("Mystic Coin"));
    assert_eq!(v[0].resolved_description.as_deref(), Some("Shiny"));
    assert!(!v[0].done);
    assert_eq!(v[1].kind, "Text");
    assert_eq!(v[1].text.as_deref(), Some("Kill the boss"));
    assert!(v[1].done);
    assert!(parse_bits(&None, &Some("[0]".to_string()), &items).is_empty());
    let undone = parse_bits(&defs, &Some("oops".to_string()), &items);
    assert_eq!(undone.len(), 2);
    assert!(!undone[1].done);
}
