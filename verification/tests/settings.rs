use gw2_overlay::settings::{
    hotkey_setting_or, lead_setting_text, notification_lead, parse_i64, HotkeyConfig,
    DEFAULT_NOTIFY_LEAD_MINUTES,
};

#[test]
fn i64_parsing_follows_str_parse() {
    for s in ["0", "42", "-7", "+15", "9223372036854775807", "-9223372036854775808", "",
              "+", "-", "1.5", " 3", "9223372036854775808", "-9223372036854775809", "0012"] {
        assert_eq!(parse_i64(s), s.parse::<i64>().ok(), "input {s:?}");
    }
}

#[test]
fn lead_falls_back_to_default() {
    assert_eq!(notification_lead(&None), DEFAULT_NOTIFY_LEAD_MINUTES);
    assert_eq!(notification_lead(&Some("abc".into())), 2);
    assert_eq!(notification_lead(&Some("7".into())), 7);
    assert_eq!(notification_lead(&Some("-3".into())), -3);
}

#[test]
fn lead_is_stored_clamped() {
    assert_eq!(lead_setting_text(0), "1");
    assert_eq!(lead_setting_text(5), "5");
    assert_eq!(lead_setting_text(99), "15");
    assert_eq!(lead_setting_text(i64::MIN), "1");
}

#[test]
fn hotkeys_fall_back_when_blank() {
    assert_eq!(hotkey_setting_or(&None, "A"), "A");
    assert_eq!(hotkey_setting_or(&Some("   ".into()), "A"), "A");
    assert_eq!(hotkey_setting_or(&Some(" Ctrl+K ".into()), "A"), " Ctrl+K ");
    let d = HotkeyConfig::default();
    assert_eq!(d.toggle_visibility, "CmdOrCtrl+Shift+G");
    assert_eq!(d.toggle_clickthrough, "CmdOrCtrl+Shift+H");
    assert_eq!(d.toggle_bosses, "CmdOrCtrl+Shift+B");
    assert_eq!(d.toggle_achievements, "CmdOrCtrl+Shift+P");
    let c = HotkeyConfig::from_settings(&Some("Alt+1".into()), &None, &Some("".into()), &None);
    assert_eq!(c.toggle_visibility, "Alt+1");
    assert_eq!(c.toggle_clickthrough, "CmdOrCtrl+Shift+H");
    assert_eq!(c.toggle_bosses, "CmdOrCtrl+Shift+B");
}

#[test]
fn lead_reads_back_what_was_stored() {
    for minutes in [i64::MIN, -4, 0, 1, 2, 9, 10, 15, 16, 1000, i64::MAX] {
        let stored = lead_setting_text(minutes);
        assert_eq!(notification_lead(&Some(stored)), minutes.clamp(1, 15));
    }
}
