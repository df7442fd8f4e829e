use codex_nexus::codex::read_message;
use codex_nexus::json::Json;
use codex_nexus::monitor::{
    extract_windows, next_threshold, notice_body, notice_title, process_snapshot,
    quota_reset_occurred, record_history, reset_relative, sanitize_settings, window_label,
    MonitorSettings, Notice,
};
use codex_nexus::percent::Percent;
use codex_nexus::text_map::TextMap;

fn percent(value: f64) -> Percent {
    Percent::from_bits(value.to_bits())
}

fn json(text: &str) -> Json {
    read_message(text).unwrap()
}

#[test]
fn settings_are_sorted_and_deduplicated() {
    let mut settings = MonitorSettings {
        notify_thresholds: vec![100, 95, 95, 0, 101, 80],
        ..MonitorSettings::default()
    };
    sanitize_settings(&mut settings);
    assert_eq!(settings.notify_thresholds, vec![80, 95, 100]);
    sanitize_settings(&mut settings);
    assert_eq!(settings.notify_thresholds, vec![80, 95, 100]);
}

#[test]
fn history_limit_keys_are_stable_for_multiple_buckets() {
    let mut keys = std::collections::BTreeSet::new();
    keys.insert("codex:primary");
    keys.insert("codex_other:secondary");
    assert_eq!(keys.len(), 2);
}

#[test]
fn threshold_notifications_are_deduplicated_and_advance() {
    let thresholds = [80, 90, 95, 100];
    assert_eq!(next_threshold(0, percent(89.0), &thresholds), Some(80));
    assert_eq!(next_threshold(80, percent(90.0), &thresholds), Some(90));
    assert_eq!(next_threshold(90, percent(98.0), &thresholds), Some(95));
    assert_eq!(next_threshold(95, percent(98.0), &thresholds), None);
}

#[test]
fn reset_detection_requires_a_new_future_reset_timestamp() {
    assert!(quota_reset_occurred(Some(100), Some(200), 150));
    assert!(!quota_reset_occurred(Some(100), Some(100), 150));
    assert!(!quota_reset_occurred(Some(200), Some(100), 150));
    assert!(!quota_reset_occurred(None, Some(200), 150));
}

#[test]
fn whole_percentages_are_those_of_the_doubles() {
    for n in 0..=255u8 {
        assert_eq!(Percent::of_whole(n), percent(f64::from(n)));
    }
    assert_eq!(percent(-0.5).in_quota(), percent(0.0));
    assert_eq!(percent(100.5).in_quota(), percent(100.0));
    assert_eq!(percent(42.25).in_quota(), percent(42.25));
}

#[test]
fn an_unknown_policy_becomes_the_default() {
    let mut settings = MonitorSettings::default();
    settings.usage_refresh_policy = "3m".to_string();
    sanitize_settings(&mut settings);
    assert_eq!(settings.usage_refresh_policy, "3m");
    settings.usage_refresh_policy = "hourly".to_string();
    sanitize_settings(&mut settings);
    assert_eq!(settings.usage_refresh_policy, "adaptive");
    assert!(settings.notify_quota_reset && settings.close_to_tray);
}

fn snapshot(used: f64, resets_at: i64) -> Json {
    json(&format!(
        r#"{{"rateLimits": {{"rateLimitsByLimitId": {{"codex": {{"limitName": "Codex",
            "primary": {{"windowDurationMins": 10080, "usedPercent": {used:?},
                         "resetsAt": {resets_at}}},
            "secondary": {{"usedPercent": 3}}}}}}}},
            "usage": {{"summary": {{"lifetimeTokens": 77}}}}}}"#
    ))
}

#[test]
fn windows_need_a_length_and_a_percentage() {
    let windows = extract_windows(&snapshot(91.0, 500));
    assert_eq!(windows.len(), 1);
    assert_eq!(windows[0].key, "codex:primary");
    assert_eq!(windows[0].limit_name, "Codex");
    assert_eq!(windows[0].used_percent, percent(91.0));
    let single = json(
        r#"{"rateLimits": {"rateLimits": {"limitId": "codex",
            "secondary": {"windowDurationMins": 300, "usedPercent": 140}}}}"#,
    );
    let windows = extract_windows(&single);
    assert_eq!(windows.len(), 1);
    assert_eq!(windows[0].key, "codex:secondary");
    assert_eq!(windows[0].limit_name, "codex");
    assert_eq!(windows[0].used_percent, percent(100.0));
    assert_eq!(windows[0].resets_at, None);
    assert!(extract_windows(&Json::Null).is_empty());
}

#[test]
fn thresholds_and_resets_are_announced_once() {
    let mut settings = MonitorSettings::default();
    let first = process_snapshot(&mut settings, &snapshot(91.0, 500), 100);
    assert!(first.changed && first.force_history);
    assert_eq!(first.notices.len(), 1);
    assert_eq!(notice_title(&first.notices[0]), "Codex usage reached 90%");
    assert_eq!(
        notice_body(&first.notices[0], 9, 100),
        "Weekly quota has 9% remaining.\nResets in 6m."
    );
    let again = process_snapshot(&mut settings, &snapshot(91.0, 500), 101);
    assert!(!again.changed && !again.force_history && again.notices.is_empty());
    let reset = process_snapshot(&mut settings, &snapshot(1.0, 9000), 600);
    assert!(matches!(reset.notices[0], Notice::Reset { .. }));
    assert_eq!(notice_title(&reset.notices[0]), "Codex quota reset");
    assert_eq!(
        notice_body(&reset.notices[0], 99, 600),
        "Your Weekly quota is available again."
    );
    assert_eq!(settings.last_notified_threshold.get("codex:primary"), None);
    assert_eq!(settings.last_reset_notified_at.get("codex:primary"), Some(9000));
}

#[test]
fn the_history_is_sampled() {
    let mut history = Vec::new();
    assert!(record_history(&mut history, &snapshot(10.0, 500), false, 1000));
    assert!(!record_history(&mut history, &snapshot(10.0, 500), false, 1299));
    assert!(record_history(&mut history, &snapshot(11.0, 500), false, 1300));
    assert!(record_history(&mut history, &snapshot(12.0, 500), true, 1300));
    assert_eq!(history.len(), 2);
    assert_eq!(history[1].lifetime_tokens, Some(77));
    let (key, limit) = &history[1].limits.entries[0];
    assert_eq!(key, "codex:primary");
    assert_eq!(limit.used_percent, percent(12.0));
}

#[test]
fn windows_and_resets_have_names() {
    assert_eq!(window_label(300), "5 Hour");
    assert_eq!(window_label(1440), "Daily");
    assert_eq!(window_label(10080), "Weekly");
    assert_eq!(window_label(20160), "2 Week");
    assert_eq!(window_label(2880), "2 Day");
    assert_eq!(window_label(120), "2 Hour");
    assert_eq!(window_label(7), "7 Minute");
    assert_eq!(reset_relative(None, 0), "Reset time unavailable.");
    assert_eq!(reset_relative(Some(90_000), 0), "Resets in 1d 1h.");
    assert_eq!(reset_relative(Some(3_660), 0), "Resets in 1h 1m.");
    assert_eq!(reset_relative(Some(59), 0), "Resets in 0m.");
    assert_eq!(reset_relative(Some(-5), 0), "Resets in 0m.");
}

#[test]
fn a_text_map_keeps_its_texts_in_order() {
    let mut map: TextMap<i64> = TextMap::new();
    map.insert("b", 2);
    map.insert("a", 1);
    map.insert("b", 3);
    assert_eq!(map.get("a"), Some(1));
    assert_eq!(map.get("b"), Some(3));
    assert_eq!(map.get("c"), None);
    let keys: Vec<&str> = map.entries.iter().map(|entry| entry.0.as_str()).collect();
    assert_eq!(keys, vec!["a", "b"]);
    map.remove("a");
    map.remove("c");
    assert_eq!(map.get("a"), None);
    assert_eq!(map.entries.len(), 1);
}
