use codex_nexus::codex::read_message;
use codex_nexus::json::Json;
use codex_nexus::recorder::{
    current_account_key, ensure_account, explicit_snapshot_account_key, now_seconds,
    record_account_snapshot, record_daily_usage, record_official_snapshot,
    record_rate_limit_samples, record_rate_limit_update, recording_key, snapshot_account_key,
    timestamp, AccountRecord,
};

fn json(text: &str) -> Json {
    read_message(text).unwrap()
}

#[test]
fn account_key_prefers_stable_id_and_hashes_email_fallback() {
    let with_id = json(
        r#"{"account": {"account": {"id": "acct-1", "email": "user@example.com"}}}"#,
    );
    assert_eq!(snapshot_account_key(&with_id), "account:acct-1");
    let email = json(
        r#"{"codexPath": "/usr/local/bin/codex",
            "account": {"account": {"email": " User@Example.com "}}}"#,
    );
    let same_email = json(
        r#"{"codexPath": "/usr/local/bin/codex",
            "account": {"account": {"email": "user@example.com"}}}"#,
    );
    assert_eq!(snapshot_account_key(&email), snapshot_account_key(&same_email));
    assert!(snapshot_account_key(&email).starts_with("sha256:"));
    assert_eq!(snapshot_account_key(&email).len(), "sha256:".len() + 64);
    let other = json(
        r#"{"codexPath": "/usr/local/bin/codex",
            "account": {"account": {"email": "someone@example.com"}}}"#,
    );
    assert_ne!(snapshot_account_key(&email), snapshot_account_key(&other));
}

fn limits() -> Json {
    json(
        r#"{"rateLimits": {"rateLimitsByLimitId": {"codex": {
            "primary": {"windowDurationMins": 10080, "usedPercent": 10.0, "resetsAt": 99}}}}}"#,
    )
}

#[test]
fn identical_rate_limit_notifications_are_deduplicated() {
    let mut rows = Vec::new();
    record_rate_limit_samples(&mut rows, "a", 100, &limits(), 1);
    record_rate_limit_samples(&mut rows, "a", 101, &limits(), 2);
    assert_eq!(rows.len(), 1);
    assert_eq!(rows[0].window, "primary");
    assert_eq!(rows[0].sample.resets_at, Some(99));
    assert_eq!(f64::from_bits(rows[0].sample.used_percent.to_bits()), 10.0);
    record_rate_limit_samples(&mut rows, "b", 101, &limits(), 2);
    assert_eq!(rows.len(), 2);
}

#[test]
fn a_sample_carries_the_generation_of_its_snapshot() {
    let mut rows = Vec::new();
    record_rate_limit_samples(&mut rows, "a", 100, &limits(), 1);
    let named = json(
        r#"{"generation": 7, "rateLimits": {"generation": 8, "rateLimitsByLimitId": {"codex": {
            "primary": {"windowDurationMins": 10080, "usedPercent": 11.0, "resetsAt": 99},
            "secondary": {"windowDurationMins": 300, "usedPercent": 3.0}}}}}"#,
    );
    record_rate_limit_samples(&mut rows, "a", 100, &named, 2);
    let generations: Vec<Option<i64>> = rows.iter().map(|row| row.generation).collect();
    assert_eq!(generations, vec![None, Some(7), Some(7)]);
}

#[test]
fn only_an_account_that_is_named_is_explicit() {
    assert_eq!(explicit_snapshot_account_key(&json("{}")), None);
    let named = json(r#"{"account": {"account": {"id": "acct-1"}}}"#);
    assert_eq!(explicit_snapshot_account_key(&named).as_deref(), Some("account:acct-1"));
}

fn account(key: &str, last_seen_at: i64) -> AccountRecord {
    AccountRecord {
        account_key: key.to_string(),
        display_name: None,
        email: None,
        plan_type: None,
        auth_identity: None,
        first_seen_at: 1,
        last_seen_at,
    }
}

#[test]
fn the_account_seen_last_is_current() {
    let mut accounts = vec![account("account:a", 5), account("account:b", 9)];
    assert_eq!(current_account_key(&accounts), Some("account:b".to_string()));
    ensure_account(&mut accounts, "account:a", 12);
    assert_eq!(current_account_key(&accounts), Some("account:a".to_string()));
    ensure_account(&mut accounts, "unresolved:x", 99);
    assert_eq!(current_account_key(&accounts), Some("account:a".to_string()));
    assert_eq!(current_account_key(&vec![account("unresolved:x", 1)]), None);
}

#[test]
fn a_snapshot_updates_what_it_names() {
    let mut accounts = Vec::new();
    let first = json(r#"{"account": {"account": {"email": "a@b.c", "planType": "pro"}}}"#);
    record_account_snapshot(&mut accounts, &first, "account:a", 10);
    let second = json(r#"{"account": {"account": {"name": "Ada"}}}"#);
    record_account_snapshot(&mut accounts, &second, "account:a", 20);
    assert_eq!(accounts.len(), 1);
    assert_eq!(accounts[0].email.as_deref(), Some("a@b.c"));
    assert_eq!(accounts[0].display_name.as_deref(), Some("Ada"));
    assert_eq!(accounts[0].plan_type.as_deref(), Some("pro"));
    assert_eq!((accounts[0].first_seen_at, accounts[0].last_seen_at), (10, 20));
}

#[test]
fn days_are_recorded_once_and_never_negative() {
    let mut days = Vec::new();
    let snapshot = json(
        r#"{"usage": {"dailyUsageBuckets": [
            {"startDate": "2026-07-19", "tokens": 7},
            {"startDate": "2026-07-20", "tokens": -3},
            {"tokens": 5},
            {"startDate": "2026-07-19", "tokens": 9}]}}"#,
    );
    record_daily_usage(&mut days, &snapshot, "a", 50);
    let seen: Vec<(&str, i64)> =
        days.iter().map(|day| (day.date.as_str(), day.official_tokens)).collect();
    assert_eq!(seen, vec![("2026-07-19", 9), ("2026-07-20", 0)]);
}

#[test]
fn a_snapshot_goes_into_all_books() {
    let snapshot = json(
        r#"{"fetchedAt": 1700000000000,
            "account": {"account": {"id": "acct-1"}},
            "usage": {"dailyUsageBuckets": [{"startDate": "2023-11-14", "tokens": 7}]},
            "rateLimits": {"rateLimitsByLimitId": {"codex": {
              "primary": {"windowDurationMins": 10080, "usedPercent": 10.0, "resetsAt": 99}}}}}"#,
    );
    let (mut accounts, mut days, mut rows) = (Vec::new(), Vec::new(), Vec::new());
    let key = record_official_snapshot(&mut accounts, &mut days, &mut rows, &snapshot, 1, 5);
    assert_eq!(key, "account:acct-1");
    assert_eq!(accounts[0].last_seen_at, 1_700_000_000);
    assert_eq!(days[0].official_tokens, 7);
    assert_eq!(rows[0].sample.sampled_at, 1_700_000_000);
    let noted = record_rate_limit_update(&accounts, &mut rows, &limits(), 2, 1_700_000_100);
    assert_eq!(noted, Some("account:acct-1".to_string()));
    assert_eq!(rows.len(), 2);
    assert_eq!(record_rate_limit_update(&Vec::new(), &mut rows, &limits(), 3, 1), None);
    assert_eq!(rows.len(), 2);
}

#[test]
fn a_snapshot_without_a_name_is_of_the_current_account() {
    let nameless = json("{}");
    assert!(snapshot_account_key(&nameless).starts_with("local:"));
    assert_eq!(recording_key(&nameless, Some("account:a".to_string())), "account:a");
    assert_eq!(recording_key(&nameless, None), snapshot_account_key(&nameless));
}

#[test]
fn timestamps_are_seconds_or_milliseconds() {
    let value = json(r#"{"ms": 1700000000000, "s": 1700000000}"#);
    assert_eq!(timestamp(value.get("ms"), 1), 1_700_000_000);
    assert_eq!(timestamp(value.get("s"), 1), 1_700_000_000);
    assert_eq!(timestamp(value.get("none"), 1), 1);
}

#[test]
fn the_clock_runs() {
    assert!(now_seconds() > 1_600_000_000);
}
