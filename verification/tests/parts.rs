use codex_nexus::arith::{
    floor_div, saturating_add, saturating_add_wide, saturating_millis, saturating_sub,
};
use codex_nexus::calendar::{parse_timestamp, seconds_from_number};
use codex_nexus::codex::{read_message, CodexRpcClient};
use codex_nexus::collector_core::{
    find_source, register_source, sources_counting_for, unresolved_activity, BindingStatus,
    ObservedFile, RolloutSource, SourceCondition,
};
use codex_nexus::collector_ipc::{data_health_for_connection, status_from_connection, SHOWN_ROWS};
use codex_nexus::collector_service::RefreshState;
use codex_nexus::digest::text_fingerprint;
use codex_nexus::health::{
    account_data_health, last_rebuild_batch, legacy_row, store_account_data_health,
    unchecked_accounts, DataHealth, TimelineStatus,
};
use codex_nexus::ledger::{AuditReason, StoredParseError};
use codex_nexus::models::{is_unresolved_account_key, Confidence, TokenUsage, TurnUsageRecord};
use codex_nexus::monitor::{default_usage_refresh_policy, whole_minutes_left};
use codex_nexus::percent::Percent;
use codex_nexus::quota::{
    observation_gap, Evidence, Gap, RateLimitRow, RateSample, SampleQuality, UnresolvedActivity,
};
use codex_nexus::rate_card::RateCard;
use codex_nexus::rebuild::{
    after_reading, batch_id_at, health_request_after_rebuild, is_reset_target, plan_rebuild,
    rollout_rebuild_completed, rollout_rebuild_name, staging_key, AfterReading,
    FileBindingStatus, RebuildError, RebuildOutcome, RebuildPlan,
};
use codex_nexus::repository::{category_for, range_of, RANGE_END, RANGE_ORDER};
use codex_nexus::rollout::{
    add, line_kind, parse_usage, subtract, CursorState, LineKind, TurnTokenSample,
    ROLLOUT_PARSER_VERSION,
};
use codex_nexus::recorder::DailyUsageRow;
use codex_nexus::sessions::{gap_spans, record_gap, CollectorGap, GapReason, SessionStatus};
use codex_nexus::table::{count_account_rows, delete_account_rows};
use codex_nexus::text::{
    ascii_lowercase, comes_before, decimal_digits, decimal_text, decimal_wide, ends_with,
    first_line_of, joined, read_keyed_number, replace_char, trim, trim_end,
};

fn usage(input: i64, cached: i64, output: i64, reasoning: i64, total: i64) -> TokenUsage {
    TokenUsage {
        input_tokens: input,
        cached_input_tokens: cached,
        output_tokens: output,
        reasoning_output_tokens: reasoning,
        raw_total_tokens: total,
    }
}

fn sample(sampled_at: i64, cumulative: i64, delta: i64) -> TurnTokenSample {
    TurnTokenSample {
        account_key: "account:a".into(),
        thread_id: "t".into(),
        turn_id: "u".into(),
        segment_no: 0,
        model: None,
        reasoning_effort: "high".into(),
        speed_mode: "standard".into(),
        sampled_at,
        cumulative_tokens: cumulative,
        delta_tokens: delta,
        source: "rollout".into(),
        confidence: Confidence::High,
    }
}

fn one_source() -> Vec<RolloutSource> {
    let file = ObservedFile {
        canonical_path: "/logs/s.jsonl".into(),
        raw_path: "/logs/s.jsonl".into(),
        identity: "dev:1:ino:2".into(),
        modified_at: Some(5),
        bytes: b"{}\n".to_vec(),
    };
    let mut sources = Vec::new();
    register_source(&mut sources, &mut Vec::new(), &file, 9).unwrap();
    sources
}

#[test]
fn arithmetic_stops_at_its_bounds() {
    assert_eq!(saturating_add(i64::MAX, 1), i64::MAX);
    assert_eq!(saturating_add(i64::MIN, -1), i64::MIN);
    assert_eq!(saturating_sub(i64::MIN, 1), i64::MIN);
    assert_eq!(saturating_sub(3, 5), -2);
    assert_eq!(saturating_millis(7), 7000);
    assert_eq!(saturating_millis(i64::MAX), i64::MAX);
    assert_eq!(saturating_add_wide(i128::MAX, 1), i128::MAX);
    assert_eq!(floor_div(-1, 86_400), -1);
    assert_eq!(floor_div(86_400, 86_400), 1);
}

#[test]
fn texts_are_taken_apart() {
    assert_eq!(trim("  a b\n"), "a b");
    assert_eq!(trim_end(" a \n"), " a");
    assert_eq!(ascii_lowercase("AbÉ"), "abÉ");
    assert_eq!(replace_char("a b c", ' ', '_'), "a_b_c");
    assert_eq!(joined("ab", "cd"), "abcd");
    assert!(ends_with("s.jsonl", ".jsonl") && !ends_with("l", "jl"));
    assert_eq!(decimal_digits(0), "0");
    assert_eq!(decimal_digits(u128::MAX), u128::MAX.to_string());
    assert_eq!(decimal_text(i64::MIN), i64::MIN.to_string());
    assert_eq!(decimal_wide(i128::MIN), i128::MIN.to_string());
    assert_eq!(first_line_of("a\r\nb"), Some("a".to_string()));
    assert_eq!(first_line_of(""), None);
    assert_eq!(read_keyed_number("pid=42", "pid="), Some(42));
    assert_eq!(read_keyed_number("pid=x", "pid="), None);
    assert!(comes_before("a", "ab") && comes_before("Z", "a") && !comes_before("b", "b"));
}

#[test]
fn a_digest_is_the_known_one() {
    assert_eq!(
        text_fingerprint("abc"),
        "ba7816bf8f01cfea414140de5dae2223b00361a396177a9cb410ff61f20015ad"
    );
}

#[test]
fn numbers_and_texts_name_a_second() {
    assert_eq!(seconds_from_number(1_700_000_000), 1_700_000_000);
    assert_eq!(seconds_from_number(1_700_000_000_999), 1_700_000_000);
    let value = read_message(r#""1970-01-01T00:01:00+00:01""#);
    assert_eq!(parse_timestamp(value.as_ref()), Some(0));
    assert_eq!(parse_timestamp(read_message("[]").as_ref()), None);
}

#[test]
fn usage_is_put_in_order() {
    assert_eq!(usage(-1, 2, 3, 9, 0).normalized(), usage(0, 2, 3, 3, 3));
    assert_eq!(
        subtract(&usage(10, 4, 6, 2, 16), &usage(4, 1, 9, 1, 10)),
        usage(6, 3, 0, 0, 6)
    );
    assert_eq!(
        add(&usage(1, 0, 2, 0, 3), &usage(4, 1, 5, 2, 9)),
        usage(5, 1, 7, 2, 12)
    );
    let read = read_message(r#"{"input_tokens": 3, "output_tokens": 4}"#).unwrap();
    assert_eq!(parse_usage(&read), usage(3, 0, 4, 0, 7));
    assert!(CursorState::fresh().is_well_formed());
}

#[test]
fn lines_are_told_apart() {
    let kind = |text: &str| line_kind(&read_message(text).unwrap());
    assert!(matches!(kind(r#"{"type": "session_meta"}"#), LineKind::SessionMeta));
    assert!(matches!(kind(r#"{"type": "turn_context"}"#), LineKind::TurnContext));
    assert!(matches!(kind(r#"{"type": "other"}"#), LineKind::Other));
}

#[test]
fn the_rate_card_knows_its_models() {
    let card = RateCard::current();
    let rate = card.rate_for("gpt-5.6-sol").unwrap();
    assert_eq!(rate.model, "gpt-5.6-sol");
    assert!(card.rate_for("no-such-model").is_none());
    assert!(card.calculate(None, "standard", &usage(1, 0, 1, 0, 2)).is_none());
}

#[test]
fn rebuilds_are_named_and_planned() {
    assert_eq!(rollout_rebuild_name("a"), "rollout_rebuild_v9:a");
    assert_eq!(staging_key("a"), "__rollout_rebuild_v9__:a");
    assert_eq!(batch_id_at("a", "rebuild", 12), "rebuild:v9:a:12");
    let now = ROLLOUT_PARSER_VERSION;
    let plan = |prior, logs| plan_rebuild(prior, logs);
    assert!(matches!(
        plan(Some((now - 1, DataHealth::Verified)), true),
        RebuildPlan::ResetHistory
    ));
    assert!(matches!(
        plan(Some((now, DataHealth::Verified)), true),
        RebuildPlan::AlreadyDone
    ));
    assert!(matches!(
        plan(Some((now, DataHealth::LegacyUnverified)), true),
        RebuildPlan::Rebuild
    ));
    assert!(matches!(
        plan(Some((0, DataHealth::LegacyUnverified)), false),
        RebuildPlan::NoLogs
    ));
    assert!(matches!(plan(None, true), RebuildPlan::Rebuild));
    assert!(!rollout_rebuild_completed(Some((now, DataHealth::Rebuilding)), true));
    assert!(rollout_rebuild_completed(Some((now, DataHealth::LegacyUnverified)), false));
}

#[test]
fn what_follows_reading_depends_on_the_owner() {
    let mut source = one_source().remove(0);
    assert!(matches!(after_reading(&source, "account:a"), AfterReading::Leave));
    assert!(is_reset_target(&source, "account:a"));
    source.binding_status = BindingStatus::Quarantined;
    assert!(matches!(after_reading(&source, "account:a"), AfterReading::NotOwned));
    source.binding_status = BindingStatus::Verified;
    source.account_key = Some("account:a".into());
    assert!(matches!(after_reading(&source, "account:a"), AfterReading::Derive));
    assert!(matches!(after_reading(&source, "account:b"), AfterReading::Leave));
    assert!(is_reset_target(&source, "account:a") && !is_reset_target(&source, "account:b"));
    source.binding_status = BindingStatus::Inferred;
    assert!(!is_reset_target(&source, "account:a"));
}

#[test]
fn a_gap_is_kept_the_right_way_round() {
    let mut gaps: Vec<CollectorGap> = Vec::new();
    record_gap(&mut gaps, None, 10, 4, GapReason::Crash, 11);
    assert_eq!((gaps[0].start_at, gaps[0].end_at, gaps[0].duration_ms), (4, 4, 0));
    record_gap(&mut gaps, None, 4, 10, GapReason::OsSleep, 11);
    assert_eq!((gaps[1].start_at, gaps[1].end_at, gaps[1].duration_ms), (4, 10, 6000));
    assert_eq!(gaps[1].reason.as_str(), "os_sleep");
}

#[test]
fn a_step_knows_how_long_it_was_not_watched() {
    let gaps = vec![Gap { start_at: 0, end_at: 20 }];
    let samples = vec![sample(15, 5, 5), sample(25, 9, 4)];
    let none: Vec<UnresolvedActivity> = Vec::new();
    let evidence = Evidence { gaps: &gaps, samples: &samples, unresolved: &none };
    let seen = observation_gap(&evidence, "account:a", 10, 30);
    assert_eq!((seen.duration_ms, seen.token_count), (10_000, 5));
    assert_eq!(seen.quality, SampleQuality::BoundedGap);
    assert_eq!(
        observation_gap(&evidence, "account:a", 40, 50).quality,
        SampleQuality::Exact
    );
    let unknown = vec![UnresolvedActivity {
        first_seen_at: 45,
        first_activity_at: None,
        last_activity_at: None,
    }];
    let evidence = Evidence { gaps: &gaps, samples: &samples, unresolved: &unknown };
    assert_eq!(
        observation_gap(&evidence, "account:a", 40, 50).quality,
        SampleQuality::Unresolved
    );
}

#[test]
fn the_health_of_the_data_shows_the_latest() {
    let mut limits = Vec::new();
    for id in 0..30 {
        limits.push(RateLimitRow {
            account_key: "account:a".into(),
            limit_id: "codex".into(),
            window: "primary".into(),
            sample: RateSample {
                id,
                sampled_at: id,
                window_duration_mins: 300,
                used_percent: Percent::of_whole(1),
                resets_at: None,
            },
            generation: None,
        });
    }
    let status = status_from_connection(None, "/tmp/collector.sock", true, 0);
    assert_eq!(status.status, "unavailable");
    let samples = vec![sample(1, 5, 5), sample(2, 9, 4)];
    let shown =
        data_health_for_connection(status, &one_source(), &Vec::new(), &limits, &samples);
    assert_eq!(shown.latest_rate_limit_samples.len(), SHOWN_ROWS);
    assert_eq!(shown.latest_rate_limit_samples[0].id, 29);
    assert_eq!(shown.latest_token_samples[0].cumulative_tokens, 9);
    assert_eq!((shown.sources.len(), shown.unresolved_source_count), (1, 1));
    assert!(shown.gaps.is_empty());
    let sources = one_source();
    assert_eq!(find_source(&sources, &sources[0].source_id), Some(0));
    assert_eq!(find_source(&sources, "source:none"), None);
}

#[test]
fn a_refresh_that_cannot_start_is_given_up() {
    let mut state = RefreshState::default();
    assert_eq!(state.start_reserved(), None);
    assert_eq!(state.begin_refresh(1), Some(1));
    assert_eq!(state.begin_refresh(2), None);
    assert_eq!(state.start_reserved(), Some(1));
    state.fail_reserved("no thread".into());
    assert!(!state.refreshing);
    assert_eq!(state.error.as_deref(), Some("no thread"));
}

#[test]
fn the_loop_that_reconnects_ends_with_the_client() {
    let mut client = CodexRpcClient::start();
    client.set_status("disconnected", 0, Some("gone".into()), None);
    client.reconnect().unwrap();
    assert!(client.take_reconnect_request() && !client.take_reconnect_request());
    assert!(client.schedule_reconnect() && client.reconnect_goes_on());
    assert!(!client.remove_pending(7));
    client.shut_down();
    assert!(!client.reconnect_goes_on());
    assert!(!client.reconnecting);
}

#[test]
fn small_rules_of_the_display() {
    assert_eq!(default_usage_refresh_policy(), "adaptive");
    assert_eq!(whole_minutes_left(200, 50), 2);
    assert_eq!(whole_minutes_left(50, 200), 0);
    assert!(is_unresolved_account_key("unresolved:source:x"));
    assert!(!is_unresolved_account_key("account:a"));
    assert_eq!(range_of(5, 4, true, 0).unwrap_err(), RANGE_ORDER);
    assert_eq!(range_of(4, 5, false, 0).unwrap_err(), RANGE_END);
    let range = range_of(1, 1, true, 3600).unwrap();
    assert_eq!((range.start, range.end), (86_400 - 3600, 2 * 86_400 - 3600));
}

#[test]
fn a_turn_falls_into_the_category_asked_for() {
    let turn = TurnUsageRecord {
        account_key: "account:a".into(),
        thread_id: "t".into(),
        turn_id: "u".into(),
        started_at: 1,
        completed_at: None,
        model: Some("gpt-5.6-sol".into()),
        reasoning_effort: "high".into(),
        speed_mode: "standard".into(),
        usage: usage(1, 0, 1, 0, 2),
        estimated_credits: None,
        rate_card_version: None,
        source: "rollout".into(),
        confidence: Confidence::High,
    };
    assert_eq!(category_for("model", &turn), "gpt-5.6-sol");
}

#[test]
fn stored_names_are_read_back() {
    assert_eq!(AuditReason::parse("orphan_timeline"), AuditReason::OrphanTimeline);
    assert_eq!(AuditReason::AccountUnresolved.as_str(), "account_unresolved");
    assert_eq!(SessionStatus::parse("recovered").as_str(), "recovered");
    assert_eq!(GapReason::parse("crash"), GapReason::Crash);
    assert_eq!(FileBindingStatus::parse("pending"), FileBindingStatus::Pending);
    assert_eq!(FileBindingStatus::parse("bound").as_str(), "bound");
    assert_eq!(SourceCondition::parse("historical_reset"), SourceCondition::HistoricalReset);
    assert_eq!(TimelineStatus::parse("complete"), TimelineStatus::Complete);
    assert_eq!(SampleQuality::parse("long_gap"), SampleQuality::LongGap);
    assert_eq!(SampleQuality::parse("legacy"), SampleQuality::Unresolved);
}

#[test]
fn one_health_is_stored_per_account() {
    let mut rows = Vec::new();
    store_account_data_health(&mut rows, legacy_row("account:a".into()));
    store_account_data_health(&mut rows, legacy_row("account:b".into()));
    assert_eq!(unchecked_accounts(&rows, "account:a"), vec!["account:b".to_string()]);
    let mut checked = legacy_row("account:b".into());
    checked.status = DataHealth::Verified;
    store_account_data_health(&mut rows, checked);
    assert_eq!(rows.len(), 2);
    let read = account_data_health(&rows, "account:b").unwrap();
    assert_eq!(read.status, DataHealth::Verified);
    assert!(account_data_health(&rows, "account:c").is_none());
    assert!(unchecked_accounts(&rows, "account:a").is_empty());
}

#[test]
fn the_latest_batch_is_the_last_one() {
    let error = |account: &str, batch: &str, at: i64| StoredParseError {
        file_path: "/logs/s.jsonl".into(),
        byte_offset: at as u64,
        error: "bad".into(),
        account_key: account.into(),
        source_id: None,
        rebuild_batch_id: batch.into(),
        first_seen_at: at,
    };
    let errors = vec![
        error("account:a", "first", 1),
        error("account:a", "second", 3),
        error("account:a", "", 5),
        error("account:b", "other", 9),
        error("account:a", "tie", 3),
    ];
    assert_eq!(last_rebuild_batch(&errors, "account:a"), Some("second".to_string()));
    assert_eq!(last_rebuild_batch(&errors, "account:c"), None);
}

#[test]
fn a_rebuild_that_failed_leaves_the_account_unchecked() {
    let outcome = RebuildOutcome { replaced: true, request: DataHealth::Verified };
    assert_eq!(
        health_request_after_rebuild(&Ok(outcome)),
        (DataHealth::Verified, ROLLOUT_PARSER_VERSION)
    );
    assert_eq!(
        health_request_after_rebuild(&Err(RebuildError::InvalidUtf8)),
        (DataHealth::LegacyUnverified, 0)
    );
}

#[test]
fn sources_without_an_account_count_for_each() {
    let mut sources = one_source();
    assert_eq!(sources_counting_for(&sources, "account:a"), vec![0]);
    assert_eq!(unresolved_activity(&sources)[0].first_seen_at, 9);
    sources[0].binding_status = BindingStatus::Verified;
    sources[0].account_key = Some("account:a".into());
    assert_eq!(sources_counting_for(&sources, "account:a"), vec![0]);
    assert!(sources_counting_for(&sources, "account:b").is_empty());
    assert!(unresolved_activity(&sources).is_empty());
    let mut gaps = Vec::new();
    record_gap(&mut gaps, None, 4, 10, GapReason::Crash, 11);
    assert_eq!(gap_spans(&gaps), vec![Gap { start_at: 4, end_at: 10 }]);
}

#[test]
fn rows_of_one_account_are_deleted() {
    let day = |account: &str| DailyUsageRow {
        account_key: account.into(),
        date: "2026-08-14".into(),
        official_tokens: 1,
        fetched_at: 1,
    };
    let mut days = vec![day("account:a"), day("account:b"), day("account:a")];
    assert_eq!(count_account_rows(&days, "account:a"), 2);
    delete_account_rows(&mut days, "account:a");
    assert_eq!(days.len(), 1);
    assert_eq!(days[0].account_key, "account:b");
}
