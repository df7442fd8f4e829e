use codex_nexus::collector_core::RolloutSource;
use codex_nexus::health::{AccountDataHealth, DataHealth, HealthCounts, TimelineStatus};
use codex_nexus::ledger::TurnLedger;
use codex_nexus::models::{Confidence, TokenUsage, TurnUsageRecord};
use codex_nexus::percent::Percent;
use codex_nexus::quota::{BucketIntervals, RateLimitRow, RateSample};
use codex_nexus::recorder::DailyUsageRow;
use codex_nexus::renewal::{
    clear_account_tables, count_account, renew_account, renew_account_intervals,
};
use codex_nexus::rollout::TurnTokenSample;
use codex_nexus::sessions::PresenceInterval;

fn observed(account: &str, id: i64, used: f64) -> RateLimitRow {
    RateLimitRow {
        account_key: account.to_string(),
        limit_id: "codex".to_string(),
        window: "primary".to_string(),
        sample: RateSample {
            id,
            sampled_at: id * 100,
            window_duration_mins: 10080,
            used_percent: Percent::from_bits(used.to_bits()),
            resets_at: Some(10_000),
        },
        generation: None,
    }
}

fn rising(account: &str) -> Vec<RateLimitRow> {
    vec![observed(account, 1, 1.0), observed(account, 2, 2.0), observed(account, 3, 3.0)]
}

fn bucket(account: &str) -> BucketIntervals {
    BucketIntervals {
        account_key: account.to_string(),
        limit_id: "codex".to_string(),
        window: "primary".to_string(),
        intervals: Vec::new(),
    }
}

fn day(account: &str) -> DailyUsageRow {
    DailyUsageRow {
        account_key: account.to_string(),
        date: "2026-08-14".to_string(),
        official_tokens: 5,
        fetched_at: 1,
    }
}

fn health(account: &str, status: DataHealth) -> AccountDataHealth {
    AccountDataHealth {
        account_key: account.to_string(),
        data_version: 9,
        status,
        timeline_status: TimelineStatus::Complete,
        counts: HealthCounts {
            missing_timeline_turns: 0,
            orphan_timeline_samples: 0,
            mismatched_turns: 0,
            parse_error_count: 0,
            source_incomplete_count: 0,
            source_lag_seconds: 0,
        },
        last_rebuild_batch_id: None,
        verified_at: Some(1),
    }
}

/// A ledger with one turn of 10 tokens, of which the timeline has 7.
fn short_ledger() -> TurnLedger {
    let mut ledger = TurnLedger::new();
    ledger.upsert_turn(TurnUsageRecord {
        account_key: "a".to_string(),
        thread_id: "thread".to_string(),
        turn_id: "turn".to_string(),
        started_at: 1,
        completed_at: None,
        model: None,
        reasoning_effort: "high".to_string(),
        speed_mode: "standard".to_string(),
        usage: TokenUsage { raw_total_tokens: 10, ..TokenUsage::default() },
        estimated_credits: None,
        rate_card_version: None,
        source: "rollout".to_string(),
        confidence: Confidence::High,
    });
    ledger.insert_token_sample(TurnTokenSample {
        account_key: "a".to_string(),
        thread_id: "thread".to_string(),
        turn_id: "turn".to_string(),
        segment_no: 0,
        model: None,
        reasoning_effort: "high".to_string(),
        speed_mode: "standard".to_string(),
        sampled_at: 300,
        cumulative_tokens: 7,
        delta_tokens: 7,
        source: "rollout".to_string(),
        confidence: Confidence::High,
    });
    ledger
}

#[test]
fn an_account_is_renewed_from_its_ledger() {
    let ledger = short_ledger();
    let mut buckets = vec![bucket("a"), bucket("b")];
    let mut rows = vec![health("b", DataHealth::Verified), health("a", DataHealth::Verified)];
    renew_account(
        &mut buckets,
        &mut rows,
        &ledger,
        &Vec::new(),
        &Vec::new(),
        &rising("a"),
        &Vec::new(),
        "a",
        7,
    );
    let found: Vec<(&str, usize)> = buckets
        .iter()
        .map(|bucket| (bucket.account_key.as_str(), bucket.intervals.len()))
        .collect();
    assert_eq!(found, vec![("b", 0), ("a", 1)]);
    assert_eq!(rows[1].account_key, "a");
    assert_eq!(rows[1].counts.mismatched_turns, 1);
    assert_eq!(rows[1].status, DataHealth::AccountingInconsistent);
    assert_eq!(rows[1].verified_at, None);
    assert_eq!(rows[0].status, DataHealth::Verified);
}

#[test]
fn of_an_unknown_account_no_step_changes() {
    let mut buckets = vec![bucket("unresolved:source:x")];
    renew_account_intervals(
        &mut buckets,
        &TurnLedger::new(),
        &Vec::new(),
        &rising("unresolved:source:x"),
        &Vec::new(),
        "unresolved:source:x",
    );
    assert_eq!(buckets.len(), 1);
    assert!(buckets[0].intervals.is_empty());
}

#[test]
fn an_account_is_counted_with_its_sources() {
    let sources: Vec<RolloutSource> = Vec::new();
    let counts = count_account(&short_ledger(), &sources, &Vec::new(), &rising("a"), "a");
    assert_eq!((counts.mismatched_turns, counts.missing_timeline_turns), (1, 0));
    assert_eq!((counts.source_incomplete_count, counts.source_lag_seconds), (0, 0));
}

#[test]
fn a_reset_retains_what_was_observed_of_the_quota() {
    for (retain, left) in [(true, 4), (false, 1)] {
        let mut days = vec![day("a"), day("b")];
        let mut presence: Vec<PresenceInterval> = Vec::new();
        let mut buckets = vec![bucket("a"), bucket("b")];
        let mut limits = rising("a");
        limits.push(observed("b", 4, 1.0));
        clear_account_tables(&mut days, &mut presence, &mut buckets, &mut limits, "a", retain);
        assert_eq!((days.len(), buckets.len(), limits.len()), (1, 1, left));
        assert_eq!((days[0].account_key.as_str(), buckets[0].account_key.as_str()), ("b", "b"));
    }
}
