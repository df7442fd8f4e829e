use codex_nexus::models::{Confidence, Credits, TokenUsage};
use codex_nexus::percent::Percent;
use codex_nexus::quota::{
    bucket_samples, confidence_from_str, confidence_string, cycle_id, find_steps,
    rebuild_account_intervals, rebuild_all_intervals, refresh_intervals, same_reset_at,
    store_intervals, BucketIntervals, Evidence, Gap, QuotaInterval, RateLimitRow, RateSample,
    SampleQuality, UnresolvedActivity,
};
use codex_nexus::rate_card::RateCard;
use codex_nexus::rollout::TurnTokenSample;

fn percent(value: f64) -> Percent {
    Percent::from_bits(value.to_bits())
}

fn observed(id: i64, sampled_at: i64, used: f64, resets_at: i64) -> RateLimitRow {
    RateLimitRow {
        account_key: "a".to_string(),
        limit_id: "codex".to_string(),
        window: "primary".to_string(),
        sample: RateSample {
            id,
            sampled_at,
            window_duration_mins: 10080,
            used_percent: percent(used),
            resets_at: Some(resets_at),
        },
        generation: None,
    }
}

fn token_sample(turn: &str, sampled_at: i64, cumulative: i64, delta: i64) -> TurnTokenSample {
    TurnTokenSample {
        account_key: "a".to_string(),
        thread_id: "thread".to_string(),
        turn_id: turn.to_string(),
        segment_no: 0,
        model: None,
        reasoning_effort: "medium".to_string(),
        speed_mode: "standard".to_string(),
        sampled_at,
        cumulative_tokens: cumulative,
        delta_tokens: delta,
        source: "local_rollout".to_string(),
        confidence: Confidence::High,
    }
}

fn delta(interval: &QuotaInterval) -> f64 {
    f64::from_bits(interval.end_percent.to_bits()) - f64::from_bits(interval.start_percent.to_bits())
}

fn refreshed(
    rows: &Vec<RateLimitRow>,
    gaps: Vec<Gap>,
    samples: Vec<TurnTokenSample>,
    unresolved: Vec<UnresolvedActivity>,
) -> Vec<QuotaInterval> {
    let evidence = Evidence { gaps: &gaps, samples: &samples, unresolved: &unresolved };
    refresh_intervals(rows, "a", "codex", "primary", &evidence).unwrap_or_default()
}

#[test]
fn reset_does_not_create_negative_interval() {
    let mut rows = Vec::new();
    for (at, used, reset) in [(1, 98.0, 10), (2, 2.0, 20), (3, 5.0, 20), (4, 8.0, 20)] {
        rows.push(observed(at, at, used, reset));
    }
    let intervals = refreshed(&rows, Vec::new(), Vec::new(), Vec::new());
    assert_eq!(intervals.len(), 1);
    assert_eq!(delta(&intervals[0]), 3.0);
}

#[test]
fn reset_timestamp_jitter_keeps_the_same_cycle() {
    assert!(same_reset_at(Some(100), Some(104)));
    assert!(!same_reset_at(Some(100), Some(106)));
}

#[test]
fn interval_records_gap_quality_and_tokens_without_splitting_quota_delta() {
    let mut rows = Vec::new();
    for (at, used) in [(1, 10.0), (2, 11.0), (3, 11.0), (4, 12.0)] {
        rows.push(observed(at, at, used, 100));
    }
    let intervals = refreshed(
        &rows,
        vec![Gap { start_at: 2, end_at: 3 }],
        vec![token_sample("turn", 3, 7, 7)],
        Vec::new(),
    );
    assert_eq!(intervals.len(), 1);
    assert_eq!(intervals[0].gap.quality.as_str(), "bounded_gap");
    assert_eq!(intervals[0].gap.duration_ms, 1000);
    assert_eq!(intervals[0].gap.token_count, 7);
    assert_eq!(confidence_string(&intervals[0].confidence), "low");
}

#[test]
fn quota_step_contains_the_plateau_between_transitions() {
    let mut rows = Vec::new();
    for (at, used) in [(1, 22.0), (2, 23.0), (3, 23.0), (4, 23.0), (5, 24.0)] {
        rows.push(observed(at, at, used, 100));
    }
    let intervals = refreshed(&rows, Vec::new(), Vec::new(), Vec::new());
    assert_eq!(intervals.len(), 1);
    assert_eq!((intervals[0].start_at, intervals[0].end_at), (2, 5));
    assert_eq!(delta(&intervals[0]), 1.0);
}

#[test]
fn quota_delta_is_not_proportionally_assigned_to_local_credits() {
    let mut rows = Vec::new();
    for (at, used) in [(1, 22.0), (2, 23.0), (3, 23.0), (4, 24.0)] {
        rows.push(observed(at, at, used, 100));
    }
    let intervals = refreshed(
        &rows,
        Vec::new(),
        vec![token_sample("long", 1, 40, 40), token_sample("long", 3, 100, 60)],
        Vec::new(),
    );
    assert_eq!(intervals.len(), 1);
    assert!(intervals[0].local_weighted_credits.is_none());
}

#[test]
fn a_long_gap_and_an_unresolved_source_are_told() {
    let rows = vec![
        observed(1, 1000, 10.0, 100_000),
        observed(2, 2000, 11.0, 100_000),
        observed(3, 9000, 12.0, 100_000),
    ];
    let long = refreshed(
        &rows,
        vec![Gap { start_at: 2000, end_at: 9000 }],
        Vec::new(),
        Vec::new(),
    );
    assert_eq!(long.len(), 1);
    assert_eq!(long[0].gap.quality, SampleQuality::LongGap);
    assert_eq!(long[0].gap.duration_ms, 7_000_000);
    assert_eq!(long[0].confidence, Confidence::Unknown);
    let unresolved = refreshed(
        &rows,
        Vec::new(),
        Vec::new(),
        vec![UnresolvedActivity {
            first_seen_at: 2500,
            first_activity_at: Some(2500),
            last_activity_at: Some(2600),
        }],
    );
    assert_eq!(unresolved[0].gap.quality, SampleQuality::Unresolved);
}

#[test]
fn steps_follow_the_transitions() {
    let rows = vec![
        observed(1, 1, 1.0, 50),
        observed(2, 2, 2.0, 50),
        observed(3, 3, 3.0, 50),
        observed(4, 4, 3.0, 50),
        observed(5, 5, 4.0, 50),
    ];
    let samples = bucket_samples(&rows, "a", "codex", "primary");
    assert_eq!(samples.len(), 5);
    assert_eq!(find_steps(&samples), vec![(1, 2), (2, 4)]);
    assert!(bucket_samples(&rows, "b", "codex", "primary").is_empty());
}

#[test]
fn every_bucket_is_rebuilt_for_its_account() {
    let mut rows = vec![
        observed(1, 1, 1.0, 50),
        observed(2, 2, 2.0, 50),
        observed(3, 3, 3.0, 50),
    ];
    let mut other = observed(4, 4, 1.0, 50);
    other.account_key = "b".to_string();
    rows.push(other);
    let gaps = Vec::new();
    let samples = Vec::new();
    let unresolved = Vec::new();
    let evidence = Evidence { gaps: &gaps, samples: &samples, unresolved: &unresolved };
    let of_a = rebuild_account_intervals(&rows, "a", &evidence).unwrap();
    assert_eq!(of_a.len(), 1);
    assert_eq!(of_a[0].intervals.len(), 1);
    let all = rebuild_all_intervals(&rows, &evidence);
    assert!(all.iter().any(|bucket| bucket.account_key == "a" && bucket.intervals.len() == 1));
    assert!(rebuild_account_intervals(&rows, "unresolved:source:x", &evidence).is_none());
}

#[test]
fn two_rebuilds_find_the_same_steps() {
    let rows: Vec<RateLimitRow> =
        (1..8).map(|at| observed(at, at, at as f64, 50)).collect();
    let (gaps, samples, unresolved) = (Vec::new(), Vec::new(), Vec::new());
    let evidence = Evidence { gaps: &gaps, samples: &samples, unresolved: &unresolved };
    let spans = |buckets: &Vec<BucketIntervals>| {
        buckets
            .iter()
            .flat_map(|bucket| bucket.intervals.iter().map(|step| (step.start_at, step.end_at)))
            .collect::<Vec<_>>()
    };
    let first = rebuild_all_intervals(&rows, &evidence);
    let second = rebuild_all_intervals(&rows, &evidence);
    assert_eq!(spans(&first), vec![(2, 3), (3, 4), (4, 5), (5, 6), (6, 7)]);
    assert_eq!(spans(&second), spans(&first));
}

#[test]
fn found_steps_replace_those_of_their_buckets_only() {
    let bucket = |account: &str, window: &str| BucketIntervals {
        account_key: account.to_string(),
        limit_id: "codex".to_string(),
        window: window.to_string(),
        intervals: Vec::new(),
    };
    let rows = vec![observed(1, 1, 1.0, 50), observed(2, 2, 2.0, 50), observed(3, 3, 3.0, 50)];
    let (gaps, samples, unresolved) = (Vec::new(), Vec::new(), Vec::new());
    let evidence = Evidence { gaps: &gaps, samples: &samples, unresolved: &unresolved };
    let mut stored = vec![bucket("a", "primary"), bucket("a", "old"), bucket("b", "primary")];
    store_intervals(&mut stored, rebuild_account_intervals(&rows, "a", &evidence).unwrap());
    let kept: Vec<(&str, &str, usize)> = stored
        .iter()
        .map(|row| (row.account_key.as_str(), row.window.as_str(), row.intervals.len()))
        .collect();
    assert_eq!(kept, vec![("a", "old", 0), ("b", "primary", 0), ("a", "primary", 1)]);
}

#[test]
fn confidence_and_cycle_are_written_and_read() {
    for confidence in [Confidence::High, Confidence::Medium, Confidence::Low, Confidence::Unknown] {
        assert_eq!(confidence_from_str(confidence_string(&confidence)), confidence);
    }
    assert_eq!(confidence_from_str("certain"), Confidence::Unknown);
    assert_eq!(cycle_id(Some(20)), "reset:4");
    assert_eq!(cycle_id(Some(24)), "reset:4");
    assert_eq!(cycle_id(None), "reset:unknown");
}

fn usage(input: i64, output: i64, reasoning: i64, total: i64) -> TokenUsage {
    TokenUsage {
        input_tokens: input,
        cached_input_tokens: 0,
        output_tokens: output,
        reasoning_output_tokens: reasoning,
        raw_total_tokens: total,
    }
}

/// A credit in the units of [`Credits`].
const CREDIT: i128 = 10_000_000_000;

#[test]
fn rate_card_does_not_invent_reasoning_multiplier() {
    let usage = usage(1_000_000, 1_000_000, 1_000_000, 2_000_000);
    let card = RateCard::current();
    let normal = card.calculate(Some("gpt-5.6-sol"), "standard", &usage).unwrap();
    let high = card.calculate(Some("gpt-5.6-sol"), "standard", &usage).unwrap();
    assert_eq!(normal.units, high.units);
    assert_eq!(normal.units, 875 * CREDIT);
}

#[test]
fn unknown_speed_is_not_silently_standard() {
    let usage = usage(1_000_000, 0, 0, 0);
    assert!(RateCard::current().calculate(Some("gpt-5.6-sol"), "unknown", &usage).is_none());
    let fast: Credits =
        RateCard::current().calculate(Some("gpt-5.6-sol"), "fast_requested", &usage).unwrap();
    assert_eq!(fast.units, 3125 * CREDIT / 10);
    assert!(RateCard::current().calculate(Some("unheard-of"), "standard", &usage).is_none());
    assert!(RateCard::current().calculate(None, "standard", &usage).is_none());
}
