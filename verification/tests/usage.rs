use codex_nexus::analytics::{query, UsageTables};
use codex_nexus::calendar::{FIRST_DAY, LAST_DAY};
use codex_nexus::category_usage::{
    account_timeline, category_usage, daily_quota_usage, latest_quota_window,
    local_category_usage, observe_day, official_tokens, resolve_period, server_capability,
    server_category_delta, Capability, CategoryKey, LocalCategory, QuotaWindow, ServerSample,
    ThreadCapability, UsageStatus,
};
use codex_nexus::estimator::{
    account_health_blocker, estimate_weekly_categories, estimate_without_window, quota_steps,
    tally_categories, timeline_token_samples, CategoryEstimate, CategoryTally, QuotaStep,
    RateFindings, Reason,
};
use codex_nexus::health::DataHealth;
use codex_nexus::ledger::TurnLedger;
use codex_nexus::models::{
    AccountScope, Confidence, Credits, TokenUsage, TurnUsageRecord, UsageAnalyticsQuery,
};
use codex_nexus::percent::Percent;
use codex_nexus::period_usage::{show_period, tally_period};
use codex_nexus::quota::{
    rebuild_account_intervals, refresh_intervals, Evidence, QuotaInterval, RateLimitRow, RateSample,
};
use codex_nexus::recorder::{AccountRecord, DailyUsageRow};
use codex_nexus::repository::{bounds, date_for, dates, legacy_query, parse_timezone, range_label};
use codex_nexus::rollout::TurnTokenSample;

fn percent(value: f64) -> Percent {
    Percent::from_bits(value.to_bits())
}

fn double(value: Percent) -> f64 {
    f64::from_bits(value.to_bits())
}

fn observed(limit: &str, window: &str, at: i64, used: f64, resets_at: i64) -> RateLimitRow {
    RateLimitRow {
        account_key: "a".to_string(),
        limit_id: limit.to_string(),
        window: window.to_string(),
        sample: RateSample {
            id: at,
            sampled_at: at,
            window_duration_mins: 10080,
            used_percent: percent(used),
            resets_at: Some(resets_at),
        },
        generation: None,
    }
}

fn key(model: &str, effort: &str) -> CategoryKey {
    CategoryKey {
        model: model.to_string(),
        reasoning_effort: effort.to_string(),
        speed_mode: "standard".to_string(),
    }
}

fn intervals_of(rows: &Vec<RateLimitRow>) -> Vec<QuotaInterval> {
    let (gaps, samples, unresolved) = (Vec::new(), Vec::new(), Vec::new());
    let evidence = Evidence { gaps: &gaps, samples: &samples, unresolved: &unresolved };
    refresh_intervals(rows, "a", "weekly", "primary", &evidence).unwrap()
}

/// The steps of a quota that rises by one percent each thousand seconds.
fn weekly_steps(last: i64) -> Vec<QuotaStep> {
    let mut rows = Vec::new();
    for at in 1..=last {
        rows.push(observed("weekly", "primary", at * 1000, 9.0 + at as f64, 20000));
    }
    quota_steps(&intervals_of(&rows), 1000, 10_000)
}

fn record(
    ledger: &mut TurnLedger,
    turn_id: &str,
    category: &CategoryKey,
    at: i64,
    cumulative: i64,
    delta: i64,
) {
    ledger.insert_token_sample(TurnTokenSample {
        account_key: "a".to_string(),
        thread_id: "thread".to_string(),
        turn_id: turn_id.to_string(),
        segment_no: 0,
        model: Some(category.model.clone()),
        reasoning_effort: category.reasoning_effort.clone(),
        speed_mode: category.speed_mode.clone(),
        sampled_at: at,
        cumulative_tokens: cumulative,
        delta_tokens: delta,
        source: "rollout".to_string(),
        confidence: Confidence::High,
    });
    let total = ledger
        .samples
        .iter()
        .filter(|sample| sample.turn_id == turn_id)
        .map(|sample| sample.delta_tokens)
        .sum();
    ledger.upsert_turn(turn("a", turn_id, at, total, category));
}

fn turn(
    account: &str,
    turn_id: &str,
    at: i64,
    total: i64,
    category: &CategoryKey,
) -> TurnUsageRecord {
    TurnUsageRecord {
        account_key: account.to_string(),
        thread_id: "thread".to_string(),
        turn_id: turn_id.to_string(),
        started_at: at,
        completed_at: Some(at),
        model: Some(category.model.clone()),
        reasoning_effort: category.reasoning_effort.clone(),
        speed_mode: category.speed_mode.clone(),
        usage: TokenUsage { input_tokens: total, raw_total_tokens: total, ..TokenUsage::default() },
        estimated_credits: Some(Credits { units: 10_000_000_000 }),
        rate_card_version: Some("test".to_string()),
        source: "rollout".to_string(),
        confidence: Confidence::High,
    }
}

fn median(values: &[f64]) -> f64 {
    let mut sorted = values.to_vec();
    sorted.sort_by(f64::total_cmp);
    if sorted.is_empty() {
        0.0
    } else if sorted.len() % 2 == 0 {
        (sorted[sorted.len() / 2 - 1] + sorted[sorted.len() / 2]) / 2.0
    } else {
        sorted[sorted.len() / 2]
    }
}

/// What the rates of a category's evidence say, in doubles.
fn findings(tally: &CategoryTally, steps: &[QuotaStep], used: f64) -> RateFindings {
    let mut rates: Vec<(f64, f64)> = tally
        .evidence
        .iter()
        .map(|evidence| {
            let step = &steps[evidence.step];
            let delta = double(step.end_percent) - double(step.start_percent);
            (evidence.tokens as f64 / delta.max(f64::EPSILON), delta)
        })
        .collect();
    rates.sort_by(|left, right| left.0.total_cmp(&right.0));
    let span: f64 = rates.iter().map(|rate| rate.1).sum();
    let mut reached = 0.0;
    let mut rate = 0.0;
    for (value, weight) in &rates {
        reached += weight;
        if reached >= span / 2.0 {
            rate = *value;
            break;
        }
    }
    let deviations: Vec<f64> = rates.iter().map(|value| (value.0 - rate).abs()).collect();
    let dispersion = if rate > 0.0 { median(&deviations) / rate } else { f64::INFINITY };
    let week = (rate * 100.0).round().clamp(0.0, i64::MAX as f64) as i64;
    let current = tally.current_tokens.max(0) as f64;
    RateFindings {
        full_week_tokens: week,
        remaining_tokens: ((week as f64 * (100.0 - used)) / 100.0).round() as i64,
        quota_span_short: span < 5.0,
        exceeds_used_share: week as f64 * used / 100.0 + 1.0 < current,
        dispersed: dispersion > 0.75,
        tight: dispersion <= 0.35,
    }
}

fn estimates(
    ledger: &TurnLedger,
    steps: &Vec<QuotaStep>,
    categories: Vec<(CategoryKey, i64)>,
    used: f64,
    health: DataHealth,
) -> Vec<CategoryEstimate> {
    let events = account_timeline(ledger, "a");
    let categories: Vec<LocalCategory> = categories
        .into_iter()
        .map(|(key, tokens)| LocalCategory { key, tokens, turn_count: 1 })
        .collect();
    let tallies = tally_categories(&events, steps, &categories, 1000, 10_000);
    let found = tallies.iter().map(|tally| findings(tally, steps, used)).collect();
    estimate_weekly_categories(tallies, &found, Some(health))
}

fn estimate(ledger: &TurnLedger, category: CategoryKey, tokens: i64) -> CategoryEstimate {
    estimates(ledger, &weekly_steps(7), vec![(category, tokens)], 16.0, DataHealth::Verified)
        .remove(0)
}

#[test]
fn a_week_shows_what_its_ledger_and_its_steps_give() {
    let mut ledger = TurnLedger::new();
    let category = key("gpt-5.6-sol", "xhigh");
    for step in 1..7 {
        record(&mut ledger, "turn", &category, step * 1000 + 500, step * 10, 10);
    }
    let rows: Vec<RateLimitRow> = (1..8)
        .map(|at| observed("weekly", "primary", at * 1000, 9.0 + at as f64, 20_000))
        .collect();
    let (gaps, samples, unresolved) = (Vec::new(), Vec::new(), Vec::new());
    let evidence = Evidence { gaps: &gaps, samples: &samples, unresolved: &unresolved };
    let buckets = rebuild_account_intervals(&rows, "a", &evidence).unwrap();
    let window = || latest_quota_window(&rows, Some("a"));
    let week = resolve_period("quota_week", (0, 1), window(), 7000).unwrap();
    let tallied = tally_period(&ledger, &buckets, Some("a"), week).unwrap();
    assert_eq!(tallied.local.total, 60);
    assert_eq!(tallied.steps.len(), 5);
    assert_eq!(tallied.tallies.len(), 1);
    assert_eq!(tallied.tallies[0].observed_sample_count, 5);
    let found = tallied.tallies.iter().map(|tally| findings(tally, &tallied.steps, 16.0)).collect();
    let none = (Vec::new(), Vec::new());
    let verified = Some(DataHealth::Verified);
    let usage = show_period(tallied, &found, verified, Some("a"), &none.0, &none.1, Some(61));
    assert_eq!((usage.local_tokens, usage.official_tokens), (60, Some(61)));
    assert_eq!(usage.categories.len(), 1);
    assert_eq!(usage.categories[0].tokens, 60);
    let estimate = usage.categories[0].weekly_estimate.as_ref().unwrap();
    assert_eq!(estimate.tally.current_tokens, 60);
    assert_eq!(estimate.tally.observed_sample_count, 5);
}

#[test]
fn a_week_without_a_window_says_so_and_a_day_estimates_nothing() {
    let mut ledger = TurnLedger::new();
    let category = key("gpt-5.6-sol", "xhigh");
    record(&mut ledger, "turn", &category, 500, 7, 7);
    let none = (Vec::new(), Vec::new());
    let day = resolve_period("day", (0, 1000), None, 600).unwrap();
    let tallied = tally_period(&ledger, &Vec::new(), Some("a"), day).unwrap();
    assert!(tallied.steps.is_empty() && tallied.tallies.is_empty());
    let usage = show_period(tallied, &Vec::new(), None, Some("a"), &none.0, &none.1, None);
    assert_eq!(usage.local_tokens, 7);
    assert!(usage.categories[0].weekly_estimate.is_none());
    let mut week = resolve_period("quota_week", (0, 1), None, 600).unwrap();
    assert_eq!((week.start, week.end), (600, 600));
    week.start = 0;
    let tallied = tally_period(&ledger, &Vec::new(), Some("a"), week).unwrap();
    let usage = show_period(tallied, &Vec::new(), None, Some("a"), &none.0, &none.1, None);
    let estimate = usage.categories[0].weekly_estimate.as_ref().unwrap();
    assert_eq!(estimate.rejection_reasons, vec![Reason::QuotaWindowMissing]);
    assert_eq!(estimate.estimate, None);
    let nobody = resolve_period("day", (0, 1000), None, 600).unwrap();
    assert_eq!(tally_period(&ledger, &Vec::new(), None, nobody).unwrap().local.total, 0);
}

#[test]
fn local_usage_is_attributed_by_token_sample_time() {
    let mut ledger = TurnLedger::new();
    let category = key("gpt-5.6-sol", "xhigh");
    for (at, delta) in [(900, 5), (1500, 7), (2500, 11)] {
        record(&mut ledger, "long-turn", &category, at, delta, delta);
    }
    let usage = local_category_usage(&account_timeline(&ledger, "a"), 1000, 2000).unwrap();
    assert_eq!(usage.total, 7);
    assert_eq!(usage.rows.len(), 1);
    assert!(usage.rows[0].key.same(&category));
    assert_eq!((usage.rows[0].tokens, usage.rows[0].turn_count), (7, 1));
}

#[test]
fn orphan_timeline_is_quarantined_from_category_usage_and_estimator() {
    let mut ledger = TurnLedger::new();
    let category = key("gpt-5.6-sol", "xhigh");
    record(&mut ledger, "valid", &category, 2500, 1_000, 1_000);
    ledger.insert_token_sample(TurnTokenSample {
        account_key: "a".to_string(),
        thread_id: "thread".to_string(),
        turn_id: "orphan".to_string(),
        segment_no: 0,
        model: Some("gpt-5.6-sol".to_string()),
        reasoning_effort: "xhigh".to_string(),
        speed_mode: "standard".to_string(),
        sampled_at: 2600,
        cumulative_tokens: 5000,
        delta_tokens: 5000,
        source: "rollout".to_string(),
        confidence: Confidence::High,
    });
    let events = account_timeline(&ledger, "a");
    let samples = timeline_token_samples(&events, 1000, 10_000);
    assert_eq!(samples.len(), 1);
    assert_eq!(samples[0].delta_tokens, 1_000);
    let usage = local_category_usage(&events, 1000, 10_000).unwrap();
    assert_eq!(usage.total, 1_000);
    let found = estimates(
        &ledger,
        &weekly_steps(7),
        vec![(category, 1_000)],
        16.0,
        DataHealth::AccountingInconsistent,
    );
    assert!(found[0].hard_blockers.iter().any(|r| r.as_str() == "accounting_inconsistent"));
}

fn credits(at: i64, micros: i64) -> ServerSample {
    ServerSample {
        account_key: "a".to_string(),
        thread_id: "thread".to_string(),
        sampled_at: at,
        key: key("gpt-5.6-sol", "high"),
        credits_micros: micros,
    }
}

#[test]
fn server_credits_are_read_as_snapshot_deltas() {
    let rows = vec![credits(100, 100), credits(200, 250)];
    assert_eq!(
        server_category_delta(&rows, "a", &key("gpt-5.6-sol", "high"), 150, 250),
        Some(150)
    );
}

#[test]
fn missing_snapshot_baseline_does_not_claim_period_credits() {
    let rows = vec![credits(200, 250)];
    assert_eq!(server_category_delta(&rows, "a", &key("gpt-5.6-sol", "high"), 150, 250), None);
}

#[test]
fn daily_quota_usage_separates_changes_from_valid_sample_intervals() {
    let mut rows = Vec::new();
    for (at, used) in [(100, 10.0), (200, 10.0), (300, 11.0), (400, 11.0)] {
        rows.push(observed("weekly", "secondary", at, used, 20000));
    }
    let window = QuotaWindow {
        start: 0,
        end: 20000,
        limit_id: "weekly".to_string(),
        window: "secondary".to_string(),
        used_percent: percent(11.0),
        window_duration_mins: 10080,
    };
    let day = observe_day(&rows, "a", &window, 100, 500);
    let metric = daily_quota_usage(Some(&day));
    let deltas: Vec<f64> = day
        .counted
        .iter()
        .map(|at| {
            double(day.samples[*at].used_percent) - double(day.samples[*at - 1].used_percent)
        })
        .collect();
    assert_eq!(deltas.iter().sum::<f64>(), 1.0);
    assert_eq!(metric.sample_count, 3);
    assert_eq!(deltas.iter().filter(|delta| **delta > f64::EPSILON).count(), 1);
    assert_eq!(metric.status, UsageStatus::Observed);
}

#[test]
fn weekly_token_estimate_requires_observed_quota_deltas() {
    let mut ledger = TurnLedger::new();
    let category = key("gpt-5.6-sol", "high");
    for (turn_id, at) in
        [("turn-1", 2500), ("turn-2", 3500), ("turn-3", 4500), ("turn-4", 5500), ("turn-5", 6500)]
    {
        record(&mut ledger, turn_id, &category, at, 2000, 2000);
    }
    let estimate = estimate(&ledger, category, 10_000);
    assert_eq!(estimate.estimate, Some((200_000, 168_000)));
    assert_eq!(estimate.tally.valid_sample_count, 5);
    assert_eq!(estimate.tally.observed_tokens, estimate.eligible_tokens);
}

#[test]
fn weekly_token_estimate_is_insufficient_with_one_valid_sample() {
    let mut ledger = TurnLedger::new();
    let category = key("gpt-5.6-sol", "high");
    record(&mut ledger, "turn-1", &category, 2500, 1000, 1000);
    let found = estimates(
        &ledger,
        &weekly_steps(3),
        vec![(category, 1000)],
        20.0,
        DataHealth::Verified,
    );
    assert_eq!(found[0].estimate, None);
    assert_eq!(found[0].tally.valid_sample_count, 1);
}

#[test]
fn long_turn_crossing_a_quota_step_boundary_keeps_token_deltas() {
    let mut ledger = TurnLedger::new();
    let category = key("gpt-5.6-sol", "xhigh");
    record(&mut ledger, "long", &category, 1500, 5_000_000, 5_000_000);
    record(&mut ledger, "long", &category, 2500, 12_000_000, 7_000_000);
    let samples = timeline_token_samples(&account_timeline(&ledger, "a"), 1000, 3000);
    assert_eq!(samples.len(), 2);
    assert_eq!(samples[0].previous_sampled_at, None);
    assert_eq!(samples[1].previous_sampled_at, Some(1500));
    assert_eq!(samples[1].delta_tokens, 7_000_000);
}

#[test]
fn mixed_quota_step_is_rejected_without_token_ratio_split() {
    let mut ledger = TurnLedger::new();
    let (luna, sol) = (key("gpt-5.6-luna", "xhigh"), key("gpt-5.6-sol", "xhigh"));
    record(&mut ledger, "luna", &luna, 2500, 5_000_000, 5_000_000);
    record(&mut ledger, "sol", &sol, 2600, 3_000_000, 3_000_000);
    let found = estimates(
        &ledger,
        &weekly_steps(7),
        vec![(luna, 5_000_000), (sol, 3_000_000)],
        16.0,
        DataHealth::Verified,
    );
    assert_eq!(found.len(), 2);
    for estimate in found {
        assert_eq!(estimate.estimate, None);
        assert!(estimate.rejection_reasons.contains(&Reason::MixedCategoryUnresolved));
    }
}

#[test]
fn one_mixed_step_does_not_block_categories_with_five_pure_steps() {
    let mut ledger = TurnLedger::new();
    let (luna, sol) = (key("gpt-5.6-luna", "xhigh"), key("gpt-5.6-sol", "xhigh"));
    for (index, at) in [2500, 3500, 4500, 5500, 6500].into_iter().enumerate() {
        record(&mut ledger, &format!("pure-{index}"), &luna, at, 2_000, 2_000);
    }
    record(&mut ledger, "mixed-luna", &luna, 7500, 2_000, 2_000);
    record(&mut ledger, "mixed-sol", &sol, 7500, 1_000, 1_000);
    let found = estimates(
        &ledger,
        &weekly_steps(9),
        vec![(luna, 12_000), (sol, 1_000)],
        18.0,
        DataHealth::Verified,
    );
    let luna = found.iter().find(|e| e.tally.key.model == "gpt-5.6-luna").unwrap();
    assert_eq!(luna.tally.valid_sample_count, 5);
    assert!(luna.estimate.is_some());
    assert!(!luna.hard_blockers.contains(&Reason::MixedCategoryUnresolved));
    assert!(luna.warnings.contains(&Reason::MixedCategoryUnresolved));
}

#[test]
fn long_turn_crossing_two_boundaries_keeps_non_overlapping_deltas() {
    let mut ledger = TurnLedger::new();
    let category = key("gpt-5.6-luna", "xhigh");
    for (at, cumulative, delta) in [
        (1500, 10_000_000, 10_000_000),
        (2500, 12_000_000, 2_000_000),
        (3200, 15_000_000, 3_000_000),
        (3500, 18_000_000, 3_000_000),
    ] {
        record(&mut ledger, "long", &category, at, cumulative, delta);
    }
    let estimate = estimate(&ledger, category, 18_000_000);
    assert_eq!(estimate.tally.boundary_overlap_count, 2);
    assert_eq!(estimate.tally.valid_sample_count, 1);
    assert_eq!(estimate.tally.observed_tokens, 3_000_000);
    assert!(estimate.rejection_reasons.contains(&Reason::BoundaryOverlap));
    assert_eq!(estimate.tally.ambiguous_boundary_tokens, 5_000_000);
    let ratio = estimate.tally.ambiguous_boundary_tokens as f64
        / estimate.tally.candidate_tokens as f64;
    assert!(ratio > 0.6);
    assert!(!estimate.hard_blockers.contains(&Reason::BoundaryOverlap));
    assert!(estimate.warnings.contains(&Reason::BoundaryAmbiguity));
}

#[test]
fn observed_tokens_above_eligible_tokens_is_a_hard_accounting_blocker() {
    let mut ledger = TurnLedger::new();
    let category = key("gpt-5.6-sol", "xhigh");
    for (index, at) in [2500, 3500, 4500, 5500, 6500].into_iter().enumerate() {
        record(&mut ledger, &format!("inconsistent-{index}"), &category, at, 1_000, 1_000);
    }
    let estimate = estimate(&ledger, category, 3_000);
    assert_eq!(estimate.estimate, None);
    assert!(estimate.tally.observed_tokens > estimate.eligible_tokens);
    assert!(estimate.hard_blockers.contains(&Reason::AccountingInconsistent));
}

#[test]
fn pending_tokens_are_not_counted_as_closed_step_observations() {
    let mut ledger = TurnLedger::new();
    let category = key("gpt-5.6-luna", "xhigh");
    record(&mut ledger, "luna", &category, 2500, 5_000_000, 5_000_000);
    record(&mut ledger, "luna", &category, 7500, 8_000_000, 3_000_000);
    let estimate = estimate(&ledger, category, 8_000_000);
    assert_eq!(estimate.tally.observed_tokens, 5_000_000);
    assert_eq!(estimate.tally.pending_tokens, 3_000_000);
    assert_eq!(estimate.eligible_tokens, 5_000_000);
}

#[test]
fn pre_observation_tokens_do_not_lower_eligible_coverage() {
    let mut ledger = TurnLedger::new();
    let category = key("gpt-5.6-luna", "xhigh");
    record(&mut ledger, "luna", &category, 1500, 1_000_000, 1_000_000);
    for (index, at) in [2500, 3500, 4500, 5500, 6500].into_iter().enumerate() {
        record(&mut ledger, &format!("luna-{index}"), &category, at, 2_000_000, 2_000_000);
    }
    let estimate = estimate(&ledger, category, 11_000_000);
    assert_eq!(estimate.tally.pre_observation_tokens, 1_000_000);
    assert_eq!(estimate.eligible_tokens, 10_000_000);
    assert_eq!(estimate.tally.observed_tokens, 10_000_000);
}

#[test]
fn estimate_below_current_category_tokens_is_rejected() {
    let mut ledger = TurnLedger::new();
    let category = key("gpt-5.6-luna", "xhigh");
    for (index, at) in [2500, 3500, 4500, 5500, 6500].into_iter().enumerate() {
        record(&mut ledger, &format!("small-{index}"), &category, at, 1_000, 1_000);
    }
    let estimate = estimate(&ledger, category, 10_000_000);
    assert_eq!(estimate.estimate, None);
    assert!(estimate.rejection_reasons.contains(&Reason::SanityCheckFailed));
}

#[test]
fn an_estimate_without_a_window_says_so() {
    let estimate = estimate_without_window(&key("m", "high"), 7);
    assert_eq!(estimate.estimate, None);
    assert_eq!(estimate.hard_blockers, vec![Reason::QuotaWindowMissing]);
    assert_eq!(estimate.eligible_tokens, 7);
    assert_eq!(account_health_blocker(Some(DataHealth::Verified)), None);
    assert_eq!(
        account_health_blocker(Some(DataHealth::Rebuilding)),
        Some(Reason::AccountDataRebuilding)
    );
}

#[test]
fn categories_are_listed_by_their_tokens() {
    let mut ledger = TurnLedger::new();
    record(&mut ledger, "x", &key("small", "high"), 10, 5, 5);
    record(&mut ledger, "y", &key("large", "high"), 11, 9, 9);
    let local = local_category_usage(&account_timeline(&ledger, "a"), 0, 100).unwrap();
    let period = resolve_period("day", (0, 100), None, 50).unwrap();
    let capabilities = vec![ThreadCapability {
        account_key: "a".to_string(),
        capability: "available".to_string(),
    }];
    assert_eq!(server_capability(&capabilities, Some("a")), Capability::Available);
    assert_eq!(server_capability(&capabilities, None), Capability::Syncing);
    let usage = category_usage(
        period,
        local,
        Vec::new(),
        Some("a"),
        &Vec::new(),
        &capabilities,
        Some(3),
    );
    assert_eq!(usage.local_tokens, 14);
    assert_eq!(usage.categories[0].key.model, "large");
    assert_eq!(usage.categories[1].key.model, "small");
    assert_eq!(usage.official_tokens, Some(3));
    assert!(resolve_period("month", (0, 1), None, 0).unwrap_err().contains("month"));
}

#[test]
fn the_latest_weekly_window_is_taken() {
    let rows = vec![
        observed("codex", "primary", 10, 5.0, 700_000),
        observed("codex", "primary", 20, 6.0, 700_000),
    ];
    let window = latest_quota_window(&rows, Some("a")).unwrap();
    assert_eq!((window.start, window.end), (95_200, 700_000));
    assert_eq!(window.used_percent, percent(6.0));
    assert!(latest_quota_window(&rows, None).is_none());
}

fn account(name: &str) -> AccountRecord {
    AccountRecord {
        account_key: name.to_string(),
        display_name: None,
        email: None,
        plan_type: None,
        auth_identity: None,
        first_seen_at: 1,
        last_seen_at: 1,
    }
}

fn request(scope: AccountScope, from: &str, to: &str, zone: &str, by: &str) -> UsageAnalyticsQuery {
    UsageAnalyticsQuery {
        account_scope: scope,
        from: from.to_string(),
        to: to.to_string(),
        timezone: zone.to_string(),
        breakdown: by.to_string(),
    }
}

fn single(name: &str) -> AccountScope {
    AccountScope::Single { account_key: name.to_string() }
}

fn day(account: &str, date: &str, tokens: i64) -> DailyUsageRow {
    DailyUsageRow {
        account_key: account.to_string(),
        date: date.to_string(),
        official_tokens: tokens,
        fetched_at: 1,
    }
}

#[test]
fn all_accounts_aggregate_tokens_but_keep_account_status_separate() {
    let category = key("gpt-5.6-sol", "high");
    let accounts = vec![account("personal"), account("work")];
    let turns = vec![
        turn("personal", "p1", 1_786_694_400, 100, &category),
        turn("work", "w1", 1_786_694_401, 50, &category),
    ];
    let daily = vec![day("personal", "2026-08-14", 100), day("work", "2026-08-14", 50)];
    let (health, buckets, quotas) = (Vec::new(), Vec::new(), Vec::new());
    let tables = UsageTables {
        accounts: &accounts,
        turns: &turns,
        daily: &daily,
        health: &health,
        buckets: &buckets,
        quotas: &quotas,
    };
    let asked = request(AccountScope::All, "2026-08-14", "2026-08-14", "+00:00", "account");
    let result = query(&tables, &asked, 0, 1).unwrap();
    assert_eq!(result.totals.raw_tokens, 150);
    assert_eq!(result.accounts.len(), 2);
    assert_eq!(result.timeline.len(), 1);
    assert_eq!(result.timeline[0].official_tokens, Some(150));
    assert!(result.accounts.iter().all(|account| account.quota.is_none()));
    assert_eq!(official_tokens(&daily, Some("work"), "2026-08-01", "2026-08-31").unwrap(), Some(50));
}

#[test]
fn timezone_changes_turn_day_without_dropping_zero_buckets() {
    let accounts = vec![account("a")];
    let turns = vec![turn("a", "t1", 1_786_665_300, 42, &key("gpt-5.6-sol", "high"))];
    let (daily, health) = (Vec::new(), Vec::new());
    let (buckets, quotas) = (Vec::new(), Vec::new());
    let tables = UsageTables {
        accounts: &accounts,
        turns: &turns,
        daily: &daily,
        health: &health,
        buckets: &buckets,
        quotas: &quotas,
    };
    let asked = request(single("a"), "2026-08-14", "2026-08-16", "+08:00", "model");
    let result = query(&tables, &asked, 0, 1).unwrap();
    assert_eq!(result.timeline.len(), 3);
    assert_eq!(result.timeline[0].local_tokens, 42);
    assert_eq!(result.timeline[1].local_tokens, 0);
    assert_eq!(result.timeline[2].local_tokens, 0);
}

#[test]
fn observed_quota_is_attributed_by_credits_and_not_raw_tokens() {
    let accounts = vec![account("a")];
    let turns = vec![turn("a", "t1", 1_786_694_550, 100, &key("gpt-5.6-sol", "high"))];
    let mut quotas = Vec::new();
    for (at, used) in [(1_786_694_400, 10.0), (1_786_694_500, 11.0), (1_786_694_600, 12.0)] {
        quotas.push(observed("codex", "primary", at, used, 99));
    }
    let (gaps, samples, unresolved) = (Vec::new(), Vec::new(), Vec::new());
    let evidence = Evidence { gaps: &gaps, samples: &samples, unresolved: &unresolved };
    let buckets = rebuild_account_intervals(&quotas, "a", &evidence).unwrap();
    let (daily, health) = (Vec::new(), Vec::new());
    let tables = UsageTables {
        accounts: &accounts,
        turns: &turns,
        daily: &daily,
        health: &health,
        buckets: &buckets,
        quotas: &quotas,
    };
    let asked = request(single("a"), "2026-08-14", "2026-08-14", "+00:00", "model");
    let result = query(&tables, &asked, 0, 1).unwrap();
    let delta = |at: usize| {
        double(result.steps[at].end_percent) - double(result.steps[at].start_percent)
    };
    let observed: f64 = (0..result.steps.len()).map(delta).sum();
    assert_eq!(observed, 1.0);
    let attributed: f64 = result
        .shares
        .iter()
        .map(|share| delta(share.step) * share.credits.units as f64 / share.whole.units as f64)
        .sum();
    assert_eq!(attributed, 1.0);
}

#[test]
fn days_are_counted_in_the_asked_zone() {
    assert_eq!(parse_timezone("+08:00", 0), 28_800);
    assert_eq!(parse_timezone("-03:30", 0), -12_600);
    assert_eq!(parse_timezone("local", 3_600), 3_600);
    assert_eq!(parse_timezone("local", -3_600), -3_600);
    assert_eq!(date_for(1_786_665_300, 28_800, 1), 20_679);
    let range =
        bounds(&request(AccountScope::All, "2026-08-14", "2026-08-15", "+00:00", "model"), 0)
            .unwrap();
    assert_eq!(range.end - range.start, 2 * 86_400);
    assert_eq!(dates(range.first, range.last), vec!["2026-08-14", "2026-08-15"]);
    assert!(bounds(&request(AccountScope::All, "2026-08-15", "2026-08-14", "+00:00", "model"), 0)
        .is_err());
    assert!(bounds(&request(AccountScope::All, "today", "2026-08-14", "+00:00", "model"), 0)
        .is_err());
    assert_eq!(range_label("2026-08-14", "2026-08-15"), "2026-08-14:2026-08-15");
}

#[test]
fn dates_reach_as_far_as_the_calendar() {
    assert_eq!(dates(LAST_DAY - 1, LAST_DAY), vec!["+262142-12-30", "+262142-12-31"]);
    assert_eq!(dates(LAST_DAY, LAST_DAY + 1), vec!["+262142-12-31"]);
    assert_eq!(dates(FIRST_DAY, FIRST_DAY), vec!["-262143-01-01"]);
    assert!(dates(FIRST_DAY - 1, FIRST_DAY).is_empty());
    let whole = |from: &str, to: &str| {
        bounds(&request(AccountScope::All, from, to, "+00:00", "model"), 0)
    };
    let last = whole("+262142-12-30", "+262142-12-30").unwrap();
    assert_eq!((last.first, last.last), (LAST_DAY - 1, LAST_DAY - 1));
    assert_eq!(whole("+262142-12-30", "+262142-12-31").unwrap_err(), "Invalid analytics date");
    assert_eq!(whole("-262143-01-01", "-262143-01-01").unwrap().first, FIRST_DAY);
}

#[test]
fn days_and_categories_add_up() {
    let accounts = vec![account("a")];
    let day = 1_786_694_400;
    let turns = vec![
        turn("a", "t1", day, 100, &key("gpt-5.6-sol", "high")),
        turn("a", "t2", day + 60, 30, &key("gpt-5.6-luna", "high")),
        turn("a", "t3", day + 90, 5, &key("gpt-5.6-sol", "low")),
        turn("a", "t4", day + 86_400, 7, &key("gpt-5.6-sol", "high")),
    ];
    let daily = vec![DailyUsageRow {
        account_key: "a".to_string(),
        date: "2026-08-14".to_string(),
        official_tokens: 200,
        fetched_at: 1,
    }];
    let (health, buckets, quotas) = (Vec::new(), Vec::new(), Vec::new());
    let tables = UsageTables {
        accounts: &accounts,
        turns: &turns,
        daily: &daily,
        health: &health,
        buckets: &buckets,
        quotas: &quotas,
    };
    let asked = request(single("a"), "2026-08-13", "2026-08-16", "+00:00", "model");
    let result = query(&tables, &asked, 0, 1).unwrap();
    assert_eq!(result.timeline.len(), 4);
    let counts: Vec<usize> = result.timeline.iter().map(|day| day.turn_count).collect();
    assert_eq!(counts, vec![0, 3, 1, 0]);
    assert_eq!(counts.iter().sum::<usize>(), result.turns.len());
    for day in &result.timeline {
        let explained: i64 = day
            .categories
            .iter()
            .filter(|category| category.name != "Unattributed")
            .map(|category| category.aggregate.raw_tokens)
            .sum();
        assert_eq!(explained, day.local_tokens);
    }
    assert_eq!(result.timeline[1].local_tokens, 135);
    assert!(result.timeline[1].categories.iter().any(|category| category.name == "Unattributed"));
}

#[test]
fn named_ranges_end_today() {
    let today = 20_679;
    let week = legacy_query("7d", "model", Some("a".to_string()), &Vec::new(), today).unwrap();
    assert_eq!((week.from.as_str(), week.to.as_str()), ("2026-08-08", "2026-08-14"));
    let all = legacy_query(
        "all",
        "model",
        None,
        &vec![day("a", "2026-07-01", 1), day("a", "2026-06-30", 1)],
        today,
    )
    .unwrap();
    assert_eq!(all.from, "2026-06-30");
    assert!(legacy_query("1y", "model", None, &Vec::new(), today).is_err());
}
