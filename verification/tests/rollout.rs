use codex_nexus::binding::register_file;
use codex_nexus::catch_up::catch_up_path;
use codex_nexus::codex::read_message;
use codex_nexus::collect::{collect_tail, fresh_cursor, resume_cursor, CollectError};
use codex_nexus::collector_core::{
    bind_source, BindingAudit, BindingStatus, ObservedFile, Registration, RolloutSource,
};
use codex_nexus::health::{
    account_data_health, account_health_counts, classify_legacy_accounts, legacy_row,
    refresh_account_data_health, set_account_data_health, source_completeness,
    store_account_data_health, unchecked_accounts, AccountDataHealth, DataHealth, FileState,
    HealthCounts, SourceProgress, TimelineStatus,
};
use codex_nexus::ledger::{AuditReason, TurnLedger};
use codex_nexus::migration::{
    gather_legacy_sources, migrate_legacy_rollout_sources, LegacyBinding, LegacyCursor, LegacyFile,
};
use codex_nexus::models::{Confidence, TokenUsage, TurnUsageRecord};
use codex_nexus::percent::Percent;
use codex_nexus::quota::{RateLimitRow, RateSample};
use codex_nexus::rebuild::{
    bind_or_quarantine_rollout_file, check_rebuild, collect_one_for_rebuild,
    health_request_after_rebuild, rebuild_rollout_derived_data, reset_historical_rollout_data,
    rollout_batch_id, FileBindingStatus, FileSighting, LogFile, RebuildReport,
};
use codex_nexus::recorder::AccountRecord;
use codex_nexus::renewal::count_account;
use codex_nexus::rollout::{
    discover_rollout_files, discover_rollout_files_for_collector, is_rollout_path, normalize_effort,
    normalize_speed, process_line, roots, rollout_watch_roots, startup_rollout_files, CursorState,
    TurnTokenSample, ROLLOUT_PARSER_VERSION,
};

const META: &str = r#"{"timestamp":"2026-08-14T00:00:00Z","type":"session_meta","payload":{"session_id":"s"}}"#;
const CONTEXT: &str = r#"{"timestamp":"2026-08-14T00:00:01Z","type":"turn_context","payload":{"turn_id":"t","model":"gpt-5.6-sol","effort":"high","service_tier":"standard"}}"#;

fn counted(timestamp: &str, total: i64) -> String {
    format!(
        r#"{{"timestamp":"{timestamp}","type":"event_msg","payload":{{"type":"token_count","info":{{"total_token_usage":{{"input_tokens":{total},"total_tokens":{total}}}}}}}}}"#
    )
}

fn read(ledger: &mut TurnLedger, line: &str, state: &mut CursorState, account: &str) {
    if let Some(update) = process_line(line, state, account, 1).unwrap() {
        ledger.record(update);
    }
}

fn in_a_turn() -> CursorState {
    CursorState {
        session_id: Some("s".to_string()),
        thread_id: Some("th".to_string()),
        turn_id: Some("t".to_string()),
        model: Some("gpt-5.6-luna".to_string()),
        reasoning_effort: Some("medium".to_string()),
        speed_mode: Some("standard".to_string()),
        ..CursorState::fresh()
    }
}

fn turn(account: &str, turn_id: &str, total: i64) -> TurnUsageRecord {
    TurnUsageRecord {
        account_key: account.to_string(),
        thread_id: "thread".to_string(),
        turn_id: turn_id.to_string(),
        started_at: 1,
        completed_at: None,
        model: None,
        reasoning_effort: "high".to_string(),
        speed_mode: "standard".to_string(),
        usage: TokenUsage { raw_total_tokens: total, ..TokenUsage::default() },
        estimated_credits: None,
        rate_card_version: None,
        source: "rollout".to_string(),
        confidence: Confidence::High,
    }
}

fn sample(account: &str, turn_id: &str, at: i64, cumulative: i64, delta: i64) -> TurnTokenSample {
    TurnTokenSample {
        account_key: account.to_string(),
        thread_id: "thread".to_string(),
        turn_id: turn_id.to_string(),
        segment_no: 0,
        model: Some("gpt-5.6-sol".to_string()),
        reasoning_effort: "high".to_string(),
        speed_mode: "standard".to_string(),
        sampled_at: at,
        cumulative_tokens: cumulative,
        delta_tokens: delta,
        source: "rollout".to_string(),
        confidence: Confidence::High,
    }
}

#[test]
fn cumulative_token_count_is_stored_as_current_turn_total() {
    let mut ledger = TurnLedger::new();
    let mut state = CursorState::fresh();
    read(&mut ledger, META, &mut state, "a");
    read(&mut ledger, CONTEXT, &mut state, "a");
    for total in [100, 135] {
        read(&mut ledger, &counted("2026-08-14T00:00:02Z", total), &mut state, "a");
    }
    assert_eq!(ledger.turns.len(), 1);
    assert_eq!(ledger.turns[0].usage.raw_total_tokens, 135);
    let samples: Vec<(i64, i64)> = ledger
        .samples
        .iter()
        .map(|sample| (sample.cumulative_tokens, sample.delta_tokens))
        .collect();
    assert_eq!(samples, vec![(100, 100), (135, 35)]);
}

#[test]
fn reset_starts_a_new_segment_without_losing_the_previous_turn_tokens() {
    let mut ledger = TurnLedger::new();
    let mut state = CursorState::fresh();
    read(&mut ledger, META, &mut state, "a");
    read(&mut ledger, CONTEXT, &mut state, "a");
    for (timestamp, total) in [("2026-08-14T00:00:02Z", 274), ("2026-08-14T00:00:03Z", 252)] {
        read(&mut ledger, &counted(timestamp, total), &mut state, "a");
    }
    assert_eq!(ledger.turns[0].usage.raw_total_tokens, 526);
    let samples: Vec<(i64, i64, i64)> = ledger
        .samples
        .iter()
        .map(|sample| (sample.segment_no, sample.cumulative_tokens, sample.delta_tokens))
        .collect();
    assert_eq!(samples, vec![(0, 274, 274), (1, 252, 252)]);
    ledger.verify_token_accounting(Some("a")).unwrap();
}

#[test]
fn repeated_turn_context_preserves_the_current_turn_segment_baseline() {
    let mut ledger = TurnLedger::new();
    let mut state = CursorState::fresh();
    read(&mut ledger, META, &mut state, "a");
    read(&mut ledger, CONTEXT, &mut state, "a");
    read(&mut ledger, &counted("2026-08-14T00:00:02Z", 100), &mut state, "a");
    let baseline_before = state.turn_segment_start_usage.raw_total_tokens;
    let accumulated_before = state.turn_accumulated_usage.raw_total_tokens;
    read(&mut ledger, CONTEXT, &mut state, "a");
    assert_eq!(state.turn_segment_start_usage.raw_total_tokens, baseline_before);
    assert_eq!(state.turn_accumulated_usage.raw_total_tokens, accumulated_before);
    read(&mut ledger, &counted("2026-08-14T00:00:03Z", 200), &mut state, "a");
    let samples: Vec<(i64, i64)> = ledger
        .samples
        .iter()
        .map(|sample| (sample.cumulative_tokens, sample.delta_tokens))
        .collect();
    assert_eq!(samples, vec![(100, 100), (200, 100)]);
    ledger.verify_token_accounting(Some("a")).unwrap();
}

#[test]
fn late_session_meta_does_not_reset_a_repeated_turn_context() {
    let mut ledger = TurnLedger::new();
    let mut state = CursorState::fresh();
    read(&mut ledger, CONTEXT, &mut state, "a");
    read(
        &mut ledger,
        r#"{"timestamp":"2026-08-14T00:00:02Z","type":"session_meta","payload":{"session_id":"s"}}"#,
        &mut state,
        "a",
    );
    read(&mut ledger, &counted("2026-08-14T00:00:03Z", 100), &mut state, "a");
    read(
        &mut ledger,
        r#"{"timestamp":"2026-08-14T00:00:04Z","type":"turn_context","payload":{"turn_id":"t","model":"gpt-5.6-sol","effort":"high","service_tier":"standard"}}"#,
        &mut state,
        "a",
    );
    read(&mut ledger, &counted("2026-08-14T00:00:05Z", 200), &mut state, "a");
    let turn = ledger
        .turns
        .iter()
        .find(|turn| turn.account_key == "a" && turn.thread_id == "s" && turn.turn_id == "t")
        .unwrap();
    assert_eq!((turn.started_at, turn.usage.raw_total_tokens), (1786665601, 200));
    ledger.verify_token_accounting(Some("a")).unwrap();
}

#[test]
fn repeated_cumulative_value_after_reset_is_not_deduplicated() {
    let mut ledger = TurnLedger::new();
    let mut state = in_a_turn();
    for total in [100, 200, 100] {
        read(&mut ledger, &counted("2026-08-14T00:00:02Z", total), &mut state, "a");
    }
    let samples: Vec<(i64, i64)> = ledger
        .samples
        .iter()
        .map(|sample| (sample.segment_no, sample.cumulative_tokens))
        .collect();
    assert_eq!(samples, vec![(0, 100), (0, 200), (1, 100)]);
}

#[test]
fn accounting_invariant_reports_a_mismatched_derived_total() {
    let mut ledger = TurnLedger::new();
    ledger.upsert_turn(turn("a", "turn", 10));
    let error = ledger.verify_token_accounting(None).unwrap_err().message();
    assert!(error.contains("canonical=10"));
    assert!(error.contains("timeline=0"));
}

fn health(ledger: &TurnLedger, account: &str, requested: DataHealth) -> AccountDataHealth {
    let counts = account_health_counts(ledger, account, 0, 0);
    set_account_data_health(account, requested, ROLLOUT_PARSER_VERSION, counts, None, 1)
}

#[test]
fn accounting_invariant_rejects_orphan_timeline_samples() {
    let mut ledger = TurnLedger::new();
    ledger.insert_token_sample(sample("a", "orphan", 2, 300, 300));
    let error = ledger.verify_token_accounting(Some("a")).unwrap_err().message();
    assert!(error.contains("orphan token timeline"));
    ledger.audit_timeline_gaps(Some("a"), AuditReason::LegacyPreTimeline, 1);
    let health = health(&ledger, "a", DataHealth::AccountingInconsistent);
    assert_eq!(health.status, DataHealth::AccountingInconsistent);
    assert_eq!(health.counts.orphan_timeline_samples, 1);
    assert_eq!(health.counts.missing_timeline_turns, 0);
    let audit = ledger.audits.iter().find(|audit| audit.turn_id == "orphan").unwrap();
    assert_eq!(audit.reason, AuditReason::OrphanTimeline);
}

#[test]
fn timeline_audit_classifies_missing_and_partial_history() {
    let mut ledger = TurnLedger::new();
    ledger.upsert_turn(turn("history-account", "missing", 10));
    ledger.upsert_turn(turn("history-account", "partial", 20));
    ledger.insert_token_sample(sample("history-account", "partial", 2, 10, 10));
    ledger.audit_timeline_gaps(None, AuditReason::LegacyPreTimeline, 1);
    let count = |reason: AuditReason| {
        ledger.audits.iter().filter(|audit| audit.reason == reason).count()
    };
    assert_eq!(count(AuditReason::LegacyPreTimeline), 1);
    assert_eq!(count(AuditReason::AccountingError), 1);
    let missing = ledger.audits.iter().find(|audit| audit.turn_id == "missing").unwrap();
    assert_eq!(missing.reason, AuditReason::LegacyPreTimeline);
}

fn sighting(cursor_offset: Option<i64>) -> FileSighting {
    FileSighting { length: Some(0), modified_at: Some(1), cursor_offset }
}

#[test]
fn rollout_files_are_immutable_bound_or_quarantined_per_account() {
    let first = bind_or_quarantine_rollout_file(None, "account-a", false, sighting(None), 10);
    assert!(!first.belongs);
    assert_eq!(first.binding.status, FileBindingStatus::Pending);
    let bound = bind_or_quarantine_rollout_file(
        Some(first.binding),
        "account-a",
        true,
        sighting(None),
        11,
    );
    assert!(bound.belongs);
    assert_eq!(bound.binding.status, FileBindingStatus::Bound);
    assert_eq!(bound.binding.account_key.as_deref(), Some("account-a"));
    let foreign = bind_or_quarantine_rollout_file(
        Some(bound.binding),
        "account-b",
        true,
        sighting(None),
        12,
    );
    assert!(!foreign.belongs);
    assert_eq!(foreign.binding.account_key.as_deref(), Some("account-a"));
    assert_eq!(foreign.binding.status, FileBindingStatus::Bound);
    let second = bind_or_quarantine_rollout_file(None, "account-b", true, sighting(None), 13);
    assert!(second.belongs);
    let cursored = bind_or_quarantine_rollout_file(None, "account-b", true, sighting(Some(0)), 14);
    assert!(!cursored.belongs);
    assert_eq!(cursored.binding.account_key, None);
    assert_eq!(cursored.binding.status, FileBindingStatus::Pending);
}

#[test]
fn parse_errors_are_account_scoped_hard_blockers_for_verified_health() {
    let mut ledger = TurnLedger::new();
    let file = LogFile { path: "/logs/a.jsonl".to_string(), bytes: b"not-json\n".to_vec() };
    collect_one_for_rebuild(&mut ledger, &file, "account-a", "rebuild-batch-a", 1).unwrap();
    let health = health(&ledger, "account-a", DataHealth::Verified);
    assert_eq!(health.status, DataHealth::AccountingInconsistent);
    assert_eq!(health.counts.parse_error_count, 1);
    assert_eq!(ledger.parse_errors[0].rebuild_batch_id, "rebuild-batch-a");
    assert_eq!(account_health_counts(&ledger, "account-b", 0, 0).parse_error_count, 0);
}

fn observed(sampled_at: i64, used: f64) -> RateLimitRow {
    RateLimitRow {
        account_key: "a".to_string(),
        limit_id: "codex".to_string(),
        window: "primary".to_string(),
        sample: RateSample {
            id: sampled_at,
            sampled_at,
            window_duration_mins: 10080,
            used_percent: Percent::from_bits(used.to_bits()),
            resets_at: Some(10000),
        },
        generation: None,
    }
}

#[test]
fn unconsumed_bound_rollout_bytes_make_verified_health_source_incomplete() {
    let ledger = TurnLedger::new();
    let length = "pending content\n".len();
    let progress = |last_offset: i64| SourceProgress {
        pending: false,
        last_offset,
        file: Some(FileState { len: length as u64, modified_at: Some(1) }),
    };
    let (incomplete, lag) =
        source_completeness(&vec![progress(0)], &Vec::new(), &ledger.samples, "account-a");
    let counts = account_health_counts(&ledger, "account-a", incomplete, lag);
    let short = set_account_data_health(
        "account-a",
        DataHealth::Verified,
        ROLLOUT_PARSER_VERSION,
        counts,
        None,
        1,
    );
    assert_eq!(short.status, DataHealth::SourceIncomplete);
    assert_eq!(short.counts.source_incomplete_count, 1);
    let (incomplete, lag) = source_completeness(
        &vec![progress(length as i64)],
        &Vec::new(),
        &ledger.samples,
        "account-a",
    );
    let counts = account_health_counts(&ledger, "account-a", incomplete, lag);
    let whole = set_account_data_health(
        "account-a",
        DataHealth::Verified,
        ROLLOUT_PARSER_VERSION,
        counts,
        None,
        1,
    );
    assert_eq!(whole.status, DataHealth::Verified);
}

#[test]
fn quota_transition_refreshes_stale_verified_health() {
    let mut ledger = TurnLedger::new();
    ledger.upsert_turn(turn("a", "turn", 10));
    ledger.insert_token_sample(sample("a", "turn", 100, 10, 10));
    let mut rows = vec![observed(100, 1.0)];
    let (incomplete, lag) = source_completeness(&Vec::new(), &rows, &ledger.samples, "a");
    let counts = account_health_counts(&ledger, "a", incomplete, lag);
    let before = set_account_data_health(
        "a",
        DataHealth::Verified,
        ROLLOUT_PARSER_VERSION,
        counts,
        None,
        1,
    );
    assert_eq!(before.status, DataHealth::Verified);
    rows.push(observed(501, 2.0));
    let (incomplete, lag) = source_completeness(&Vec::new(), &rows, &ledger.samples, "a");
    let counts = account_health_counts(&ledger, "a", incomplete, lag);
    let refreshed = refresh_account_data_health("a", Some(&before), counts, None, 2);
    assert_eq!(refreshed.status, DataHealth::SourceIncomplete);
    assert_eq!(refreshed.counts.source_lag_seconds, 401);
    assert_eq!(refreshed.counts.source_incomplete_count, 1);
}

#[test]
fn unchanged_quota_polls_do_not_create_source_lag() {
    let ledger = TurnLedger::new();
    let rows = vec![observed(100, 1.0), observed(1_000, 1.0)];
    let (incomplete, lag) = source_completeness(&Vec::new(), &rows, &ledger.samples, "a");
    let counts = account_health_counts(&ledger, "a", incomplete, lag);
    let health = set_account_data_health(
        "a",
        DataHealth::Verified,
        ROLLOUT_PARSER_VERSION,
        counts,
        None,
        1,
    );
    assert_eq!(health.status, DataHealth::Verified);
    assert_eq!(health.counts.source_lag_seconds, 0);
}

fn log(lines: &[&str]) -> LogFile {
    LogFile { path: "/logs/s.jsonl".to_string(), bytes: text(lines).into_bytes() }
}

fn text(lines: &[&str]) -> String {
    lines.join("\n") + "\n"
}

fn totals(ledger: &TurnLedger) -> (usize, usize, i64) {
    let sum: i64 = ledger.samples.iter().map(|sample| sample.delta_tokens).sum();
    (ledger.turns.len(), ledger.samples.len(), sum)
}

fn seen(content: &str) -> ObservedFile {
    ObservedFile {
        canonical_path: "/logs/s.jsonl".to_string(),
        raw_path: "/logs/s.jsonl".to_string(),
        identity: "unix:1:2".to_string(),
        modified_at: Some(content.len() as i64),
        bytes: content.as_bytes().to_vec(),
    }
}

struct Desk {
    sources: Vec<RolloutSource>,
    audits: Vec<BindingAudit>,
    ledger: TurnLedger,
    accounts: Vec<AccountRecord>,
    health: Vec<AccountDataHealth>,
    bindings: Vec<LegacyBinding>,
    cursors: Vec<LegacyCursor>,
    /// What the one log holds, where it is there.
    content: Option<String>,
}

impl Desk {
    fn new() -> Desk {
        Desk {
            sources: Vec::new(),
            audits: Vec::new(),
            ledger: TurnLedger::new(),
            accounts: Vec::new(),
            health: Vec::new(),
            bindings: Vec::new(),
            cursors: Vec::new(),
            content: None,
        }
    }

    fn register(&mut self, content: &str, now: i64) -> usize {
        let file = seen(content);
        let (registration, _) =
            register_file(&mut self.sources, &mut self.audits, &mut self.ledger, &file, now)
                .unwrap();
        match registration {
            Registration::Known(at) | Registration::New(at) => at,
            Registration::Replaced(_, at) => at,
        }
    }

    fn catch_up(&mut self, content: &str, account: Option<&str>, allow: bool, now: i64) -> bool {
        let at = self.register(content, now);
        catch_up_path(
            &mut self.sources[at],
            &mut self.ledger,
            &mut self.audits,
            &mut self.accounts,
            &seen(content),
            account,
            allow,
            now,
        )
        .unwrap()
        .changed
    }

    fn bind(&mut self, at: usize, account: &str, now: i64) -> bool {
        bind_source(
            &mut self.sources[at],
            &mut self.audits,
            account,
            "test_recovery",
            "high",
            "historical_reset_tail",
            None,
            now,
        )
    }

    fn counts(&self, account: &str) -> HealthCounts {
        let state = self.content.as_ref().map(|content| FileState {
            len: content.len() as u64,
            modified_at: Some(content.len() as i64),
        });
        let files = vec![state; self.sources.len()];
        count_account(&self.ledger, &self.sources, &files, &Vec::new(), account)
    }

    fn set_health(&mut self, account: &str, requested: DataHealth, version: i64) {
        let row =
            set_account_data_health(account, requested, version, self.counts(account), None, 1);
        store_account_data_health(&mut self.health, row);
    }

    fn health_of(&self, account: &str) -> &AccountDataHealth {
        account_data_health(&self.health, account).unwrap()
    }

    /// What an earlier parser stored of an account.
    fn stored(&mut self, account: &str, data_version: i64) {
        let counts = self.counts(account);
        self.health.push(AccountDataHealth {
            account_key: account.to_string(),
            data_version,
            status: DataHealth::Verified,
            timeline_status: TimelineStatus::Complete,
            counts,
            last_rebuild_batch_id: None,
            verified_at: None,
        });
    }

    fn bound(&mut self, account: Option<&str>, status: FileBindingStatus) {
        self.bindings.push(LegacyBinding {
            path: "/logs/s.jsonl".to_string(),
            account_key: account.map(|key| key.to_string()),
            status,
            first_seen_at: 1,
            last_seen_at: 1,
        });
    }

    /// Sets the history of an account aside, once what earlier versions kept is taken over.
    fn reset(&mut self, account: &str, now: i64) {
        let entries = gather_legacy_sources(&self.bindings, &self.cursors);
        let file = || LegacyFile {
            canonical_path: "/logs/s.jsonl".to_string(),
            identity: self.content.as_ref().map(|_| "unix:1:2".to_string()),
            bytes: self.content.as_ref().map(|content| content.as_bytes().to_vec()),
        };
        let files = entries.iter().map(|_| file()).collect();
        migrate_legacy_rollout_sources(
            &mut self.sources,
            &mut Vec::new(),
            &entries,
            &files,
            &self.cursors,
        );
        let set_aside = unchecked_accounts(&self.health, account);
        let observed =
            self.sources.iter().map(|_| self.content.as_deref().map(seen)).collect();
        reset_historical_rollout_data(
            &mut self.ledger,
            &mut self.sources,
            &mut self.audits,
            &observed,
            account,
            &set_aside,
            now,
        )
        .unwrap();
        for key in &set_aside {
            self.set_health(key, DataHealth::LegacyUnverified, 0);
        }
        self.set_health(account, DataHealth::Verified, ROLLOUT_PARSER_VERSION);
    }

    /// Brings an account's ledger to this parser's version, and says whether it was derived
    /// again.
    fn rebuild(&mut self, logs: &Vec<LogFile>, account: &str, now: i64) -> bool {
        let prior = account_data_health(&self.health, account)
            .map(|row| (row.data_version, row.status));
        let batch = rollout_batch_id(account, "rebuild");
        let report =
            rebuild_rollout_derived_data(&mut self.ledger, prior, logs, account, &batch, now)
                .unwrap();
        match report {
            RebuildReport::ResetHistory => {
                self.reset(account, now);
                false
            }
            RebuildReport::AlreadyDone => false,
            RebuildReport::Derived(outcome) => {
                let (requested, version) = health_request_after_rebuild(&Ok(outcome));
                self.set_health(account, requested, version);
                outcome.replaced
            }
        }
    }
}

#[test]
fn rollout_rebuild_is_idempotent() {
    let mut desk = Desk::new();
    let files = vec![log(&[META, CONTEXT, &counted("2026-08-14T00:00:02Z", 100)])];
    assert!(desk.rebuild(&files, "a", 1));
    let first = totals(&desk.ledger);
    assert!(!desk.rebuild(&files, "a", 2));
    assert_eq!(first, (1, 1, 100));
    assert_eq!(totals(&desk.ledger), first);
}

#[test]
fn account_scoped_migration_quarantines_legacy_history_without_rebuilding_verified_account() {
    let mut desk = Desk::new();
    desk.ledger.upsert_turn(turn("legacy-a", "old-turn", 127));
    store_account_data_health(&mut desk.health, legacy_row("legacy-a".to_string()));
    desk.ledger.audit_timeline_gaps(None, AuditReason::LegacyPreTimeline, 1);
    let found = vec![desk.counts("legacy-a")];
    desk.health = classify_legacy_accounts(std::mem::take(&mut desk.health), &found, 1);
    let files = vec![log(&[
        r#"{"timestamp":"2026-08-14T00:00:00Z","type":"session_meta","payload":{"session_id":"new-thread"}}"#,
        r#"{"timestamp":"2026-08-14T00:00:01Z","type":"turn_context","payload":{"turn_id":"new-turn","model":"gpt-5.6-sol","effort":"high","service_tier":"standard"}}"#,
        &counted("2026-08-14T00:00:02Z", 50),
    ])];
    assert!(desk.rebuild(&files, "verified-b", 1));
    let legacy = desk.health_of("legacy-a");
    let verified = desk.health_of("verified-b");
    assert_eq!(legacy.status, DataHealth::LegacyUnverified);
    assert_eq!(legacy.counts.missing_timeline_turns, 1);
    assert_eq!(verified.status, DataHealth::Verified);
    assert_eq!(verified.data_version, ROLLOUT_PARSER_VERSION);
    desk.ledger.verify_token_accounting(Some("verified-b")).unwrap();
    assert!(desk.ledger.verify_token_accounting(None).is_err());
    let kept = desk.ledger.turns.iter().find(|turn| turn.account_key == "legacy-a").unwrap();
    assert_eq!(kept.usage.raw_total_tokens, 127);
    assert!(!desk.rebuild(&files, "verified-b", 2));
    assert!(!desk.rebuild(&Vec::new(), "legacy-a", 2));
    assert_eq!(desk.health_of("legacy-a").status, DataHealth::LegacyUnverified);
    assert!(!desk.rebuild(&Vec::new(), "legacy-a", 3));
    assert!(!desk.rebuild(&files, "verified-b", 3));
}

#[test]
fn v9_migration_discards_previously_verified_dirty_history() {
    let mut desk = Desk::new();
    desk.ledger.upsert_turn(turn("a", "polluted", 100));
    desk.ledger.insert_token_sample(sample("a", "polluted", 2, 100, 100));
    desk.stored("a", 3);
    assert!(!desk.rebuild(&Vec::new(), "a", 1));
    assert!(desk.ledger.turns.is_empty());
    assert!(desk.ledger.audits.is_empty());
    assert_eq!(desk.health_of("a").data_version, ROLLOUT_PARSER_VERSION);
    assert_eq!(desk.health_of("a").status, DataHealth::Verified);
}

#[test]
fn v9_migration_advances_lagging_cursor_without_counting_skipped_history() {
    let mut desk = Desk::new();
    let lines = [META, CONTEXT, &counted("2026-08-14T00:00:02Z", 100)];
    let prefix = text(&lines);
    let mut state = CursorState::fresh();
    for line in lines {
        read(&mut desk.ledger, line, &mut state, "a");
    }
    assert_eq!(desk.ledger.turns[0].usage.raw_total_tokens, 100);
    desk.bound(Some("a"), FileBindingStatus::Bound);
    desk.cursors.push(LegacyCursor {
        path: "/logs/s.jsonl".to_string(),
        byte_offset: prefix.len() as i64,
        last_modified_at: None,
        last_scanned_at: 1,
        state: Some(state),
    });
    desk.stored("a", 5);
    let skipped = prefix.clone() + &counted("2026-08-14T00:00:03Z", 200) + "\n";
    desk.content = Some(skipped.clone());
    let logs = vec![LogFile {
        path: "/logs/s.jsonl".to_string(),
        bytes: skipped.as_bytes().to_vec(),
    }];
    assert!(!desk.rebuild(&logs, "a", 2));
    assert!(desk.ledger.turns.is_empty());
    let fresh = skipped + &counted("2026-08-14T00:00:04Z", 250) + "\n";
    assert!(desk.catch_up(&fresh, Some("a"), false, 3));
    assert_eq!(desk.ledger.turns[0].account_key, "a");
    assert_eq!(desk.ledger.turns[0].usage.raw_total_tokens, 50);
    desk.ledger.verify_token_accounting(Some("a")).unwrap();
}

#[test]
fn a_stored_state_stays_fit_to_be_read_on() {
    let mut desk = Desk::new();
    let content = text(&[META, CONTEXT, &counted("2026-08-14T00:00:02Z", 100)]);
    desk.content = Some(content.clone());
    desk.bound(Some("a"), FileBindingStatus::Bound);
    desk.cursors.push(LegacyCursor {
        path: "/logs/s.jsonl".to_string(),
        byte_offset: META.len() as i64 + 1,
        last_modified_at: None,
        last_scanned_at: 1,
        state: Some(in_a_turn()),
    });
    desk.stored("a", 8);
    assert!(!desk.rebuild(&Vec::new(), "a", 2));
    let at = desk.register(&content, 3);
    assert!(desk.sources[at].cursor.as_ref().unwrap().is_well_formed());
    desk.register(&content.replace("100", "200"), 4);
    assert_eq!(desk.sources.len(), 2);
    for source in &desk.sources {
        assert!(source.cursor.as_ref().map_or(true, |state| state.is_well_formed()));
    }
}

#[test]
fn v9_missing_bound_file_is_rebased_if_it_returns() {
    let mut desk = Desk::new();
    desk.bound(Some("a"), FileBindingStatus::Bound);
    desk.cursors.push(LegacyCursor {
        path: "/logs/s.jsonl".to_string(),
        byte_offset: 10,
        last_modified_at: None,
        last_scanned_at: 1,
        state: Some(CursorState { parser_version: 8, ..CursorState::fresh() }),
    });
    desk.stored("a", 8);
    let logs = vec![LogFile { path: "/logs/s.jsonl".to_string(), bytes: Vec::new() }];
    assert!(!desk.rebuild(&logs, "a", 2));
    let source = &desk.sources[0];
    assert_eq!(
        (source.account_key.as_deref(), source.binding_status, source.last_offset),
        (None, BindingStatus::Quarantined, 0)
    );
    let historical = text(&[META, CONTEXT, &counted("2026-08-14T00:00:02Z", 100)]);
    assert!(!desk.catch_up(&historical, Some("a"), true, 3));
    let fresh = historical + &counted("2026-08-14T00:00:03Z", 150) + "\n";
    assert!(desk.catch_up(&fresh, Some("a"), true, 4));
    assert_eq!(desk.ledger.turns[0].account_key, "a");
    assert_eq!(desk.ledger.turns[0].usage.raw_total_tokens, 50);
    desk.ledger.verify_token_accounting(Some("a")).unwrap();
}

#[test]
fn v9_quarantined_active_file_resumes_from_migration_tail() {
    let mut desk = Desk::new();
    let historical = text(&[META, CONTEXT, &counted("2026-08-14T00:00:02Z", 100)]);
    desk.content = Some(historical.clone());
    desk.bound(None, FileBindingStatus::Pending);
    desk.stored("a", 8);
    let logs = vec![LogFile {
        path: "/logs/s.jsonl".to_string(),
        bytes: historical.as_bytes().to_vec(),
    }];
    assert!(!desk.rebuild(&logs, "a", 2));
    assert_eq!(desk.sources.len(), 1);
    assert_eq!(
        (desk.sources[0].binding_status, desk.sources[0].last_offset),
        (BindingStatus::Quarantined, historical.len() as u64)
    );
    let fresh = historical + &counted("2026-08-14T00:00:03Z", 150) + "\n";
    assert!(desk.bind(0, "a", 3));
    assert!(desk.catch_up(&fresh, None, false, 4));
    assert_eq!(desk.ledger.turns[0].usage.raw_total_tokens, 50);
    assert_eq!(desk.ledger.turns[0].account_key, "a");
    desk.ledger.verify_token_accounting(Some("a")).unwrap();
}

#[test]
fn v9_migration_skips_malformed_historical_rows() {
    let mut desk = Desk::new();
    let content = text(&[META, "not-json", &counted("2026-08-14T00:00:02Z", 100)]);
    desk.content = Some(content.clone());
    desk.bound(None, FileBindingStatus::Pending);
    desk.stored("a", 8);
    let logs = vec![LogFile {
        path: "/logs/s.jsonl".to_string(),
        bytes: content.as_bytes().to_vec(),
    }];
    assert!(!desk.rebuild(&logs, "a", 2));
    assert_eq!(desk.sources[0].last_offset, content.len() as u64);
    assert_eq!(desk.health_of("a").data_version, ROLLOUT_PARSER_VERSION);
    assert!(desk.ledger.turns.is_empty());
}

#[test]
fn cumulative_total_wins_over_stale_last_turn_usage() {
    let mut ledger = TurnLedger::new();
    let mut state = in_a_turn();
    read(
        &mut ledger,
        r#"{"timestamp":"2026-08-14T00:00:02Z","type":"event_msg","payload":{"type":"token_count","info":{"total_token_usage":{"input_tokens":100,"total_tokens":100},"last_token_usage":{"input_tokens":7,"total_tokens":7}}}}"#,
        &mut state,
        "a",
    );
    assert_eq!(ledger.turns[0].usage.raw_total_tokens, 100);
    assert_eq!(ledger.samples.len(), 1);
}

#[test]
fn repeated_cumulative_total_does_not_use_stale_last_turn_usage() {
    let mut ledger = TurnLedger::new();
    let mut state = in_a_turn();
    for last in [7, 9] {
        let line = format!(
            r#"{{"timestamp":"2026-08-14T00:00:02Z","type":"event_msg","payload":{{"type":"token_count","info":{{"total_token_usage":{{"input_tokens":100,"total_tokens":100}},"last_token_usage":{{"input_tokens":{last},"total_tokens":{last}}}}}}}}}"#
        );
        read(&mut ledger, &line, &mut state, "a");
    }
    assert_eq!(ledger.turns[0].usage.raw_total_tokens, 100);
    assert_eq!(ledger.samples.len(), 1);
}

#[test]
fn a_tail_is_read_to_its_last_whole_line() {
    let whole = text(&[META, CONTEXT, &counted("2026-08-14T00:00:02Z", 100)]);
    let mut tail = whole.clone().into_bytes();
    tail.extend_from_slice(b"{\"timestamp\":");
    let read = collect_tail(fresh_cursor(), &tail, "a", 1).unwrap();
    assert_eq!(read.cursor.byte_offset, whole.len() as u64);
    assert!(read.changed && read.errors.is_empty());
    assert_eq!(read.updates.len(), 1);
    let again = resume_cursor(Some(read.cursor), 3);
    assert_eq!(again.byte_offset, 0);
    assert!(matches!(
        collect_tail(fresh_cursor(), &vec![0xff, b'\n'], "a", 1),
        Err(CollectError::InvalidUtf8)
    ));
}

#[test]
fn an_unreadable_line_is_told_with_its_offset() {
    let mut ledger = TurnLedger::new();
    let file = log(&[META, "{broken"]);
    collect_one_for_rebuild(&mut ledger, &file, "a", "batch", 1).unwrap();
    assert_eq!(ledger.parse_errors.len(), 1);
    assert_eq!(ledger.parse_errors[0].byte_offset, META.len() as u64 + 1);
    assert!(!ledger.parse_errors[0].error.is_empty());
}

#[test]
fn efforts_and_speeds_have_one_spelling() {
    assert_eq!(normalize_effort(Some("HIGH".to_string())), "high");
    assert_eq!(normalize_effort(None), "unknown");
    assert_eq!(normalize_speed(Some("Standard".to_string())), "standard");
    assert_eq!(normalize_speed(None), "unknown");
}

#[test]
fn logs_are_found_by_their_extension_and_in_order() {
    let found: Vec<String> = ["/l/b.jsonl", "/l/a/x.jsonl", "/l/a-b.jsonl", "/l/n.txt", "/l/b.jsonl"]
        .iter()
        .map(|path| path.to_string())
        .collect();
    assert_eq!(
        discover_rollout_files_for_collector(&found),
        vec!["/l/a/x.jsonl", "/l/a-b.jsonl", "/l/b.jsonl"]
    );
    assert_eq!(
        discover_rollout_files(&found, Some("/other.log")),
        vec!["/l/a/x.jsonl", "/l/a-b.jsonl", "/l/b.jsonl", "/other.log"]
    );
    let registered = vec!["/k/c.jsonl".to_string(), "/k/c.db".to_string()];
    assert_eq!(
        startup_rollout_files(&found, &registered),
        vec!["/k/c.jsonl", "/l/a/x.jsonl", "/l/a-b.jsonl", "/l/b.jsonl"]
    );
    assert!(is_rollout_path("/l/a.jsonl"));
    assert!(!is_rollout_path("/l/.jsonl"));
    assert!(!is_rollout_path("/l.jsonl/a"));
    assert_eq!(
        roots(Some("/home/u"), true, true),
        vec!["/home/u/.codex/sessions", "/home/u/.codex/archived_sessions"]
    );
    assert!(roots(None, true, true).is_empty());
    assert_eq!(rollout_watch_roots(Some("/home/u"), true), vec!["/home/u/.codex"]);
    assert!(rollout_watch_roots(Some("/home/u"), false).is_empty());
}

#[test]
fn an_unresolved_key_is_no_account_to_rebuild() {
    assert!(check_rebuild("account:a").is_ok());
    assert_eq!(
        check_rebuild("unresolved:x").unwrap_err(),
        "unresolved sources cannot be rebuilt as an account"
    );
    assert!(read_message("{").is_none());
}
