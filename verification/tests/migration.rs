use codex_nexus::collector_core::{
    source_id_for_identity, BindingStatus, RolloutSource, SourceCondition,
};
use codex_nexus::ledger::TurnLedger;
use codex_nexus::migration::{
    gather_legacy_sources, legacy_speed, migrate_legacy_rollout_sources,
    migrate_rollout_file_binding_status, quarantine_legacy_non_verified_ledgers,
    repair_rollout_source_identities, take_over_cursor, take_over_day, take_over_limit,
    take_over_samples, take_over_turns, unregistered_accounts, unverified_accounts, LegacyAudit,
    LegacyBinding, LegacyCursor, LegacyFile, PrototypeCursor, PrototypeDay, PrototypeLimit,
    PrototypeTurn,
};
use codex_nexus::models::{Confidence, TokenUsage, TurnUsageRecord};
use codex_nexus::percent::Percent;
use codex_nexus::rebuild::FileBindingStatus;
use codex_nexus::recorder::AccountRecord;
use codex_nexus::rollout::{CursorState, TurnTokenSample};
use codex_nexus::schema::{has_old_shape, OldTable, Table};

fn binding(path: &str, account: Option<&str>, status: FileBindingStatus, at: i64) -> LegacyBinding {
    LegacyBinding {
        path: path.to_string(),
        account_key: account.map(|key| key.to_string()),
        status,
        first_seen_at: at,
        last_seen_at: at + 10,
    }
}

fn cursor(path: &str, byte_offset: i64, at: i64, state: Option<CursorState>) -> LegacyCursor {
    LegacyCursor {
        path: path.to_string(),
        byte_offset,
        last_modified_at: Some(at - 1),
        last_scanned_at: at,
        state,
    }
}

fn gone(path: &str) -> LegacyFile {
    LegacyFile { canonical_path: path.to_string(), identity: None, bytes: None }
}

fn taken_over(
    sources: &mut Vec<RolloutSource>,
    audits: &mut Vec<LegacyAudit>,
    bindings: &Vec<LegacyBinding>,
    cursors: &Vec<LegacyCursor>,
) {
    let entries = gather_legacy_sources(bindings, cursors);
    let files: Vec<LegacyFile> = entries.iter().map(|entry| gone(&entry.path)).collect();
    migrate_legacy_rollout_sources(sources, audits, &entries, &files, cursors);
}

#[test]
fn backfills_missing_rollout_sources_from_legacy_binding_and_cursor() {
    let path = "/tmp/codex-archived-missing.jsonl";
    let bindings = vec![binding(path, Some("account:a"), FileBindingStatus::Bound, 10)];
    let state = CursorState { session_id: Some("s".to_string()), ..CursorState::fresh() };
    let cursors = vec![cursor(path, 42, 20, Some(state))];
    let (mut sources, mut audits) = (Vec::new(), Vec::new());
    taken_over(&mut sources, &mut audits, &bindings, &cursors);
    assert_eq!(sources.len(), 1);
    assert_eq!(sources[0].account_key.as_deref(), Some("account:a"));
    assert_eq!(sources[0].binding_status, BindingStatus::Verified);
    assert_eq!(sources[0].last_offset, 42);
    let kept = sources[0].cursor.as_ref().unwrap();
    assert_eq!(kept.session_id.as_deref(), Some("s"));
    taken_over(&mut sources, &mut audits, &bindings, &cursors);
    assert_eq!(sources.len(), 1);
    assert_eq!(sources[0].last_offset, 42);
}

#[test]
fn clears_non_verified_legacy_accounts_but_keeps_audit_evidence() {
    let pending = "/tmp/pending-with-old-account.jsonl";
    let quarantined = "/tmp/quarantined-with-old-account.jsonl";
    let bindings = vec![
        binding(pending, Some("account:old"), FileBindingStatus::Pending, 10),
        binding(quarantined, Some("account:old2"), FileBindingStatus::Quarantined, 11),
    ];
    let cursors = vec![cursor(pending, 12, 20, None), cursor(quarantined, 13, 21, None)];
    let (mut sources, mut audits) = (Vec::new(), Vec::new());
    taken_over(&mut sources, &mut audits, &bindings, &cursors);
    assert_eq!(sources.len(), 2);
    for source in &sources {
        assert_eq!(source.account_key, None);
        assert_eq!(source.binding_status, BindingStatus::Unresolved);
    }
    assert_eq!(audits.iter().filter(|audit| !audit.verified).count(), 2);
    taken_over(&mut sources, &mut audits, &bindings, &cursors);
    assert_eq!(audits.len(), 2);
}

fn source(id: &str, path: &str, identity: &str) -> RolloutSource {
    RolloutSource {
        source_id: id.to_string(),
        canonical_path: path.to_string(),
        file_identity: identity.to_string(),
        session_id: None,
        thread_id: None,
        account_key: None,
        binding_status: BindingStatus::Unresolved,
        binding_source: "legacy".to_string(),
        binding_confidence: "unknown".to_string(),
        first_seen_at: 1,
        first_activity_at: None,
        last_activity_at: None,
        last_offset: 0,
        last_size: 0,
        last_mtime: None,
        cursor: None,
        file_fingerprint: None,
        cursor_prefix_fingerprint: None,
        generation: 0,
        parser_version: 0,
        condition: SourceCondition::Unknown,
        last_error: None,
        last_error_at: None,
        updated_at: 1,
    }
}

#[test]
fn migrates_intermediate_sources_before_creating_identity_index() {
    let mut sources = vec![source("source:old", "/tmp/old.jsonl", "")];
    repair_rollout_source_identities(&mut sources, &vec![None]);
    assert!(!sources[0].file_identity.is_empty());
    assert_eq!(sources[0].file_identity, "legacy-path:/tmp/old.jsonl");
}

#[test]
fn identities_become_unique() {
    let mut sources = vec![
        source("source:1", "/tmp/a.jsonl", "unix:1:1"),
        source("source:2", "/tmp/b.jsonl", "unix:1:1"),
    ];
    let found = vec![Some("unix:1:1".to_string()), Some("unix:1:2".to_string())];
    repair_rollout_source_identities(&mut sources, &found);
    assert_ne!(sources[0].file_identity, sources[1].file_identity);
    assert!(!source_id_for_identity("unix:1:1").is_empty());
}

fn sample(segment_no: i64, cumulative: i64, delta: i64) -> TurnTokenSample {
    TurnTokenSample {
        account_key: "a".to_string(),
        thread_id: "thread".to_string(),
        turn_id: "turn".to_string(),
        segment_no,
        model: Some("gpt-5.6-sol".to_string()),
        reasoning_effort: "high".to_string(),
        speed_mode: "standard".to_string(),
        sampled_at: 1,
        cumulative_tokens: cumulative,
        delta_tokens: delta,
        source: "rollout".to_string(),
        confidence: Confidence::High,
    }
}

#[test]
fn migrates_token_samples_to_segment_aware_identity() {
    let old = Table {
        name: "turn_token_samples".to_string(),
        columns: vec!["account_key".to_string(), "cumulative_tokens".to_string()],
    };
    assert!(has_old_shape(&vec![old], OldTable::TokenSamples));
    let mut ledger = TurnLedger::new();
    take_over_samples(&mut ledger, vec![sample(9, 100, 100), sample(9, -1, 3)]);
    assert_eq!(ledger.samples.len(), 1);
    assert_eq!(ledger.samples[0].segment_no, 0);
    ledger.insert_token_sample(sample(1, 100, 100));
    assert_eq!(ledger.samples.len(), 2);
}

#[test]
fn migrates_old_quarantine_bindings_to_watcher_pending() {
    let (status, reason) = migrate_rollout_file_binding_status(
        FileBindingStatus::Quarantined,
        false,
        Some("unattributed_legacy_file".to_string()),
    );
    assert_eq!(status, FileBindingStatus::Pending);
    assert_eq!(reason.as_deref(), Some("legacy_quarantine_pending"));
    let (status, reason) =
        migrate_rollout_file_binding_status(FileBindingStatus::Quarantined, true, None);
    assert_eq!((status, reason), (FileBindingStatus::Quarantined, None));
}

fn has_columns(name: &str, columns: &[&str]) -> Table {
    Table {
        name: name.to_string(),
        columns: columns.iter().map(|column| column.to_string()).collect(),
    }
}

#[test]
fn migrates_the_first_prototype_without_losing_totals_or_cursors() {
    let tables = vec![
        has_columns("account_daily_usage", &["account_key", "date", "tokens", "fetched_at"]),
        has_columns("turn_usage", &["account_key", "thread_id", "turn_id", "timestamp"]),
        has_columns("rate_limit_samples", &["account_key", "timestamp", "limit_id", "window"]),
        has_columns("rollout_cursors", &["file_path", "byte_offset", "last_seen_at"]),
    ];
    for table in [
        OldTable::DailyUsage,
        OldTable::TurnUsage,
        OldTable::RateLimitSamples,
        OldTable::Cursors,
    ] {
        assert!(has_old_shape(&tables, table));
    }
    let day = take_over_day(PrototypeDay {
        account_key: "a".to_string(),
        date: "2026-08-14".to_string(),
        tokens: 42,
        fetched_at: 1,
        source: "account_usage".to_string(),
    });
    assert_eq!(day.day.official_tokens, 42);
    assert_eq!((day.source.as_str(), day.confidence), ("account_usage", Confidence::High));
    let turn = |tier: &str, total: i64| PrototypeTurn {
        account_key: "a".to_string(),
        thread_id: "thread".to_string(),
        turn_id: "turn".to_string(),
        timestamp: 2,
        model: Some("gpt-5.6-sol".to_string()),
        reasoning_effort: "high".to_string(),
        service_tier: tier.to_string(),
        usage: TokenUsage {
            input_tokens: 10,
            cached_input_tokens: 2,
            output_tokens: 3,
            reasoning_output_tokens: 1,
            raw_total_tokens: total,
        },
        source: "rollout".to_string(),
    };
    let mut ledger = TurnLedger::new();
    take_over_turns(&mut ledger, vec![turn("Standard", 13), turn("Fast Requested", 99)]);
    assert_eq!(ledger.turns.len(), 1);
    assert_eq!(ledger.turns[0].usage.raw_total_tokens, 13);
    assert_eq!((ledger.turns[0].started_at, ledger.turns[0].completed_at), (2, Some(2)));
    assert_eq!(ledger.turns[0].speed_mode, "standard");
    assert_eq!(ledger.turns[0].confidence, Confidence::Low);
    let limit = take_over_limit(
        PrototypeLimit {
            account_key: "a".to_string(),
            timestamp: 2,
            limit_id: "codex".to_string(),
            window: "primary".to_string(),
            window_duration_mins: 10080,
            used_percent: Percent::from_bits(1.0f64.to_bits()),
            resets_at: Some(99),
            source: "rate_limits".to_string(),
        },
        1,
    );
    assert_eq!(limit.row.sample.sampled_at, 2);
    assert_eq!((limit.row.sample.id, limit.row.generation), (1, None));
    assert_eq!((limit.source.as_str(), limit.confidence), ("rate_limits", Confidence::Low));
    let cursor = take_over_cursor(PrototypeCursor {
        path: "/tmp/a.jsonl".to_string(),
        byte_offset: 5,
        last_seen_at: 2,
        state_json: "{}".to_string(),
    });
    assert_eq!(cursor.byte_offset, 5);
    assert_eq!((cursor.last_modified_at, cursor.last_scanned_at), (None, 2));
    assert_eq!(cursor.state_json, "{}");
}

#[test]
fn tiers_become_speeds() {
    assert_eq!(legacy_speed("Standard"), "standard");
    assert_eq!(legacy_speed("Fast Requested"), "fast_requested");
    assert_eq!(legacy_speed("priority"), "unknown");
}

fn turn(account: &str) -> TurnUsageRecord {
    TurnUsageRecord {
        account_key: account.to_string(),
        thread_id: "thread".to_string(),
        turn_id: "turn".to_string(),
        started_at: 1,
        completed_at: None,
        model: None,
        reasoning_effort: "high".to_string(),
        speed_mode: "standard".to_string(),
        usage: TokenUsage { raw_total_tokens: 5, ..TokenUsage::default() },
        estimated_credits: None,
        rate_card_version: None,
        source: "rollout".to_string(),
        confidence: Confidence::Low,
    }
}

#[test]
fn accounts_without_a_verified_file_are_set_aside() {
    let bindings = vec![
        binding("/a", Some("account:a"), FileBindingStatus::Pending, 1),
        binding("/b", Some("account:b"), FileBindingStatus::Bound, 1),
    ];
    assert_eq!(unverified_accounts(&bindings), vec!["account:a"]);
    let mut ledger = TurnLedger::new();
    ledger.upsert_turn(turn("account:a"));
    ledger.upsert_turn(turn("account:b"));
    let aside = quarantine_legacy_non_verified_ledgers(&mut ledger, &bindings, 9);
    assert_eq!(aside, vec!["account:a"]);
    assert_eq!(ledger.turns.len(), 1);
    assert_eq!(ledger.turns[0].account_key, "account:b");
    assert!(ledger.audits.iter().any(|audit| audit.account_key == "account:a"));
}

#[test]
fn accounts_without_health_are_registered() {
    let accounts = vec![AccountRecord {
        account_key: "account:c".to_string(),
        display_name: None,
        email: None,
        plan_type: None,
        auth_identity: None,
        first_seen_at: 1,
        last_seen_at: 1,
    }];
    let mut ledger = TurnLedger::new();
    ledger.upsert_turn(turn("account:a"));
    assert_eq!(
        unregistered_accounts(&accounts, &ledger, &Vec::new()),
        vec!["account:a", "account:c"]
    );
}
