use codex_nexus::binding::{quarantine_replaced_source, register_file, ReplacedAccount};
use codex_nexus::catch_up::{catch_up_path, live_tail, retroactively_bind_source};
use codex_nexus::category_usage::{
    account_timeline, category_usage, local_category_usage, resolve_period,
};
use codex_nexus::codex::read_message;
use codex_nexus::collector_core::{
    bind_source, file_fingerprint, file_prefix_fingerprint, lock_path_for_database,
    register_source, registered_source_paths, rollout_file_belongs_to_account,
    source_id_for_identity, source_needs_refresh, BindingAudit, BindingStatus, ObservedFile,
    RegisterError, Registration, RolloutSource,
};
use codex_nexus::collector_service::{
    named_argument, order_paths, refresh_registered_source, refresh_source,
    snapshot_is_complete_signed_in, snapshot_outcome, OnceStep, RefreshState,
};
use codex_nexus::health::{DataHealth, FileState};
use codex_nexus::ledger::{AuditReason, TimelineAudit, TurnLedger, TurnSource};
use codex_nexus::models::{Confidence, TokenUsage, TurnUsageRecord};
use codex_nexus::percent::Percent;
use codex_nexus::quota::{rebuild_account_intervals, Evidence, RateLimitRow, RateSample};
use codex_nexus::recorder::{current_account_key, ensure_account, AccountRecord};
use codex_nexus::rollout::TurnTokenSample;
use codex_nexus::sessions::{
    account_presence_covers, lock_entry, lock_is_owned, lock_token, parse_lock_pid,
    record_account_presence, recover_open_sessions, start_session, stop_session, touch_session,
    CollectorSession, CollectorState, PresenceInterval, SessionStatus, WriterSlot,
};

fn counted(second: u32, total: i64) -> String {
    format!(
        r#"{{"timestamp":"2026-08-14T00:00:0{second}Z","type":"event_msg","payload":{{"type":"token_count","info":{{"total_token_usage":{{"input_tokens":{total},"total_tokens":{total}}}}}}}}}"#
    ) + "\n"
}

fn rollout_file(total: i64) -> String {
    let meta = r#"{"timestamp":"2026-08-14T00:00:00Z","type":"session_meta","payload":{"session_id":"s"}}"#;
    let context = r#"{"timestamp":"2026-08-14T00:00:01Z","type":"turn_context","payload":{"turn_id":"t","model":"gpt-5.6-sol","effort":"high","service_tier":"standard"}}"#;
    format!("{meta}\n{context}\n") + &counted(2, total)
}

fn file_at(path: &str, identity: &str, content: &str, modified_at: i64) -> ObservedFile {
    ObservedFile {
        canonical_path: path.to_string(),
        raw_path: path.to_string(),
        identity: identity.to_string(),
        modified_at: Some(modified_at),
        bytes: content.as_bytes().to_vec(),
    }
}

fn seen(content: &str, at: i64) -> ObservedFile {
    file_at("/logs/s.jsonl", "unix:1:2", content, at)
}

struct Desk {
    sources: Vec<RolloutSource>,
    audits: Vec<BindingAudit>,
    ledger: TurnLedger,
    accounts: Vec<AccountRecord>,
}

impl Desk {
    fn new() -> Desk {
        Desk {
            sources: Vec::new(),
            audits: Vec::new(),
            ledger: TurnLedger::new(),
            accounts: Vec::new(),
        }
    }

    fn register(&mut self, file: &ObservedFile, now: i64) -> usize {
        let (registration, _) =
            register_file(&mut self.sources, &mut self.audits, &mut self.ledger, file, now)
                .unwrap();
        match registration {
            Registration::Known(at) | Registration::New(at) => at,
            Registration::Replaced(_, at) => at,
        }
    }

    fn catch_up(&mut self, content: &str, account: Option<&str>, allow: bool, now: i64) -> bool {
        let file = seen(content, now);
        let at = self.register(&file, now);
        catch_up_path(
            &mut self.sources[at],
            &mut self.ledger,
            &mut self.audits,
            &mut self.accounts,
            &file,
            account,
            allow,
            now,
        )
        .unwrap()
        .changed
    }

    fn bind(&mut self, at: usize, account: &str, now: i64) -> bool {
        bind_source(
            &mut self.sources[at],
            &mut self.audits,
            account,
            "realtime_account_observation",
            "high",
            "test",
            None,
            now,
        )
    }

    fn bind_later(&mut self, at: usize, account: &str, evidence: &str, now: i64) -> bool {
        retroactively_bind_source(
            &mut self.sources[at],
            &mut self.ledger,
            &mut self.audits,
            &mut self.accounts,
            account,
            evidence,
            now,
        )
        .unwrap()
    }
}

#[test]
fn known_source_catch_up_is_incremental_and_idempotent() {
    let mut desk = Desk::new();
    let content = rollout_file(100);
    let at = desk.register(&seen(&content, 10), 10);
    assert!(desk.bind(at, "account:a", 10));
    assert!(desk.catch_up(&content, Some("account:a"), false, 11));
    assert!(!desk.catch_up(&content, Some("account:a"), false, 12));
    assert_eq!(desk.ledger.turns.len(), 1);
    assert_eq!(desk.ledger.turns[0].account_key, "account:a");
    assert_eq!(desk.ledger.turns[0].usage.raw_total_tokens, 100);
    assert_eq!(desk.sources[at].last_offset, content.len() as u64);
}

#[test]
fn unknown_source_is_preserved_but_unresolved_until_evidence_arrives() {
    let mut desk = Desk::new();
    assert!(desk.catch_up(&rollout_file(77), None, false, 11));
    assert_eq!(desk.sources[0].binding_status, BindingStatus::Unresolved);
    assert_eq!(desk.ledger.turns[0].usage.raw_total_tokens, 77);
}

#[test]
fn first_watcher_discovery_of_offline_history_stays_unresolved() {
    let mut desk = Desk::new();
    assert!(desk.catch_up(&rollout_file(77), Some("account:a"), true, 11));
    assert_eq!(desk.sources[0].binding_status, BindingStatus::Unresolved);
    assert_eq!(desk.sources[0].account_key, None);
    let turn = desk.ledger.turns.iter().find(|turn| turn.thread_id == "s").unwrap();
    assert!(turn.account_key.starts_with("unresolved:source:"));
}

#[test]
fn unresolved_source_does_not_bind_on_a_watcher_event_without_growth() {
    let mut desk = Desk::new();
    let content = rollout_file(77);
    desk.catch_up(&content, None, false, 11);
    assert!(!desk.catch_up(&content, Some("account:a"), true, 12));
    assert_eq!(desk.sources[0].binding_status, BindingStatus::Unresolved);
}

#[test]
fn retroactive_binding_moves_only_source_rows_and_keeps_verified_binding() {
    let mut desk = Desk::new();
    desk.catch_up(&rollout_file(55), None, false, 11);
    assert!(desk.bind_later(0, "account:a", "later online evidence", 20));
    assert_eq!(desk.sources[0].account_key.as_deref(), Some("account:a"));
    assert_eq!(desk.ledger.turns[0].account_key, "account:a");
    assert!(!desk.bind_later(0, "account:b", "ordinary switch", 21));
    assert_eq!(desk.sources[0].account_key.as_deref(), Some("account:a"));
    assert!(desk.audits.len() >= 2);
}

#[test]
fn retroactive_binding_merges_conflicting_target_turn_deterministically() {
    let mut desk = Desk::new();
    desk.catch_up(&rollout_file(55), None, false, 11);
    let other = file_at("/logs/other.jsonl", "unix:1:3", "not-json\n", 10);
    let at = desk.register(&other, 10);
    let other_source = desk.sources[at].source_id.clone();
    let other_account = format!("unresolved:{other_source}");
    desk.ledger.turn_sources.push(TurnSource {
        source_id: other_source,
        account_key: other_account.clone(),
        thread_id: "s".to_string(),
        turn_id: "t".to_string(),
        first_seen_at: 11,
    });
    let audit = |account: &str, canonical: i64, timeline: i128, at: i64| TimelineAudit {
        account_key: account.to_string(),
        thread_id: "s".to_string(),
        turn_id: "t".to_string(),
        canonical_tokens: canonical,
        timeline_tokens: timeline,
        reason: AuditReason::AccountingError,
        first_seen_at: at,
        last_seen_at: at,
    };
    desk.ledger.audits.push(audit(&other_account, 7, 3, 11));
    desk.ledger.audits.push(audit("account:a", 99, 99, 1));
    ensure_account(&mut desk.accounts, "account:a", 1);
    desk.ledger.upsert_turn(TurnUsageRecord {
        account_key: "account:a".to_string(),
        thread_id: "s".to_string(),
        turn_id: "t".to_string(),
        started_at: 1,
        completed_at: Some(2),
        model: None,
        reasoning_effort: "high".to_string(),
        speed_mode: "standard".to_string(),
        usage: TokenUsage { input_tokens: 99, raw_total_tokens: 99, ..TokenUsage::default() },
        estimated_credits: None,
        rate_card_version: None,
        source: "legacy".to_string(),
        confidence: Confidence::High,
    });
    desk.ledger.insert_token_sample(TurnTokenSample {
        account_key: "account:a".to_string(),
        thread_id: "s".to_string(),
        turn_id: "t".to_string(),
        segment_no: 0,
        model: None,
        reasoning_effort: "high".to_string(),
        speed_mode: "standard".to_string(),
        sampled_at: 2,
        cumulative_tokens: 99,
        delta_tokens: 99,
        source: "legacy".to_string(),
        confidence: Confidence::High,
    });
    assert!(desk.bind_later(0, "account:a", "online evidence", 20));
    let turns: Vec<&TurnUsageRecord> =
        desk.ledger.turns.iter().filter(|turn| turn.account_key == "account:a").collect();
    assert_eq!(turns.len(), 1);
    assert_eq!(turns[0].usage.raw_total_tokens, 55);
    let sum: i64 = desk
        .ledger
        .samples
        .iter()
        .filter(|sample| sample.account_key == "account:a")
        .map(|sample| sample.delta_tokens)
        .sum();
    assert_eq!(sum, 55);
    desk.ledger.verify_token_accounting(Some("account:a")).unwrap();
    assert!(desk.ledger.audits.iter().any(|audit| audit.account_key == other_account));
}

#[test]
fn online_evidence_retroactively_binds_an_unresolved_source() {
    let mut desk = Desk::new();
    let content = rollout_file(31);
    desk.catch_up(&content, None, false, 11);
    let grown = content + &counted(3, 50);
    assert!(desk.catch_up(&grown, Some("account:a"), true, 20));
    assert_eq!(desk.sources[0].binding_status, BindingStatus::Verified);
    assert_eq!(desk.ledger.turns[0].account_key, "account:a");
    assert_eq!(desk.ledger.turns[0].usage.raw_total_tokens, 50);
}

fn presence(account: &str, at: i64, source: &str, confidence: &str) -> PresenceInterval {
    PresenceInterval {
        account_key: account.to_string(),
        email: None,
        started_at: at,
        ended_at: None,
        source: source.to_string(),
        confidence: confidence.to_string(),
        instance_id: Some("i".to_string()),
    }
}

#[test]
fn account_presence_closes_old_interval_without_rewriting_verified_history() {
    let mut intervals = Vec::new();
    record_account_presence(&mut intervals, presence("account:a", 10, "account_read", "high"));
    record_account_presence(&mut intervals, presence("account:b", 20, "account_read", "high"));
    let shown = |intervals: &Vec<PresenceInterval>| -> Vec<(String, Option<i64>)> {
        intervals.iter().map(|row| (row.account_key.clone(), row.ended_at)).collect()
    };
    let before = shown(&intervals);
    assert_eq!(
        before,
        vec![("account:a".to_string(), Some(20)), ("account:b".to_string(), None)]
    );
    record_account_presence(&mut intervals, presence("account:a", 15, "late_account_read", "high"));
    assert_eq!(shown(&intervals), before);
}

#[test]
fn presence_covers_from_its_beginning_until_its_end() {
    let mut intervals = Vec::new();
    record_account_presence(&mut intervals, presence("account:a", 10, "account_read", "high"));
    record_account_presence(&mut intervals, presence("account:b", 20, "account_read", "high"));
    assert!(!account_presence_covers(&intervals, "account:a", 9));
    assert!(account_presence_covers(&intervals, "account:a", 10));
    assert!(account_presence_covers(&intervals, "account:a", 19));
    assert!(!account_presence_covers(&intervals, "account:a", 20));
    assert!(account_presence_covers(&intervals, "account:b", 20));
    assert!(account_presence_covers(&intervals, "account:b", 1_000));
}

#[test]
fn unresolved_accounts_are_not_current_or_category_inputs() {
    let unresolved = "unresolved:source:test";
    let mut accounts = Vec::new();
    ensure_account(&mut accounts, unresolved, 10);
    let rows = vec![RateLimitRow {
        account_key: unresolved.to_string(),
        limit_id: "codex".to_string(),
        window: "primary".to_string(),
        sample: RateSample {
            id: 1,
            sampled_at: 10,
            window_duration_mins: 10080,
            used_percent: Percent::from_bits(10.0f64.to_bits()),
            resets_at: Some(100),
        },
        generation: None,
    }];
    let (gaps, samples, activity) = (Vec::new(), Vec::new(), Vec::new());
    let evidence = Evidence { gaps: &gaps, samples: &samples, unresolved: &activity };
    assert!(rebuild_account_intervals(&rows, unresolved, &evidence).is_none());
    assert_eq!(current_account_key(&accounts), None);
    let period = resolve_period("day", (0, 86_400), None, 10).unwrap();
    let events = account_timeline(&TurnLedger::new(), unresolved);
    let local = local_category_usage(&events, 0, 86_400).unwrap();
    let usage =
        category_usage(period, local, Vec::new(), None, &Vec::new(), &Vec::new(), None);
    assert_eq!(usage.local_tokens, 0);
    assert!(usage.categories.is_empty());
}

#[test]
fn moved_file_inherits_source_identity_and_cursor() {
    let mut desk = Desk::new();
    let content = rollout_file(12);
    let at = desk.register(&file_at("/logs/a.jsonl", "unix:1:2", &content, 10), 10);
    let source = desk.sources[at].source_id.clone();
    desk.sources[at].last_offset = 42;
    let moved = file_at("/logs/a.archived.jsonl", "unix:1:2", &content, 20);
    let again = desk.register(&moved, 20);
    assert_eq!(desk.sources[again].source_id, source);
    assert_eq!(desk.sources[again].last_offset, 42);
    assert_eq!(desk.sources[again].canonical_path, "/logs/a.archived.jsonl");
}

#[test]
fn same_size_replacement_changes_generation_and_replays_safely() {
    let mut desk = Desk::new();
    let first = rollout_file(100);
    let replacement = first.replace("100", "200");
    assert_eq!(first.len(), replacement.len());
    let at = desk.register(&seen(&first, 10), 10);
    let source = desk.sources[at].source_id.clone();
    assert!(desk.bind(at, "account:verified-old", 10));
    desk.catch_up(&first, None, false, 11);
    let second = desk.register(&seen(&replacement, 12), 12);
    let replacement_source = desk.sources[second].source_id.clone();
    assert_ne!(replacement_source, source);
    desk.catch_up(&replacement, None, false, 12);
    assert_eq!(desk.ledger.turns.len(), 1);
    assert_eq!(desk.ledger.turns[0].usage.raw_total_tokens, 200);
    let old = desk.sources.iter().find(|known| known.source_id == source).unwrap();
    assert_eq!(old.generation, 0);
    assert_eq!(old.binding_status, BindingStatus::Quarantined);
    assert!(desk.ledger.turns.iter().all(|turn| turn.account_key != "account:verified-old"));
    let larger = replacement.replace("200", "9999");
    assert!(larger.len() > replacement.len());
    let third = desk.register(&seen(&larger, 13), 13);
    assert_ne!(desk.sources[third].source_id, replacement_source);
    desk.catch_up(&larger, None, false, 13);
    assert_eq!(desk.ledger.turns.len(), 1);
    assert_eq!(desk.ledger.turns[0].usage.raw_total_tokens, 9999);
}

#[test]
fn a_replacement_names_the_account_that_lost_its_rows() {
    let mut desk = Desk::new();
    let first = rollout_file(100);
    let at = desk.register(&seen(&first, 10), 10);
    assert!(desk.bind(at, "account:verified-old", 10));
    desk.catch_up(&first, None, false, 11);
    assert_eq!(desk.ledger.turns[0].account_key, "account:verified-old");
    let file = seen(&first, 11);
    let (known, told) =
        register_file(&mut desk.sources, &mut desk.audits, &mut desk.ledger, &file, 11).unwrap();
    assert!(matches!((known, told), (Registration::Known(0), ReplacedAccount::Unowned)));
    assert_eq!(desk.ledger.turns.len(), 1);
    let file = seen(&first.replace("100", "200"), 12);
    let (registration, told) =
        register_file(&mut desk.sources, &mut desk.audits, &mut desk.ledger, &file, 12).unwrap();
    match told {
        ReplacedAccount::Reduced(key) => assert_eq!(key, "account:verified-old"),
        other => panic!("{:?}", other),
    }
    assert!(desk.ledger.turns.is_empty() && desk.ledger.samples.is_empty());
    assert!(desk.ledger.turn_sources.is_empty());
    match registration {
        Registration::Replaced(old, new) => {
            assert_eq!(desk.sources[old].binding_status, BindingStatus::Quarantined);
            assert_eq!(desk.sources[old].account_key, None);
            assert_eq!(desk.sources[old].generation, 0);
            assert_eq!(desk.sources[new].binding_status, BindingStatus::Unresolved);
            assert_eq!(desk.sources[new].last_offset, 0);
        }
        other => panic!("{:?}", other),
    }
}

#[test]
fn a_replacement_without_links_sets_the_account_aside() {
    let mut desk = Desk::new();
    let first = rollout_file(100);
    let at = desk.register(&seen(&first, 10), 10);
    assert!(desk.bind(at, "account:old", 10));
    desk.catch_up(&first, None, false, 11);
    desk.ledger.turn_sources.clear();
    let file = seen(&first.replace("100", "200"), 12);
    let (_, told) =
        register_file(&mut desk.sources, &mut desk.audits, &mut desk.ledger, &file, 12).unwrap();
    assert!(matches!(told, ReplacedAccount::SetAside(key) if key == "account:old"));
    assert!(desk.ledger.turns.is_empty());
    assert_eq!(desk.ledger.audits[0].reason, AuditReason::AccountUnresolved);
}

#[test]
fn an_account_is_seen_when_its_lines_were_written() {
    let mut desk = Desk::new();
    let content = rollout_file(100);
    let at = desk.register(&seen(&content, 10), 10);
    assert!(desk.bind(at, "account:a", 10));
    assert!(desk.catch_up(&content, None, false, 11));
    let account = desk.accounts.iter().find(|row| row.account_key == "account:a").unwrap();
    assert_eq!((account.first_seen_at, account.last_seen_at), (11, 1_786_665_602));
}

fn session(id: &str, started_at: i64, heartbeat: i64) -> CollectorSession {
    CollectorSession {
        session_id: id.to_string(),
        instance_id: "i".to_string(),
        pid: 1,
        started_at,
        last_heartbeat_at: heartbeat,
        stopped_at: None,
        status: SessionStatus::Running,
        recovery_reason: None,
    }
}

#[test]
fn recovery_records_crash_and_sleep_gaps() {
    let mut sessions = vec![session("crash", 100, 390), session("sleep", 100, 90)];
    let mut gaps = Vec::new();
    assert_eq!(recover_open_sessions(&mut sessions, &mut gaps, 400), 2);
    let reasons: Vec<&str> = gaps.iter().map(|gap| gap.reason.as_str()).collect();
    assert_eq!(reasons, vec!["crash", "os_sleep"]);
    assert_eq!(recover_open_sessions(&mut sessions, &mut gaps, 500), 0);
}

#[test]
fn durable_source_cursor_survives_close_and_reopen() {
    let mut desk = Desk::new();
    let content = rollout_file(123);
    desk.catch_up(&content, None, false, 10);
    assert!(!desk.catch_up(&content, None, false, 20));
    assert_eq!(desk.ledger.samples.len(), 1);
}

#[test]
fn partial_line_is_not_bound_until_completed_and_parsed() {
    let mut desk = Desk::new();
    let content = rollout_file(88);
    let partial = content.trim_end_matches('\n');
    assert!(!desk.catch_up(partial, Some("account:a"), true, 10));
    assert_eq!(desk.sources[0].binding_status, BindingStatus::Unresolved);
    assert!(desk.catch_up(&content, Some("account:a"), true, 11));
    assert_eq!(desk.sources[0].binding_status, BindingStatus::Verified);
}

#[test]
fn session_start_heartbeat_and_drop_flushes_a_graceful_stop() {
    let mut sessions = Vec::new();
    let mut gaps = Vec::new();
    start_session(&mut sessions, &mut gaps, 7, 8, 100);
    assert_eq!(sessions[0].session_id, "session:7:8");
    assert_eq!(sessions[0].instance_id, "instance:7:100");
    let mut state = CollectorState {
        instance_id: "instance:7:100".to_string(),
        pid: 7,
        started_at: 100,
        heartbeat_at: 100,
        running: true,
    };
    touch_session(&mut sessions[0], &mut state, "session:7:8", 101, "instance:7:100");
    assert_eq!(sessions[0].last_heartbeat_at, 101);
    stop_session(&mut sessions[0], &mut state, "session:7:8", 102, "instance:7:100");
    assert_eq!(sessions[0].status, SessionStatus::Stopped);
    assert_eq!(sessions[0].stopped_at, Some(102));
    assert!(!state.running);
    start_session(&mut sessions, &mut gaps, 9, 10, 200);
    assert_eq!(sessions.len(), 2);
    assert!(gaps.is_empty());
}

#[test]
fn a_lock_names_its_holder() {
    let token = lock_token(4321, 99);
    let contents = lock_entry(4321, &token);
    assert_eq!(contents, "pid=4321 token=4321:99\n");
    assert_eq!(parse_lock_pid(&contents), Some(4321));
    assert!(lock_is_owned(&contents, &token));
    assert!(!lock_is_owned(&contents, "4321:98"));
    assert_eq!(parse_lock_pid("pid=4294967295\n"), Some(4294967295));
    assert_eq!(parse_lock_pid("pid=4294967296\n"), None);
    assert_eq!(parse_lock_pid("nothing"), None);
    let mut slot = WriterSlot { token: None };
    slot.activate("one");
    slot.deactivate("two");
    assert!(slot.is_active());
    slot.deactivate("one");
    assert!(!slot.is_active());
}

#[test]
fn a_lock_stands_beside_its_database() {
    assert_eq!(lock_path_for_database("/data/usage.db"), "/data/usage.collector.lock");
    assert_eq!(lock_path_for_database("/data/usage"), "/data/usage.collector.lock");
    assert_eq!(lock_path_for_database("/data/.usage"), "/data/.usage.collector.lock");
    assert_eq!(lock_path_for_database("/data/usage.db/"), "/data/usage.collector.lock");
    assert_eq!(lock_path_for_database("/data/a.b.db"), "/data/a.b.collector.lock");
    assert_eq!(lock_path_for_database("/"), "/");
    assert_eq!(lock_path_for_database(".."), "..");
}

#[test]
fn fingerprints_are_of_the_content() {
    let whole = b"abc".to_vec();
    assert_eq!(file_prefix_fingerprint(&b"abcdef".to_vec(), 3), file_fingerprint(&whole));
    assert_ne!(file_fingerprint(&whole), file_fingerprint(&b"abd".to_vec()));
    assert!(file_fingerprint(&whole).contains(
        "ba7816bf8f01cfea414140de5dae2223b00361a396177a9cb410ff61f20015ad"
    ));
    assert_ne!(source_id_for_identity("unix:1:2"), source_id_for_identity("unix:1:3"));
    assert!(source_id_for_identity("unix:1:2").starts_with("source:"));
}

#[test]
fn an_unchanged_file_needs_no_refresh() {
    let mut desk = Desk::new();
    let content = rollout_file(5);
    desk.catch_up(&content, None, false, 11);
    let length = content.len() as u64;
    let path = "/logs/s.jsonl";
    assert!(!source_needs_refresh(&desk.sources, path, path, "unix:1:2", length, Some(11)));
    assert!(source_needs_refresh(&desk.sources, path, path, "unix:1:2", length + 1, Some(11)));
    assert!(source_needs_refresh(&desk.sources, "/x", "/x", "unix:9:9", 1, Some(1)));
}

#[test]
fn sources_are_taken_up_by_path_and_owner() {
    let mut desk = Desk::new();
    desk.register(&file_at("/logs/b.jsonl", "unix:1:1", "", 1), 1);
    let at = desk.register(&file_at("/logs/a.jsonl", "unix:1:2", "", 1), 1);
    assert_eq!(registered_source_paths(&desk.sources), vec!["/logs/a.jsonl", "/logs/b.jsonl"]);
    let id = desk.sources[at].source_id.clone();
    assert!(!rollout_file_belongs_to_account(&desk.sources, &id, "account:a"));
    assert!(desk.bind(at, "account:a", 2));
    assert!(rollout_file_belongs_to_account(&desk.sources, &id, "account:a"));
    assert!(!rollout_file_belongs_to_account(&desk.sources, &id, "account:b"));
    assert!(!desk.bind(at, "account:b", 3));
}

#[test]
fn a_taken_source_id_is_refused() {
    let mut desk = Desk::new();
    let first = rollout_file(100);
    desk.catch_up(&first, None, false, 10);
    let replacement = first.replace("100", "200");
    let name = format!("unix:1:2:replacement:{}:12", desk.sources[0].source_id);
    let other = desk.register(&file_at("/logs/other.jsonl", "unix:9:9", "", 1), 1);
    desk.sources[other].source_id = source_id_for_identity(&name);
    let result =
        register_source(&mut desk.sources, &mut desk.audits, &seen(&replacement, 12), 12);
    assert!(matches!(result, Err(RegisterError::SourceIdTaken)));
    assert_eq!(desk.sources.len(), 2);
}

#[test]
fn only_what_was_read_live_binds() {
    assert!(live_tail(10, 20, false, true));
    assert!(!live_tail(0, 20, false, true));
    assert!(!live_tail(10, 20, true, true));
    assert!(!live_tail(10, 20, false, false));
}

#[test]
fn a_replaced_source_gives_up_its_rows() {
    let mut desk = Desk::new();
    desk.catch_up(&rollout_file(10), None, false, 1);
    let id = desk.sources[0].source_id.clone();
    let outcome = quarantine_replaced_source(&mut desk.ledger, &id, None, 2);
    assert!(matches!(outcome, ReplacedAccount::Unowned));
    assert!(desk.ledger.turns.is_empty() && desk.ledger.samples.is_empty());
}

fn used(id: i64, sampled_at: i64, percent: f64) -> RateLimitRow {
    RateLimitRow {
        account_key: "account:a".to_string(),
        limit_id: "codex".to_string(),
        window: "primary".to_string(),
        sample: RateSample {
            id,
            sampled_at,
            window_duration_mins: 10080,
            used_percent: Percent::from_bits(percent.to_bits()),
            resets_at: Some(1_000),
        },
        generation: None,
    }
}

fn idle() -> RefreshState {
    RefreshState {
        generation: 0,
        refreshing: false,
        queued_refresh: false,
        error: None,
        started_at: None,
        latest_snapshot: None,
    }
}

#[test]
fn snapshot_read_waiting_on_state_lock_cannot_escape_invalidation() {
    let mut state = RefreshState {
        generation: 7,
        latest_snapshot: read_message(r#"{"refreshGeneration": 7, "quota": "old"}"#),
        ..idle()
    };
    assert!(!state.renderable_snapshot().is_null());
    assert_eq!(state.invalidate_account(42), Some(8));
    assert!(state.refreshing);
    assert_eq!(state.generation, 8);
    assert!(state.latest_snapshot.is_none());
    assert!(state.renderable_snapshot().is_null());
}

#[test]
fn account_invalidation_queues_new_generation_during_active_refresh() {
    let mut state = idle();
    assert_eq!(state.begin_refresh(10), Some(1));
    state.latest_snapshot = read_message(r#"{"refreshGeneration": 1}"#);
    assert_eq!(state.invalidate_account(11), None);
    assert_eq!(state.generation, 2);
    assert!(state.refreshing);
    assert!(state.queued_refresh);
    assert!(state.renderable_snapshot().is_null());
}

#[test]
fn a_refresh_is_finished_once() {
    let mut state = idle();
    assert_eq!(state.begin_refresh(1), Some(1));
    assert_eq!(state.begin_refresh(2), None);
    state.publish(1, read_message("{}"));
    state.finish(1, None);
    let status = state.scheduler_status();
    assert_eq!(status.refresh_generation, Some(state.generation));
    let mut once = idle();
    assert_eq!(once.begin_refresh(1), Some(1));
    assert_eq!(once.invalidate_account(2), None);
    assert!(matches!(once.finish_once(1, None), OnceStep::Again(2)));
    assert!(matches!(once.finish_once(2, Some("bad".to_string())), OnceStep::Over(Some(_))));
    assert!(!once.refreshing);
}

#[test]
fn the_service_binds_only_a_live_tail() {
    let mut desk = Desk::new();
    let content = rollout_file(31);
    let at = desk.register(&seen(&content, 1), 1);
    let first = refresh_source(
        &mut desk.sources[at],
        &mut desk.ledger,
        &mut desk.audits,
        &mut desk.accounts,
        &seen(&content, 1),
        Some("account:a"),
        true,
        2,
    )
    .unwrap();
    assert!(first.changed && !first.newly_bound);
    let grown = content + &counted(3, 40);
    let second = refresh_source(
        &mut desk.sources[at],
        &mut desk.ledger,
        &mut desk.audits,
        &mut desk.accounts,
        &seen(&grown, 3),
        Some("account:a"),
        true,
        3,
    )
    .unwrap();
    assert!(second.changed);
    assert_eq!(desk.sources[at].binding_status, BindingStatus::Verified);
    desk.ledger.verify_token_accounting(Some("account:a")).unwrap();
}

#[test]
fn what_is_derived_is_renewed_once_a_refresh_binds() {
    let mut desk = Desk::new();
    let (mut buckets, mut health) = (Vec::new(), Vec::new());
    let limits = vec![used(1, 100, 1.0), used(2, 200, 2.0), used(3, 300, 3.0)];
    let content = rollout_file(31);
    let grown = content.clone() + &counted(3, 40);
    let mut bound = Vec::new();
    for (content, now) in [(&content, 2), (&grown, 3)] {
        let file = seen(content, now);
        let place = desk.register(&file, now);
        let files = vec![Some(FileState { len: content.len() as u64, modified_at: Some(now) })];
        let done = refresh_registered_source(
            &mut desk.sources,
            place,
            &mut desk.ledger,
            &mut desk.audits,
            &mut desk.accounts,
            &mut buckets,
            &mut health,
            &file,
            &files,
            &limits,
            &Vec::new(),
            Some("account:a"),
            true,
            now,
        )
        .unwrap();
        bound.push((done.newly_bound, buckets.len(), health.len()));
    }
    assert_eq!(bound, vec![(false, 0, 0), (true, 1, 1)]);
    assert_eq!(buckets[0].account_key, "account:a");
    assert_eq!(buckets[0].intervals.len(), 1);
    assert_eq!(health[0].account_key, "account:a");
    assert_eq!(health[0].status, DataHealth::LegacyUnverified);
    assert_eq!(health[0].counts.source_incomplete_count, 0);
}

#[test]
fn a_snapshot_that_failed_publishes_nothing() {
    let missing = snapshot_outcome(None, false);
    assert!(!missing.publish);
    assert_eq!(
        missing.error.as_deref(),
        Some("Codex snapshot refresh failed or timed out")
    );
    let fine = read_message(
        r#"{"accountState": "signedIn", "account": {"account": {"id": "x"}}}"#,
    )
    .unwrap();
    let outcome = snapshot_outcome(Some(&fine), false);
    assert!(outcome.publish && outcome.rebuild_intervals && outcome.refresh_health);
    assert!(!outcome.identity_unavailable && outcome.error.is_none());
    let unnamed = read_message(r#"{"accountState": "signedIn"}"#).unwrap();
    let outcome = snapshot_outcome(Some(&unnamed), false);
    assert!(outcome.identity_unavailable && !outcome.rebuild_intervals && outcome.publish);
    let failed = read_message(
        r#"{"accountState": "signedIn", "account": {"account": {"id": "x"}}, "usageError": "late"}"#,
    )
    .unwrap();
    let outcome = snapshot_outcome(Some(&failed), false);
    assert!(!outcome.publish && !outcome.refresh_health && !outcome.identity_unavailable);
    assert_eq!(outcome.error.as_deref(), Some("Codex snapshot refresh failed: late"));
    assert!(!snapshot_is_complete_signed_in(&failed));
    assert!(!snapshot_is_complete_signed_in(&read_message("{}").unwrap()));
}

#[test]
fn known_files_go_first_and_arguments_have_names() {
    let paths = order_paths(
        vec!["/b".to_string(), "/a".to_string()],
        vec!["/a".to_string(), "/c".to_string()],
    );
    assert_eq!(paths, vec!["/b", "/a", "/c"]);
    let arguments: Vec<String> =
        ["--once", "--database", "/x.db"].iter().map(|word| word.to_string()).collect();
    assert_eq!(named_argument(&arguments, "--database"), Some("/x.db".to_string()));
    assert_eq!(named_argument(&arguments, "--endpoint"), None);
}
