use codex_nexus::codex::{
    command_for_path, executable_candidates_in_path, first_existing, macos_codex_candidates,
    passes_on, pick_by_shell, read_message, reconnect_delay, resolve_codex, shell_path_candidates,
    unix_codex_candidates, Candidate, CodexRpcClient, ConnectionStatus, Incoming, RequestFailure,
};
use codex_nexus::json::{Json, JsonNumber, Whole};
use codex_nexus::paths::{extension, join_path, sort_paths, with_extension};
use codex_nexus::percent::Percent;
use codex_nexus::schema::{
    alter_statement, has_old_shape, missing_columns, OldTable, Table,
};
use codex_nexus::tray::{
    account_state, classify_account_error, fetch_codex_snapshot, format_tray_reset_absolute,
    format_tray_reset_relative, phase_texts, snapshot_texts, tray_progress_bar,
    tray_quota_summary, tray_window_label, unavailable_texts, LocalMoment, TrayFigures,
};

fn json(text: &str) -> Json {
    read_message(text).unwrap()
}

fn strings(words: &[&str]) -> Vec<String> {
    words.iter().map(|word| word.to_string()).collect()
}

#[test]
fn a_connection_starts_disconnected() {
    let status = ConnectionStatus::default();
    assert_eq!(status.phase, "disconnected");
    assert_eq!((status.generation, status.attempt), (0, 0));
    let client = CodexRpcClient::start();
    assert_eq!(client.status().phase, "connecting");
    assert_eq!(
        client.request().unwrap_err(),
        "Codex connection is not ready (state=connecting)"
    );
}

#[test]
fn a_connection_goes_through_its_phases() {
    let mut client = CodexRpcClient::start();
    client.establish_connection(0).unwrap();
    let generation = client.transport_started("/usr/bin/codex", 0);
    assert_eq!(generation, 1);
    assert_eq!(client.status().phase, "initializing");
    assert_eq!(client.display_path(), Some("/usr/bin/codex".to_string()));
    client.became_ready(0);
    assert!(client.request().is_ok());
    let id = client.begin_request().unwrap();
    assert_eq!(id, 1);
    let reply = json(r#"{"id": 1, "result": {"fine": true}}"#);
    match client.handle_message(generation, &reply) {
        Incoming::Reply { id, waiting, error, result } => {
            assert_eq!(id, 1);
            assert!(waiting && error.is_none() && result.is_some());
        }
        _ => panic!("not a reply"),
    }
    assert!(client.pending.is_empty());
    match client.handle_message(generation, &reply) {
        Incoming::Reply { waiting, .. } => assert!(!waiting),
        _ => panic!("not a reply"),
    }
    assert!(matches!(client.handle_message(7, &reply), Incoming::Stale));
    let request = json(r#"{"id": 4, "method": "ask"}"#);
    assert!(matches!(client.handle_message(1, &request), Incoming::Unhandled));
    let limits = json(r#"{"method": "account/rateLimits/updated", "params": {}}"#);
    assert!(matches!(client.handle_message(1, &limits), Incoming::RateLimits { .. }));
    let account = json(r#"{"method": "account/updated"}"#);
    assert!(matches!(client.handle_message(1, &account), Incoming::Account { payload: None }));
    assert!(matches!(client.handle_message(1, &json("{}")), Incoming::Ignored));
}

#[test]
fn a_lost_transport_takes_its_requests_with_it() {
    let mut client = CodexRpcClient::start();
    let generation = client.transport_started("codex", 0);
    client.became_ready(0);
    client.begin_request().unwrap();
    assert_eq!(client.transport_failed(generation + 1, "old"), None);
    assert_eq!(client.transport_failed(generation, "stdout closed"), Some(vec![1]));
    let status = client.status();
    assert_eq!(status.phase, "disconnected");
    assert_eq!(status.last_error.as_deref(), Some("stdout closed"));
    assert_eq!(client.begin_request().unwrap_err(), "Codex transport is disconnected");
    assert_eq!(client.next_id, 3);
    assert_eq!(client.transport_failed(generation, "again"), None);
}

#[test]
fn reconnecting_waits_longer_and_can_be_hurried() {
    let delays: Vec<u64> = (0..8).map(reconnect_delay).collect();
    assert_eq!(delays, vec![1, 1, 2, 4, 8, 15, 30, 30]);
    let mut client = CodexRpcClient::start();
    let generation = client.transport_started("codex", 0);
    client.became_ready(0);
    assert_eq!(
        client.reconnect().unwrap_err(),
        "Codex connection is not disconnected (state=ready)"
    );
    client.disconnect_generation(generation, "gone");
    assert!(client.schedule_reconnect());
    assert!(!client.schedule_reconnect());
    assert_eq!(client.begin_attempt(2), Some(2000));
    assert_eq!(client.status().retry_in_ms, Some(2000));
    client.reconnect().unwrap();
    assert_eq!(client.begin_attempt(3), Some(0));
    assert_eq!(client.attempt_failed(3, "no program"), 4);
    assert_eq!(client.status().last_error.as_deref(), Some("no program"));
    client.attempt_succeeded();
    assert!(!client.reconnecting);
    client.shut_down();
    assert_eq!(client.begin_attempt(1), None);
    assert_eq!(
        client.establish_connection(1).unwrap_err(),
        "Codex RPC client is shutting down"
    );
    assert_eq!(client.reconnect().unwrap_err(), "Codex RPC client is shutting down");
}

#[test]
fn what_fails_is_named() {
    assert_eq!(RequestFailure::TimedOut.reason("initialize"), "RPC `initialize` timed out");
    assert_eq!(
        RequestFailure::TimedOut.error("initialize"),
        "Timed out waiting for Codex RPC `initialize`"
    );
    assert_eq!(
        RequestFailure::Disconnected.error("account/read"),
        "Codex RPC `account/read` disconnected"
    );
    assert!(passes_on("something broke"));
    assert!(!passes_on("   "));
    assert!(!passes_on(
        "WARN failed to refresh available models: timeout waiting for child process to exit"
    ));
    assert!(read_message("  ").is_none());
}

fn candidate(path: &str, is_file: bool) -> Candidate {
    Candidate { path: path.to_string(), is_file }
}

#[test]
fn the_program_is_looked_for_in_order() {
    let candidates = vec![candidate("/a", false), candidate("/b", true), candidate("/c", true)];
    assert_eq!(first_existing(&candidates), Some("/b".to_string()));
    let command = resolve_codex(None, &candidates, false).unwrap();
    assert_eq!((command.program.as_str(), command.prefix_args.len()), ("/b", 0));
    let named = resolve_codex(Some(candidate("/x", true)), &candidates, false).unwrap();
    assert_eq!(named.display_path, "/x");
    assert_eq!(
        resolve_codex(Some(candidate("/x", false)), &candidates, false).unwrap_err(),
        "CODEX_BIN points to a missing file: /x"
    );
    assert!(resolve_codex(None, &Vec::new(), false).unwrap_err().starts_with("Cannot find `codex`"));
    assert_eq!(
        executable_candidates_in_path(&strings(&["/usr/bin", "/opt/"]), false),
        vec!["/usr/bin/codex", "/opt/codex"]
    );
    assert_eq!(
        executable_candidates_in_path(&strings(&["C:/x"]), true),
        vec!["C:/x/codex.exe", "C:/x/codex.cmd", "C:/x/codex.bat"]
    );
    assert_eq!(shell_path_candidates("/a/codex\r\n  /b \n\n"), vec!["/a/codex", "/b", ""]);
    assert_eq!(macos_codex_candidates(None).len(), 2);
    assert_eq!(
        macos_codex_candidates(Some("/Users/u"))[3],
        "/Users/u/Applications/Codex.app/Contents/Resources/codex"
    );
    let unix = unix_codex_candidates(Some("/home/u"), None, Some("/fnm"), Some("/volta"));
    assert_eq!(unix.len(), 10);
    assert_eq!(unix[3], "/home/u/.local/bin/codex");
    assert_eq!(unix[8], "/fnm/codex");
    assert_eq!(unix[9], "/volta/bin/codex");
}

#[test]
fn a_script_is_run_by_its_shell() {
    let script = command_for_path("C:\\npm\\codex.CMD", true);
    assert_eq!(script.program, "cmd.exe");
    assert_eq!(script.prefix_args, vec!["/C", "C:\\npm\\codex.CMD"]);
    assert_eq!(command_for_path("C:\\npm\\codex.CMD", false).program, "C:\\npm\\codex.CMD");
    let found = vec![
        candidate("C:\\a\\codex.cmd", true),
        candidate("C:\\b\\codex.exe", false),
        candidate("C:\\c\\codex.EXE", true),
    ];
    assert_eq!(pick_by_shell(&found), Some("C:\\c\\codex.EXE".to_string()));
    assert_eq!(pick_by_shell(&found[..1].iter().map(|c| candidate(&c.path, true)).collect()),
        Some("C:\\a\\codex.cmd".to_string()));
    assert_eq!(pick_by_shell(&Vec::new()), None);
}

#[test]
fn paths_have_parts() {
    assert_eq!(extension("/a/b.tar.gz"), Some("gz".to_string()));
    assert_eq!(extension("/a/.hidden"), None);
    assert_eq!(extension("/a/b/.."), None);
    assert_eq!(with_extension("/a/b.db", "wal"), "/a/b.wal");
    assert_eq!(join_path("/a", "b"), "/a/b");
    assert_eq!(join_path("/a", "/b"), "/b");
    assert_eq!(join_path("", "b"), "b");
    assert_eq!(
        sort_paths(&strings(&["/a-b", "/a/z", "/a", "/a/b", "/a"])),
        vec!["/a", "/a/b", "/a/z", "/a-b"]
    );
}

fn table(name: &str, columns: &[&str]) -> Table {
    Table { name: name.to_string(), columns: strings(columns) }
}

#[test]
fn migrates_parse_error_and_health_columns_without_losing_legacy_rows() {
    let tables = vec![
        table("rollout_parse_errors", &["file_path", "byte_offset", "error", "first_seen_at"]),
        table(
            "account_usage_data_versions",
            &[
                "account_key",
                "rollout_parser_version",
                "status",
                "timeline_status",
                "missing_timeline_turns",
                "orphan_timeline_samples",
                "mismatched_turns",
                "verified_at",
                "updated_at",
            ],
        ),
    ];
    let added: Vec<(String, String)> =
        missing_columns(&tables).into_iter().map(|row| (row.table, row.column)).collect();
    for (table, column) in [
        ("rollout_parse_errors", "account_key"),
        ("rollout_parse_errors", "rebuild_batch_id"),
        ("account_usage_data_versions", "parse_error_count"),
        ("account_usage_data_versions", "last_rebuild_batch_id"),
    ] {
        assert!(added.contains(&(table.to_string(), column.to_string())));
    }
    assert_eq!(added.len(), 7);
}

#[test]
fn columns_are_added_once() {
    let tables = vec![table("thread_usage_capabilities", &["account_key"])];
    let missing = missing_columns(&tables);
    assert_eq!(missing.len(), 1);
    assert_eq!(
        alter_statement(&missing[0]),
        "ALTER TABLE thread_usage_capabilities ADD COLUMN retry_count INTEGER NOT NULL DEFAULT 0"
    );
    let complete = vec![table("thread_usage_capabilities", &["account_key", "retry_count"])];
    assert!(missing_columns(&complete).is_empty());
    assert!(missing_columns(&Vec::new()).is_empty());
    let intervals = missing_columns(&vec![table("quota_intervals", &["id"])]);
    let names: Vec<&str> = intervals.iter().map(|row| row.column.as_str()).collect();
    assert_eq!(names.len(), 8);
    assert!(names.contains(&"observation_gap_ms") && names.contains(&"gap_token_count"));
    assert!(has_old_shape(&vec![table("turn_usage", &["timestamp"])], OldTable::TurnUsage));
    assert!(!has_old_shape(&vec![table("turn_usage", &["started_at"])], OldTable::TurnUsage));
    assert!(!has_old_shape(&Vec::new(), OldTable::Cursors));
}

fn snapshot() -> Json {
    json(
        r#"{"rateLimits": {"rateLimitsByLimitId": {
              "a": {"primary": {"windowDurationMins": 300, "usedPercent": 5},
                    "secondary": {"windowDurationMins": 10080, "usedPercent": 140.0,
                                  "resetsAt": 99}},
              "b": {"primary": {"windowDurationMins": 20160, "usedPercent": 7}}}},
            "usage": {"dailyUsageBuckets": [
              {"startDate": "2026-08-13", "tokens": 5},
              {"startDate": "2026-08-14", "tokens": 1500.0}]}}"#,
    )
}

#[test]
fn the_tray_shows_the_week() {
    let shown = tray_quota_summary(&snapshot(), "2026-08-14");
    assert_eq!(shown.label, "每周");
    assert_eq!(shown.used_percent, Percent::from_bits(100.0f64.to_bits()));
    assert_eq!(shown.resets_at, Some(99));
    assert_eq!(shown.today_tokens.map(f64::from_bits), Some(1500.0));
    let long = json(
        r#"{"rateLimits": {"rateLimits": {
            "primary": {"windowDurationMins": 43200},
            "secondary": {"windowDurationMins": 300, "usedPercent": 9}}}}"#,
    );
    let shown = tray_quota_summary(&long, "2026-08-14");
    assert_eq!(shown.label, "30 天");
    assert_eq!(shown.used_percent, Percent::from_bits(0));
    assert_eq!(shown.today_tokens, None);
    let none = tray_quota_summary(&Json::Null, "2026-08-14");
    assert_eq!((none.label.as_str(), none.resets_at), ("每周", None));
}

#[test]
fn the_tray_writes_its_lines() {
    assert_eq!(tray_window_label(300), "5 小时");
    assert_eq!(tray_window_label(45), "45 分钟");
    assert_eq!(format_tray_reset_relative(None, 0), "重置时间不可用");
    assert_eq!(format_tray_reset_relative(Some(90_000), 0), "重置：1 天 1 小时后");
    assert_eq!(format_tray_reset_relative(Some(3_660), 0), "重置：1 小时 1 分钟后");
    assert_eq!(format_tray_reset_relative(Some(120), 0), "重置：2 分钟后");
    let moment = LocalMoment { month: 8, day: 14, hour: 9, minute: 5 };
    assert_eq!(format_tray_reset_absolute(Some(moment)), "重置：8月14日 09:05");
    assert_eq!(format_tray_reset_absolute(None), "重置时间不可用");
    assert_eq!(tray_progress_bar(3, "15"), format!("{}{} 15%", "█".repeat(3), "░".repeat(17)));
    assert_eq!(tray_progress_bar(99, "100"), format!("{} 100%", "█".repeat(20)));
    let figures = || TrayFigures {
        label: "每周",
        used: "40",
        remaining: "60",
        progress: "bar",
        reset_relative: "soon",
        reset_absolute: "then",
        today: "1.5K token",
    };
    let signed_in = snapshot_texts(true, figures());
    assert_eq!(signed_in.tooltip, "Codex 用量\n每周 40%\n剩余 60%\nsoon");
    assert_eq!(signed_in.title, "Codex 40%");
    assert_eq!(signed_in.today.as_deref(), Some("今日 · 1.5K token"));
    let signed_out = snapshot_texts(false, figures());
    assert_eq!(signed_out.title, "Codex —");
    let lost = unavailable_texts(false, "gone");
    assert_eq!(lost.tooltip, "Codex 用量\n未连接\ngone");
    assert_eq!(unavailable_texts(true, "gone").title, "Codex —");
    assert_eq!(phase_texts("reconnecting").unwrap().status, "Codex 重连中…");
    assert!(phase_texts("ready").is_none());
}

#[test]
fn a_snapshot_is_put_together() {
    assert_eq!(classify_account_error("401 Unauthorized"), "signedOut");
    assert_eq!(classify_account_error("timed out"), "error");
    assert_eq!(account_state(&Ok(json(r#"{"account": {}}"#))), "signedIn");
    assert_eq!(account_state(&Ok(json(r#"{"account": null}"#))), "signedOut");
    assert_eq!(account_state(&Ok(json("{}"))), "signedOut");
    assert_eq!(account_state(&Err("Not logged in".to_string())), "signedOut");
    let at = JsonNumber { whole: Whole::Unsigned(5), bits: 5.0f64.to_bits() };
    let whole = fetch_codex_snapshot(
        None,
        at,
        Err("Not logged in".to_string()),
        Ok(json("{}")),
        Err("later".to_string()),
    )
    .unwrap();
    assert!(whole.get("account").unwrap().is_null());
    assert!(matches!(whole.get("accountState"), Some(Json::Text(state)) if state == "signedOut"));
    assert!(matches!(whole.get("usageError"), Some(Json::Text(error)) if error == "later"));
    assert!(matches!(whole.get("codexPath"), Some(Json::Text(path)) if path.is_empty()));
    let refused = fetch_codex_snapshot(
        None,
        at,
        Ok(json("{}")),
        Err("no limits".to_string()),
        Ok(json("{}")),
    );
    assert_eq!(refused.unwrap_err(), "no limits");
}
