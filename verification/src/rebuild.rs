//! Deriving an account's ledger again from its logs, and setting history aside.
use crate::arith::{clamp_i64, max_int, saturating_add};
use crate::binding::{drop_links, is_of_another_source, links_of_others};
use crate::catch_up::{
    advance_source_cursor_without_persisting, cursors_wf, ledger_with_all, passing_over,
    record_historical_reset_quarantine, set_aside_audits,
};
use crate::collect::{
    collect_tail, error_views, fresh_cursor, run_from, run_lines, update_views, CollectError,
    Collected, RunView,
};
use crate::collector_core::{
    audit_views, copy_source, source_views, BindingAudit, BindingAuditView, BindingStatus,
    ObservedFile, RolloutSource, SourceCondition, SourceView,
};
use crate::health::{
    health_request_after_collection, request_after_collection, AccountDataHealth, DataHealth,
};
use crate::ledger::{
    accounts_closed, audits_kept, audits_of_orphans, audits_of_turns, errors_handed_over,
    lemma_parse_error_is_recorded, lemma_stored_errors_with, names_fault, sample_views,
    samples_handed_over,
    stored_error_views, stored_errors_with, turn_views, turns_handed_over, AccountingError,
    AuditReason, LedgerView, StoredErrorView, StoredParseError, TimelineAudit, TurnLedger,
    TurnSource,
};
use crate::models::{is_unresolved_account_key, unresolved_key, TurnUsageRecord};
use crate::rollout::{
    fresh_state, TurnTokenSample, TurnUpdate, TurnView, ROLLOUT_PARSER_VERSION,
};
use crate::table::{
    count_account_rows, count_of_account, delete_account_rows, lemma_filter_empty,
    lemma_filter_keeps, lemma_filter_member, lemma_others_keep_exactly, of_another, of_this,
    rows_of_others, AccountRow,
};
use crate::text::{decimal, decimal_text, joined, same_text, text_opt};
use vstd::prelude::*;

verus! {

// ---------------------------------------------------------------------------
// Names
// ---------------------------------------------------------------------------

pub open spec fn version_text() -> Seq<char> {
    decimal(ROLLOUT_PARSER_VERSION as int)
}

/// The migration under which a finished rebuild is recorded.
pub open spec fn rebuild_name(account_key: Seq<char>) -> Seq<char> {
    "rollout_rebuild_v"@ + version_text() + ":"@ + account_key
}

pub fn rollout_rebuild_name(account_key: &str) -> (r: String)
    ensures
        r@ == rebuild_name(account_key@),
{
    let mut r = "rollout_rebuild_v".to_owned();
    r.append(decimal_text(ROLLOUT_PARSER_VERSION).as_str());
    r.append(":");
    r.append(account_key);
    r
}

/// The account under which a rebuild is staged.
pub open spec fn staging_name(account_key: Seq<char>) -> Seq<char> {
    "__rollout_rebuild_v"@ + version_text() + "__:"@ + account_key
}

pub fn staging_key(account_key: &str) -> (r: String)
    ensures
        r@ == staging_name(account_key@),
{
    let mut r = "__rollout_rebuild_v".to_owned();
    r.append(decimal_text(ROLLOUT_PARSER_VERSION).as_str());
    r.append("__:");
    r.append(account_key);
    r
}

/// The batch of a kind that an account's rebuild at a second is.
pub open spec fn batch_name(account_key: Seq<char>, kind: Seq<char>, at: int) -> Seq<char> {
    kind + ":v"@ + version_text() + ":"@ + account_key + ":"@ + decimal(at)
}

pub fn batch_id_at(account_key: &str, kind: &str, at: i64) -> (r: String)
    ensures
        r@ == batch_name(account_key@, kind@, at as int),
{
    let mut r = kind.to_owned();
    r.append(":v");
    r.append(decimal_text(ROLLOUT_PARSER_VERSION).as_str());
    r.append(":");
    r.append(account_key);
    r.append(":");
    r.append(decimal_text(at).as_str());
    r
}

/// The batch that a rebuild that begins now is. Nothing is said of when that is.
pub fn rollout_batch_id(account_key: &str, kind: &str) -> (r: String)
    ensures
        exists|at: i64| r@ == #[trigger] batch_name(account_key@, kind@, at as int),
{
    let at: i64 = crate::recorder::now_seconds();
    batch_id_at(account_key, kind, at)
}

// ---------------------------------------------------------------------------
// Whether to rebuild
// ---------------------------------------------------------------------------

/// What is to be done when an account's ledger is looked at.
#[derive(Clone, Copy, Debug, PartialEq, Eq, Structural)]
pub enum RebuildPlan {
    /// It was derived by an earlier parser: history is set aside.
    ResetHistory,
    /// It was derived by this parser.
    AlreadyDone,
    /// There is nothing to derive it from: it stays unverified.
    NoLogs,
    Rebuild,
}

/// A ledger of an earlier parser, unless it is one that was only registered.
pub open spec fn outdated(version: i64, status: DataHealth) -> bool {
    version < ROLLOUT_PARSER_VERSION && (version > 0 || status != DataHealth::LegacyUnverified)
}

/// A rebuild by this parser has been brought to its end. One that found no logs counts as
/// long as there are none.
pub open spec fn rebuild_completed(prior: Option<(i64, DataHealth)>, has_logs: bool) -> bool {
    match prior {
        Some((version, status)) => version == ROLLOUT_PARSER_VERSION && status
            != DataHealth::Rebuilding && !(status == DataHealth::LegacyUnverified && has_logs),
        None => false,
    }
}

pub open spec fn planned(prior: Option<(i64, DataHealth)>, has_logs: bool) -> RebuildPlan {
    if prior matches Some((version, status)) && outdated(version, status) {
        RebuildPlan::ResetHistory
    } else if rebuild_completed(prior, has_logs) {
        RebuildPlan::AlreadyDone
    } else if !has_logs {
        RebuildPlan::NoLogs
    } else {
        RebuildPlan::Rebuild
    }
}

pub fn rollout_rebuild_completed(prior: Option<(i64, DataHealth)>, has_logs: bool) -> (r: bool)
    ensures
        r == rebuild_completed(prior, has_logs),
{
    match prior {
        Some((version, status)) => version == ROLLOUT_PARSER_VERSION && status
            != DataHealth::Rebuilding && !(status == DataHealth::LegacyUnverified && has_logs),
        None => false,
    }
}

pub fn plan_rebuild(prior: Option<(i64, DataHealth)>, has_logs: bool) -> (r: RebuildPlan)
    ensures
        r == planned(prior, has_logs),
{
    if let Some((version, status)) = prior {
        if version < ROLLOUT_PARSER_VERSION && (version > 0 || status
            != DataHealth::LegacyUnverified) {
            return RebuildPlan::ResetHistory;
        }
    }
    if rollout_rebuild_completed(prior, has_logs) {
        RebuildPlan::AlreadyDone
    } else if !has_logs {
        RebuildPlan::NoLogs
    } else {
        RebuildPlan::Rebuild
    }
}

/// After a reset or a rebuild by this parser that verified the account, nothing is to be
/// done again.
pub proof fn lemma_rebuild_happens_once(has_logs: bool)
    ensures
        planned(Some((ROLLOUT_PARSER_VERSION, DataHealth::Verified)), has_logs)
            == RebuildPlan::AlreadyDone,
{
}

// ---------------------------------------------------------------------------
// Rebuilding
// ---------------------------------------------------------------------------

/// A log that belongs to the account.
pub struct LogFile {
    pub path: String,
    pub bytes: Vec<u8>,
}

/// The run of a log from its front, for an account.
pub open spec fn log_run(file: LogFile, account_key: Seq<char>, now: i64) -> Option<RunView> {
    run_lines(run_from(fresh_state(), 0), file.bytes@, account_key, now)
}

/// Every log is UTF-8 up to its end.
pub open spec fn logs_readable(files: Seq<LogFile>, account_key: Seq<char>, now: i64) -> bool {
    forall|i: int| 0 <= i < files.len() ==> log_run(#[trigger] files[i], account_key, now) is Some
}

/// The ledger after the logs.
pub open spec fn ledger_of_logs(
    ledger: LedgerView,
    files: Seq<LogFile>,
    account_key: Seq<char>,
    now: i64,
) -> LedgerView
    decreases files.len(),
{
    if files.len() == 0 {
        ledger
    } else {
        ledger_with_all(
            ledger_of_logs(ledger, files.drop_last(), account_key, now),
            log_run(files.last(), account_key, now)->0.updates,
        )
    }
}

/// The record of a line of a log that was not JSON.
pub open spec fn log_error(
    error: (int, Seq<char>),
    path: Seq<char>,
    account_key: Seq<char>,
    batch_id: Seq<char>,
    now: i64,
) -> StoredErrorView {
    StoredErrorView {
        file_path: path,
        byte_offset: error.0,
        error: error.1,
        account_key,
        source_id: None,
        rebuild_batch_id: batch_id,
        first_seen_at: now as int,
    }
}

/// The parse errors after those of one log.
pub open spec fn errors_of_log(
    stored: Seq<StoredErrorView>,
    errors: Seq<(int, Seq<char>)>,
    path: Seq<char>,
    account_key: Seq<char>,
    batch_id: Seq<char>,
    now: i64,
) -> Seq<StoredErrorView>
    decreases errors.len(),
{
    if errors.len() == 0 {
        stored
    } else {
        stored_errors_with(
            errors_of_log(stored, errors.drop_last(), path, account_key, batch_id, now),
            log_error(errors.last(), path, account_key, batch_id, now),
        )
    }
}

/// The parse errors after those of the logs.
pub open spec fn errors_of_logs(
    stored: Seq<StoredErrorView>,
    files: Seq<LogFile>,
    account_key: Seq<char>,
    batch_id: Seq<char>,
    now: i64,
) -> Seq<StoredErrorView>
    decreases files.len(),
{
    if files.len() == 0 {
        stored
    } else {
        errors_of_log(
            errors_of_logs(stored, files.drop_last(), account_key, batch_id, now),
            log_run(files.last(), account_key, now)->0.errors,
            files.last().path@,
            account_key,
            batch_id,
            now,
        )
    }
}

/// The ledger without what is derived of an account.
pub open spec fn cleared(before: TurnLedger, after: TurnLedger, key: Seq<char>) -> bool {
    &&& after.turns@ == rows_of_others(before.turns@, key)
    &&& after.samples@ == rows_of_others(before.samples@, key)
    &&& after.audits@ == rows_of_others(before.audits@, key)
    &&& after.parse_errors@ == rows_of_others(before.parse_errors@, key)
    &&& after.turn_sources == before.turn_sources
}

/// `after` is `before` with the logs recorded under the staging account alone.
pub open spec fn staged(
    before: TurnLedger,
    after: TurnLedger,
    files: Seq<LogFile>,
    staging: Seq<char>,
    batch_id: Seq<char>,
    now: i64,
) -> bool {
    exists|empty: TurnLedger|
        {
            &&& #[trigger] cleared(before, empty, staging)
            &&& after@ == ledger_of_logs(empty@, files, staging, now)
            &&& stored_error_views(after.parse_errors@) == errors_of_logs(
                stored_error_views(empty.parse_errors@),
                files,
                staging,
                batch_id,
                now,
            )
            &&& after.audits == empty.audits
            &&& after.turn_sources == empty.turn_sources
        }
}

fn record_log_updates(ledger: &mut TurnLedger, updates: Vec<TurnUpdate>)
    requires
        old(ledger)@.wf(),
    ensures
        final(ledger)@ == ledger_with_all(old(ledger)@, update_views(updates@)),
        final(ledger)@.wf(),
        final(ledger).turn_sources == old(ledger).turn_sources,
        final(ledger).audits == old(ledger).audits,
        final(ledger).parse_errors == old(ledger).parse_errors,
{
    let ghost all = update_views(updates@);
    for update in iter: updates
        invariant
            update_views(iter.seq()) == all,
            ledger@.wf(),
            ledger@ == ledger_with_all(old(ledger)@, all.take(iter.index())),
            ledger.turn_sources == old(ledger).turn_sources,
            ledger.audits == old(ledger).audits,
            ledger.parse_errors == old(ledger).parse_errors,
    {
        proof {
            let i = iter.index();
            assert(all[i] == update@);
            assert(all.take(i + 1).drop_last() =~= all.take(i));
            assert(all.take(i + 1).last() == update@);
        }
        ledger.record(update);
    }
    assert(all.take(all.len() as int) =~= all);
}

fn record_log_errors(
    ledger: &mut TurnLedger,
    errors: Vec<crate::collect::ParseError>,
    path: &str,
    account_key: &str,
    batch_id: &str,
    now: i64,
)
    ensures
        stored_error_views(final(ledger).parse_errors@) == errors_of_log(
            stored_error_views(old(ledger).parse_errors@),
            error_views(errors@),
            path@,
            account_key@,
            batch_id@,
            now,
        ),
        final(ledger).turns == old(ledger).turns,
        final(ledger).samples == old(ledger).samples,
        final(ledger).audits == old(ledger).audits,
        final(ledger).turn_sources == old(ledger).turn_sources,
{
    let ghost all = error_views(errors@);
    for error in iter: errors
        invariant
            error_views(iter.seq()) == all,
            stored_error_views(ledger.parse_errors@) == errors_of_log(
                stored_error_views(old(ledger).parse_errors@),
                all.take(iter.index()),
                path@,
                account_key@,
                batch_id@,
                now,
            ),
            ledger.turns == old(ledger).turns,
            ledger.samples == old(ledger).samples,
            ledger.audits == old(ledger).audits,
            ledger.turn_sources == old(ledger).turn_sources,
    {
        proof {
            let i = iter.index();
            assert(all[i] == (error.byte_offset as int, error.error@));
            assert(all.take(i + 1).drop_last() =~= all.take(i));
            assert(all.take(i + 1).last() == all[i]);
        }
        let row = StoredParseError {
            file_path: path.to_owned(),
            byte_offset: error.byte_offset,
            error: error.error,
            account_key: account_key.to_owned(),
            source_id: None,
            rebuild_batch_id: batch_id.to_owned(),
            first_seen_at: now,
        };
        proof {
            lemma_stored_errors_with(ledger.parse_errors@, row);
        }
        ledger.record_parse_error(row);
    }
    assert(all.take(all.len() as int) =~= all);
}

/// Records a log from its front under an account, without a source.
pub fn collect_one_for_rebuild(
    ledger: &mut TurnLedger,
    file: &LogFile,
    account_key: &str,
    batch_id: &str,
    now: i64,
) -> (r: Result<bool, CollectError>)
    requires
        old(ledger)@.wf(),
    ensures
        final(ledger)@.wf(),
        match (r, log_run(*file, account_key@, now)) {
            (Ok(changed), Some(run)) => {
                &&& changed == run.changed
                &&& final(ledger)@ == ledger_with_all(old(ledger)@, run.updates)
                &&& stored_error_views(final(ledger).parse_errors@) == errors_of_log(
                    stored_error_views(old(ledger).parse_errors@),
                    run.errors,
                    file.path@,
                    account_key@,
                    batch_id@,
                    now,
                )
                &&& final(ledger).audits == old(ledger).audits
                &&& final(ledger).turn_sources == old(ledger).turn_sources
            },
            (Err(_), None) => *final(ledger) == *old(ledger),
            _ => false,
        },
{
    match collect_tail(fresh_cursor(), &file.bytes, account_key, now) {
        Ok(collected) => {
            let Collected { cursor, changed, updates, errors } = collected;
            record_log_updates(ledger, updates);
            record_log_errors(ledger, errors, file.path.as_str(), account_key, batch_id, now);
            Ok(changed)
        },
        Err(error) => Err(error),
    }
}

/// Why an account's ledger could not be derived again.
#[derive(Debug)]
pub enum RebuildError {
    InvalidUtf8,
    Accounting(AccountingError),
}

/// What came of deriving an account's ledger again: whether it was replaced, and the status
/// that is to be asked for, of this parser's version.
#[derive(Clone, Copy, Debug, PartialEq, Eq, Structural)]
pub struct RebuildOutcome {
    pub replaced: bool,
    pub request: DataHealth,
}

/// The account's ledger is what was staged, audited anew.
pub open spec fn replaced_by_staged(
    staged: TurnLedger,
    after: TurnLedger,
    account_key: Seq<char>,
    staging: Seq<char>,
    now: i64,
) -> bool {
    &&& after@.turns == turns_handed_over(
        turn_views(rows_of_others(staged.turns@, account_key)),
        staging,
        account_key,
    )
    &&& after@.samples == samples_handed_over(
        sample_views(rows_of_others(staged.samples@, account_key)),
        staging,
        account_key,
    )
    &&& errors_handed_over(
        rows_of_others(staged.parse_errors@, account_key),
        after.parse_errors@,
        staging,
        account_key,
    )
    &&& after.turn_sources == staged.turn_sources
    &&& after.audits@ == audits_of_orphans(
        audits_of_turns(
            audits_kept(rows_of_others(staged.audits@, account_key), Some(account_key)),
            after.turns@,
            after@.samples,
            Some(account_key),
            AuditReason::SourceMissing,
            now,
        ),
        after.samples@,
        after@,
        Some(account_key),
        now,
    )
}

/// The parse errors that were staged went to the account, and nothing else of what was
/// staged stayed.
pub open spec fn errors_kept(
    staged: TurnLedger,
    after: TurnLedger,
    account_key: Seq<char>,
    staging: Seq<char>,
) -> bool {
    exists|errors: Seq<StoredParseError>|
        {
            &&& #[trigger] errors_handed_over(
                staged.parse_errors@,
                errors,
                staging,
                account_key,
            )
            &&& after.parse_errors@ == rows_of_others(errors, staging)
            &&& after.turns@ == rows_of_others(staged.turns@, staging)
            &&& after.samples@ == rows_of_others(staged.samples@, staging)
            &&& after.audits@ == rows_of_others(staged.audits@, staging)
            &&& after.turn_sources == staged.turn_sources
        }
}

/// What came of the logs once all of them were staged.
pub open spec fn settled_staging(
    before: TurnLedger,
    staged: TurnLedger,
    after: TurnLedger,
    account_key: Seq<char>,
    now: i64,
    r: Result<RebuildOutcome, RebuildError>,
) -> bool {
    let staging = staging_name(account_key);
    if count_of_account(staged.parse_errors@, staging) > 0 {
        &&& r == Ok::<RebuildOutcome, RebuildError>(
            RebuildOutcome { replaced: false, request: DataHealth::AccountingInconsistent },
        )
        &&& errors_kept(staged, after, account_key, staging)
    } else if count_of_account(before.turns@, account_key) > 0 && count_of_account(
        staged.turns@,
        staging,
    ) == 0 {
        &&& r == Ok::<RebuildOutcome, RebuildError>(
            RebuildOutcome { replaced: false, request: DataHealth::LegacyUnverified },
        )
        &&& cleared(staged, after, staging)
    } else if !accounts_closed(staged@, Some(staging)) {
        &&& r is Err
        &&& r->Err_0 is Accounting
        &&& names_fault(r->Err_0->Accounting_0, staged@, Some(staging))
        &&& cleared(staged, after, staging)
    } else {
        &&& replaced_by_staged(staged, after, account_key, staging, now)
        &&& match r {
            Ok(outcome) => outcome == (RebuildOutcome {
                replaced: true,
                request: DataHealth::Verified,
            }) && accounts_closed(after@, Some(account_key)),
            Err(RebuildError::Accounting(error)) => names_fault(error, after@, Some(account_key)),
            _ => false,
        }
    }
}

/// What deriving an account's ledger again from its logs does. A log that is not UTF-8 ends
/// it, and nothing of what was staged stays.
pub open spec fn rebuilt(
    before: TurnLedger,
    after: TurnLedger,
    files: Seq<LogFile>,
    account_key: Seq<char>,
    batch_id: Seq<char>,
    now: i64,
    r: Result<RebuildOutcome, RebuildError>,
) -> bool {
    let staging = staging_name(account_key);
    if logs_readable(files, staging, now) {
        exists|middle: TurnLedger|
            #[trigger] staged(before, middle, files, staging, batch_id, now) && settled_staging(
                before,
                middle,
                after,
                account_key,
                now,
                r,
            )
    } else {
        &&& r == Err::<RebuildOutcome, RebuildError>(RebuildError::InvalidUtf8)
        &&& exists|middle: TurnLedger, k: int|
            {
                &&& 0 <= k < files.len()
                &&& logs_readable(files.take(k), staging, now)
                &&& log_run(files[k], staging, now) is None
                &&& #[trigger] staged(before, middle, files.take(k), staging, batch_id, now)
                &&& cleared(middle, after, staging)
            }
    }
}

/// Derives an account's ledger again from its logs. The logs are recorded under a staging
/// account first, and take the place of what was derived before only where every line was
/// read, something was found, and the accounts are closed.
pub fn rebuild_from_logs(
    ledger: &mut TurnLedger,
    files: &Vec<LogFile>,
    account_key: &str,
    batch_id: &str,
    now: i64,
) -> (r: Result<RebuildOutcome, RebuildError>)
    requires
        old(ledger)@.wf(),
    ensures
        rebuilt(*old(ledger), *final(ledger), files@, account_key@, batch_id@, now, r),
        final(ledger)@.wf(),
{
    let ghost start = *ledger;
    let staging = staging_key(account_key);
    let existing: usize = count_account_rows(&ledger.turns, account_key);
    ledger.clear_rollout_derived_data(staging.as_str());
    let ghost empty = *ledger;
    assert(cleared(start, empty, staging@));
    let mut i: usize = 0;
    while i < files.len()
        invariant
            i <= files.len(),
            staging@ == staging_name(account_key@),
            start == *old(ledger),
            cleared(start, empty, staging@),
            ledger@.wf(),
            forall|k: int|
                0 <= k < i ==> log_run(#[trigger] files@[k], staging@, now) is Some,
            ledger@ == ledger_of_logs(empty@, files@.take(i as int), staging@, now),
            stored_error_views(ledger.parse_errors@) == errors_of_logs(
                stored_error_views(empty.parse_errors@),
                files@.take(i as int),
                staging@,
                batch_id@,
                now,
            ),
            ledger.audits == empty.audits,
            ledger.turn_sources == empty.turn_sources,
        decreases files.len() - i,
    {
        proof {
            assert(files@.take(i + 1).drop_last() =~= files@.take(i as int));
            assert(files@.take(i + 1).last() == files@[i as int]);
        }
        match collect_one_for_rebuild(ledger, &files[i], staging.as_str(), batch_id, now) {
            Ok(_) => {},
            Err(_) => {
                assert(log_run(files@[i as int], staging@, now) is None);
                let ghost middle = *ledger;
                assert(staged(start, middle, files@.take(i as int), staging@, batch_id@, now));
                ledger.clear_rollout_derived_data(staging.as_str());
                return Err(RebuildError::InvalidUtf8);
            },
        }
        i += 1;
    }
    assert(files@.take(files.len() as int) =~= files@);
    let ghost middle = *ledger;
    assert(staged(start, middle, files@, staging@, batch_id@, now));
    if count_account_rows(&ledger.parse_errors, staging.as_str()) > 0 {
        ledger.keep_staged_errors(account_key, staging.as_str());
        assert(errors_handed_over(middle.parse_errors@, ledger.parse_errors@, staging@, account_key@));
        ledger.clear_rollout_derived_data(staging.as_str());
        return Ok(
            RebuildOutcome { replaced: false, request: DataHealth::AccountingInconsistent },
        );
    }
    if existing > 0 && count_account_rows(&ledger.turns, staging.as_str()) == 0 {
        ledger.clear_rollout_derived_data(staging.as_str());
        return Ok(RebuildOutcome { replaced: false, request: DataHealth::LegacyUnverified });
    }
    if let Err(error) = ledger.verify_token_accounting(Some(staging.as_str())) {
        ledger.clear_rollout_derived_data(staging.as_str());
        return Err(RebuildError::Accounting(error));
    }
    ledger.replace_account_from_staging(account_key, staging.as_str());
    ledger.audit_timeline_gaps(Some(account_key), AuditReason::SourceMissing, now);
    match ledger.verify_token_accounting(Some(account_key)) {
        Ok(()) => Ok(RebuildOutcome { replaced: true, request: DataHealth::Verified }),
        Err(error) => Err(RebuildError::Accounting(error)),
    }
}

/// `after` is `before` audited for an account.
pub open spec fn audited_for(
    before: TurnLedger,
    after: TurnLedger,
    account_key: Seq<char>,
    reason: AuditReason,
    now: i64,
) -> bool {
    &&& after.turns == before.turns
    &&& after.samples == before.samples
    &&& after.parse_errors == before.parse_errors
    &&& after.turn_sources == before.turn_sources
    &&& after.audits@ == audits_of_orphans(
        audits_of_turns(
            audits_kept(before.audits@, Some(account_key)),
            before.turns@,
            before@.samples,
            Some(account_key),
            reason,
            now,
        ),
        before.samples@,
        before@,
        Some(account_key),
        now,
    )
}

/// What looking at an account's ledger came to.
#[derive(Clone, Copy, Debug, PartialEq, Eq, Structural)]
pub enum RebuildReport {
    /// History is to be set aside; nothing was done yet.
    ResetHistory,
    AlreadyDone,
    /// The ledger was looked at, and this is to be asked for.
    Derived(RebuildOutcome),
}

/// Brings an account's ledger to this parser's version, where it is not there yet.
pub fn rebuild_rollout_derived_data(
    ledger: &mut TurnLedger,
    prior: Option<(i64, DataHealth)>,
    files: &Vec<LogFile>,
    account_key: &str,
    batch_id: &str,
    now: i64,
) -> (r: Result<RebuildReport, RebuildError>)
    requires
        old(ledger)@.wf(),
    ensures
        match planned(prior, files@.len() > 0) {
            RebuildPlan::ResetHistory => r == Ok::<RebuildReport, RebuildError>(
                RebuildReport::ResetHistory,
            ) && *final(ledger) == *old(ledger),
            RebuildPlan::AlreadyDone => r == Ok::<RebuildReport, RebuildError>(
                RebuildReport::AlreadyDone,
            ) && *final(ledger) == *old(ledger),
            RebuildPlan::NoLogs => {
                &&& r == Ok::<RebuildReport, RebuildError>(
                    RebuildReport::Derived(
                        RebuildOutcome { replaced: false, request: DataHealth::LegacyUnverified },
                    ),
                )
                &&& audited_for(
                    *old(ledger),
                    *final(ledger),
                    account_key@,
                    AuditReason::LegacyPreTimeline,
                    now,
                )
            },
            RebuildPlan::Rebuild => exists|audited: TurnLedger|
                {
                    &&& #[trigger] audited_for(
                        *old(ledger),
                        audited,
                        account_key@,
                        AuditReason::LegacyPreTimeline,
                        now,
                    )
                    &&& rebuilt(
                        audited,
                        *final(ledger),
                        files@,
                        account_key@,
                        batch_id@,
                        now,
                        match r {
                            Ok(RebuildReport::Derived(outcome)) => Ok(outcome),
                            Ok(_) => arbitrary(),
                            Err(error) => Err(error),
                        },
                    )
                    &&& r is Ok ==> r->Ok_0 is Derived
                },
        },
        final(ledger)@.wf(),
{
    match plan_rebuild(prior, files.len() > 0) {
        RebuildPlan::ResetHistory => Ok(RebuildReport::ResetHistory),
        RebuildPlan::AlreadyDone => Ok(RebuildReport::AlreadyDone),
        RebuildPlan::NoLogs => {
            ledger.audit_timeline_gaps(Some(account_key), AuditReason::LegacyPreTimeline, now);
            Ok(
                RebuildReport::Derived(
                    RebuildOutcome { replaced: false, request: DataHealth::LegacyUnverified },
                ),
            )
        },
        RebuildPlan::Rebuild => {
            ledger.audit_timeline_gaps(Some(account_key), AuditReason::LegacyPreTimeline, now);
            let ghost audited = *ledger;
            assert(audited_for(
                *old(ledger),
                audited,
                account_key@,
                AuditReason::LegacyPreTimeline,
                now,
            ));
            match rebuild_from_logs(ledger, files, account_key, batch_id, now) {
                Ok(outcome) => Ok(RebuildReport::Derived(outcome)),
                Err(error) => Err(error),
            }
        },
    }
}

// ---------------------------------------------------------------------------
// Setting history aside
// ---------------------------------------------------------------------------

/// The rows of none of the accounts.
pub open spec fn without_accounts<T: AccountRow>(rows: Seq<T>, keys: Seq<Seq<char>>) -> Seq<T>
    decreases keys.len(),
{
    if keys.len() == 0 {
        rows
    } else {
        rows_of_others(without_accounts(rows, keys.drop_last()), keys.last())
    }
}

/// `after` is `before` without anything of the accounts.
pub open spec fn accounts_set_aside(
    before: TurnLedger,
    after: TurnLedger,
    keys: Seq<Seq<char>>,
) -> bool {
    &&& after.turns@ == without_accounts(before.turns@, keys)
    &&& after.samples@ == without_accounts(before.samples@, keys)
    &&& after.audits@ == without_accounts(before.audits@, keys)
    &&& after.parse_errors@ == without_accounts(before.parse_errors@, keys)
    &&& after.turn_sources@ == without_accounts(before.turn_sources@, keys)
}

pub open spec fn key_views(keys: Seq<String>) -> Seq<Seq<char>> {
    Seq::new(keys.len(), |i: int| keys[i]@)
}

/// Takes everything of some accounts out of the ledger.
pub fn set_accounts_aside(ledger: &mut TurnLedger, keys: &Vec<String>)
    ensures
        accounts_set_aside(*old(ledger), *final(ledger), key_views(keys@)),
        old(ledger)@.wf() ==> final(ledger)@.wf(),
{
    let ghost all = key_views(keys@);
    let mut i: usize = 0;
    assert(all.take(0) =~= Seq::empty());
    while i < keys.len()
        invariant
            i <= keys.len(),
            all == key_views(keys@),
            accounts_set_aside(*old(ledger), *ledger, all.take(i as int)),
            old(ledger)@.wf() ==> ledger@.wf(),
        decreases keys.len() - i,
    {
        proof {
            assert(all.take(i + 1).drop_last() =~= all.take(i as int));
            assert(all.take(i + 1).last() == keys@[i as int]@);
        }
        ledger.clear_rollout_derived_data(keys[i].as_str());
        delete_account_rows(&mut ledger.turn_sources, keys[i].as_str());
        i += 1;
    }
    assert(all.take(all.len() as int) =~= all);
}

/// The source is one that a reset of the account's history takes in: its own, and those
/// that belong to nobody.
pub open spec fn reset_target(source: SourceView, account_key: Seq<char>) -> bool {
    ||| source.binding_status == BindingStatus::Verified && source.account_key == Some(account_key)
    ||| source.binding_status == BindingStatus::Unresolved
    ||| source.binding_status == BindingStatus::Quarantined
}

pub fn is_reset_target(source: &RolloutSource, account_key: &str) -> (r: bool)
    ensures
        r == reset_target(source@, account_key@),
{
    match source.binding_status {
        BindingStatus::Verified => match &source.account_key {
            Some(account) => same_text(account.as_str(), account_key),
            None => false,
        },
        BindingStatus::Unresolved => true,
        BindingStatus::Quarantined => true,
        BindingStatus::Inferred => false,
    }
}

/// A source that belongs to nobody since history was set aside.
pub open spec fn disowned(source: SourceView) -> SourceView {
    SourceView {
        account_key: None,
        binding_status: BindingStatus::Quarantined,
        binding_source: "historical_reset"@,
        binding_confidence: "unknown"@,
        ..source
    }
}

/// A source whose file was not there when history was set aside.
pub open spec fn lost(source: SourceView, now: i64) -> SourceView {
    SourceView {
        last_offset: 0,
        last_size: 0,
        last_mtime: None,
        cursor: None,
        file_fingerprint: None,
        cursor_prefix_fingerprint: None,
        generation: clamp_i64(source.generation + 1) as i64,
        condition: SourceCondition::HistoricalReset,
        updated_at: now,
        ..disowned(source)
    }
}

/// A source after history was set aside, where its file could be passed over.
pub open spec fn reset_to(
    source: SourceView,
    file: Option<ObservedFile>,
    now: i64,
) -> Option<SourceView> {
    match file {
        None => Some(lost(source, now)),
        Some(file) => match passing_over(source, file, now) {
            Some(after) => Some(
                if source.binding_status == BindingStatus::Verified {
                    after
                } else {
                    disowned(after)
                },
            ),
            None => None,
        },
    }
}

/// Passes a source over when history is set aside. Only a verified source whose file is
/// there keeps its account.
pub fn reset_source(
    source: &mut RolloutSource,
    audits: &mut Vec<BindingAudit>,
    file: &Option<ObservedFile>,
    now: i64,
) -> (r: Result<(), CollectError>)
    requires
        old(source).cursor_wf(),
    ensures
        final(source).cursor_wf(),
        match (r, reset_to(old(source)@, *file, now)) {
            (Ok(()), Some(after)) => {
                &&& final(source)@ == after
                &&& audit_views(final(audits)@) == set_aside_audits(
                    audit_views(old(audits)@),
                    old(source)@,
                    now,
                )
            },
            (Err(_), None) => {
                &&& *final(source) == *old(source)
                &&& final(audits)@ == old(audits)@
            },
            _ => false,
        },
{
    match file {
        None => {
            record_historical_reset_quarantine(audits, source, now);
            source.account_key = None;
            source.binding_status = BindingStatus::Quarantined;
            source.binding_source = "historical_reset".to_owned();
            source.binding_confidence = "unknown".to_owned();
            source.last_offset = 0;
            source.last_size = 0;
            source.last_mtime = None;
            source.cursor = None;
            source.file_fingerprint = None;
            source.cursor_prefix_fingerprint = None;
            source.generation = saturating_add(source.generation, 1);
            source.condition = SourceCondition::HistoricalReset;
            source.updated_at = now;
            Ok(())
        },
        Some(file) => match advance_source_cursor_without_persisting(source, audits, file, now) {
            Ok(()) => {
                if source.binding_status != BindingStatus::Verified {
                    source.account_key = None;
                    source.binding_status = BindingStatus::Quarantined;
                    source.binding_source = "historical_reset".to_owned();
                    source.binding_confidence = "unknown".to_owned();
                }
                Ok(())
            },
            Err(error) => Err(error),
        },
    }
}

/// The source is not taken in by the reset, or can be passed over.
pub open spec fn resettable(
    source: SourceView,
    file: Option<ObservedFile>,
    account_key: Seq<char>,
    now: i64,
) -> bool {
    reset_target(source, account_key) ==> reset_to(source, file, now) is Some
}

fn can_reset(
    source: &RolloutSource,
    file: &Option<ObservedFile>,
    account_key: &str,
    now: i64,
) -> (r: bool)
    requires
        source.cursor_wf(),
    ensures
        r == resettable(source@, *file, account_key@, now),
{
    if !is_reset_target(source, account_key) {
        return true;
    }
    let mut trial = copy_source(source);
    let mut audits: Vec<BindingAudit> = Vec::new();
    match reset_source(&mut trial, &mut audits, file, now) {
        Ok(()) => true,
        Err(_) => false,
    }
}

/// The audits after a reset took in those of the sources that it concerns.
pub open spec fn audits_of_reset(
    audits: Seq<BindingAuditView>,
    sources: Seq<SourceView>,
    account_key: Seq<char>,
    now: i64,
) -> Seq<BindingAuditView>
    decreases sources.len(),
{
    if sources.len() == 0 {
        audits
    } else {
        let before = audits_of_reset(audits, sources.drop_last(), account_key, now);
        if reset_target(sources.last(), account_key) {
            set_aside_audits(before, sources.last(), now)
        } else {
            before
        }
    }
}

/// The links to none of the sources that a reset concerns.
pub open spec fn links_of_reset(
    links: Seq<TurnSource>,
    sources: Seq<SourceView>,
    account_key: Seq<char>,
) -> Seq<TurnSource>
    decreases sources.len(),
{
    if sources.len() == 0 {
        links
    } else {
        let before = links_of_reset(links, sources.drop_last(), account_key);
        if reset_target(sources.last(), account_key) {
            links_of_others(before, sources.last().source_id)
        } else {
            before
        }
    }
}

/// Where a source stands after a reset.
pub open spec fn after_reset(
    source: SourceView,
    file: Option<ObservedFile>,
    account_key: Seq<char>,
    now: i64,
) -> SourceView {
    if reset_target(source, account_key) {
        reset_to(source, file, now)->0
    } else {
        source
    }
}

/// Sets an account's history aside, and that of the accounts that were never verified. The
/// account's own sources, and those that belong to nobody, are passed over up to their end;
/// what they hold from there on counts from zero. The logs and the quota observations stay.
/// Where one of the files cannot be read, nothing is done.
///
/// The file of each source stands at the source's place, and is absent where there is none.
pub fn reset_historical_rollout_data(
    ledger: &mut TurnLedger,
    sources: &mut Vec<RolloutSource>,
    audits: &mut Vec<BindingAudit>,
    files: &Vec<Option<ObservedFile>>,
    account_key: &str,
    set_aside: &Vec<String>,
    now: i64,
) -> (r: Result<(), CollectError>)
    requires
        old(sources)@.len() == files@.len(),
        cursors_wf(old(sources)@),
    ensures
        r is Ok <==> forall|i: int|
            0 <= i < files@.len() ==> #[trigger] resettable(
                old(sources)@[i]@,
                files@[i],
                account_key@,
                now,
            ),
        old(ledger)@.wf() ==> final(ledger)@.wf(),
        cursors_wf(final(sources)@),
        match r {
            Ok(()) => {
                &&& final(sources)@.len() == old(sources)@.len()
                &&& forall|i: int|
                    0 <= i < files@.len() ==> (#[trigger] final(sources)@[i])@ == after_reset(
                        old(sources)@[i]@,
                        files@[i],
                        account_key@,
                        now,
                    )
                &&& audit_views(final(audits)@) == audits_of_reset(
                    audit_views(old(audits)@),
                    source_views(old(sources)@),
                    account_key@,
                    now,
                )
                &&& exists|middle: TurnLedger|
                    {
                        &&& #[trigger] accounts_set_aside(
                            *old(ledger),
                            middle,
                            key_views(set_aside@).push(account_key@),
                        )
                        &&& final(ledger).turns == middle.turns
                        &&& final(ledger).samples == middle.samples
                        &&& final(ledger).audits == middle.audits
                        &&& final(ledger).parse_errors == middle.parse_errors
                        &&& final(ledger).turn_sources@ == links_of_reset(
                            middle.turn_sources@,
                            source_views(old(sources)@),
                            account_key@,
                        )
                    }
            },
            Err(_) => {
                &&& *final(ledger) == *old(ledger)
                &&& final(sources)@ == old(sources)@
                &&& final(audits)@ == old(audits)@
            },
        },
{
    let mut i: usize = 0;
    while i < sources.len()
        invariant
            i <= sources.len(),
            sources@.len() == files@.len(),
            sources@ == old(sources)@,
            cursors_wf(old(sources)@),
            forall|k: int|
                0 <= k < i ==> #[trigger] resettable(
                    old(sources)@[k]@,
                    files@[k],
                    account_key@,
                    now,
                ),
            *ledger == *old(ledger),
            audits@ == old(audits)@,
        decreases sources.len() - i,
    {
        if !can_reset(&sources[i], &files[i], account_key, now) {
            assert(!resettable(old(sources)@[i as int]@, files@[i as int], account_key@, now));
            return Err(CollectError::InvalidUtf8);
        }
        i += 1;
    }
    set_accounts_aside(ledger, set_aside);
    ledger.clear_rollout_derived_data(account_key);
    delete_account_rows(&mut ledger.turn_sources, account_key);
    let ghost middle = *ledger;
    proof {
        let keys = key_views(set_aside@).push(account_key@);
        assert(keys.drop_last() =~= key_views(set_aside@));
        assert(accounts_set_aside(*old(ledger), middle, keys));
    }
    let ghost before = source_views(sources@);
    let ghost start = sources@;
    let mut all: Vec<RolloutSource> = Vec::new();
    std::mem::swap(sources, &mut all);
    let count: usize = files.len();
    let mut i: usize = 0;
    assert(before.take(0) =~= Seq::empty());
    for source in iter: all
        invariant
            iter.seq() == start,
            i == iter.index(),
            count == files@.len(),
            start == old(sources)@,
            start.len() == files@.len(),
            before == source_views(start),
            sources@.len() == i,
            cursors_wf(start),
            cursors_wf(sources@),
            old(ledger)@.wf() ==> middle@.wf(),
            forall|k: int|
                0 <= k < start.len() ==> #[trigger] resettable(
                    start[k]@,
                    files@[k],
                    account_key@,
                    now,
                ),
            forall|k: int|
                0 <= k < i ==> (#[trigger] sources@[k])@ == after_reset(
                    start[k]@,
                    files@[k],
                    account_key@,
                    now,
                ),
            audit_views(audits@) == audits_of_reset(
                audit_views(old(audits)@),
                before.take(i as int),
                account_key@,
                now,
            ),
            ledger.turns == middle.turns,
            ledger.samples == middle.samples,
            ledger.audits == middle.audits,
            ledger.parse_errors == middle.parse_errors,
            ledger.turn_sources@ == links_of_reset(
                middle.turn_sources@,
                before.take(i as int),
                account_key@,
            ),
    {
        let mut source = source;
        proof {
            assert(start[i as int] == source);
            assert(resettable(start[i as int]@, files@[i as int], account_key@, now));
            assert(before.take(i + 1).drop_last() =~= before.take(i as int));
            assert(before.take(i + 1).last() == source@);
        }
        if is_reset_target(&source, account_key) {
            drop_links(&mut ledger.turn_sources, source.source_id.as_str());
            let _ = reset_source(&mut source, audits, &files[i], now);
        }
        sources.push(source);
        i += 1;
    }
    assert(before.take(before.len() as int) =~= before);
    Ok(())
}

/// A source that its account owns keeps it through a reset as long as its file is there, and
/// what it then holds is passed over.
pub proof fn lemma_reset_keeps_owned_source(source: SourceView, file: ObservedFile, now: i64)
    requires
        source.binding_status == BindingStatus::Verified,
        reset_to(source, Some(file), now) is Some,
    ensures
        reset_to(source, Some(file), now)->0.account_key == source.account_key,
        reset_to(source, Some(file), now)->0.binding_status == BindingStatus::Verified,
{
}

/// After a reset no source that belonged to nobody has an account.
pub proof fn lemma_reset_disowns(
    source: SourceView,
    file: Option<ObservedFile>,
    account_key: Seq<char>,
    now: i64,
)
    requires
        reset_target(source, account_key),
        source.binding_status != BindingStatus::Verified,
        reset_to(source, file, now) is Some,
    ensures
        after_reset(source, file, account_key, now).account_key is None,
        after_reset(source, file, account_key, now).binding_status == BindingStatus::Quarantined,
{
}

// ---------------------------------------------------------------------------
// Files that are bound by their path
// ---------------------------------------------------------------------------

#[derive(Clone, Copy, Debug, PartialEq, Eq, Structural)]
pub enum FileBindingStatus {
    Bound,
    Pending,
    Quarantined,
}

/// What is recorded of a file under its path.
#[derive(Debug)]
pub struct FileBinding {
    pub account_key: Option<String>,
    pub status: FileBindingStatus,
    pub reason: Option<String>,
    pub first_seen_at: i64,
    pub last_seen_at: i64,
    pub last_modified_at: Option<i64>,
}

/// The mathematical value of a [`FileBinding`].
pub struct FileBindingView {
    pub account_key: Option<Seq<char>>,
    pub status: FileBindingStatus,
    pub reason: Option<Seq<char>>,
    pub first_seen_at: i64,
    pub last_seen_at: i64,
    pub last_modified_at: Option<i64>,
}

impl View for FileBinding {
    type V = FileBindingView;

    open spec fn view(&self) -> FileBindingView {
        FileBindingView {
            account_key: text_opt(self.account_key),
            status: self.status,
            reason: text_opt(self.reason),
            first_seen_at: self.first_seen_at,
            last_seen_at: self.last_seen_at,
            last_modified_at: self.last_modified_at,
        }
    }
}

/// A file as it is seen: how long it is, where it is there, when it was last changed, and
/// how far it was read.
#[derive(Clone, Copy)]
pub struct FileSighting {
    pub length: Option<u64>,
    pub modified_at: Option<i64>,
    pub cursor_offset: Option<i64>,
}

/// History was set aside, by an earlier parser or by this one for the account.
pub open spec fn reset_reason(binding: FileBindingView, account_key: Seq<char>) -> bool {
    earlier_reset(binding) || own_reset(binding, account_key)
}

pub open spec fn earlier_reset(binding: FileBindingView) -> bool {
    binding.status == FileBindingStatus::Quarantined && (binding.reason == Some(
        "historical_reset_v6"@,
    ) || binding.reason == Some("historical_reset_v7"@) || binding.reason == Some(
        "historical_reset_v8"@,
    ))
}

pub open spec fn own_reset(binding: FileBindingView, account_key: Seq<char>) -> bool {
    binding.status == FileBindingStatus::Quarantined && binding.reason == Some(
        "historical_reset_v9:"@ + account_key,
    )
}

/// A file that belongs to nobody yet is taken by the account: at the first event that says
/// so, or, where history was set aside for the account, once it grew or came back.
pub open spec fn taken(
    binding: FileBindingView,
    account_key: Seq<char>,
    allow_new_binding: bool,
    seen: FileSighting,
) -> bool {
    ||| allow_new_binding && (binding.status == FileBindingStatus::Pending || reset_reason(
        binding,
        account_key,
    ))
    ||| own_reset(binding, account_key) && match (seen.cursor_offset, seen.length) {
        (Some(offset), Some(length)) => length > max_int(offset as int, 0),
        (None, Some(_)) => true,
        (_, None) => false,
    }
}

/// Where a file's binding stands after it was seen, and whether it belongs to the account.
pub open spec fn binding_after(
    known: Option<FileBindingView>,
    account_key: Seq<char>,
    allow_new_binding: bool,
    seen: FileSighting,
    now: i64,
) -> (FileBindingView, bool) {
    let has_cursor = seen.cursor_offset is Some;
    match known {
        Some(binding) => {
            let looked_at = FileBindingView {
                last_seen_at: now,
                last_modified_at: seen.modified_at,
                ..binding
            };
            match binding.account_key {
                Some(account) => if binding.status == FileBindingStatus::Bound {
                    (looked_at, account == account_key)
                } else {
                    (binding, false)
                },
                None => if taken(binding, account_key, allow_new_binding, seen) {
                    (
                        FileBindingView {
                            account_key: Some(account_key),
                            status: FileBindingStatus::Bound,
                            reason: Some(
                                if reset_reason(binding, account_key) {
                                    "watcher_tail_after_historical_reset"@
                                } else if has_cursor {
                                    "watcher_tail_after_legacy_cursor"@
                                } else {
                                    "first_watcher_observation"@
                                },
                            ),
                            ..looked_at
                        },
                        true,
                    )
                } else {
                    (looked_at, false)
                },
            }
        },
        None => {
            let bound = !has_cursor && allow_new_binding;
            (
                FileBindingView {
                    account_key: if bound {
                        Some(account_key)
                    } else {
                        None
                    },
                    status: if bound {
                        FileBindingStatus::Bound
                    } else {
                        FileBindingStatus::Pending
                    },
                    reason: Some(
                        if has_cursor {
                            "unattributed_legacy_file"@
                        } else if allow_new_binding {
                            "first_observed_for_account"@
                        } else {
                            "awaiting_watcher_binding"@
                        },
                    ),
                    first_seen_at: now,
                    last_seen_at: now,
                    last_modified_at: seen.modified_at,
                },
                bound,
            )
        },
    }
}

/// What the file holds is to be passed over before it is read on: it was set aside and has
/// no place to be read on from.
pub open spec fn passes_over_file(
    known: Option<FileBindingView>,
    account_key: Seq<char>,
    allow_new_binding: bool,
    seen: FileSighting,
) -> bool {
    known matches Some(binding) && binding.account_key is None && taken(
        binding,
        account_key,
        allow_new_binding,
        seen,
    ) && reset_reason(binding, account_key) && seen.cursor_offset is None
}

/// What came of seeing a file.
pub struct FileDecision {
    pub binding: FileBinding,
    pub belongs: bool,
    pub pass_over: bool,
}

fn reason_is(reason: &Option<String>, name: &str) -> (r: bool)
    ensures
        r == (text_opt(*reason) == Some(name@)),
{
    match reason {
        Some(reason) => same_text(reason.as_str(), name),
        None => false,
    }
}

/// Binds a file to the account at its first explicit event, or keeps it apart. A file that
/// is bound is never bound to another account.
pub fn bind_or_quarantine_rollout_file(
    known: Option<FileBinding>,
    account_key: &str,
    allow_new_binding: bool,
    seen: FileSighting,
    now: i64,
) -> (r: FileDecision)
    ensures
        ({
            let binding = match known {
                Some(binding) => Some(binding@),
                None => None,
            };
            &&& (r.binding@, r.belongs) == binding_after(
                binding,
                account_key@,
                allow_new_binding,
                seen,
                now,
            )
            &&& r.pass_over == passes_over_file(binding, account_key@, allow_new_binding, seen)
        }),
{
    let has_cursor = seen.cursor_offset.is_some();
    match known {
        Some(binding) => {
            if let Some(account) = &binding.account_key {
                if binding.status == FileBindingStatus::Bound {
                    let belongs = same_text(account.as_str(), account_key);
                    let binding = FileBinding {
                        last_seen_at: now,
                        last_modified_at: seen.modified_at,
                        ..binding
                    };
                    return FileDecision { binding, belongs, pass_over: false };
                }
                return FileDecision { binding, belongs: false, pass_over: false };
            }
            let quarantined = binding.status == FileBindingStatus::Quarantined;
            let earlier = quarantined && (reason_is(&binding.reason, "historical_reset_v6")
                || reason_is(&binding.reason, "historical_reset_v7") || reason_is(
                &binding.reason,
                "historical_reset_v8",
            ));
            let own_name = joined("historical_reset_v9:", account_key);
            let own = quarantined && reason_is(&binding.reason, own_name.as_str());
            let live = match (seen.cursor_offset, seen.length) {
                (Some(offset), Some(length)) => length > if offset > 0 {
                    offset as u64
                } else {
                    0
                },
                (None, Some(_)) => true,
                (_, None) => false,
            };
            if (allow_new_binding && (binding.status == FileBindingStatus::Pending || earlier
                || own)) || (own && live) {
                let reason = if earlier || own {
                    "watcher_tail_after_historical_reset"
                } else if has_cursor {
                    "watcher_tail_after_legacy_cursor"
                } else {
                    "first_watcher_observation"
                };
                let binding = FileBinding {
                    account_key: Some(account_key.to_owned()),
                    status: FileBindingStatus::Bound,
                    reason: Some(reason.to_owned()),
                    first_seen_at: binding.first_seen_at,
                    last_seen_at: now,
                    last_modified_at: seen.modified_at,
                };
                FileDecision {
                    binding,
                    belongs: true,
                    pass_over: (earlier || own) && !has_cursor,
                }
            } else {
                let binding = FileBinding {
                    last_seen_at: now,
                    last_modified_at: seen.modified_at,
                    ..binding
                };
                FileDecision { binding, belongs: false, pass_over: false }
            }
        },
        None => {
            let bound = !has_cursor && allow_new_binding;
            let reason = if has_cursor {
                "unattributed_legacy_file"
            } else if allow_new_binding {
                "first_observed_for_account"
            } else {
                "awaiting_watcher_binding"
            };
            let binding = FileBinding {
                account_key: if bound {
                    Some(account_key.to_owned())
                } else {
                    None
                },
                status: if bound {
                    FileBindingStatus::Bound
                } else {
                    FileBindingStatus::Pending
                },
                reason: Some(reason.to_owned()),
                first_seen_at: now,
                last_seen_at: now,
                last_modified_at: seen.modified_at,
            };
            FileDecision { binding, belongs: bound, pass_over: false }
        },
    }
}

/// A file that is bound to an account stays bound to it, whichever account sees it.
pub proof fn lemma_bound_file_stays(
    binding: FileBindingView,
    account_key: Seq<char>,
    allow_new_binding: bool,
    seen: FileSighting,
    now: i64,
)
    requires
        binding.status == FileBindingStatus::Bound,
        binding.account_key is Some,
    ensures
        binding_after(Some(binding), account_key, allow_new_binding, seen, now).0.account_key
            == binding.account_key,
        binding_after(Some(binding), account_key, allow_new_binding, seen, now).0.status
            == FileBindingStatus::Bound,
{
}

// ---------------------------------------------------------------------------
// After a file was read on
// ---------------------------------------------------------------------------

/// Whether an account's ledger is to be derived after one of the files was read on.
#[derive(Clone, Copy, Debug, PartialEq, Eq, Structural)]
pub enum AfterReading {
    /// Nothing is known that would let the account's data be derived; what was read stands.
    Leave,
    /// The file is not the account's.
    NotOwned,
    Derive,
}

pub open spec fn reading_leads_to(source: SourceView, account_key: Seq<char>) -> AfterReading {
    match source.binding_status {
        BindingStatus::Verified => if source.account_key == Some(account_key) {
            AfterReading::Derive
        } else {
            AfterReading::Leave
        },
        BindingStatus::Unresolved => AfterReading::Leave,
        _ => AfterReading::NotOwned,
    }
}

pub fn after_reading(source: &RolloutSource, account_key: &str) -> (r: AfterReading)
    ensures
        r == reading_leads_to(source@, account_key@),
{
    match source.binding_status {
        BindingStatus::Verified => match &source.account_key {
            Some(account) => if same_text(account.as_str(), account_key) {
                AfterReading::Derive
            } else {
                AfterReading::Leave
            },
            None => AfterReading::Leave,
        },
        BindingStatus::Unresolved => AfterReading::Leave,
        _ => AfterReading::NotOwned,
    }
}

/// What an account's rebuild is refused with where there is no account behind the key.
pub const UNRESOLVED_REBUILD: &'static str = "unresolved sources cannot be rebuilt as an account";

/// An account's ledger may be derived again where the key stands for an account.
pub fn check_rebuild(account_key: &str) -> (r: Result<(), String>)
    ensures
        match r {
            Ok(()) => !unresolved_key(account_key@),
            Err(message) => unresolved_key(account_key@) && message@ == UNRESOLVED_REBUILD@,
        },
{
    if is_unresolved_account_key(account_key) {
        Err(UNRESOLVED_REBUILD.to_owned())
    } else {
        Ok(())
    }
}

/// Audits the account after lines were collected, and says which status and version are to
/// be asked for.
pub fn refresh_account_health_after_collection(
    ledger: &mut TurnLedger,
    previous: Option<&AccountDataHealth>,
    account_key: &str,
    now: i64,
) -> (r: (DataHealth, i64))
    ensures
        audited_for(
            *old(ledger),
            *final(ledger),
            account_key@,
            AuditReason::SourceMissing,
            now,
        ),
        r == request_after_collection(
            match previous {
                Some(health) => Some((health.status, health.data_version)),
                None => None,
            },
            accounts_closed(old(ledger)@, Some(account_key@)),
        ),
{
    ledger.audit_timeline_gaps(Some(account_key), AuditReason::SourceMissing, now);
    let closed = match ledger.verify_token_accounting(Some(account_key)) {
        Ok(()) => true,
        Err(_) => false,
    };
    health_request_after_collection(previous, closed)
}

/// The health to ask for once an account was derived again, and the version it is of. Where
/// the logs could not be used, the account counts as never checked.
pub open spec fn request_after_rebuild(result: Result<RebuildOutcome, RebuildError>) -> (
    DataHealth,
    i64,
) {
    match result {
        Ok(outcome) => (outcome.request, ROLLOUT_PARSER_VERSION),
        Err(_) => (DataHealth::LegacyUnverified, 0),
    }
}

pub fn health_request_after_rebuild(result: &Result<RebuildOutcome, RebuildError>) -> (r: (
    DataHealth,
    i64,
))
    ensures
        r == request_after_rebuild(*result),
{
    match result {
        Ok(outcome) => (outcome.request, ROLLOUT_PARSER_VERSION),
        Err(_) => (DataHealth::LegacyUnverified, 0),
    }
}

impl FileBindingStatus {
    pub open spec fn name(self) -> Seq<char> {
        match self {
            FileBindingStatus::Bound => "bound"@,
            FileBindingStatus::Pending => "pending"@,
            FileBindingStatus::Quarantined => "quarantined"@,
        }
    }

    /// What a stored name stands for.
    pub open spec fn named(name: Seq<char>) -> FileBindingStatus {
        if name == "bound"@ {
            FileBindingStatus::Bound
        } else if name == "pending"@ {
            FileBindingStatus::Pending
        } else {
            FileBindingStatus::Quarantined
        }
    }

    pub fn as_str(self) -> (r: &'static str)
        ensures
            r@ == self.name(),
    {
        match self {
            FileBindingStatus::Bound => "bound",
            FileBindingStatus::Pending => "pending",
            FileBindingStatus::Quarantined => "quarantined",
        }
    }

    pub fn parse(name: &str) -> (r: FileBindingStatus)
        ensures
            r == FileBindingStatus::named(name@),
    {
        if same_text(name, "bound") {
            FileBindingStatus::Bound
        } else if same_text(name, "pending") {
            FileBindingStatus::Pending
        } else {
            FileBindingStatus::Quarantined
        }
    }
}

/// A status that is stored is read back.
pub proof fn lemma_file_binding_round_trip(value: FileBindingStatus)
    ensures
        FileBindingStatus::named(value.name()) == value,
{
    reveal_strlit("bound");
    reveal_strlit("pending");
    reveal_strlit("quarantined");
    assert("bound"@.len() == 5);
    assert("pending"@.len() == 7);
    assert("quarantined"@.len() == 11);
}

/// What is to be done follows from the version and the status on record and from whether there
/// are logs. What an earlier parser derived is set aside, unless it was only ever registered.
/// What this parser derived is done, unless it was left half-way, or found no logs where there
/// are some now. All else is derived, where there is something to derive it from.
pub proof fn lemma_plan_follows_the_record(prior: Option<(i64, DataHealth)>, has_logs: bool)
    ensures
        ({
            let plan = planned(prior, has_logs);
            let open = if has_logs {
                RebuildPlan::Rebuild
            } else {
                RebuildPlan::NoLogs
            };
            match prior {
                None => plan == open,
                Some((version, status)) => {
                    &&& 0 < version < ROLLOUT_PARSER_VERSION ==> plan == RebuildPlan::ResetHistory
                    &&& version <= 0 && status == DataHealth::LegacyUnverified ==> plan == open
                    &&& version <= 0 && status != DataHealth::LegacyUnverified ==> plan
                        == RebuildPlan::ResetHistory
                    &&& version == ROLLOUT_PARSER_VERSION ==> match status {
                        DataHealth::Rebuilding => plan == open,
                        DataHealth::LegacyUnverified => plan == if has_logs {
                            RebuildPlan::Rebuild
                        } else {
                            RebuildPlan::AlreadyDone
                        },
                        _ => plan == RebuildPlan::AlreadyDone,
                    }
                    &&& version > ROLLOUT_PARSER_VERSION ==> plan == open
                },
            }
        }),
{
}

/// No two accounts are staged under one name, and none under its own.
pub proof fn lemma_staging_names_differ(first: Seq<char>, second: Seq<char>)
    ensures
        staging_name(first) == staging_name(second) ==> first == second,
        staging_name(first) != first,
        rebuild_name(first) == rebuild_name(second) ==> first == second,
{
    let front = "__rollout_rebuild_v"@ + version_text() + "__:"@;
    let (a, b) = (staging_name(first), staging_name(second));
    assert(a.len() == front.len() + first.len());
    reveal_strlit("__rollout_rebuild_v");
    assert("__rollout_rebuild_v"@.len() > 0);
    if a == b {
        assert(first =~= a.subrange(front.len() as int, a.len() as int));
        assert(second =~= b.subrange(front.len() as int, b.len() as int));
    }
    let head = "rollout_rebuild_v"@ + version_text() + ":"@;
    let (c, d) = (rebuild_name(first), rebuild_name(second));
    if c == d {
        assert(first =~= c.subrange(head.len() as int, c.len() as int));
        assert(second =~= d.subrange(head.len() as int, d.len() as int));
    }
}

/// What was staged takes the place of what was derived before exactly where no line of it was
/// unreadable, it is not empty where there was something before, and its accounts are closed.
/// A ledger with unreadable lines is asked to be inconsistent, an empty one to be unverified,
/// and one that replaces the old to be verified.
pub proof fn lemma_staged_replaces_only_what_it_accounts_for(
    before: TurnLedger,
    staged: TurnLedger,
    after: TurnLedger,
    account_key: Seq<char>,
    now: i64,
    r: Result<RebuildOutcome, RebuildError>,
)
    requires
        settled_staging(before, staged, after, account_key, now, r),
    ensures
        ({
            let staging = staging_name(account_key);
            let unreadable = exists|i: int|
                0 <= i < staged.parse_errors@.len() && (
                #[trigger] staged.parse_errors@[i]).account_key@ == staging;
            let had_turns = exists|i: int|
                0 <= i < before.turns@.len() && (#[trigger] before.turns@[i]).account_key@
                    == account_key;
            let has_turns = exists|i: int|
                0 <= i < staged.turns@.len() && (#[trigger] staged.turns@[i]).account_key@
                    == staging;
            &&& unreadable ==> (r matches Ok(outcome) && !outcome.replaced && outcome.request
                == DataHealth::AccountingInconsistent)
            &&& !unreadable && had_turns && !has_turns ==> (r matches Ok(outcome)
                && !outcome.replaced && outcome.request == DataHealth::LegacyUnverified)
            &&& !unreadable && !(had_turns && !has_turns) && !accounts_closed(
                staged@,
                Some(staging),
            ) ==> r is Err
            &&& (r matches Ok(outcome) ==> (outcome.replaced ==> {
                &&& !unreadable
                &&& !had_turns || has_turns
                &&& accounts_closed(staged@, Some(staging))
                &&& accounts_closed(after@, Some(account_key))
                &&& outcome.request == DataHealth::Verified
            }))
        }),
{
    let staging = staging_name(account_key);
    lemma_filter_empty(staged.parse_errors@, of_this(staging));
    lemma_filter_empty(before.turns@, of_this(account_key));
    lemma_filter_empty(staged.turns@, of_this(staging));
    assert forall|i: int| 0 <= i < staged.parse_errors@.len() implies of_this::<StoredParseError>(
        staging,
    )(#[trigger] staged.parse_errors@[i]) == (staged.parse_errors@[i].account_key@ == staging) by {}
    assert forall|i: int| 0 <= i < before.turns@.len() implies of_this::<TurnUsageRecord>(
        account_key,
    )(#[trigger] before.turns@[i]) == (before.turns@[i].account_key@ == account_key) by {}
    assert forall|i: int| 0 <= i < staged.turns@.len() implies of_this::<TurnUsageRecord>(staging)(
        #[trigger] staged.turns@[i],
    ) == (staged.turns@[i].account_key@ == staging) by {}
}

/// Where what was staged does not take the place of the old, nothing of it stays and every
/// other turn and sample does.
pub proof fn lemma_refused_staging_leaves_nothing(
    before: TurnLedger,
    staged: TurnLedger,
    after: TurnLedger,
    account_key: Seq<char>,
    now: i64,
    outcome: RebuildOutcome,
)
    requires
        settled_staging(before, staged, after, account_key, now, Ok(outcome)),
        !outcome.replaced,
    ensures
        forall|turn: TurnUsageRecord| #[trigger]
            after.turns@.contains(turn) <==> staged.turns@.contains(turn) && turn.account_key@
                != staging_name(account_key),
        forall|sample: TurnTokenSample| #[trigger]
            after.samples@.contains(sample) <==> staged.samples@.contains(sample)
                && sample.account_key@ != staging_name(account_key),
{
    lemma_others_keep_exactly(staged.turns@, staging_name(account_key));
    lemma_others_keep_exactly(staged.samples@, staging_name(account_key));
}

/// Where what was staged takes the place of the old, the account's turns are exactly those that
/// were staged, with their numbers; the turns of all others are what they were.
pub proof fn lemma_replaced_turns_are_the_staged_ones(
    staged: TurnLedger,
    after: TurnLedger,
    account_key: Seq<char>,
    now: i64,
)
    requires
        replaced_by_staged(staged, after, account_key, staging_name(account_key), now),
    ensures
        forall|k: int|
            0 <= k < staged.turns@.len() && (#[trigger] staged.turns@[k]).account_key@
                == staging_name(account_key) ==> exists|i: int|
                {
                    &&& 0 <= i < after@.turns.len()
                    &&& (#[trigger] after@.turns[i]).account_key == account_key
                    &&& after@.turns[i].thread_id == staged.turns@[k].thread_id@
                    &&& after@.turns[i].turn_id == staged.turns@[k].turn_id@
                    &&& after@.turns[i].usage == staged.turns@[k].usage
                },
        forall|i: int|
            0 <= i < after@.turns.len() && (#[trigger] after@.turns[i]).account_key == account_key
                ==> exists|k: int|
                {
                    &&& 0 <= k < staged.turns@.len()
                    &&& (#[trigger] staged.turns@[k]).account_key@ == staging_name(account_key)
                    &&& after@.turns[i].thread_id == staged.turns@[k].thread_id@
                    &&& after@.turns[i].turn_id == staged.turns@[k].turn_id@
                    &&& after@.turns[i].usage == staged.turns@[k].usage
                },
{
    let staging = staging_name(account_key);
    lemma_staging_names_differ(account_key, account_key);
    let rest = rows_of_others(staged.turns@, account_key);
    let views = turn_views(rest);
    let all = turns_handed_over(views, staging, account_key);
    assert(after@.turns == all);
    assert forall|i: int| 0 <= i < views.len() implies {
        &&& views[i].account_key == staging ==> (#[trigger] all[i]) == (TurnView {
            account_key,
            ..views[i]
        })
        &&& views[i].account_key != staging ==> all[i] == views[i]
    } by {}
    assert forall|k: int|
        0 <= k < staged.turns@.len() && (#[trigger] staged.turns@[k]).account_key@
            == staging implies exists|i: int|
        {
            &&& 0 <= i < all.len()
            &&& (#[trigger] all[i]).account_key == account_key
            &&& all[i].thread_id == staged.turns@[k].thread_id@
            &&& all[i].turn_id == staged.turns@[k].turn_id@
            &&& all[i].usage == staged.turns@[k].usage
        } by {
        assert(of_another::<TurnUsageRecord>(account_key)(staged.turns@[k]));
        let i = lemma_filter_keeps(staged.turns@, of_another(account_key), k);
        assert(rest[i] == staged.turns@[k]);
        assert(views[i] == staged.turns@[k]@);
        assert(all[i].account_key == account_key);
    }
    assert forall|i: int|
        0 <= i < all.len() && (#[trigger] all[i]).account_key == account_key implies exists|k: int|
        {
            &&& 0 <= k < staged.turns@.len()
            &&& (#[trigger] staged.turns@[k]).account_key@ == staging
            &&& all[i].thread_id == staged.turns@[k].thread_id@
            &&& all[i].turn_id == staged.turns@[k].turn_id@
            &&& all[i].usage == staged.turns@[k].usage
        } by {
        let k = lemma_filter_member(staged.turns@, of_another(account_key), i);
        assert(rest[i] == staged.turns@[k]);
        assert(views[i] == staged.turns@[k]@);
        assert(staged.turns@[k].account_key@ != account_key);
        assert(all[i].account_key == account_key);
        assert(views[i].account_key == staging);
        assert(staged.turns@[k].account_key@ == staging);
    }
}

/// Setting accounts aside takes out their rows and no others.
pub proof fn lemma_only_those_accounts_are_set_aside<T: AccountRow>(
    rows: Seq<T>,
    keys: Seq<Seq<char>>,
)
    ensures
        forall|row: T| #[trigger]
            without_accounts(rows, keys).contains(row) <==> rows.contains(row) && !keys.contains(
                row.account(),
            ),
    decreases keys.len(),
{
    if keys.len() > 0 {
        let front = keys.drop_last();
        lemma_only_those_accounts_are_set_aside(rows, front);
        let before = without_accounts(rows, front);
        lemma_others_keep_exactly(before, keys.last());
        assert forall|row: T| #[trigger]
            without_accounts(rows, keys).contains(row) <==> rows.contains(row) && !keys.contains(
                row.account(),
            ) by {
            assert(before.contains(row) <==> rows.contains(row) && !front.contains(row.account()));
            let account = row.account();
            assert(keys.contains(account) <==> front.contains(account) || account == keys.last())
                by {
                assert(keys =~= front.push(keys.last()));
                if front.contains(account) {
                    let k = choose|k: int| 0 <= k < front.len() && front[k] == account;
                    assert(keys[k] == account);
                }
                if account == keys.last() {
                    assert(keys[keys.len() - 1] == account);
                }
                if keys.contains(account) && account != keys.last() {
                    let k = choose|k: int| 0 <= k < keys.len() && keys[k] == account;
                    assert(front[k] == account);
                }
            }
        }
    }
}

/// A reset of an account takes in the sources that are verified to be its own and those that
/// belong to nobody; another account's verified source, and one whose account is only
/// inferred, it leaves as they are.
pub proof fn lemma_reset_leaves_other_accounts_sources(
    source: SourceView,
    file: Option<ObservedFile>,
    account_key: Seq<char>,
    now: i64,
)
    ensures
        source.binding_status == BindingStatus::Verified && source.account_key != Some(account_key)
            ==> after_reset(source, file, account_key, now) == source && resettable(
            source,
            file,
            account_key,
            now,
        ),
        source.binding_status == BindingStatus::Inferred ==> after_reset(
            source,
            file,
            account_key,
            now,
        ) == source,
        source.binding_status == BindingStatus::Verified && source.account_key == Some(account_key)
            ==> reset_target(source, account_key),
        source.binding_status == BindingStatus::Unresolved || source.binding_status
            == BindingStatus::Quarantined ==> reset_target(source, account_key),
{
}

/// A source that a reset takes in and whose file is gone has read nothing and is nobody's, in
/// the next generation. One whose file is there is left at the end of it; it stays its
/// account's where it was verified, and is nobody's otherwise.
pub proof fn lemma_reset_source_begins_at_its_end(
    source: SourceView,
    file: Option<ObservedFile>,
    account_key: Seq<char>,
    now: i64,
)
    requires
        reset_target(source, account_key),
        resettable(source, file, account_key, now),
    ensures
        ({
            let is = after_reset(source, file, account_key, now);
            &&& is.source_id == source.source_id
            &&& is.canonical_path == source.canonical_path
            &&& is.condition == SourceCondition::HistoricalReset
            &&& source.generation < i64::MAX ==> is.generation == source.generation + 1
            &&& is.updated_at == now
            &&& file is None ==> {
                &&& is.last_offset == 0
                &&& is.last_size == 0
                &&& is.last_mtime is None
                &&& is.cursor is None
                &&& is.file_fingerprint is None
                &&& is.cursor_prefix_fingerprint is None
                &&& is.account_key is None
                &&& is.binding_status == BindingStatus::Quarantined
            }
            &&& file matches Some(found) ==> {
                &&& Some(is.last_offset) == (match passing_over(source, found, now) {
                    Some(passed) => Some(passed.last_offset),
                    None => None,
                })
                &&& is.cursor is Some
                &&& source.binding_status == BindingStatus::Verified ==> is.account_key == Some(
                    account_key,
                ) && is.binding_status == BindingStatus::Verified
                &&& source.binding_status != BindingStatus::Verified ==> is.account_key is None
                    && is.binding_status == BindingStatus::Quarantined
            }
        }),
{
}

/// A reset cuts the ties to the sources that it takes in, and no other tie.
pub proof fn lemma_reset_cuts_only_its_ties(
    links: Seq<TurnSource>,
    sources: Seq<SourceView>,
    account_key: Seq<char>,
)
    ensures
        forall|link: TurnSource| #[trigger]
            links_of_reset(links, sources, account_key).contains(link) <==> links.contains(link)
                && forall|i: int|
                0 <= i < sources.len() && reset_target(#[trigger] sources[i], account_key)
                    ==> sources[i].source_id != link.source_id@,
    decreases sources.len(),
{
    if sources.len() > 0 {
        let front = sources.drop_last();
        let last = sources.last();
        lemma_reset_cuts_only_its_ties(links, front, account_key);
        let before = links_of_reset(links, front, account_key);
        let after = links_of_reset(links, sources, account_key);
        let keep = is_of_another_source(last.source_id);
        assert forall|link: TurnSource| #[trigger]
            after.contains(link) <==> links.contains(link) && forall|i: int|
                0 <= i < sources.len() && reset_target(#[trigger] sources[i], account_key)
                    ==> sources[i].source_id != link.source_id@ by {
            let clear = forall|i: int|
                0 <= i < front.len() && reset_target(#[trigger] front[i], account_key)
                    ==> front[i].source_id != link.source_id@;
            let all_clear = forall|i: int|
                0 <= i < sources.len() && reset_target(#[trigger] sources[i], account_key)
                    ==> sources[i].source_id != link.source_id@;
            assert(before.contains(link) <==> links.contains(link) && clear);
            let hit = reset_target(last, account_key) && last.source_id == link.source_id@;
            assert(all_clear == (clear && !hit)) by {
                assert(sources[sources.len() - 1] == last);
                if all_clear {
                    assert forall|i: int|
                        0 <= i < front.len() && reset_target(
                            #[trigger] front[i],
                            account_key,
                        ) implies front[i].source_id != link.source_id@ by {
                        assert(front[i] == sources[i]);
                    }
                }
                if clear && !hit {
                    assert forall|i: int|
                        0 <= i < sources.len() && reset_target(
                            #[trigger] sources[i],
                            account_key,
                        ) implies sources[i].source_id != link.source_id@ by {
                        if i < front.len() {
                            assert(front[i] == sources[i]);
                        }
                    }
                }
            }
            if reset_target(last, account_key) {
                if after.contains(link) {
                    let at = choose|at: int| 0 <= at < after.len() && after[at] == link;
                    let from = lemma_filter_member(before, keep, at);
                    assert(before[from] == link);
                }
                if before.contains(link) && !hit {
                    let from = choose|from: int| 0 <= from < before.len() && before[from] == link;
                    assert(keep(before[from]));
                    let at = lemma_filter_keeps(before, keep, from);
                    assert(after[at] == link);
                }
            }
        }
    }
}

/// A line of a log that is not JSON is recorded under the log's path, where it begins, for the
/// account and the batch, and for no source.
pub proof fn lemma_log_error_is_recorded(
    stored: Seq<StoredErrorView>,
    error: (int, Seq<char>),
    path: Seq<char>,
    account_key: Seq<char>,
    batch_id: Seq<char>,
    now: i64,
)
    ensures
        ({
            let after = errors_of_log(stored, seq![error], path, account_key, batch_id, now);
            exists|i: int|
                {
                    &&& 0 <= i < after.len()
                    &&& (#[trigger] after[i]).file_path == path
                    &&& after[i].byte_offset == error.0
                    &&& after[i].error == error.1
                    &&& after[i].account_key == account_key
                    &&& after[i].source_id is None
                    &&& after[i].rebuild_batch_id == batch_id
                }
        }),
{
    let errors = seq![error];
    assert(errors.drop_last() =~= Seq::empty());
    assert(errors.last() == error);
    assert(errors_of_log(stored, errors.drop_last(), path, account_key, batch_id, now) == stored);
    let record = log_error(error, path, account_key, batch_id, now);
    lemma_parse_error_is_recorded(stored, record);
    let after = stored_errors_with(stored, record);
    assert(errors_of_log(stored, errors, path, account_key, batch_id, now) == after);
    let i = choose|i: int|
        {
            &&& 0 <= i < after.len()
            &&& (#[trigger] after[i]).file_path == record.file_path
            &&& after[i].byte_offset == record.byte_offset
            &&& after[i].error == record.error
            &&& after[i].account_key == record.account_key
            &&& after[i].source_id == record.source_id
            &&& after[i].rebuild_batch_id == record.rebuild_batch_id
        };
    assert(after[i].file_path == path);
}

/// After a file was read its account's data is derived only where the file is verified to be
/// the account's. What belongs to another, or to nobody that is known, is left as it is, and
/// what was set aside is not the account's.
pub proof fn lemma_only_own_files_are_derived_from(source: SourceView, account_key: Seq<char>)
    ensures
        reading_leads_to(source, account_key) == AfterReading::Derive <==> source.binding_status
            == BindingStatus::Verified && source.account_key == Some(account_key),
        reading_leads_to(source, account_key) == AfterReading::NotOwned <==> source.binding_status
            == BindingStatus::Quarantined || source.binding_status == BindingStatus::Inferred,
{
}

/// A rebuild that ended is asked for under this parser's version as it came out; one that
/// failed leaves the account unverified and under no version, to be rebuilt again.
pub proof fn lemma_failed_rebuild_is_not_done(
    outcome: RebuildOutcome,
    error: RebuildError,
    has_logs: bool,
)
    ensures
        request_after_rebuild(Ok(outcome)).0 == outcome.request,
        request_after_rebuild(Ok(outcome)).1 == ROLLOUT_PARSER_VERSION,
        request_after_rebuild(Err(error)) == (DataHealth::LegacyUnverified, 0i64),
        has_logs ==> planned(
            Some(
                (
                    request_after_rebuild(Err(error)).1,
                    request_after_rebuild(Err(error)).0,
                ),
            ),
            has_logs,
        ) == RebuildPlan::Rebuild,
{
}

/// A file that is bound stays bound to the account that it is bound to, and belongs to that one
/// alone. One that has an account without being bound to it belongs to nobody.
pub proof fn lemma_bound_file_stays_bound(
    binding: FileBindingView,
    account_key: Seq<char>,
    allow_new_binding: bool,
    seen: FileSighting,
    now: i64,
)
    requires
        binding.account_key is Some,
    ensures
        ({
            let (is, belongs) = binding_after(
                Some(binding),
                account_key,
                allow_new_binding,
                seen,
                now,
            );
            &&& is.account_key == binding.account_key
            &&& is.status == binding.status
            &&& is.reason == binding.reason
            &&& is.first_seen_at == binding.first_seen_at
            &&& belongs <==> binding.status == FileBindingStatus::Bound && binding.account_key
                == Some(account_key)
            &&& binding.status == FileBindingStatus::Bound ==> is.last_seen_at == now
                && is.last_modified_at == seen.modified_at
        }),
        !passes_over_file(Some(binding), account_key, allow_new_binding, seen),
{
}

/// A file that is seen for the first time is bound only where new bindings are allowed and
/// nothing was read of it before; any other waits.
pub proof fn lemma_new_file_is_bound_where_allowed(
    account_key: Seq<char>,
    allow_new_binding: bool,
    seen: FileSighting,
    now: i64,
)
    ensures
        ({
            let (is, belongs) = binding_after(None, account_key, allow_new_binding, seen, now);
            let bound = allow_new_binding && seen.cursor_offset is None;
            &&& belongs == bound
            &&& bound ==> is.account_key == Some(account_key) && is.status
                == FileBindingStatus::Bound
            &&& !bound ==> is.account_key is None && is.status == FileBindingStatus::Pending
            &&& is.first_seen_at == now
            &&& is.last_seen_at == now
            &&& is.last_modified_at == seen.modified_at
        }),
        !passes_over_file(None, account_key, allow_new_binding, seen),
{
}

/// A file without an account is bound to the one in use where it waits and new bindings are
/// allowed, and belongs to it exactly where it is; otherwise it goes on waiting.
pub proof fn lemma_waiting_file_is_bound_where_allowed(
    binding: FileBindingView,
    account_key: Seq<char>,
    allow_new_binding: bool,
    seen: FileSighting,
    now: i64,
)
    requires
        binding.account_key is None,
    ensures
        ({
            let (is, belongs) = binding_after(
                Some(binding),
                account_key,
                allow_new_binding,
                seen,
                now,
            );
            &&& belongs ==> is.account_key == Some(account_key) && is.status
                == FileBindingStatus::Bound
            &&& !belongs ==> is.account_key is None && is.status == binding.status && is.reason
                == binding.reason
            &&& binding.status == FileBindingStatus::Pending ==> belongs == allow_new_binding
            &&& binding.status == FileBindingStatus::Bound ==> !belongs
            &&& binding.status == FileBindingStatus::Quarantined && binding.reason is None
                ==> !belongs
            &&& is.last_seen_at == now
            &&& is.first_seen_at == binding.first_seen_at
        }),
        binding.status == FileBindingStatus::Pending ==> !passes_over_file(
            Some(binding),
            account_key,
            allow_new_binding,
            seen,
        ),
        seen.cursor_offset is Some ==> !passes_over_file(
            Some(binding),
            account_key,
            allow_new_binding,
            seen,
        ),
{
}

/// Once accounts were set aside nothing of them is left: no turn, sample, finding, parse error
/// or tie. All that is of other accounts is.
pub proof fn lemma_nothing_of_the_accounts_is_left(
    before: TurnLedger,
    after: TurnLedger,
    keys: Seq<Seq<char>>,
)
    requires
        accounts_set_aside(before, after, keys),
    ensures
        forall|turn: TurnUsageRecord| #[trigger]
            after.turns@.contains(turn) <==> before.turns@.contains(turn) && !keys.contains(
                turn.account_key@,
            ),
        forall|sample: TurnTokenSample| #[trigger]
            after.samples@.contains(sample) <==> before.samples@.contains(sample) && !keys.contains(
                sample.account_key@,
            ),
        forall|audit: TimelineAudit| #[trigger]
            after.audits@.contains(audit) <==> before.audits@.contains(audit) && !keys.contains(
                audit.account_key@,
            ),
        forall|error: StoredParseError| #[trigger]
            after.parse_errors@.contains(error) <==> before.parse_errors@.contains(error)
                && !keys.contains(error.account_key@),
        forall|link: TurnSource| #[trigger]
            after.turn_sources@.contains(link) <==> before.turn_sources@.contains(link)
                && !keys.contains(link.account_key@),
{
    lemma_only_those_accounts_are_set_aside(before.turns@, keys);
    lemma_only_those_accounts_are_set_aside(before.samples@, keys);
    lemma_only_those_accounts_are_set_aside(before.audits@, keys);
    lemma_only_those_accounts_are_set_aside(before.parse_errors@, keys);
    lemma_only_those_accounts_are_set_aside(before.turn_sources@, keys);
}

/// A ledger that was cleared of an account has none of its turns, samples, findings and parse
/// errors, and all of the others'.
pub proof fn lemma_cleared_of_the_account_alone(
    before: TurnLedger,
    after: TurnLedger,
    key: Seq<char>,
)
    requires
        cleared(before, after, key),
    ensures
        forall|turn: TurnUsageRecord| #[trigger]
            after.turns@.contains(turn) <==> before.turns@.contains(turn) && turn.account_key@
                != key,
        forall|sample: TurnTokenSample| #[trigger]
            after.samples@.contains(sample) <==> before.samples@.contains(sample)
                && sample.account_key@ != key,
        forall|audit: TimelineAudit| #[trigger]
            after.audits@.contains(audit) <==> before.audits@.contains(audit) && audit.account_key@
                != key,
        forall|error: StoredParseError| #[trigger]
            after.parse_errors@.contains(error) <==> before.parse_errors@.contains(error)
                && error.account_key@ != key,
        after.turn_sources == before.turn_sources,
{
    lemma_others_keep_exactly(before.turns@, key);
    lemma_others_keep_exactly(before.samples@, key);
    lemma_others_keep_exactly(before.audits@, key);
    lemma_others_keep_exactly(before.parse_errors@, key);
}

/// An audit for an account changes its findings and nothing else of the ledger.
pub proof fn lemma_audit_changes_only_findings(
    before: TurnLedger,
    after: TurnLedger,
    account_key: Seq<char>,
    reason: AuditReason,
    now: i64,
)
    requires
        audited_for(before, after, account_key, reason, now),
    ensures
        after.turns == before.turns,
        after.samples == before.samples,
        after.parse_errors == before.parse_errors,
        after.turn_sources == before.turn_sources,
        after@ == before@,
{
}

} // verus!
