//! Reading a source on: from its registered state and its file to what the ledger records.
use crate::binding::{
    findings_renewed, is_tied_only, ledger_handed_over,
    lemma_only_what_the_source_alone_holds_goes, lemma_removal_keeps_wf, links_of_others,
    move_source_rows, not_owned_alone, remove_source_rows,
};
use crate::collect::{
    collect_tail, error_views, lemma_newline_at, lemma_offset_stops_at_partial_line,
    lemma_partial_line_follows_a_line_feed, partial_line, rebase_tail, rebased, resume_cursor,
    run_from, run_lines, skim_lines, update_views, CollectError, Collected, ParseError, RolloutCursor, RunView,
};
use crate::collector_core::{
    audit_views, bind_source, binding_audits, bound, bound_account, file_fingerprint,
    file_prefix_fingerprint, generation_ended, generation_has_ended, prefix_fingerprint, rewound,
    BindingAudit, BindingAuditView, BindingStatus, ObservedFile, RolloutSource, SourceCondition,
    SourceView,
};
use crate::digest::fingerprint;
use crate::ledger::{
    accounts_closed, has_link, has_turn, is_turn, ledger_with, lemma_parse_error_is_recorded,
    lemma_stored_errors_with, link_views, link_views_with, names_fault, names_turn,
    stored_error_views, stored_errors_with, turn_at, turn_key, turns_with, update_link,
    AccountingError, LedgerView, LinkView, StoredErrorView, StoredParseError, TurnLedger,
    TurnSource,
};
use crate::models::{TurnUsageRecord, UNRESOLVED_PREFIX};
use crate::recorder::{
    account_views, accounts_seen, ensure_account, lemma_seen_account_is_listed, AccountRecord,
    AccountView,
};
use crate::rollout::{
    fresh_state, CursorState, CursorView, TurnTokenSample, TurnUpdate, UpdateView,
    ROLLOUT_PARSER_VERSION,
};
use crate::text::{decimal, decimal_text, joined, same_text, str_opt};
use vstd::prelude::*;

verus! {

/// The ledger after a run of updates.
pub open spec fn ledger_with_all(ledger: LedgerView, updates: Seq<UpdateView>) -> LedgerView
    decreases updates.len(),
{
    if updates.len() == 0 {
        ledger
    } else {
        ledger_with(ledger_with_all(ledger, updates.drop_last()), updates.last())
    }
}

/// The account under which a source is recorded: its own, or one that stands for the source
/// until its account is known.
pub open spec fn ledger_account(source: SourceView) -> Seq<char> {
    match bound_account(source) {
        Some(account) => account,
        None => UNRESOLVED_PREFIX@ + source.source_id,
    }
}

/// The source came back after history was set aside: what it holds is passed over.
pub open spec fn passes_over(source: SourceView, file: ObservedFile) -> bool {
    &&& source.binding_status == BindingStatus::Quarantined || source.binding_status
        == BindingStatus::Unresolved
    &&& source.condition == SourceCondition::HistoricalReset
    &&& source.last_offset == 0
    &&& file.bytes@.len() > 0
}

/// The stored cursor of a source, as far as it can be read on from.
pub open spec fn start_state(source: SourceView, file: ObservedFile) -> (CursorView, int) {
    match source.cursor {
        Some(state) => if state.parser_version == ROLLOUT_PARSER_VERSION && source.last_offset
            <= file.bytes@.len() {
            (state, source.last_offset as int)
        } else {
            (fresh_state(), 0)
        },
        None => (fresh_state(), 0),
    }
}

/// The bytes of a file from an offset on.
pub open spec fn tail_of(file: ObservedFile, offset: int) -> Seq<u8> {
    file.bytes@.subrange(offset, file.bytes@.len() as int)
}

/// A source after its file was read up to an offset.
pub open spec fn read_to(
    source: SourceView,
    file: ObservedFile,
    state: CursorView,
    offset: int,
    now: i64,
) -> SourceView {
    SourceView {
        last_offset: offset as u64,
        last_size: file.bytes@.len() as u64,
        last_mtime: Some(
            match file.modified_at {
                Some(at) => at,
                None => now,
            },
        ),
        cursor: Some(state),
        file_fingerprint: Some(fingerprint(file.bytes@)),
        cursor_prefix_fingerprint: Some(prefix_fingerprint(file.bytes@, offset)),
        parser_version: ROLLOUT_PARSER_VERSION,
        updated_at: now,
        ..source
    }
}

/// A source that was passed over: it goes on as one that was set aside.
pub open spec fn passed_over(source: SourceView, now: i64) -> SourceView {
    SourceView {
        generation: crate::arith::clamp_i64(source.generation + 1) as i64,
        condition: SourceCondition::HistoricalReset,
        last_error: None,
        last_error_at: None,
        updated_at: now,
        ..source
    }
}

/// A source after it was read without fault. One that is not bound says so.
pub open spec fn settled(source: SourceView, now: i64) -> SourceView {
    let verified = source.binding_status == BindingStatus::Verified;
    let named = |found: Option<Seq<char>>, known: Option<Seq<char>>|
        match found {
            Some(name) => Some(name),
            None => known,
        };
    SourceView {
        session_id: match source.cursor {
            Some(state) => named(state.session_id, source.session_id),
            None => source.session_id,
        },
        thread_id: match source.cursor {
            Some(state) => named(state.thread_id, source.thread_id),
            None => source.thread_id,
        },
        account_key: if verified {
            source.account_key
        } else {
            None
        },
        binding_status: if verified {
            BindingStatus::Verified
        } else {
            BindingStatus::Unresolved
        },
        binding_source: if verified {
            source.binding_source
        } else {
            "unresolved"@
        },
        binding_confidence: if verified {
            source.binding_confidence
        } else {
            "unknown"@
        },
        parser_version: ROLLOUT_PARSER_VERSION,
        condition: SourceCondition::Healthy,
        updated_at: now,
        first_activity_at: match source.first_activity_at {
            Some(at) => Some(at),
            None => if source.last_offset > 0 {
                Some(now)
            } else {
                None
            },
        },
        last_activity_at: if source.last_offset > 0 {
            Some(now)
        } else {
            source.last_activity_at
        },
        ..source
    }
}

/// Tokens were added to a source that had been read before, in the same generation. Only
/// such an addition is evidence of who is using it: a file that is new, or that replaced
/// another, can be history from end to end.
pub open spec fn is_live_tail(
    before_offset: int,
    len: int,
    generation_changed: bool,
    changed: bool,
) -> bool {
    before_offset > 0 && len > before_offset && !generation_changed && changed
}

pub fn live_tail(before_offset: u64, len: u64, generation_changed: bool, changed: bool) -> (r: bool)
    ensures
        r == is_live_tail(before_offset as int, len as int, generation_changed, changed),
{
    before_offset > 0 && len > before_offset && !generation_changed && changed
}

/// Why a source could not be read on.
#[derive(Debug)]
pub enum CatchUpError {
    InvalidUtf8,
    Accounting(AccountingError),
}

/// What came of reading a source on.
#[derive(Clone, Copy, Debug, PartialEq, Eq, Structural)]
pub struct CatchUp {
    /// Tokens were recorded.
    pub changed: bool,
    /// The file was read from its front again.
    pub generation_changed: bool,
    /// The source was bound to the active account.
    pub newly_bound: bool,
}

fn ledger_account_of(source: &RolloutSource) -> (r: String)
    ensures
        r@ == ledger_account(source@),
{
    if source.binding_status == BindingStatus::Verified {
        if let Some(account) = &source.account_key {
            return account.clone();
        }
    }
    joined(UNRESOLVED_PREFIX, source.source_id.as_str())
}

/// Every source's stored cursor can be read on from.
pub open spec fn cursors_wf(sources: Seq<RolloutSource>) -> bool {
    forall|i: int| 0 <= i < sources.len() ==> (#[trigger] sources[i]).cursor_wf()
}

impl RolloutSource {
    /// The stored cursor can be read on from.
    pub open spec fn cursor_wf(self) -> bool {
        self.cursor matches Some(state) ==> state@.wf()
    }

    fn read_up_to(&mut self, file: &ObservedFile, cursor: RolloutCursor, now: i64)
        ensures
            final(self)@ == read_to(
                old(self)@,
                *file,
                cursor.state@,
                cursor.byte_offset as int,
                now,
            ),
    {
        self.last_size = file.bytes.len() as u64;
        self.last_mtime = Some(
            match file.modified_at {
                Some(at) => at,
                None => now,
            },
        );
        self.file_fingerprint = Some(file_fingerprint(&file.bytes));
        self.cursor_prefix_fingerprint = Some(
            file_prefix_fingerprint(&file.bytes, cursor.byte_offset),
        );
        self.last_offset = cursor.byte_offset;
        self.cursor = Some(cursor.state);
        self.parser_version = ROLLOUT_PARSER_VERSION;
        self.updated_at = now;
    }

    fn pass_over(&mut self, now: i64)
        ensures
            final(self)@ == passed_over(old(self)@, now),
    {
        self.generation = crate::arith::saturating_add(self.generation, 1);
        self.condition = SourceCondition::HistoricalReset;
        self.last_error = None;
        self.last_error_at = None;
        self.updated_at = now;
    }

    fn settle(&mut self, now: i64)
        ensures
            final(self)@ == settled(old(self)@, now),
    {
        let (session, thread) = match &self.cursor {
            Some(state) => (
                match &state.session_id {
                    Some(id) => Some(id.clone()),
                    None => None,
                },
                match &state.thread_id {
                    Some(id) => Some(id.clone()),
                    None => None,
                },
            ),
            None => (None, None),
        };
        if session.is_some() {
            self.session_id = session;
        }
        if thread.is_some() {
            self.thread_id = thread;
        }
        if self.binding_status != BindingStatus::Verified {
            self.account_key = None;
            self.binding_status = BindingStatus::Unresolved;
            self.binding_source = "unresolved".to_owned();
            self.binding_confidence = "unknown".to_owned();
        }
        self.parser_version = ROLLOUT_PARSER_VERSION;
        self.condition = SourceCondition::Healthy;
        self.updated_at = now;
        if self.last_offset > 0 {
            if self.first_activity_at.is_none() {
                self.first_activity_at = Some(now);
            }
            self.last_activity_at = Some(now);
        }
    }
}

fn tail_bytes(file: &ObservedFile, offset: u64) -> (r: Vec<u8>)
    requires
        offset <= file.bytes@.len(),
    ensures
        r@ == tail_of(*file, offset as int),
{
    let from: usize = offset as usize;
    let mut r: Vec<u8> = Vec::new();
    let mut i: usize = from;
    while i < file.bytes.len()
        invariant
            from <= i <= file.bytes.len(),
            r@ == file.bytes@.subrange(from as int, i as int),
        decreases file.bytes.len() - i,
    {
        r.push(file.bytes[i]);
        i += 1;
        assert(file.bytes@.subrange(from as int, i as int) =~= file.bytes@.subrange(
            from as int,
            i - 1,
        ).push(file.bytes@[i - 1]));
    }
    r
}

// ---------------------------------------------------------------------------
// Recording a run
// ---------------------------------------------------------------------------

/// The links after a run of updates of a source.
pub open spec fn links_after(
    links: Seq<LinkView>,
    updates: Seq<UpdateView>,
    source_id: Seq<char>,
) -> Seq<LinkView>
    decreases updates.len(),
{
    if updates.len() == 0 {
        links
    } else {
        link_views_with(
            links_after(links, updates.drop_last(), source_id),
            update_link(updates.last(), source_id),
        )
    }
}

/// The accounts after a run of updates: each marks the account as seen at its own time.
pub open spec fn accounts_of_run(
    accounts: Seq<AccountView>,
    updates: Seq<UpdateView>,
    account_key: Seq<char>,
) -> Seq<AccountView>
    decreases updates.len(),
{
    if updates.len() == 0 {
        accounts
    } else {
        accounts_seen(
            accounts_of_run(accounts, updates.drop_last(), account_key),
            account_key,
            updates.last().seen_at,
        )
    }
}

/// Where and for whom the lines of a run are recorded.
pub struct RunContext<'a> {
    pub source_id: &'a str,
    pub file_path: &'a str,
    pub account_key: &'a str,
    pub batch_id: &'a str,
}

/// The record of a line that was not JSON.
pub open spec fn error_record(error: (int, Seq<char>), context: RunContext, now: i64) -> StoredErrorView {
    StoredErrorView {
        file_path: context.file_path@,
        byte_offset: error.0,
        error: error.1,
        account_key: context.account_key@,
        source_id: Some(context.source_id@),
        rebuild_batch_id: context.batch_id@,
        first_seen_at: now as int,
    }
}

/// The parse errors after those of a run.
pub open spec fn errors_after(
    stored: Seq<StoredErrorView>,
    errors: Seq<(int, Seq<char>)>,
    context: RunContext,
    now: i64,
) -> Seq<StoredErrorView>
    decreases errors.len(),
{
    if errors.len() == 0 {
        stored
    } else {
        stored_errors_with(
            errors_after(stored, errors.drop_last(), context, now),
            error_record(errors.last(), context, now),
        )
    }
}

fn record_updates(
    ledger: &mut TurnLedger,
    accounts: &mut Vec<AccountRecord>,
    updates: Vec<TurnUpdate>,
    source_id: &str,
    account_key: &str,
)
    requires
        old(ledger)@.wf(),
    ensures
        account_views(final(accounts)@) == accounts_of_run(
            account_views(old(accounts)@),
            update_views(updates@),
            account_key@,
        ),
        final(ledger)@ == ledger_with_all(old(ledger)@, update_views(updates@)),
        final(ledger)@.wf(),
        link_views(final(ledger).turn_sources@) == links_after(
            link_views(old(ledger).turn_sources@),
            update_views(updates@),
            source_id@,
        ),
        final(ledger).audits == old(ledger).audits,
        final(ledger).parse_errors == old(ledger).parse_errors,
{
    let ghost all = update_views(updates@);
    for update in iter: updates
        invariant
            update_views(iter.seq()) == all,
            ledger@.wf(),
            ledger@ == ledger_with_all(old(ledger)@, all.take(iter.index())),
            link_views(ledger.turn_sources@) == links_after(
                link_views(old(ledger).turn_sources@),
                all.take(iter.index()),
                source_id@,
            ),
            account_views(accounts@) == accounts_of_run(
                account_views(old(accounts)@),
                all.take(iter.index()),
                account_key@,
            ),
            ledger.audits == old(ledger).audits,
            ledger.parse_errors == old(ledger).parse_errors,
    {
        proof {
            let i = iter.index();
            assert(all[i] == update@);
            assert(all.take(i + 1).drop_last() =~= all.take(i));
            assert(all.take(i + 1).last() == update@);
        }
        ensure_account(accounts, account_key, update.seen_at);
        ledger.record_from_source(update, source_id);
    }
    assert(all.take(all.len() as int) =~= all);
}

fn record_errors(ledger: &mut TurnLedger, errors: Vec<ParseError>, context: &RunContext, now: i64)
    ensures
        stored_error_views(final(ledger).parse_errors@) == errors_after(
            stored_error_views(old(ledger).parse_errors@),
            error_views(errors@),
            *context,
            now,
        ),
        final(ledger).turns == old(ledger).turns,
        final(ledger).samples == old(ledger).samples,
        final(ledger).audits == old(ledger).audits,
        final(ledger).turn_sources == old(ledger).turn_sources,
{
    let ghost all = error_views(errors@);
    for error in iter: errors
        invariant
            error_views(iter.seq()) == all,
            stored_error_views(ledger.parse_errors@) == errors_after(
                stored_error_views(old(ledger).parse_errors@),
                all.take(iter.index()),
                *context,
                now,
            ),
            ledger.turns == old(ledger).turns,
            ledger.samples == old(ledger).samples,
            ledger.audits == old(ledger).audits,
            ledger.turn_sources == old(ledger).turn_sources,
    {
        proof {
            let i = iter.index();
            assert(all[i] == (error.byte_offset as int, error.error@));
            assert(all.take(i + 1).drop_last() =~= all.take(i));
            assert(all.take(i + 1).last() == all[i]);
        }
        let row = StoredParseError {
            file_path: context.file_path.to_owned(),
            byte_offset: error.byte_offset,
            error: error.error,
            account_key: context.account_key.to_owned(),
            source_id: Some(context.source_id.to_owned()),
            rebuild_batch_id: context.batch_id.to_owned(),
            first_seen_at: now,
        };
        proof {
            lemma_stored_errors_with(ledger.parse_errors@, row);
        }
        ledger.record_parse_error(row);
    }
    assert(all.take(all.len() as int) =~= all);
}

// ---------------------------------------------------------------------------
// Binding a source by what is added to it
// ---------------------------------------------------------------------------

/// What a source recorded without an account was handed to one, and that account was audited
/// anew.
pub open spec fn rows_handed_over(
    before: TurnLedger,
    after: TurnLedger,
    source_id: Seq<char>,
    account_key: Seq<char>,
    now: i64,
) -> bool {
    exists|moved: TurnLedger|
        {
            &&& #[trigger] ledger_handed_over(
                before,
                moved,
                source_id,
                UNRESOLVED_PREFIX@ + source_id,
                account_key,
            )
            &&& after.turns == moved.turns
            &&& after.samples == moved.samples
            &&& after.turn_sources == moved.turn_sources
            &&& after.parse_errors == moved.parse_errors
            &&& after.audits@ == findings_renewed(moved, account_key, now)
        }
}

/// With what the source recorded, the account's accounts would not be closed.
pub open spec fn cannot_hand_over(
    ledger: TurnLedger,
    source_id: Seq<char>,
    account_key: Seq<char>,
    error: AccountingError,
) -> bool {
    exists|moved: TurnLedger|
        {
            &&& #[trigger] ledger_handed_over(
                ledger,
                moved,
                source_id,
                UNRESOLVED_PREFIX@ + source_id,
                account_key,
            )
            &&& !accounts_closed(moved@, Some(account_key))
            &&& names_fault(error, moved@, Some(account_key))
        }
}

/// What binding a source by its activity does.
pub open spec fn bound_by_activity(
    before: Books,
    after: Books,
    account_key: Seq<char>,
    evidence: Seq<char>,
    now: i64,
    r: Result<bool, AccountingError>,
) -> bool {
    if before.source@.binding_status == BindingStatus::Verified {
        &&& r == Ok::<bool, AccountingError>(
            before.source@.account_key == Some(account_key),
        )
        &&& after.source == before.source
        &&& after.ledger == before.ledger
        &&& after.audits == before.audits
        &&& after.accounts == before.accounts
    } else {
        match r {
            Ok(result) => {
                &&& result
                &&& after.source@ == bound(
                    before.source@,
                    account_key,
                    "retroactive_activity"@,
                    "high"@,
                    now,
                )
                &&& audit_views(after.audits) == binding_audits(
                    audit_views(before.audits),
                    before.source@,
                    account_key,
                    "retroactive_binding"@,
                    Some(evidence),
                    now,
                )
                &&& account_views(after.accounts) == accounts_seen(
                    account_views(before.accounts),
                    account_key,
                    now as int,
                )
                &&& accounts_closed(after.ledger@, Some(account_key))
                &&& rows_handed_over(
                    before.ledger,
                    after.ledger,
                    before.source@.source_id,
                    account_key,
                    now,
                )
            },
            Err(error) => {
                &&& after.source == before.source
                &&& after.ledger == before.ledger
                &&& after.audits == before.audits
                &&& after.accounts == before.accounts
                &&& cannot_hand_over(before.ledger, before.source@.source_id, account_key, error)
            },
        }
    }
}

/// Hands everything that a source recorded to an account, and binds the source to it. A
/// source with a verified binding stays as it is; the result is whether that is to this
/// account. Where the account's accounts would not be closed, nothing changes.
pub fn retroactively_bind_source(
    source: &mut RolloutSource,
    ledger: &mut TurnLedger,
    audits: &mut Vec<BindingAudit>,
    accounts: &mut Vec<AccountRecord>,
    account_key: &str,
    evidence: &str,
    now: i64,
) -> (r: Result<bool, AccountingError>)
    requires
        old(ledger)@.wf(),
    ensures
        final(ledger)@.wf(),
        old(source).cursor_wf() ==> final(source).cursor_wf(),
        bound_by_activity(
            (Books {
                source: *old(source),
                ledger: *old(ledger),
                audits: old(audits)@,
                accounts: old(accounts)@,
            }),
            (Books {
                source: *final(source),
                ledger: *final(ledger),
                audits: final(audits)@,
                accounts: final(accounts)@,
            }),
            account_key@,
            evidence@,
            now,
            r,
        ),
{
    if source.binding_status == BindingStatus::Verified {
        return Ok(
            match &source.account_key {
                Some(account) => same_text(account.as_str(), account_key),
                None => false,
            },
        );
    }
    let ghost start = *ledger;
    let ghost id = source@.source_id;
    let unresolved = joined(UNRESOLVED_PREFIX, source.source_id.as_str());
    let outcome = move_source_rows(
        ledger,
        source.source_id.as_str(),
        unresolved.as_str(),
        account_key,
        now,
    );
    proof {
        assert(unresolved@ == UNRESOLVED_PREFIX@ + id);
        if outcome is Ok {
            assert(rows_handed_over(start, *ledger, id, account_key@, now));
        } else {
            assert(cannot_hand_over(start, id, account_key@, outcome->Err_0));
        }
    }
    match outcome {
        Ok(()) => {},
        Err(error) => {
            return Err(error);
        },
    }
    ensure_account(accounts, account_key, now);
    let result = bind_source(
        source,
        audits,
        account_key,
        "retroactive_activity",
        "high",
        "retroactive_binding",
        Some(evidence.to_owned()),
        now,
    );
    Ok(result)
}

// ---------------------------------------------------------------------------
// Catching up
// ---------------------------------------------------------------------------

/// Sets a source whose generation has ended back to the front of its file, without the rows
/// that it alone accounts for: a replacement that is read from its front doubles nothing.
/// The result is whether the generation had ended.
pub fn prepare_source_cursor(
    source: &mut RolloutSource,
    ledger: &mut TurnLedger,
    file: &ObservedFile,
    now: i64,
) -> (r: bool)
    ensures
        r == generation_ended(old(source)@, *file),
        final(source)@ == if r {
            rewound(old(source)@, now)
        } else {
            old(source)@
        },
        old(source).cursor_wf() ==> final(source).cursor_wf(),
        if r {
            &&& final(ledger).samples@ == not_owned_alone(
                old(ledger).samples@,
                old(ledger).turn_sources@,
                old(source)@.source_id,
            )
            &&& final(ledger).turns@ == not_owned_alone(
                old(ledger).turns@,
                old(ledger).turn_sources@,
                old(source)@.source_id,
            )
            &&& final(ledger).audits@ == not_owned_alone(
                old(ledger).audits@,
                old(ledger).turn_sources@,
                old(source)@.source_id,
            )
            &&& final(ledger).turn_sources@ == links_of_others(
                old(ledger).turn_sources@,
                old(source)@.source_id,
            )
            &&& final(ledger).parse_errors == old(ledger).parse_errors
        } else {
            *final(ledger) == *old(ledger)
        },
        old(ledger)@.wf() ==> final(ledger)@.wf(),
{
    if generation_has_ended(source, file) {
        let ghost before = *ledger;
        remove_source_rows(ledger, source.source_id.as_str());
        proof {
            if before@.wf() {
                lemma_removal_keeps_wf(before, *ledger, source@.source_id);
            }
        }
        source.rewind(now);
        true
    } else {
        false
    }
}

/// What reading a source on gives: the source, and the run of its lines. A file that was
/// read to its end before gives nothing new.
pub open spec fn read_on(
    source: SourceView,
    file: ObservedFile,
    account_key: Seq<char>,
    now: i64,
) -> Option<(SourceView, RunView)> {
    let (state, offset) = start_state(source, file);
    if file.bytes@.len() == offset {
        Some((source, run_from(state, offset)))
    } else {
        match run_lines(run_from(state, offset), tail_of(file, offset), account_key, now) {
            Some(run) => Some((read_to(source, file, run.state, run.offset, now), run)),
            None => None,
        }
    }
}

/// A source after its file could not be read.
pub open spec fn faulted(source: SourceView, now: i64) -> SourceView {
    SourceView {
        condition: SourceCondition::Error,
        last_error: Some("stream did not contain valid UTF-8"@),
        last_error_at: Some(now),
        updated_at: now,
        ..source
    }
}

/// The batch under which a run of the collector records its errors.
pub open spec fn collector_batch(now: i64) -> Seq<char> {
    "collector:"@ + decimal(ROLLOUT_PARSER_VERSION as int) + ":"@ + decimal(now as int)
}

/// The evidence on which an addition binds a source.
pub open spec fn tail_evidence() -> Seq<char> {
    "new token content observed while account evidence was online"@
}

/// The account that an addition binds a source to, where it does.
pub open spec fn binds_to(
    source: SourceView,
    file: ObservedFile,
    generation_changed: bool,
    changed: bool,
    active_account: Option<Seq<char>>,
    allow_new_binding: bool,
) -> Option<Seq<char>> {
    if source.binding_status != BindingStatus::Verified && allow_new_binding && is_live_tail(
        source.last_offset as int,
        file.bytes@.len() as int,
        generation_changed,
        changed,
    ) {
        active_account
    } else {
        None
    }
}

/// `after` is the ledger `before` with a run recorded.
pub open spec fn run_recorded(
    before: TurnLedger,
    after: TurnLedger,
    run: RunView,
    source: SourceView,
    file: ObservedFile,
    now: i64,
) -> bool {
    &&& after@ == ledger_with_all(before@, run.updates)
    &&& link_views(after.turn_sources@) == links_after(
        link_views(before.turn_sources@),
        run.updates,
        source.source_id,
    )
    &&& errors_recorded(
        before.parse_errors@,
        after.parse_errors@,
        run.errors,
        file.raw_path@,
        ledger_account(source),
        source.source_id,
        now,
    )
    &&& after.audits == before.audits
}

/// `after` are the parse errors `before` with those of a run recorded.
pub open spec fn errors_recorded(
    before: Seq<StoredParseError>,
    after: Seq<StoredParseError>,
    errors: Seq<(int, Seq<char>)>,
    file_path: Seq<char>,
    account_key: Seq<char>,
    source_id: Seq<char>,
    now: i64,
) -> bool {
    exists|context: RunContext|
        {
            &&& context.source_id@ == source_id
            &&& context.file_path@ == file_path
            &&& context.account_key@ == account_key
            &&& context.batch_id@ == collector_batch(now)
            &&& stored_error_views(after) == #[trigger] errors_after(
                stored_error_views(before),
                errors,
                context,
                now,
            )
        }
}

/// The audit of a source that was set aside, where it has none yet.
pub open spec fn set_aside_audits(
    audits: Seq<BindingAuditView>,
    source: SourceView,
    now: i64,
) -> Seq<BindingAuditView> {
    if source.binding_status == BindingStatus::Verified || (exists|i: int|
        0 <= i < audits.len() && (#[trigger] audits[i]).source_id == source.source_id
            && audits[i].reason == "historical_reset_quarantine"@) {
        audits
    } else {
        audits.push(
            BindingAuditView {
                source_id: source.source_id,
                old_account_key: source.account_key,
                new_account_key: None,
                old_status: Some(source.binding_status),
                new_status: BindingStatus::Quarantined,
                reason: "historical_reset_quarantine"@,
                evidence: Some("legacy/non-verified source was rebased to its durable tail"@),
                changed_at: now,
            },
        )
    }
}

/// Records that a source was set aside, once.
pub fn record_historical_reset_quarantine(
    audits: &mut Vec<BindingAudit>,
    source: &RolloutSource,
    now: i64,
)
    ensures
        audit_views(final(audits)@) == set_aside_audits(audit_views(old(audits)@), source@, now),
{
    if source.binding_status == BindingStatus::Verified {
        return;
    }
    let ghost views = audit_views(audits@);
    let mut i: usize = 0;
    while i < audits.len()
        invariant
            i <= audits.len(),
            audits@ == old(audits)@,
            views == audit_views(audits@),
            forall|k: int|
                0 <= k < i ==> !((#[trigger] views[k]).source_id == source@.source_id
                    && views[k].reason == "historical_reset_quarantine"@),
        decreases audits.len() - i,
    {
        if same_text(audits[i].source_id.as_str(), source.source_id.as_str()) && same_text(
            audits[i].reason.as_str(),
            "historical_reset_quarantine",
        ) {
            assert(views[i as int].source_id == source@.source_id);
            return;
        }
        i += 1;
    }
    let audit = BindingAudit {
        source_id: source.source_id.clone(),
        old_account_key: match &source.account_key {
            Some(account) => Some(account.clone()),
            None => None,
        },
        new_account_key: None,
        old_status: Some(source.binding_status),
        new_status: BindingStatus::Quarantined,
        reason: "historical_reset_quarantine".to_owned(),
        evidence: Some("legacy/non-verified source was rebased to its durable tail".to_owned()),
        changed_at: now,
    };
    let ghost view = audit@;
    audits.push(audit);
    assert(audit_views(audits@) =~= views.push(view));
}

/// Where passing a source over begins: where it was left, or at the front of a file that
/// has become shorter than that.
pub open spec fn pass_start(source: SourceView, file: ObservedFile) -> (CursorView, int) {
    if source.last_offset > file.bytes@.len() {
        (fresh_state(), 0)
    } else {
        (
            match source.cursor {
                Some(state) => state,
                None => fresh_state(),
            },
            source.last_offset as int,
        )
    }
}

/// What passing a source over gives.
pub open spec fn passing_over(
    source: SourceView,
    file: ObservedFile,
    now: i64,
) -> Option<SourceView> {
    let (state, start) = pass_start(source, file);
    match skim_lines(state, start, tail_of(file, start), now) {
        Some((reached, offset)) => Some(
            passed_over(read_to(source, file, rebased(reached, now), offset, now), now),
        ),
        None => None,
    }
}

/// Passes over what a source holds: nothing of it is recorded, and what is added from here
/// on counts from zero.
pub fn advance_source_cursor_without_persisting(
    source: &mut RolloutSource,
    audits: &mut Vec<BindingAudit>,
    file: &ObservedFile,
    now: i64,
) -> (r: Result<(), CollectError>)
    requires
        old(source).cursor_wf(),
    ensures
        match (r, passing_over(old(source)@, *file, now)) {
            (Ok(()), Some(after)) => {
                &&& final(source)@ == after
                &&& final(source).cursor_wf()
                &&& audit_views(final(audits)@) == set_aside_audits(
                    audit_views(old(audits)@),
                    after,
                    now,
                )
            },
            (Err(_), None) => {
                &&& *final(source) == *old(source)
                &&& final(audits)@ == old(audits)@
            },
            _ => false,
        },
{
    let cursor = if source.last_offset > file.bytes.len() as u64 {
        RolloutCursor { byte_offset: 0, state: CursorState::fresh() }
    } else {
        RolloutCursor {
            byte_offset: source.last_offset,
            state: match &source.cursor {
                Some(state) => crate::collector_core::copy_state(state),
                None => CursorState::fresh(),
            },
        }
    };
    let account = ledger_account_of(source);
    let tail = tail_bytes(file, cursor.byte_offset);
    match rebase_tail(cursor, &tail, account.as_str(), now) {
        Ok(cursor) => {
            source.read_up_to(file, cursor, now);
            source.pass_over(now);
            record_historical_reset_quarantine(audits, source, now);
            Ok(())
        },
        Err(error) => Err(error),
    }
}

fn batch_text(now: i64) -> (r: String)
    ensures
        r@ == collector_batch(now),
{
    let mut r = "collector:".to_owned();
    r.append(decimal_text(ROLLOUT_PARSER_VERSION).as_str());
    r.append(":");
    r.append(decimal_text(now).as_str());
    r
}

/// Reads a source on and records what was added to it, and when that shows its account to have
/// been in use. The result is whether tokens were added.
pub fn collect_one_for_source(
    source: &mut RolloutSource,
    ledger: &mut TurnLedger,
    accounts: &mut Vec<AccountRecord>,
    file: &ObservedFile,
    now: i64,
) -> (r: Result<bool, CollectError>)
    requires
        old(source).cursor_wf(),
        old(ledger)@.wf(),
    ensures
        final(ledger)@.wf(),
        match (r, read_on(old(source)@, *file, ledger_account(old(source)@), now)) {
            (Ok(changed), Some((after, run))) => {
                &&& changed == run.changed
                &&& final(source)@ == after
                &&& final(source).cursor_wf()
                &&& run_recorded(*old(ledger), *final(ledger), run, old(source)@, *file, now)
                &&& account_views(final(accounts)@) == accounts_of_run(
                    account_views(old(accounts)@),
                    run.updates,
                    ledger_account(old(source)@),
                )
            },
            (Err(_), None) => {
                &&& final(source)@ == faulted(old(source)@, now)
                &&& final(source).cursor_wf()
                &&& *final(ledger) == *old(ledger)
                &&& final(accounts)@ == old(accounts)@
            },
            _ => false,
        },
{
    let account = ledger_account_of(source);
    let batch = batch_text(now);
    let len: u64 = file.bytes.len() as u64;
    let stored = match &source.cursor {
        Some(state) => Some(
            RolloutCursor {
                byte_offset: source.last_offset,
                state: crate::collector_core::copy_state(state),
            },
        ),
        None => None,
    };
    let cursor = resume_cursor(stored, len);
    let ghost start = cursor.state@;
    let ghost offset = cursor.byte_offset as int;
    assert((start, offset) == start_state(source@, *file));
    let source_id = source.source_id.clone();
    let context = RunContext {
        source_id: source_id.as_str(),
        file_path: file.raw_path.as_str(),
        account_key: account.as_str(),
        batch_id: batch.as_str(),
    };
    if cursor.byte_offset == len {
        proof {
            assert(errors_after(
                stored_error_views(ledger.parse_errors@),
                Seq::empty(),
                context,
                now,
            ) == stored_error_views(ledger.parse_errors@));
        }
        return Ok(false);
    }
    let tail = tail_bytes(file, cursor.byte_offset);
    match collect_tail(cursor, &tail, account.as_str(), now) {
        Ok(collected) => {
            let Collected { cursor, changed, updates, errors } = collected;
            record_updates(ledger, accounts, updates, source_id.as_str(), account.as_str());
            record_errors(ledger, errors, &context, now);
            source.read_up_to(file, cursor, now);
            Ok(changed)
        },
        Err(error) => {
            source.condition = SourceCondition::Error;
            source.last_error = Some("stream did not contain valid UTF-8".to_owned());
            source.last_error_at = Some(now);
            source.updated_at = now;
            Err(error)
        },
    }
}

/// `after` is the ledger `before` without the rows of a generation that ended.
pub open spec fn ledger_prepared(
    before: TurnLedger,
    after: TurnLedger,
    source_id: Seq<char>,
    ended: bool,
) -> bool {
    if ended {
        &&& after.samples@ == not_owned_alone(before.samples@, before.turn_sources@, source_id)
        &&& after.turns@ == not_owned_alone(before.turns@, before.turn_sources@, source_id)
        &&& after.audits@ == not_owned_alone(before.audits@, before.turn_sources@, source_id)
        &&& after.turn_sources@ == links_of_others(before.turn_sources@, source_id)
        &&& after.parse_errors == before.parse_errors
    } else {
        after == before
    }
}

/// The source once its generation is settled.
pub open spec fn current_generation(source: SourceView, file: ObservedFile, now: i64) -> SourceView {
    if generation_ended(source, file) {
        rewound(source, now)
    } else {
        source
    }
}

/// The ledger after a source was caught up: prepared, with the run recorded, and with the
/// rows handed over where the source was bound.
pub open spec fn ledger_caught_up(
    before: TurnLedger,
    after: TurnLedger,
    source: SourceView,
    file: ObservedFile,
    bound_to: Option<Seq<char>>,
    now: i64,
) -> bool {
    let current = current_generation(source, file, now);
    let ended = generation_ended(source, file);
    exists|prepared: TurnLedger, recorded: TurnLedger|
        {
            &&& #[trigger] ledger_prepared(before, prepared, source.source_id, ended)
            &&& #[trigger] ledger_read(prepared, recorded, current, file, now)
            &&& match bound_to {
                Some(account) => rows_handed_over(recorded, after, source.source_id, account, now),
                None => after == recorded,
            }
        }
}

/// `after` is the ledger `before` with what was added to the source.
pub open spec fn ledger_read(
    before: TurnLedger,
    after: TurnLedger,
    source: SourceView,
    file: ObservedFile,
    now: i64,
) -> bool {
    if passes_over(source, file) {
        after == before
    } else {
        match read_on(source, file, ledger_account(source), now) {
            Some((_, run)) => run_recorded(before, after, run, source, file, now),
            None => after == before,
        }
    }
}

/// Everything that reading a source touches.
pub struct Books {
    pub source: RolloutSource,
    pub ledger: TurnLedger,
    pub audits: Seq<BindingAudit>,
    pub accounts: Seq<AccountRecord>,
}

/// What reading a source on does.
pub open spec fn caught_up(
    before: Books,
    after: Books,
    file: ObservedFile,
    active_account: Option<Seq<char>>,
    allow_new_binding: bool,
    now: i64,
    r: Result<CatchUp, CatchUpError>,
) -> bool {
    let ended = generation_ended(before.source@, file);
    let current = current_generation(before.source@, file, now);
    if passes_over(current, file) {
        match (r, passing_over(current, file, now)) {
            (Ok(done), Some(reached)) => {
                &&& done == (CatchUp {
                    changed: false,
                    generation_changed: ended,
                    newly_bound: false,
                })
                &&& after.source@ == reached
                &&& after.accounts == before.accounts
                &&& audit_views(after.audits) == set_aside_audits(
                    audit_views(before.audits),
                    reached,
                    now,
                )
                &&& ledger_caught_up(
                    before.ledger,
                    after.ledger,
                    before.source@,
                    file,
                    None,
                    now,
                )
            },
            (Err(CatchUpError::InvalidUtf8), None) => {
                &&& after.source@ == current
                &&& after.accounts == before.accounts
                &&& after.audits == before.audits
                &&& ledger_caught_up(
                    before.ledger,
                    after.ledger,
                    before.source@,
                    file,
                    None,
                    now,
                )
            },
            _ => false,
        }
    } else {
        match read_on(current, file, ledger_account(current), now) {
            Some((read, run)) => {
                let account = binds_to(
                    current,
                    file,
                    ended,
                    run.changed,
                    active_account,
                    allow_new_binding,
                );
                let seen = accounts_of_run(
                    accounts_seen(
                        account_views(before.accounts),
                        ledger_account(current),
                        now as int,
                    ),
                    run.updates,
                    ledger_account(current),
                );
                match r {
                    Ok(done) => {
                        &&& done == (CatchUp {
                            changed: run.changed,
                            generation_changed: ended,
                            newly_bound: account is Some,
                        })
                        &&& after.source@ == settled(
                            match account {
                                Some(key) => bound(
                                    read,
                                    key,
                                    "retroactive_activity"@,
                                    "high"@,
                                    now,
                                ),
                                None => read,
                            },
                            now,
                        )
                        &&& ledger_caught_up(
                            before.ledger,
                            after.ledger,
                            before.source@,
                            file,
                            account,
                            now,
                        )
                        &&& match account {
                            Some(key) => {
                                &&& accounts_closed(after.ledger@, Some(key))
                                &&& account_views(after.accounts) == accounts_seen(
                                    seen,
                                    key,
                                    now as int,
                                )
                                &&& audit_views(after.audits) == binding_audits(
                                    audit_views(before.audits),
                                    read,
                                    key,
                                    "retroactive_binding"@,
                                    Some(tail_evidence()),
                                    now,
                                )
                            },
                            None => {
                                &&& account_views(after.accounts) == seen
                                &&& after.audits == before.audits
                            },
                        }
                    },
                    Err(CatchUpError::Accounting(error)) => {
                        &&& account is Some
                        &&& cannot_hand_over(
                            after.ledger,
                            before.source@.source_id,
                            account->0,
                            error,
                        )
                        &&& account_views(after.accounts) == seen
                        &&& after.source@ == read
                        &&& after.audits == before.audits
                        &&& ledger_caught_up(
                            before.ledger,
                            after.ledger,
                            before.source@,
                            file,
                            None,
                            now,
                        )
                    },
                    Err(CatchUpError::InvalidUtf8) => false,
                }
            },
            None => {
                &&& r matches Err(CatchUpError::InvalidUtf8)
                &&& after.source@ == faulted(current, now)
                &&& after.audits == before.audits
                &&& account_views(after.accounts) == accounts_seen(
                    account_views(before.accounts),
                    ledger_account(current),
                    now as int,
                )
                &&& ledger_caught_up(
                    before.ledger,
                    after.ledger,
                    before.source@,
                    file,
                    None,
                    now,
                )
            },
        }
    }
}

/// Reads a source on. What was added to it while an account was online binds the source to
/// that account, if new bindings are allowed; nothing else does.
pub fn catch_up_path(
    source: &mut RolloutSource,
    ledger: &mut TurnLedger,
    audits: &mut Vec<BindingAudit>,
    accounts: &mut Vec<AccountRecord>,
    file: &ObservedFile,
    active_account: Option<&str>,
    allow_new_binding: bool,
    now: i64,
) -> (r: Result<CatchUp, CatchUpError>)
    requires
        old(source).cursor_wf(),
        old(ledger)@.wf(),
    ensures
        final(ledger)@.wf(),
        final(source).cursor_wf(),
        caught_up(
            (Books {
                source: *old(source),
                ledger: *old(ledger),
                audits: old(audits)@,
                accounts: old(accounts)@,
            }),
            (Books {
                source: *final(source),
                ledger: *final(ledger),
                audits: final(audits)@,
                accounts: final(accounts)@,
            }),
            *file,
            str_opt(active_account),
            allow_new_binding,
            now,
            r,
        ),
{
    let ghost start = *ledger;
    let ghost first = source@;
    let generation_changed = prepare_source_cursor(source, ledger, file, now);
    let ghost prepared = *ledger;
    let before_offset: u64 = source.last_offset;
    let len: u64 = file.bytes.len() as u64;
    let was_verified = source.binding_status == BindingStatus::Verified;
    assert(ledger_prepared(start, prepared, first.source_id, generation_changed));
    if (source.binding_status == BindingStatus::Quarantined || source.binding_status
        == BindingStatus::Unresolved) && source.condition == SourceCondition::HistoricalReset
        && before_offset == 0 && len > 0 {
        return match advance_source_cursor_without_persisting(source, audits, file, now) {
            Ok(()) => {
                assert(ledger_read(
                    prepared,
                    prepared,
                    current_generation(first, *file, now),
                    *file,
                    now,
                ));
                Ok(CatchUp { changed: false, generation_changed, newly_bound: false })
            },
            Err(_) => {
                assert(ledger_read(
                    prepared,
                    prepared,
                    current_generation(first, *file, now),
                    *file,
                    now,
                ));
                Err(CatchUpError::InvalidUtf8)
            },
        };
    }
    let account = ledger_account_of(source);
    ensure_account(accounts, account.as_str(), now);
    let changed = match collect_one_for_source(source, ledger, accounts, file, now) {
        Ok(changed) => changed,
        Err(_) => {
            assert(ledger_read(
                prepared,
                *ledger,
                current_generation(first, *file, now),
                *file,
                now,
            ));
            return Err(CatchUpError::InvalidUtf8);
        },
    };
    let ghost recorded = *ledger;
    let ghost read = source@;
    assert(ledger_read(prepared, recorded, current_generation(first, *file, now), *file, now));
    let mut newly_bound = false;
    if !was_verified && allow_new_binding && live_tail(
        before_offset,
        len,
        generation_changed,
        changed,
    ) {
        if let Some(active) = active_account {
            match retroactively_bind_source(
                source,
                ledger,
                audits,
                accounts,
                active,
                "new token content observed while account evidence was online",
                now,
            ) {
                Ok(_) => {
                    newly_bound = true;
                    assert(rows_handed_over(recorded, *ledger, first.source_id, active@, now));
                },
                Err(error) => {
                    return Err(CatchUpError::Accounting(error));
                },
            }
        }
    }
    source.settle(now);
    Ok(CatchUp { changed, generation_changed, newly_bound })
}

/// A binding that was verified is the same after the source was read on.
pub proof fn lemma_catch_up_keeps_verified_binding(
    source: SourceView,
    file: ObservedFile,
    active_account: Option<Seq<char>>,
    allow_new_binding: bool,
    now: i64,
)
    requires
        source.binding_status == BindingStatus::Verified,
        read_on(source, file, ledger_account(source), now) is Some,
    ensures
        ({
            let (read, run) = read_on(source, file, ledger_account(source), now)->0;
            &&& binds_to(
                source,
                file,
                false,
                run.changed,
                active_account,
                allow_new_binding,
            ) is None
            &&& settled(read, now).binding_status == BindingStatus::Verified
            &&& settled(read, now).account_key == source.account_key
        }),
{
}

/// Only tokens that were added to what had been read before bind a source: not the first
/// discovery of a file, not a replacement, not an event without growth.
pub proof fn lemma_only_a_live_tail_binds(
    source: SourceView,
    file: ObservedFile,
    generation_changed: bool,
    changed: bool,
    active_account: Option<Seq<char>>,
    allow_new_binding: bool,
)
    ensures
        binds_to(source, file, generation_changed, changed, active_account, allow_new_binding)
            is Some ==> {
            &&& source.last_offset > 0
            &&& file.bytes@.len() > source.last_offset
            &&& !generation_changed
            &&& changed
            &&& allow_new_binding
            &&& source.binding_status != BindingStatus::Verified
        },
{
}

/// A source that is not bound after it was read on is explicitly unresolved.
pub proof fn lemma_unbound_source_is_unresolved(source: SourceView, now: i64)
    requires
        source.binding_status != BindingStatus::Verified,
    ensures
        settled(source, now).binding_status == BindingStatus::Unresolved,
        settled(source, now).account_key is None,
{
}

/// A source that was read to its end is not read again, and records nothing.
pub proof fn lemma_reading_to_the_end_is_final(
    source: SourceView,
    file: ObservedFile,
    account_key: Seq<char>,
    now: i64,
)
    requires
        start_state(source, file).1 == file.bytes@.len(),
    ensures
        match read_on(source, file, account_key, now) {
            Some((after, run)) => after == source && run.updates.len() == 0 && !run.changed,
            None => false,
        },
{
}

/// A file that was left unchanged since it was read continues its generation.
pub proof fn lemma_unchanged_file_continues(
    source: SourceView,
    file: ObservedFile,
    state: CursorView,
    offset: int,
    now: i64,
)
    requires
        0 <= offset <= file.bytes@.len(),
        file.bytes@.len() <= u64::MAX,
    ensures
        !generation_ended(read_to(source, file, state, offset, now), file),
{
}

/// A file that only grew since it was read continues its generation.
pub proof fn lemma_appended_file_continues(
    source: SourceView,
    before: ObservedFile,
    after: ObservedFile,
    state: CursorView,
    offset: int,
    now: i64,
)
    requires
        0 <= offset <= before.bytes@.len() < after.bytes@.len(),
        before.bytes@.len() <= u64::MAX,
        after.bytes@.subrange(0, before.bytes@.len() as int) == before.bytes@,
    ensures
        !generation_ended(read_to(source, before, state, offset, now), after),
{
    assert(after.bytes@.subrange(0, offset) =~= before.bytes@.subrange(0, offset)) by {
        assert forall|k: int| 0 <= k < offset implies after.bytes@[k] == before.bytes@[k] by {
            assert(after.bytes@.subrange(0, before.bytes@.len() as int)[k] == before.bytes@[k]);
        }
    }
}

/// What is read of a source is recorded for the account that it is verified to be of, and for
/// one that stands for the source alone where there is none.
pub proof fn lemma_recorded_for_the_verified_account(source: SourceView)
    ensures
        source.binding_status == BindingStatus::Verified ==> (source.account_key matches Some(key)
            ==> ledger_account(source) == key),
        source.binding_status != BindingStatus::Verified || source.account_key is None
            ==> ledger_account(source) == UNRESOLVED_PREFIX@ + source.source_id,
{
}

/// A source is read on from where it was left, with what was known there; only one that has no
/// cursor of this parser, or that reached beyond the end of the file, is read from the front.
pub proof fn lemma_reading_goes_on_where_it_was_left(source: SourceView, file: ObservedFile)
    ensures
        ({
            let (state, offset) = start_state(source, file);
            &&& 0 <= offset <= file.bytes@.len()
            &&& source.last_offset > file.bytes@.len() || source.cursor is None ==> offset == 0
                && state == fresh_state()
            &&& source.cursor matches Some(known) ==> {
                &&& known.parser_version == ROLLOUT_PARSER_VERSION && source.last_offset
                    <= file.bytes@.len() ==> state == known && offset == source.last_offset
                &&& known.parser_version != ROLLOUT_PARSER_VERSION ==> state == fresh_state()
                    && offset == 0
            }
        }),
        ({
            let (state, offset) = pass_start(source, file);
            &&& 0 <= offset <= file.bytes@.len()
            &&& source.last_offset <= file.bytes@.len() ==> offset == source.last_offset && (
            source.cursor matches Some(known) ==> state == known)
            &&& source.last_offset > file.bytes@.len() ==> offset == 0 && state == fresh_state()
        }),
        forall|offset: int, i: int|
            0 <= offset && 0 <= i < file.bytes@.len() - offset ==> #[trigger] tail_of(
                file,
                offset,
            )[i] == file.bytes@[offset + i],
{
}

/// A source that was read up to an offset is left at that offset, with the size, the time and
/// the fingerprints of the file as it was; whose it is does not change.
pub proof fn lemma_read_source_is_left_at_the_offset(
    source: SourceView,
    file: ObservedFile,
    state: CursorView,
    offset: int,
    now: i64,
)
    requires
        0 <= offset <= file.bytes@.len() <= u64::MAX,
    ensures
        ({
            let is = read_to(source, file, state, offset, now);
            &&& is.last_offset == offset
            &&& is.last_size == file.bytes@.len()
            &&& file.modified_at is Some ==> is.last_mtime == file.modified_at
            &&& file.modified_at is None ==> is.last_mtime == Some(now)
            &&& is.cursor == Some(state)
            &&& is.file_fingerprint == Some(fingerprint(file.bytes@))
            &&& is.cursor_prefix_fingerprint == Some(
                fingerprint(file.bytes@.subrange(0, offset)),
            )
            &&& is.parser_version == ROLLOUT_PARSER_VERSION
            &&& is.updated_at == now
            &&& is.source_id == source.source_id
            &&& is.canonical_path == source.canonical_path
            &&& is.file_identity == source.file_identity
            &&& is.account_key == source.account_key
            &&& is.binding_status == source.binding_status
            &&& is.generation == source.generation
            &&& is.condition == source.condition
        }),
{
}

/// Only what stands behind the offset is read: a source that was read on is left at the end of
/// the last whole line, and never before where it was.
pub proof fn lemma_reading_on_moves_to_the_last_line(
    source: SourceView,
    file: ObservedFile,
    account_key: Seq<char>,
    now: i64,
)
    requires
        file.bytes@.len() <= u64::MAX,
        file.bytes@.len() != start_state(source, file).1,
    ensures
        read_on(source, file, account_key, now) matches Some((after, run)) ==> ({
            let start = start_state(source, file).1;
            &&& after.last_offset == run.offset
            &&& start <= run.offset <= file.bytes@.len()
            &&& forall|k: int|
                run.offset <= k < file.bytes@.len() ==> #[trigger] file.bytes@[k] != 10
            &&& run.offset > start ==> file.bytes@[run.offset - 1] == 10
            &&& after.cursor == Some(run.state)
        }),
{
    let (state, start) = start_state(source, file);
    let tail = tail_of(file, start);
    let run = run_from(state, start);
    if run_lines(run, tail, account_key, now) is Some {
        lemma_offset_stops_at_partial_line(run, tail, account_key, now);
        let rest = partial_line(tail);
        let reached = run_lines(run, tail, account_key, now)->0.offset;
        lemma_newline_at(rest);
        lemma_partial_line_follows_a_line_feed(tail);
        assert forall|k: int| reached <= k < file.bytes@.len() implies #[trigger] file.bytes@[k]
            != 10 by {
            assert(file.bytes@[k] == tail[k - start]);
            assert(rest[k - reached] == tail[k - start]);
        }
        if reached > start {
            assert(tail[tail.len() - rest.len() - 1] == file.bytes@[reached - 1]);
        }
    }
}

/// A source takes over the session and the thread that its log names, and keeps those that it
/// knew where the log names none. It is healthy, and was at work now if anything was read of
/// it; when it first was stays.
pub proof fn lemma_settled_source_knows_its_session(source: SourceView, now: i64)
    ensures
        ({
            let is = settled(source, now);
            &&& source.cursor matches Some(state) ==> {
                &&& state.session_id is Some ==> is.session_id == state.session_id
                &&& state.session_id is None ==> is.session_id == source.session_id
                &&& state.thread_id is Some ==> is.thread_id == state.thread_id
                &&& state.thread_id is None ==> is.thread_id == source.thread_id
            }
            &&& source.cursor is None ==> is.session_id == source.session_id && is.thread_id
                == source.thread_id
            &&& is.condition == SourceCondition::Healthy
            &&& is.updated_at == now
            &&& source.last_offset > 0 ==> is.last_activity_at == Some(now)
            &&& source.last_offset == 0 ==> is.last_activity_at == source.last_activity_at
            &&& source.first_activity_at is Some ==> is.first_activity_at
                == source.first_activity_at
            &&& source.first_activity_at is None && source.last_offset > 0 ==> is.first_activity_at
                == Some(now)
            &&& source.first_activity_at is None && source.last_offset == 0
                ==> is.first_activity_at is None
            &&& source.binding_status == BindingStatus::Verified ==> {
                &&& is.binding_status == BindingStatus::Verified
                &&& is.account_key == source.account_key
                &&& is.binding_source == source.binding_source
                &&& is.binding_confidence == source.binding_confidence
            }
            &&& is.source_id == source.source_id
            &&& is.last_offset == source.last_offset
            &&& is.last_size == source.last_size
            &&& is.cursor == source.cursor
            &&& is.generation == source.generation
            &&& is.file_fingerprint == source.file_fingerprint
            &&& is.cursor_prefix_fingerprint == source.cursor_prefix_fingerprint
        }),
{
}

/// Tokens added to a source that nobody is known to own, behind what was read of it before and
/// while an account was online, bind it to that account if new bindings are allowed.
pub proof fn lemma_a_live_tail_binds(
    source: SourceView,
    file: ObservedFile,
    account: Seq<char>,
)
    requires
        source.binding_status != BindingStatus::Verified,
        0 < source.last_offset < file.bytes@.len(),
    ensures
        binds_to(source, file, false, true, Some(account), true) == Some(account),
        binds_to(source, file, false, true, None, true) is None,
{
}

/// A source is passed over exactly where history was set aside while it was away: it is not
/// bound, nothing of it was read since, and it holds something.
pub proof fn lemma_only_set_aside_history_is_passed_over(source: SourceView, file: ObservedFile)
    ensures
        passes_over(source, file) ==> {
            &&& source.binding_status != BindingStatus::Verified
            &&& source.binding_status != BindingStatus::Inferred
            &&& source.condition == SourceCondition::HistoricalReset
            &&& source.last_offset == 0
            &&& file.bytes@.len() > 0
        },
        source.condition == SourceCondition::HistoricalReset && source.last_offset == 0
            && file.bytes@.len() > 0 && (source.binding_status == BindingStatus::Unresolved
            || source.binding_status == BindingStatus::Quarantined) ==> passes_over(source, file),
{
}

/// A source that was passed over is left behind its last whole line, in the next generation,
/// with no turn's tokens counted so far.
pub proof fn lemma_passed_over_source_counts_from_its_end(
    source: SourceView,
    file: ObservedFile,
    now: i64,
)
    requires
        file.bytes@.len() <= u64::MAX,
    ensures
        passing_over(source, file, now) matches Some(is) ==> {
            &&& is.cursor matches Some(state) && {
                &&& state.turn_accumulated_usage.raw_total_tokens == 0
                &&& state.turn_start_totals == state.last_totals
                &&& state.turn_segment_start_usage == state.last_totals
                &&& state.turn_started_at == Some(now)
                &&& state.parser_version == ROLLOUT_PARSER_VERSION
            }
            &&& source.generation < i64::MAX ==> is.generation == source.generation + 1
            &&& is.condition == SourceCondition::HistoricalReset
            &&& is.last_error is None
            &&& is.last_error_at is None
            &&& is.account_key == source.account_key
            &&& is.binding_status == source.binding_status
            &&& is.source_id == source.source_id
            &&& is.last_size == file.bytes@.len()
        },
{
}

/// Every turn of a run is tied to the source that it was read from, and no tie is lost.
pub proof fn lemma_run_is_tied_to_its_source(
    links: Seq<LinkView>,
    updates: Seq<UpdateView>,
    source_id: Seq<char>,
)
    ensures
        forall|i: int|
            0 <= i < links.len() ==> i < links_after(links, updates, source_id).len()
                && #[trigger] links_after(links, updates, source_id)[i] == links[i],
        links_after(links, updates, source_id).len() >= links.len(),
        forall|u: int|
            0 <= u < updates.len() ==> exists|k: int|
                {
                    let link = #[trigger] links_after(links, updates, source_id)[k];
                    let turn = (#[trigger] updates[u]).turn;
                    &&& 0 <= k < links_after(links, updates, source_id).len()
                    &&& link.source_id == source_id
                    &&& link.key.account_key == turn.account_key
                    &&& link.key.thread_id == turn.thread_id
                    &&& link.key.turn_id == turn.turn_id
                },
        forall|k: int|
            links.len() <= k < links_after(links, updates, source_id).len() ==> (
            #[trigger] links_after(links, updates, source_id)[k]).source_id == source_id,
    decreases updates.len(),
{
    if updates.len() > 0 {
        let rest = updates.drop_last();
        lemma_run_is_tied_to_its_source(links, rest, source_id);
        let before = links_after(links, rest, source_id);
        let after = links_after(links, updates, source_id);
        let link = update_link(updates.last(), source_id);
        assert(after.len() >= before.len());
        assert forall|i: int| 0 <= i < before.len() implies #[trigger] after[i] == before[i] by {}
        assert forall|u: int| 0 <= u < updates.len() implies exists|k: int|
            {
                let link = #[trigger] after[k];
                let turn = (#[trigger] updates[u]).turn;
                &&& 0 <= k < after.len()
                &&& link.source_id == source_id
                &&& link.key.account_key == turn.account_key
                &&& link.key.thread_id == turn.thread_id
                &&& link.key.turn_id == turn.turn_id
            } by {
            if u < rest.len() {
                assert(rest[u] == updates[u]);
                let k = choose|k: int|
                    {
                        let link = #[trigger] before[k];
                        let turn = rest[u].turn;
                        &&& 0 <= k < before.len()
                        &&& link.source_id == source_id
                        &&& link.key.account_key == turn.account_key
                        &&& link.key.thread_id == turn.thread_id
                        &&& link.key.turn_id == turn.turn_id
                    };
                assert(after[k] == before[k]);
            } else if has_link(before, link) {
                let k = choose|k: int|
                    0 <= k < before.len() && (#[trigger] before[k]).source_id == link.source_id
                        && before[k].key == link.key;
                assert(after[k] == before[k]);
            } else {
                assert(after[before.len() as int] == link);
            }
        }
    }
}

/// The account of a run is listed and was last seen no earlier than any line of it.
pub proof fn lemma_run_shows_its_account(
    accounts: Seq<AccountView>,
    updates: Seq<UpdateView>,
    account_key: Seq<char>,
    u: int,
)
    requires
        0 <= u < updates.len(),
    ensures
        exists|i: int|
            {
                &&& 0 <= i < accounts_of_run(accounts, updates, account_key).len()
                &&& (#[trigger] accounts_of_run(accounts, updates, account_key)[i]).account_key
                    == account_key
                &&& accounts_of_run(accounts, updates, account_key)[i].last_seen_at
                    >= updates[u].seen_at
            },
    decreases updates.len(),
{
    let rest = updates.drop_last();
    let before = accounts_of_run(accounts, rest, account_key);
    let after = accounts_of_run(accounts, updates, account_key);
    lemma_seen_account_is_listed(before, account_key, updates.last().seen_at);
    if u < rest.len() {
        lemma_run_shows_its_account(accounts, rest, account_key, u);
        let i = choose|i: int|
            {
                &&& 0 <= i < before.len()
                &&& (#[trigger] before[i]).account_key == account_key
                &&& before[i].last_seen_at >= rest[u].seen_at
            };
        assert(rest[u] == updates[u]);
        assert(after[i].last_seen_at >= updates[u].seen_at);
    }
}

/// A line that is not JSON is recorded with the file that it stands in, where it begins, the
/// message, and the account, source and batch that it was read for.
pub proof fn lemma_unreadable_line_is_recorded(
    stored: Seq<StoredErrorView>,
    error: (int, Seq<char>),
    context: RunContext,
    now: i64,
)
    ensures
        ({
            let after = errors_after(stored, seq![error], context, now);
            &&& after.len() >= stored.len()
            &&& exists|i: int|
                {
                    &&& 0 <= i < after.len()
                    &&& (#[trigger] after[i]).file_path == context.file_path@
                    &&& after[i].byte_offset == error.0
                    &&& after[i].error == error.1
                    &&& after[i].account_key == context.account_key@
                    &&& after[i].source_id == Some(context.source_id@)
                    &&& after[i].rebuild_batch_id == context.batch_id@
                    &&& i < stored.len() ==> after[i].first_seen_at == stored[i].first_seen_at
                    &&& i == stored.len() ==> after[i].first_seen_at == now
                }
            &&& forall|i: int|
                0 <= i < stored.len() && !((#[trigger] stored[i]).file_path == context.file_path@
                    && stored[i].byte_offset == error.0) ==> after[i] == stored[i]
        }),
{
    let errors = seq![error];
    assert(errors.drop_last() =~= Seq::empty());
    assert(errors.last() == error);
    assert(errors_after(stored, errors.drop_last(), context, now) == stored);
    lemma_parse_error_is_recorded(stored, error_record(error, context, now));
}

/// A source that cannot be read says why and since when, and keeps where it was left and whose
/// it is.
pub proof fn lemma_fault_keeps_the_source(source: SourceView, now: i64)
    ensures
        ({
            let is = faulted(source, now);
            &&& is.condition == SourceCondition::Error
            &&& is.last_error is Some
            &&& is.last_error_at == Some(now)
            &&& is.last_offset == source.last_offset
            &&& is.last_size == source.last_size
            &&& is.cursor == source.cursor
            &&& is.account_key == source.account_key
            &&& is.binding_status == source.binding_status
            &&& is.generation == source.generation
            &&& is.source_id == source.source_id
        }),
{
}

/// Setting a source aside is recorded once: a source that is bound has no entry added, nor one
/// that has such an entry; any other has one that says whose it was and that it is set aside.
pub proof fn lemma_setting_aside_is_recorded_once(
    audits: Seq<BindingAuditView>,
    source: SourceView,
    now: i64,
)
    ensures
        ({
            let once = set_aside_audits(audits, source, now);
            &&& set_aside_audits(once, source, now) == once
            &&& source.binding_status == BindingStatus::Verified ==> once == audits
            &&& audits.len() <= once.len() <= audits.len() + 1
            &&& forall|i: int| 0 <= i < audits.len() ==> #[trigger] once[i] == audits[i]
            &&& source.binding_status != BindingStatus::Verified ==> exists|i: int|
                {
                    &&& 0 <= i < once.len()
                    &&& (#[trigger] once[i]).source_id == source.source_id
                    &&& once[i].reason == "historical_reset_quarantine"@
                    &&& i == audits.len() ==> once[i].new_status == BindingStatus::Quarantined
                        && once[i].old_account_key == source.account_key
                        && once[i].new_account_key is None && once[i].old_status == Some(
                        source.binding_status,
                    ) && once[i].changed_at == now
                }
        }),
{
    let once = set_aside_audits(audits, source, now);
    if source.binding_status != BindingStatus::Verified {
        if once.len() > audits.len() {
            assert(once[audits.len() as int].source_id == source.source_id);
        } else {
            let i = choose|i: int|
                0 <= i < audits.len() && (#[trigger] audits[i]).source_id == source.source_id
                    && audits[i].reason == "historical_reset_quarantine"@;
            assert(once[i] == audits[i]);
        }
    }
}

/// Reading a source on binds it only to the account in use, and only where new bindings are
/// allowed, it was not bound, and its generation goes on. A binding that was verified stays.
/// A source that stays without one is nobody's. It is the same source in any case.
pub proof fn lemma_catching_up_binds_to_the_account_in_use(
    before: Books,
    after: Books,
    file: ObservedFile,
    active_account: Option<Seq<char>>,
    allow_new_binding: bool,
    now: i64,
    done: CatchUp,
)
    requires
        caught_up(before, after, file, active_account, allow_new_binding, now, Ok(done)),
    ensures
        done.generation_changed == generation_ended(before.source@, file),
        done.newly_bound ==> {
            &&& active_account is Some
            &&& allow_new_binding
            &&& done.changed
            &&& !done.generation_changed
            &&& 0 < before.source@.last_offset < file.bytes@.len()
            &&& before.source@.binding_status != BindingStatus::Verified
            &&& after.source@.binding_status == BindingStatus::Verified
            &&& after.source@.account_key == active_account
            &&& accounts_closed(after.ledger@, active_account)
        },
        before.source@.binding_status == BindingStatus::Verified ==> {
            &&& after.source@.binding_status == BindingStatus::Verified
            &&& after.source@.account_key == before.source@.account_key
            &&& !done.newly_bound
        },
        before.source@.binding_status != BindingStatus::Verified && !done.newly_bound
            ==> after.source@.binding_status != BindingStatus::Verified,
        after.source@.source_id == before.source@.source_id,
        after.source@.canonical_path == before.source@.canonical_path,
        after.source@.file_identity == before.source@.file_identity,
{
}

/// A source that cannot be read on changes nothing of the ledger but for the rows of a
/// generation that ended, and binds nothing.
pub proof fn lemma_unreadable_source_records_nothing(
    before: Books,
    after: Books,
    file: ObservedFile,
    active_account: Option<Seq<char>>,
    allow_new_binding: bool,
    now: i64,
)
    requires
        caught_up(
            before,
            after,
            file,
            active_account,
            allow_new_binding,
            now,
            Err(CatchUpError::InvalidUtf8),
        ),
        !generation_ended(before.source@, file),
    ensures
        after.ledger == before.ledger,
        after.audits == before.audits,
        after.source@.binding_status == before.source@.binding_status,
        after.source@.account_key == before.source@.account_key,
        after.source@.last_offset == before.source@.last_offset,
{
    let current = current_generation(before.source@, file, now);
    let (prepared, recorded) = choose|prepared: TurnLedger, recorded: TurnLedger|
        {
            &&& #[trigger] ledger_prepared(
                before.ledger,
                prepared,
                before.source@.source_id,
                false,
            )
            &&& #[trigger] ledger_read(prepared, recorded, current, file, now)
            &&& after.ledger == recorded
        };
}

/// Binding a source by its activity hands it to the account, unless it was bound: then nothing
/// changes, and the answer is whether it is that account's. Where the accounts would not be
/// closed nothing changes either.
pub proof fn lemma_activity_binds_what_is_open(
    before: Books,
    after: Books,
    account_key: Seq<char>,
    evidence: Seq<char>,
    now: i64,
    r: Result<bool, AccountingError>,
)
    requires
        bound_by_activity(before, after, account_key, evidence, now, r),
    ensures
        before.source@.binding_status == BindingStatus::Verified ==> {
            &&& after == before
            &&& r == Ok::<bool, AccountingError>(
                before.source@.account_key == Some(account_key),
            )
        },
        before.source@.binding_status != BindingStatus::Verified && r is Ok ==> {
            &&& r->Ok_0
            &&& after.source@.binding_status == BindingStatus::Verified
            &&& after.source@.account_key == Some(account_key)
            &&& accounts_closed(after.ledger@, Some(account_key))
            &&& after.source@.last_offset == before.source@.last_offset
        },
        r is Err ==> after == before,
{
}

/// Every turn of a run is in the ledger once the run was recorded, under its account, thread
/// and name.
pub proof fn lemma_run_is_in_the_ledger(ledger: LedgerView, updates: Seq<UpdateView>, u: int)
    requires
        0 <= u < updates.len(),
    ensures
        names_turn(
            ledger_with_all(ledger, updates).turns,
            updates[u].turn.account_key,
            updates[u].turn.thread_id,
            updates[u].turn.turn_id,
        ),
    decreases updates.len(),
{
    let rest = updates.drop_last();
    let before = ledger_with_all(ledger, rest).turns;
    let after = ledger_with_all(ledger, updates).turns;
    let last = updates.last().turn;
    let turn = updates[u].turn;
    assert(after == turns_with(before, last));
    if u < rest.len() {
        lemma_run_is_in_the_ledger(ledger, rest, u);
        assert(rest[u] == updates[u]);
        let k = choose|k: int|
            0 <= k < before.len() && is_turn(
                #[trigger] before[k],
                turn.account_key,
                turn.thread_id,
                turn.turn_id,
            );
        if has_turn(before, turn_key(last)) {
            let at = choose|at: int| #[trigger] turn_at(before, turn_key(last), at);
            if at == k {
                assert(is_turn(after[k], turn.account_key, turn.thread_id, turn.turn_id));
            } else {
                assert(after[k] == before[k]);
            }
        } else {
            assert(after[k] == before[k]);
        }
        assert(is_turn(after[k], turn.account_key, turn.thread_id, turn.turn_id));
    } else if has_turn(before, turn_key(last)) {
        let at = choose|at: int| #[trigger] turn_at(before, turn_key(last), at);
        assert(is_turn(after[at], turn.account_key, turn.thread_id, turn.turn_id));
    } else {
        let at = before.len() as int;
        assert(is_turn(after[at], turn.account_key, turn.thread_id, turn.turn_id));
    }
}

/// When a generation ends, what leaves the ledger is what the source alone holds; where it goes
/// on, nothing does.
pub proof fn lemma_ended_generation_leaves_nothing_behind(
    before: TurnLedger,
    after: TurnLedger,
    source_id: Seq<char>,
    ended: bool,
)
    requires
        ledger_prepared(before, after, source_id, ended),
    ensures
        !ended ==> after == before,
        ended ==> {
            &&& forall|turn: TurnUsageRecord|
                before.turns@.contains(turn) ==> (#[trigger] after.turns@.contains(turn)
                    <==> !is_tied_only(
                    before.turn_sources@,
                    source_id,
                    turn.account_key@,
                    turn.thread_id@,
                    turn.turn_id@,
                ))
            &&& forall|sample: TurnTokenSample|
                before.samples@.contains(sample) ==> (#[trigger] after.samples@.contains(sample)
                    <==> !is_tied_only(
                    before.turn_sources@,
                    source_id,
                    sample.account_key@,
                    sample.thread_id@,
                    sample.turn_id@,
                ))
            &&& forall|link: TurnSource| #[trigger]
                after.turn_sources@.contains(link) <==> before.turn_sources@.contains(link)
                    && link.source_id@ != source_id
            &&& after.parse_errors == before.parse_errors
        },
{
    if ended {
        lemma_only_what_the_source_alone_holds_goes(before, after, source_id);
    }
}

/// A run that was recorded is in the ledger: every turn of it under its name, and tied to the
/// source that it was read from. Findings are not touched.
pub proof fn lemma_recorded_run_is_tied_and_listed(
    before: TurnLedger,
    after: TurnLedger,
    run: RunView,
    source: SourceView,
    file: ObservedFile,
    now: i64,
    u: int,
)
    requires
        run_recorded(before, after, run, source, file, now),
        0 <= u < run.updates.len(),
    ensures
        names_turn(
            after@.turns,
            run.updates[u].turn.account_key,
            run.updates[u].turn.thread_id,
            run.updates[u].turn.turn_id,
        ),
        exists|k: int|
            {
                let link = #[trigger] link_views(after.turn_sources@)[k];
                let turn = run.updates[u].turn;
                &&& 0 <= k < after.turn_sources@.len()
                &&& link.source_id == source.source_id
                &&& link.key.account_key == turn.account_key
                &&& link.key.thread_id == turn.thread_id
                &&& link.key.turn_id == turn.turn_id
            },
        after.audits == before.audits,
{
    lemma_run_is_in_the_ledger(before@, run.updates, u);
    lemma_run_is_tied_to_its_source(
        link_views(before.turn_sources@),
        run.updates,
        source.source_id,
    );
    let all = link_views(after.turn_sources@);
    let update = run.updates[u];
    let k = choose|k: int|
        {
            let link = #[trigger] all[k];
            let turn = update.turn;
            &&& 0 <= k < all.len()
            &&& link.source_id == source.source_id
            &&& link.key.account_key == turn.account_key
            &&& link.key.thread_id == turn.thread_id
            &&& link.key.turn_id == turn.turn_id
        };
    assert(all[k].source_id == source.source_id);
}

} // verus!
