//! Which rows of the ledger a source owns, and how they change hands.
use crate::catch_up::cursors_wf;
use crate::collector_core::{
    audit_views, best_fit, cursor_opt, fit, found_again, new_source, register_source, registered,
    registration_audits, source_id_of, source_views, BindingAudit, ObservedFile, RegisterError,
    Registration, RolloutSource, SourceView,
};
use crate::ledger::{
    accounts_closed, audits_kept, audits_of_orphans, audits_of_quarantine, audits_of_turns,
    names_fault, same_sample, turn_key, AccountingError, AuditReason, StoredParseError,
    TimelineAudit, TurnKey, TurnLedger, TurnSource,
};
use crate::models::TurnUsageRecord;
use crate::rollout::TurnTokenSample;
use crate::table::{
    first_where, lemma_filter_keeps, lemma_filter_member, lemma_filter_pairs, lemma_first_where,
    lemma_others_keep_exactly, rows_of_others,
};
use crate::text::{same_text, text_opt};
use vstd::prelude::*;

verus! {

/// A row that belongs to a turn of an account.
pub trait TurnRow: Sized {
    spec fn key(&self) -> TurnKey;

    /// `after` is `before` with another account.
    spec fn moved(before: Self, after: Self, to: Seq<char>) -> bool;

    fn account_of(&self) -> (r: &String)
        ensures
            r@ == self.key().account_key,
    ;

    fn thread_of(&self) -> (r: &String)
        ensures
            r@ == self.key().thread_id,
    ;

    fn turn_of(&self) -> (r: &String)
        ensures
            r@ == self.key().turn_id,
    ;

    fn move_to(self, to: &str) -> (r: Self)
        ensures
            Self::moved(self, r, to@),
    ;

    fn copy_row(&self) -> (r: Self)
        ensures
            r == *self,
    ;

    proof fn moved_key(before: Self, after: Self, to: Seq<char>)
        requires
            Self::moved(before, after, to),
        ensures
            after.key() == of_account(before.key(), to),
    ;
}

fn copy_opt(value: &Option<String>) -> (r: Option<String>)
    ensures
        r == *value,
{
    match value {
        Some(text) => Some(text.clone()),
        None => None,
    }
}

impl TurnRow for TurnUsageRecord {
    open spec fn key(&self) -> TurnKey {
        TurnKey {
            account_key: self.account_key@,
            thread_id: self.thread_id@,
            turn_id: self.turn_id@,
        }
    }

    open spec fn moved(before: Self, after: Self, to: Seq<char>) -> bool {
        after.account_key@ == to && after == (TurnUsageRecord {
            account_key: after.account_key,
            ..before
        })
    }

    fn account_of(&self) -> (r: &String) {
        &self.account_key
    }

    fn thread_of(&self) -> (r: &String) {
        &self.thread_id
    }

    fn turn_of(&self) -> (r: &String) {
        &self.turn_id
    }

    fn move_to(self, to: &str) -> (r: Self) {
        let mut row = self;
        row.account_key = to.to_owned();
        row
    }

    fn copy_row(&self) -> (r: Self) {
        TurnUsageRecord {
            account_key: self.account_key.clone(),
            thread_id: self.thread_id.clone(),
            turn_id: self.turn_id.clone(),
            started_at: self.started_at,
            completed_at: self.completed_at,
            model: copy_opt(&self.model),
            reasoning_effort: self.reasoning_effort.clone(),
            speed_mode: self.speed_mode.clone(),
            usage: self.usage,
            estimated_credits: self.estimated_credits,
            rate_card_version: copy_opt(&self.rate_card_version),
            source: self.source.clone(),
            confidence: self.confidence,
        }
    }

    proof fn moved_key(before: Self, after: Self, to: Seq<char>) {
    }
}

impl TurnRow for TurnTokenSample {
    open spec fn key(&self) -> TurnKey {
        TurnKey {
            account_key: self.account_key@,
            thread_id: self.thread_id@,
            turn_id: self.turn_id@,
        }
    }

    open spec fn moved(before: Self, after: Self, to: Seq<char>) -> bool {
        after.account_key@ == to && after == (TurnTokenSample {
            account_key: after.account_key,
            ..before
        })
    }

    fn account_of(&self) -> (r: &String) {
        &self.account_key
    }

    fn thread_of(&self) -> (r: &String) {
        &self.thread_id
    }

    fn turn_of(&self) -> (r: &String) {
        &self.turn_id
    }

    fn move_to(self, to: &str) -> (r: Self) {
        let mut row = self;
        row.account_key = to.to_owned();
        row
    }

    fn copy_row(&self) -> (r: Self) {
        TurnTokenSample {
            account_key: self.account_key.clone(),
            thread_id: self.thread_id.clone(),
            turn_id: self.turn_id.clone(),
            segment_no: self.segment_no,
            model: copy_opt(&self.model),
            reasoning_effort: self.reasoning_effort.clone(),
            speed_mode: self.speed_mode.clone(),
            sampled_at: self.sampled_at,
            cumulative_tokens: self.cumulative_tokens,
            delta_tokens: self.delta_tokens,
            source: self.source.clone(),
            confidence: self.confidence,
        }
    }

    proof fn moved_key(before: Self, after: Self, to: Seq<char>) {
    }
}

impl TurnRow for TimelineAudit {
    open spec fn key(&self) -> TurnKey {
        TurnKey {
            account_key: self.account_key@,
            thread_id: self.thread_id@,
            turn_id: self.turn_id@,
        }
    }

    open spec fn moved(before: Self, after: Self, to: Seq<char>) -> bool {
        after.account_key@ == to && after == (TimelineAudit {
            account_key: after.account_key,
            ..before
        })
    }

    fn account_of(&self) -> (r: &String) {
        &self.account_key
    }

    fn thread_of(&self) -> (r: &String) {
        &self.thread_id
    }

    fn turn_of(&self) -> (r: &String) {
        &self.turn_id
    }

    fn move_to(self, to: &str) -> (r: Self) {
        let mut row = self;
        row.account_key = to.to_owned();
        row
    }

    fn copy_row(&self) -> (r: Self) {
        TimelineAudit {
            account_key: self.account_key.clone(),
            thread_id: self.thread_id.clone(),
            turn_id: self.turn_id.clone(),
            canonical_tokens: self.canonical_tokens,
            timeline_tokens: self.timeline_tokens,
            reason: self.reason,
            first_seen_at: self.first_seen_at,
            last_seen_at: self.last_seen_at,
        }
    }

    proof fn moved_key(before: Self, after: Self, to: Seq<char>) {
    }
}

impl TurnRow for TurnSource {
    open spec fn key(&self) -> TurnKey {
        TurnKey {
            account_key: self.account_key@,
            thread_id: self.thread_id@,
            turn_id: self.turn_id@,
        }
    }

    open spec fn moved(before: Self, after: Self, to: Seq<char>) -> bool {
        after.account_key@ == to && after == (TurnSource {
            account_key: after.account_key,
            ..before
        })
    }

    fn account_of(&self) -> (r: &String) {
        &self.account_key
    }

    fn thread_of(&self) -> (r: &String) {
        &self.thread_id
    }

    fn turn_of(&self) -> (r: &String) {
        &self.turn_id
    }

    fn move_to(self, to: &str) -> (r: Self) {
        let mut row = self;
        row.account_key = to.to_owned();
        row
    }

    fn copy_row(&self) -> (r: Self) {
        TurnSource {
            source_id: self.source_id.clone(),
            account_key: self.account_key.clone(),
            thread_id: self.thread_id.clone(),
            turn_id: self.turn_id.clone(),
            first_seen_at: self.first_seen_at,
        }
    }

    proof fn moved_key(before: Self, after: Self, to: Seq<char>) {
    }
}

/// Some row belongs to the turn.
pub open spec fn has_row<T: TurnRow>(rows: Seq<T>, key: TurnKey) -> bool {
    exists|i: int| 0 <= i < rows.len() && (#[trigger] rows[i]).key() == key
}

/// The turn was read from the source.
pub open spec fn owns(links: Seq<TurnSource>, source_id: Seq<char>, key: TurnKey) -> bool {
    exists|i: int|
        0 <= i < links.len() && (#[trigger] links[i]).source_id@ == source_id && links[i].key()
            == key
}

/// The turn was read from another source.
pub open spec fn owned_elsewhere(
    links: Seq<TurnSource>,
    source_id: Seq<char>,
    key: TurnKey,
) -> bool {
    exists|i: int|
        0 <= i < links.len() && (#[trigger] links[i]).source_id@ != source_id && links[i].key()
            == key
}

/// The turn was read from the source and from no other.
pub open spec fn owns_alone(links: Seq<TurnSource>, source_id: Seq<char>, key: TurnKey) -> bool {
    owns(links, source_id, key) && !owned_elsewhere(links, source_id, key)
}

/// The same thread and turn of another account.
pub open spec fn of_account(key: TurnKey, account_key: Seq<char>) -> TurnKey {
    TurnKey { account_key, ..key }
}

fn row_exists<T: TurnRow>(rows: &Vec<T>, account: &str, thread: &str, turn: &str) -> (r: bool)
    ensures
        r == has_row(
            rows@,
            (TurnKey { account_key: account@, thread_id: thread@, turn_id: turn@ }),
        ),
{
    let ghost key = TurnKey { account_key: account@, thread_id: thread@, turn_id: turn@ };
    let mut i: usize = 0;
    while i < rows.len()
        invariant
            i <= rows.len(),
            key == (TurnKey { account_key: account@, thread_id: thread@, turn_id: turn@ }),
            forall|k: int| 0 <= k < i ==> (#[trigger] rows@[k]).key() != key,
        decreases rows.len() - i,
    {
        if same_text(rows[i].turn_of().as_str(), turn) && same_text(
            rows[i].thread_of().as_str(),
            thread,
        ) && same_text(rows[i].account_of().as_str(), account) {
            assert(rows@[i as int].key() == key);
            return true;
        }
        i += 1;
    }
    false
}

fn source_owns(links: &Vec<TurnSource>, source_id: &str, account: &str, thread: &str, turn: &str) -> (r:
    bool)
    ensures
        r == owns(
            links@,
            source_id@,
            (TurnKey { account_key: account@, thread_id: thread@, turn_id: turn@ }),
        ),
{
    let ghost key = TurnKey { account_key: account@, thread_id: thread@, turn_id: turn@ };
    let mut i: usize = 0;
    while i < links.len()
        invariant
            i <= links.len(),
            key == (TurnKey { account_key: account@, thread_id: thread@, turn_id: turn@ }),
            forall|k: int|
                0 <= k < i ==> !((#[trigger] links@[k]).source_id@ == source_id@ && links@[k].key()
                    == key),
        decreases links.len() - i,
    {
        if same_text(links[i].source_id.as_str(), source_id) && same_text(
            links[i].turn_id.as_str(),
            turn,
        ) && same_text(links[i].thread_id.as_str(), thread) && same_text(
            links[i].account_key.as_str(),
            account,
        ) {
            assert(links@[i as int].source_id@ == source_id@ && links@[i as int].key() == key);
            return true;
        }
        i += 1;
    }
    false
}

fn other_source_owns(
    links: &Vec<TurnSource>,
    source_id: &str,
    account: &str,
    thread: &str,
    turn: &str,
) -> (r: bool)
    ensures
        r == owned_elsewhere(
            links@,
            source_id@,
            (TurnKey { account_key: account@, thread_id: thread@, turn_id: turn@ }),
        ),
{
    let ghost key = TurnKey { account_key: account@, thread_id: thread@, turn_id: turn@ };
    let mut i: usize = 0;
    while i < links.len()
        invariant
            i <= links.len(),
            key == (TurnKey { account_key: account@, thread_id: thread@, turn_id: turn@ }),
            forall|k: int|
                0 <= k < i ==> !((#[trigger] links@[k]).source_id@ != source_id@ && links@[k].key()
                    == key),
        decreases links.len() - i,
    {
        if !same_text(links[i].source_id.as_str(), source_id) && same_text(
            links[i].turn_id.as_str(),
            turn,
        ) && same_text(links[i].thread_id.as_str(), thread) && same_text(
            links[i].account_key.as_str(),
            account,
        ) {
            assert(links@[i as int].source_id@ != source_id@ && links@[i as int].key() == key);
            return true;
        }
        i += 1;
    }
    false
}

// ---------------------------------------------------------------------------
// A generation that ends
// ---------------------------------------------------------------------------

/// The rows that are not the source's alone.
pub open spec fn not_owned_alone<T: TurnRow>(
    rows: Seq<T>,
    links: Seq<TurnSource>,
    source_id: Seq<char>,
) -> Seq<T> {
    rows.filter(|row: T| !owns_alone(links, source_id, row.key()))
}

pub open spec fn is_of_another_source(source_id: Seq<char>) -> spec_fn(TurnSource) -> bool {
    |link: TurnSource| link.source_id@ != source_id
}

pub open spec fn links_of_others(links: Seq<TurnSource>, source_id: Seq<char>) -> Seq<TurnSource> {
    links.filter(is_of_another_source(source_id))
}

pub open spec fn is_error_elsewhere(source_id: Seq<char>) -> spec_fn(StoredParseError) -> bool {
    |error: StoredParseError| text_opt(error.source_id) != Some(source_id)
}

pub open spec fn errors_of_others(
    errors: Seq<StoredParseError>,
    source_id: Seq<char>,
) -> Seq<StoredParseError> {
    errors.filter(is_error_elsewhere(source_id))
}

fn drop_owned_alone<T: TurnRow>(rows: &mut Vec<T>, links: &Vec<TurnSource>, source_id: &str)
    ensures
        final(rows)@ == not_owned_alone(old(rows)@, links@, source_id@),
{
    let mut all: Vec<T> = Vec::new();
    std::mem::swap(rows, &mut all);
    let ghost before = all@;
    let ghost keep = |row: T| !owns_alone(links@, source_id@, row.key());
    proof {
        reveal(Seq::filter);
    }
    for row in iter: all
        invariant
            iter.seq() == before,
            keep == (|row: T| !owns_alone(links@, source_id@, row.key())),
            rows@ == before.take(iter.index()).filter(keep),
    {
        proof {
            let i = iter.index();
            assert(before.take(i + 1).drop_last() =~= before.take(i));
            assert(before.take(i + 1).last() == row);
            reveal(Seq::filter);
        }
        let alone = source_owns(
            links,
            source_id,
            row.account_of().as_str(),
            row.thread_of().as_str(),
            row.turn_of().as_str(),
        ) && !other_source_owns(
            links,
            source_id,
            row.account_of().as_str(),
            row.thread_of().as_str(),
            row.turn_of().as_str(),
        );
        if !alone {
            rows.push(row);
        }
    }
    assert(before.take(before.len() as int) =~= before);
}

pub fn drop_links(links: &mut Vec<TurnSource>, source_id: &str)
    ensures
        final(links)@ == links_of_others(old(links)@, source_id@),
{
    let mut all: Vec<TurnSource> = Vec::new();
    std::mem::swap(links, &mut all);
    let ghost before = all@;
    let ghost keep = is_of_another_source(source_id@);
    proof {
        reveal(Seq::filter);
    }
    for link in iter: all
        invariant
            iter.seq() == before,
            keep == is_of_another_source(source_id@),
            links@ == before.take(iter.index()).filter(keep),
    {
        proof {
            let i = iter.index();
            assert(before.take(i + 1).drop_last() =~= before.take(i));
            assert(before.take(i + 1).last() == link);
            reveal(Seq::filter);
        }
        if !same_text(link.source_id.as_str(), source_id) {
            links.push(link);
        }
    }
    assert(before.take(before.len() as int) =~= before);
}

fn drop_source_errors(errors: &mut Vec<StoredParseError>, source_id: &str)
    ensures
        final(errors)@ == errors_of_others(old(errors)@, source_id@),
{
    let mut all: Vec<StoredParseError> = Vec::new();
    std::mem::swap(errors, &mut all);
    let ghost before = all@;
    let ghost keep = is_error_elsewhere(source_id@);
    proof {
        reveal(Seq::filter);
    }
    for error in iter: all
        invariant
            iter.seq() == before,
            keep == is_error_elsewhere(source_id@),
            errors@ == before.take(iter.index()).filter(keep),
    {
        proof {
            let i = iter.index();
            assert(before.take(i + 1).drop_last() =~= before.take(i));
            assert(before.take(i + 1).last() == error);
            reveal(Seq::filter);
        }
        let of_source = match &error.source_id {
            Some(id) => same_text(id.as_str(), source_id),
            None => false,
        };
        if !of_source {
            errors.push(error);
        }
    }
    assert(before.take(before.len() as int) =~= before);
}

/// Removes the rows that only this source accounts for, and its links. Rows that another
/// source was read from too stay.
pub fn remove_source_rows(ledger: &mut TurnLedger, source_id: &str)
    ensures
        final(ledger).samples@ == not_owned_alone(
            old(ledger).samples@,
            old(ledger).turn_sources@,
            source_id@,
        ),
        final(ledger).turns@ == not_owned_alone(
            old(ledger).turns@,
            old(ledger).turn_sources@,
            source_id@,
        ),
        final(ledger).audits@ == not_owned_alone(
            old(ledger).audits@,
            old(ledger).turn_sources@,
            source_id@,
        ),
        final(ledger).turn_sources@ == links_of_others(old(ledger).turn_sources@, source_id@),
        final(ledger).parse_errors == old(ledger).parse_errors,
{
    drop_owned_alone(&mut ledger.samples, &ledger.turn_sources, source_id);
    drop_owned_alone(&mut ledger.turns, &ledger.turn_sources, source_id);
    drop_owned_alone(&mut ledger.audits, &ledger.turn_sources, source_id);
    drop_links(&mut ledger.turn_sources, source_id);
}

/// What is to be done about the account of a source that was replaced.
#[derive(Debug)]
pub enum ReplacedAccount {
    /// There was none.
    Unowned,
    /// Nothing ties its rows to the source, so all of them were set aside: it begins anew as
    /// an unverified one.
    SetAside(String),
    /// The source's rows were removed: what is derived of it has to be derived again.
    Reduced(String),
}

pub open spec fn has_links(links: Seq<TurnSource>, source_id: Seq<char>) -> bool {
    exists|i: int| 0 <= i < links.len() && (#[trigger] links[i]).source_id@ == source_id
}

fn any_link(links: &Vec<TurnSource>, source_id: &str) -> (r: bool)
    ensures
        r == has_links(links@, source_id@),
{
    let mut i: usize = 0;
    while i < links.len()
        invariant
            i <= links.len(),
            forall|k: int| 0 <= k < i ==> (#[trigger] links@[k]).source_id@ != source_id@,
        decreases links.len() - i,
    {
        if same_text(links[i].source_id.as_str(), source_id) {
            assert(links@[i as int].source_id@ == source_id@);
            return true;
        }
        i += 1;
    }
    false
}

/// Removing the rows of a source keeps the rows of the ledger unique.
pub proof fn lemma_removal_keeps_wf(before: TurnLedger, after: TurnLedger, source_id: Seq<char>)
    requires
        before@.wf(),
        after.turns@ == not_owned_alone(before.turns@, before.turn_sources@, source_id),
        after.samples@ == not_owned_alone(before.samples@, before.turn_sources@, source_id),
    ensures
        after@.wf(),
{
    let links = before.turn_sources@;
    let apart = |a: TurnUsageRecord, b: TurnUsageRecord| turn_key(a@) != turn_key(b@);
    let distinct = |a: TurnTokenSample, b: TurnTokenSample| !same_sample(a@, b@);
    assert forall|i: int, j: int| 0 <= i < j < before.turns@.len() implies apart(
        #[trigger] before.turns@[i],
        #[trigger] before.turns@[j],
    ) by {
        assert(turn_key(before@.turns[i]) != turn_key(before@.turns[j]));
    }
    lemma_filter_pairs(
        before.turns@,
        |row: TurnUsageRecord| !owns_alone(links, source_id, row.key()),
        apart,
    );
    assert forall|i: int, j: int| 0 <= i < j < before.samples@.len() implies distinct(
        #[trigger] before.samples@[i],
        #[trigger] before.samples@[j],
    ) by {
        assert(!same_sample(before@.samples[i], before@.samples[j]));
    }
    lemma_filter_pairs(
        before.samples@,
        |row: TurnTokenSample| !owns_alone(links, source_id, row.key()),
        distinct,
    );
    assert forall|i: int, j: int| 0 <= i < j < after@.turns.len() implies turn_key(
        #[trigger] after@.turns[i],
    ) != turn_key(#[trigger] after@.turns[j]) by {
        assert(apart(after.turns@[i], after.turns@[j]));
    }
    assert forall|i: int, j: int| 0 <= i < j < after@.samples.len() implies !same_sample(
        #[trigger] after@.samples[i],
        #[trigger] after@.samples[j],
    ) by {
        assert(distinct(after.samples@[i], after.samples@[j]));
    }
}

/// What is to be done about `account`, and nothing else.
pub open spec fn tells_of(
    told: ReplacedAccount,
    account: Option<Seq<char>>,
    linked: bool,
) -> bool {
    match (told, account) {
        (ReplacedAccount::Unowned, None) => true,
        (ReplacedAccount::Reduced(key), Some(account)) => linked && key@ == account,
        (ReplacedAccount::SetAside(key), Some(account)) => !linked && key@ == account,
        _ => false,
    }
}

/// `after` is the ledger `before` without the rows of a source that was replaced. Where
/// nothing ties rows to the source, all rows of the account that it had are set aside.
pub open spec fn replaced_rows_removed(
    before: TurnLedger,
    after: TurnLedger,
    source_id: Seq<char>,
    account: Option<Seq<char>>,
    now: i64,
) -> bool {
    let links = before.turn_sources@;
    if has_links(links, source_id) {
        &&& after.samples@ == not_owned_alone(before.samples@, links, source_id)
        &&& after.turns@ == not_owned_alone(before.turns@, links, source_id)
        &&& after.audits@ == not_owned_alone(before.audits@, links, source_id)
        &&& after.turn_sources@ == links_of_others(links, source_id)
        &&& after.parse_errors@ == errors_of_others(before.parse_errors@, source_id)
    } else {
        match account {
            Some(key) => {
                &&& after.turns@ == rows_of_others(before.turns@, key)
                &&& after.samples@ == rows_of_others(before.samples@, key)
                &&& after.parse_errors@ == rows_of_others(before.parse_errors@, key)
                &&& after.turn_sources@ == rows_of_others(links, key)
                &&& after.audits@ == audits_of_quarantine(
                    before.audits@,
                    before.turns@,
                    before@.samples,
                    key,
                    now,
                )
            },
            None => after == before,
        }
    }
}

/// Takes the rows of a source that was replaced out of the ledger.
pub fn quarantine_replaced_source(
    ledger: &mut TurnLedger,
    source_id: &str,
    old_account: Option<String>,
    now: i64,
) -> (r: ReplacedAccount)
    ensures
        replaced_rows_removed(
            *old(ledger),
            *final(ledger),
            source_id@,
            text_opt(old_account),
            now,
        ),
        tells_of(
            r,
            text_opt(old_account),
            has_links(old(ledger).turn_sources@, source_id@),
        ),
        old(ledger)@.wf() ==> final(ledger)@.wf(),
{
    let ghost before = *ledger;
    if any_link(&ledger.turn_sources, source_id) {
        remove_source_rows(ledger, source_id);
        proof {
            if before@.wf() {
                lemma_removal_keeps_wf(before, *ledger, source_id@);
            }
        }
        drop_source_errors(&mut ledger.parse_errors, source_id);
        match old_account {
            Some(key) => ReplacedAccount::Reduced(key),
            None => ReplacedAccount::Unowned,
        }
    } else {
        match old_account {
            Some(key) => {
                ledger.quarantine_unverified_account_data(key.as_str(), now);
                ReplacedAccount::SetAside(key)
            },
            None => ReplacedAccount::Unowned,
        }
    }
}

/// What registering a file does to the ledger: only a file that replaces a source takes that
/// source's rows out of it.
pub open spec fn ledger_registered(
    before: TurnLedger,
    after: TurnLedger,
    sources: Seq<SourceView>,
    registration: Registration,
    told: ReplacedAccount,
    now: i64,
) -> bool {
    match registration {
        Registration::Replaced(old_at, _) => {
            let replaced = sources[old_at as int];
            &&& replaced_rows_removed(
                before,
                after,
                replaced.source_id,
                replaced.account_key,
                now,
            )
            &&& tells_of(
                told,
                replaced.account_key,
                has_links(before.turn_sources@, replaced.source_id),
            )
        },
        _ => after == before && told is Unowned,
    }
}

/// Registering a file leaves every stored cursor fit to be read on from.
pub proof fn lemma_registering_keeps_cursors(
    before: Seq<RolloutSource>,
    after: Seq<RolloutSource>,
    file: ObservedFile,
    now: i64,
)
    requires
        cursors_wf(before),
        registered(source_views(before), file, now) is Ok,
        source_views(after) == registered(source_views(before), file, now)->Ok_0.0,
    ensures
        cursors_wf(after),
{
    let known = source_views(before);
    lemma_first_where(known, |source: SourceView| fit(source, file) == 0);
    lemma_first_where(known, |source: SourceView| fit(source, file) == 1);
    lemma_first_where(known, |source: SourceView| fit(source, file) == 2);
    let id = source_id_of(file.identity@);
    lemma_first_where(known, |source: SourceView| source.source_id == id);
    let listed = registered(known, file, now)->Ok_0.0;
    match best_fit(known, file) {
        Some(at) => assert(0 <= at < known.len()),
        None => match first_where(known, |source: SourceView| source.source_id == id) {
            Some(at) => {
                assert(listed == known.update(at, found_again(known[at], file, now)));
            },
            None => {
                assert(listed == known.push(
                    new_source(id, file.canonical_path@, file.identity@, "unresolved"@, now),
                ));
            },
        },
    }
    assert(listed.len() == after.len());
    assert forall|i: int| 0 <= i < after.len() implies (#[trigger] after[i]).cursor_wf() by {
        assert(listed[i] == after[i]@);
        if i < before.len() {
            assert(before[i].cursor_wf());
            assert(known[i] == before[i]@);
            assert(listed[i].cursor == known[i].cursor);
            assert(cursor_opt(after[i].cursor) == cursor_opt(before[i].cursor));
        } else {
            assert(listed[i].cursor is None);
        }
    }
}

/// Registers a file. Where it replaces the file that a source was, the rows of that source
/// leave the ledger, and the result says what is to be done about the account that it had.
pub fn register_file(
    sources: &mut Vec<RolloutSource>,
    audits: &mut Vec<BindingAudit>,
    ledger: &mut TurnLedger,
    file: &ObservedFile,
    now: i64,
) -> (r: Result<(Registration, ReplacedAccount), RegisterError>)
    requires
        old(sources).len() < usize::MAX,
    ensures
        old(ledger)@.wf() ==> final(ledger)@.wf(),
        cursors_wf(old(sources)@) ==> cursors_wf(final(sources)@),
        match (r, registered(source_views(old(sources)@), *file, now)) {
            (Ok((registration, told)), Ok((after, expected))) => {
                &&& registration == expected
                &&& source_views(final(sources)@) == after
                &&& audit_views(final(audits)@) == registration_audits(
                    audit_views(old(audits)@),
                    source_views(old(sources)@),
                    after,
                    registration,
                    now,
                )
                &&& ledger_registered(
                    *old(ledger),
                    *final(ledger),
                    source_views(old(sources)@),
                    registration,
                    told,
                    now,
                )
            },
            (Err(error), Err(expected)) => {
                &&& error == expected
                &&& final(sources)@ == old(sources)@
                &&& final(audits)@ == old(audits)@
                &&& *final(ledger) == *old(ledger)
            },
            _ => false,
        },
{
    let ghost start = sources@;
    let ghost known = source_views(sources@);
    let ghost noted = audit_views(audits@);
    let result = register_source(sources, audits, file, now);
    proof {
        if result is Ok && cursors_wf(start) {
            lemma_registering_keeps_cursors(start, sources@, *file, now);
        }
    }
    match result {
        Ok(registration) => match registration {
            Registration::Replaced(old_at, _) => {
                proof {
                    assert(audit_views(audits@).len() == noted.len() + 2);
                    assert(audit_views(audits@)[noted.len() as int].source_id
                        == known[old_at as int].source_id);
                    assert(audit_views(audits@)[noted.len() as int].old_account_key
                        == known[old_at as int].account_key);
                }
                let audit = &audits[audits.len() - 2];
                assert(audit@ == audit_views(audits@)[noted.len() as int]);
                let account = match &audit.old_account_key {
                    Some(key) => Some(key.clone()),
                    None => None,
                };
                let told = quarantine_replaced_source(
                    ledger,
                    audit.source_id.as_str(),
                    account,
                    now,
                );
                Ok((registration, told))
            },
            _ => Ok((registration, ReplacedAccount::Unowned)),
        },
        Err(error) => Err(error),
    }
}

/// A file that replaces a source takes every turn that the source alone accounts for out of
/// the ledger.
pub proof fn lemma_replacement_leaves_no_turn(
    before: TurnLedger,
    after: TurnLedger,
    source_id: Seq<char>,
    account: Option<Seq<char>>,
    now: i64,
)
    requires
        replaced_rows_removed(before, after, source_id, account, now),
        has_links(before.turn_sources@, source_id),
    ensures
        forall|i: int|
            0 <= i < after.turns@.len() ==> !owns_alone(
                before.turn_sources@,
                source_id,
                (#[trigger] after.turns@[i]).key(),
            ),
        forall|i: int|
            0 <= i < after.samples@.len() ==> !owns_alone(
                before.turn_sources@,
                source_id,
                (#[trigger] after.samples@[i]).key(),
            ),
{
    let links = before.turn_sources@;
    assert forall|i: int| 0 <= i < after.turns@.len() implies !owns_alone(
        links,
        source_id,
        (#[trigger] after.turns@[i]).key(),
    ) by {
        lemma_filter_member(
            before.turns@,
            |row: TurnUsageRecord| !owns_alone(links, source_id, row.key()),
            i,
        );
    }
    assert forall|i: int| 0 <= i < after.samples@.len() implies !owns_alone(
        links,
        source_id,
        (#[trigger] after.samples@[i]).key(),
    ) by {
        lemma_filter_member(
            before.samples@,
            |row: TurnTokenSample| !owns_alone(links, source_id, row.key()),
            i,
        );
    }
}

// ---------------------------------------------------------------------------
// A source whose account becomes known
// ---------------------------------------------------------------------------

/// The row stands in the way of one that the source hands over: it is of the account that
/// takes over, and the same turn is among the source's rows.
pub open spec fn in_the_way<T: TurnRow, U: TurnRow>(
    row: T,
    having: Seq<U>,
    links: Seq<TurnSource>,
    source_id: Seq<char>,
    from: Seq<char>,
    to: Seq<char>,
) -> bool {
    &&& row.key().account_key == to
    &&& owns(links, source_id, of_account(row.key(), from))
    &&& has_row(having, of_account(row.key(), from))
}

pub open spec fn out_of_the_way<T: TurnRow, U: TurnRow>(
    rows: Seq<T>,
    having: Seq<U>,
    links: Seq<TurnSource>,
    source_id: Seq<char>,
    from: Seq<char>,
    to: Seq<char>,
) -> Seq<T> {
    rows.filter(|row: T| !in_the_way(row, having, links, source_id, from, to))
}

/// The row is one that the source hands over.
pub open spec fn handed<T: TurnRow>(
    row: T,
    links: Seq<TurnSource>,
    source_id: Seq<char>,
    from: Seq<char>,
) -> bool {
    row.key().account_key == from && owns(links, source_id, row.key())
}

/// `after` is `before` with the source's rows handed over.
pub open spec fn handed_over<T: TurnRow>(
    before: Seq<T>,
    after: Seq<T>,
    links: Seq<TurnSource>,
    source_id: Seq<char>,
    from: Seq<char>,
    to: Seq<char>,
) -> bool {
    &&& after.len() == before.len()
    &&& forall|i: int|
        0 <= i < before.len() ==> if handed(#[trigger] before[i], links, source_id, from) {
            T::moved(before[i], after[i], to)
        } else {
            after[i] == before[i]
        }
}

/// `after` is `before` with the source's findings handed over, but for those on turns that
/// the account has findings on already.
pub open spec fn findings_handed_over(
    before: Seq<TimelineAudit>,
    after: Seq<TimelineAudit>,
    links: Seq<TurnSource>,
    source_id: Seq<char>,
    from: Seq<char>,
    to: Seq<char>,
) -> bool {
    &&& after.len() == before.len()
    &&& forall|i: int|
        0 <= i < before.len() ==> if handed(#[trigger] before[i], links, source_id, from)
            && !has_row(before, of_account(before[i].key(), to)) {
            TimelineAudit::moved(before[i], after[i], to)
        } else {
            after[i] == before[i]
        }
}

/// `after` is `before` with the source's parse errors handed over.
pub open spec fn source_errors_handed_over(
    before: Seq<StoredParseError>,
    after: Seq<StoredParseError>,
    source_id: Seq<char>,
    from: Seq<char>,
    to: Seq<char>,
) -> bool {
    &&& after.len() == before.len()
    &&& forall|i: int|
        0 <= i < before.len() ==> if (#[trigger] before[i]).account_key@ == from && text_opt(
            before[i].source_id,
        ) == Some(source_id) {
            crate::ledger::same_but_account(after[i], before[i]) && after[i].account_key@ == to
        } else {
            after[i] == before[i]
        }
}

/// The link has no like among the links of the account that takes over.
pub open spec fn stands_alone(
    links: Seq<TurnSource>,
    source_id: Seq<char>,
    from: Seq<char>,
    to: Seq<char>,
) -> spec_fn(TurnSource) -> bool {
    |link: TurnSource|
        !(link.source_id@ == source_id && link.account_key@ == from && owns(
            links,
            source_id,
            of_account(link.key(), to),
        ))
}

/// The links that stay when the source's links are handed over: one that would come to
/// stand beside its like goes.
pub open spec fn links_kept(
    links: Seq<TurnSource>,
    source_id: Seq<char>,
    from: Seq<char>,
    to: Seq<char>,
) -> Seq<TurnSource> {
    links.filter(stands_alone(links, source_id, from, to))
}

/// `after` is `before` with every link of the source handed over.
pub open spec fn links_handed_over(
    before: Seq<TurnSource>,
    after: Seq<TurnSource>,
    source_id: Seq<char>,
    to: Seq<char>,
) -> bool {
    &&& after.len() == before.len()
    &&& forall|i: int|
        0 <= i < before.len() ==> if (#[trigger] before[i]).source_id@ == source_id {
            TurnSource::moved(before[i], after[i], to)
        } else {
            after[i] == before[i]
        }
}

/// `after` is the ledger `before` once the source's rows have passed from one account to
/// another. The findings are still to be renewed.
pub open spec fn ledger_handed_over(
    before: TurnLedger,
    after: TurnLedger,
    source_id: Seq<char>,
    from: Seq<char>,
    to: Seq<char>,
) -> bool {
    let links = before.turn_sources@;
    let turns = out_of_the_way(before.turns@, before.turns@, links, source_id, from, to);
    &&& handed_over(turns, after.turns@, links, source_id, from, to)
    &&& handed_over(
        out_of_the_way(before.samples@, before.samples@, links, source_id, from, to),
        after.samples@,
        links,
        source_id,
        from,
        to,
    )
    &&& findings_handed_over(
        out_of_the_way(before.audits@, turns, links, source_id, from, to),
        after.audits@,
        links,
        source_id,
        from,
        to,
    )
    &&& source_errors_handed_over(
        before.parse_errors@,
        after.parse_errors@,
        source_id,
        from,
        to,
    )
    &&& links_handed_over(links_kept(links, source_id, from, to), after.turn_sources@, source_id, to)
}

fn copy_error(error: &StoredParseError) -> (r: StoredParseError)
    ensures
        r == *error,
{
    StoredParseError {
        file_path: error.file_path.clone(),
        byte_offset: error.byte_offset,
        error: error.error.clone(),
        account_key: error.account_key.clone(),
        source_id: copy_opt(&error.source_id),
        rebuild_batch_id: error.rebuild_batch_id.clone(),
        first_seen_at: error.first_seen_at,
    }
}

fn clear_the_way<T: TurnRow, U: TurnRow>(
    rows: &Vec<T>,
    having: &Vec<U>,
    links: &Vec<TurnSource>,
    source_id: &str,
    from: &str,
    to: &str,
) -> (r: Vec<T>)
    ensures
        r@ == out_of_the_way(rows@, having@, links@, source_id@, from@, to@),
{
    let ghost keep = |row: T| !in_the_way(row, having@, links@, source_id@, from@, to@);
    let mut r: Vec<T> = Vec::new();
    let mut i: usize = 0;
    proof {
        reveal(Seq::filter);
    }
    while i < rows.len()
        invariant
            i <= rows.len(),
            keep == (|row: T| !in_the_way(row, having@, links@, source_id@, from@, to@)),
            r@ == rows@.take(i as int).filter(keep),
        decreases rows.len() - i,
    {
        proof {
            assert(rows@.take(i + 1).drop_last() =~= rows@.take(i as int));
            assert(rows@.take(i + 1).last() == rows@[i as int]);
            reveal(Seq::filter);
        }
        let row = &rows[i];
        let thread = row.thread_of().as_str();
        let turn = row.turn_of().as_str();
        let blocked = same_text(row.account_of().as_str(), to) && source_owns(
            links,
            source_id,
            from,
            thread,
            turn,
        ) && row_exists(having, from, thread, turn);
        if !blocked {
            r.push(row.copy_row());
        }
        i += 1;
    }
    assert(rows@.take(rows.len() as int) =~= rows@);
    r
}

fn hand_over<T: TurnRow>(
    rows: Vec<T>,
    links: &Vec<TurnSource>,
    source_id: &str,
    from: &str,
    to: &str,
) -> (r: Vec<T>)
    ensures
        handed_over(rows@, r@, links@, source_id@, from@, to@),
{
    let ghost before = rows@;
    let mut r: Vec<T> = Vec::new();
    for row in iter: rows
        invariant
            iter.seq() == before,
            r@.len() == iter.index(),
            forall|i: int|
                0 <= i < iter.index() ==> if handed(
                    #[trigger] before[i],
                    links@,
                    source_id@,
                    from@,
                ) {
                    T::moved(before[i], r@[i], to@)
                } else {
                    r@[i] == before[i]
                },
    {
        let taken = same_text(row.account_of().as_str(), from) && source_owns(
            links,
            source_id,
            row.account_of().as_str(),
            row.thread_of().as_str(),
            row.turn_of().as_str(),
        );
        if taken {
            r.push(row.move_to(to));
        } else {
            r.push(row);
        }
    }
    r
}

fn hand_over_findings(
    rows: Vec<TimelineAudit>,
    links: &Vec<TurnSource>,
    source_id: &str,
    from: &str,
    to: &str,
) -> (r: Vec<TimelineAudit>)
    ensures
        findings_handed_over(rows@, r@, links@, source_id@, from@, to@),
{
    let ghost before = rows@;
    let mut r: Vec<TimelineAudit> = Vec::new();
    let mut i: usize = 0;
    while i < rows.len()
        invariant
            i <= rows.len(),
            before == rows@,
            r@.len() == i,
            forall|k: int|
                0 <= k < i ==> if handed(#[trigger] before[k], links@, source_id@, from@)
                    && !has_row(before, of_account(before[k].key(), to@)) {
                    TimelineAudit::moved(before[k], r@[k], to@)
                } else {
                    r@[k] == before[k]
                },
        decreases rows.len() - i,
    {
        let row = rows[i].copy_row();
        let taken = same_text(row.account_of().as_str(), from) && source_owns(
            links,
            source_id,
            row.account_of().as_str(),
            row.thread_of().as_str(),
            row.turn_of().as_str(),
        ) && !row_exists(&rows, to, row.thread_of().as_str(), row.turn_of().as_str());
        if taken {
            r.push(row.move_to(to));
        } else {
            r.push(row);
        }
        i += 1;
    }
    r
}

fn hand_over_source_errors(errors: &Vec<StoredParseError>, source_id: &str, from: &str, to: &str) -> (r:
    Vec<StoredParseError>)
    ensures
        source_errors_handed_over(errors@, r@, source_id@, from@, to@),
{
    let mut r: Vec<StoredParseError> = Vec::new();
    let mut i: usize = 0;
    while i < errors.len()
        invariant
            i <= errors.len(),
            r@.len() == i,
            forall|k: int|
                0 <= k < i ==> if (#[trigger] errors@[k]).account_key@ == from@ && text_opt(
                    errors@[k].source_id,
                ) == Some(source_id@) {
                    crate::ledger::same_but_account(r@[k], errors@[k]) && r@[k].account_key@ == to@
                } else {
                    r@[k] == errors@[k]
                },
        decreases errors.len() - i,
    {
        let mut row = copy_error(&errors[i]);
        let of_source = match &row.source_id {
            Some(id) => same_text(id.as_str(), source_id),
            None => false,
        };
        if of_source && same_text(row.account_key.as_str(), from) {
            row.account_key = to.to_owned();
        }
        r.push(row);
        i += 1;
    }
    r
}

fn hand_over_links(links: &Vec<TurnSource>, source_id: &str, from: &str, to: &str) -> (r: Vec<
    TurnSource,
>)
    ensures
        links_handed_over(links_kept(links@, source_id@, from@, to@), r@, source_id@, to@),
{
    let ghost keep = stands_alone(links@, source_id@, from@, to@);
    let ghost mut kept: Seq<TurnSource> = Seq::empty();
    let mut r: Vec<TurnSource> = Vec::new();
    let mut i: usize = 0;
    proof {
        reveal(Seq::filter);
    }
    while i < links.len()
        invariant
            i <= links.len(),
            keep == stands_alone(links@, source_id@, from@, to@),
            kept == links@.take(i as int).filter(keep),
            links_handed_over(kept, r@, source_id@, to@),
        decreases links.len() - i,
    {
        let ghost before = kept;
        proof {
            assert(links@.take(i + 1).drop_last() =~= links@.take(i as int));
            assert(links@.take(i + 1).last() == links@[i as int]);
            reveal(Seq::filter);
        }
        let link = links[i].copy_row();
        let of_source = same_text(link.source_id.as_str(), source_id);
        let dropped = of_source && same_text(link.account_key.as_str(), from) && source_owns(
            links,
            source_id,
            to,
            link.thread_id.as_str(),
            link.turn_id.as_str(),
        );
        if !dropped {
            proof {
                kept = before.push(link);
            }
            let ghost was = r@;
            if of_source {
                r.push(link.move_to(to));
            } else {
                r.push(link);
            }
            assert forall|k: int| 0 <= k < kept.len() implies if (#[trigger] kept[k]).source_id@
                == source_id@ {
                TurnSource::moved(kept[k], r@[k], to@)
            } else {
                r@[k] == kept[k]
            } by {
                if k < before.len() {
                    assert(kept[k] == before[k]);
                    assert(r@[k] == was[k]);
                }
            }
        }
        i += 1;
    }
    assert(links@.take(links.len() as int) =~= links@);
    r
}

fn hand_over_ledger(ledger: &TurnLedger, source_id: &str, from: &str, to: &str) -> (r: TurnLedger)
    ensures
        ledger_handed_over(*ledger, r, source_id@, from@, to@),
{
    let links = &ledger.turn_sources;
    let samples = clear_the_way(&ledger.samples, &ledger.samples, links, source_id, from, to);
    let turns = clear_the_way(&ledger.turns, &ledger.turns, links, source_id, from, to);
    let audits = clear_the_way(&ledger.audits, &turns, links, source_id, from, to);
    TurnLedger {
        turns: hand_over(turns, links, source_id, from, to),
        samples: hand_over(samples, links, source_id, from, to),
        audits: hand_over_findings(audits, links, source_id, from, to),
        parse_errors: hand_over_source_errors(&ledger.parse_errors, source_id, from, to),
        turn_sources: hand_over_links(&ledger.turn_sources, source_id, from, to),
    }
}

/// Handing rows over brings no two of them together: where two rows have the same key
/// afterwards, they had the same before.
proof fn lemma_no_collision<T: TurnRow>(
    rows: Seq<T>,
    after: Seq<T>,
    links: Seq<TurnSource>,
    source_id: Seq<char>,
    from: Seq<char>,
    to: Seq<char>,
    i: int,
    j: int,
)
    requires
        handed_over(
            out_of_the_way(rows, rows, links, source_id, from, to),
            after,
            links,
            source_id,
            from,
            to,
        ),
        0 <= i < after.len(),
        0 <= j < after.len(),
        after[i].key() == after[j].key(),
    ensures
        ({
            let kept = out_of_the_way(rows, rows, links, source_id, from, to);
            kept[i].key() == kept[j].key()
        }),
{
    let kept = out_of_the_way(rows, rows, links, source_id, from, to);
    let keep = |row: T| !in_the_way(row, rows, links, source_id, from, to);
    let a = lemma_filter_member(rows, keep, i);
    let b = lemma_filter_member(rows, keep, j);
    if handed(kept[i], links, source_id, from) {
        T::moved_key(kept[i], after[i], to);
    }
    if handed(kept[j], links, source_id, from) {
        T::moved_key(kept[j], after[j], to);
    }
    if handed(kept[i], links, source_id, from) && !handed(kept[j], links, source_id, from) {
        assert(of_account(kept[j].key(), from) == kept[i].key());
        assert(rows[a].key() == kept[i].key());
        assert(has_row(rows, kept[i].key()));
    }
    if handed(kept[j], links, source_id, from) && !handed(kept[i], links, source_id, from) {
        assert(of_account(kept[i].key(), from) == kept[j].key());
        assert(rows[b].key() == kept[j].key());
        assert(has_row(rows, kept[j].key()));
    }
}

/// Handing rows over keeps the rows of the ledger unique.
pub proof fn lemma_handed_over_keeps_wf(
    before: TurnLedger,
    after: TurnLedger,
    source_id: Seq<char>,
    from: Seq<char>,
    to: Seq<char>,
)
    requires
        before@.wf(),
        ledger_handed_over(before, after, source_id, from, to),
    ensures
        after@.wf(),
{
    let links = before.turn_sources@;
    let turns = out_of_the_way(before.turns@, before.turns@, links, source_id, from, to);
    let samples = out_of_the_way(before.samples@, before.samples@, links, source_id, from, to);
    let keep_turn = |row: TurnUsageRecord|
        !in_the_way(row, before.turns@, links, source_id, from, to);
    let keep_sample = |row: TurnTokenSample|
        !in_the_way(row, before.samples@, links, source_id, from, to);
    let apart = |a: TurnUsageRecord, b: TurnUsageRecord| a.key() != b.key();
    let distinct = |a: TurnTokenSample, b: TurnTokenSample| !same_sample(a@, b@);
    assert forall|i: int, j: int| 0 <= i < j < before.turns@.len() implies apart(
        #[trigger] before.turns@[i],
        #[trigger] before.turns@[j],
    ) by {
        assert(turn_key(before@.turns[i]) != turn_key(before@.turns[j]));
    }
    lemma_filter_pairs(before.turns@, keep_turn, apart);
    assert forall|i: int, j: int| 0 <= i < j < before.samples@.len() implies distinct(
        #[trigger] before.samples@[i],
        #[trigger] before.samples@[j],
    ) by {
        assert(!same_sample(before@.samples[i], before@.samples[j]));
    }
    lemma_filter_pairs(before.samples@, keep_sample, distinct);
    assert forall|i: int, j: int| 0 <= i < j < after@.turns.len() implies turn_key(
        #[trigger] after@.turns[i],
    ) != turn_key(#[trigger] after@.turns[j]) by {
        if turn_key(after@.turns[i]) == turn_key(after@.turns[j]) {
            lemma_no_collision(
                before.turns@,
                after.turns@,
                links,
                source_id,
                from,
                to,
                i,
                j,
            );
            assert(apart(turns[i], turns[j]));
        }
    }
    assert forall|i: int, j: int| 0 <= i < j < after@.samples.len() implies !same_sample(
        #[trigger] after@.samples[i],
        #[trigger] after@.samples[j],
    ) by {
        if same_sample(after@.samples[i], after@.samples[j]) {
            lemma_no_collision(
                before.samples@,
                after.samples@,
                links,
                source_id,
                from,
                to,
                i,
                j,
            );
            assert(distinct(samples[i], samples[j]));
            assert(after.samples@[i].segment_no == samples[i].segment_no);
            assert(after.samples@[j].segment_no == samples[j].segment_no);
            assert(after.samples@[i].cumulative_tokens == samples[i].cumulative_tokens);
            assert(after.samples@[j].cumulative_tokens == samples[j].cumulative_tokens);
        }
    }
}

/// Only rows of the source change: whatever is not the source's, and not in its way, stays.
pub proof fn lemma_rows_of_others_stay<T: TurnRow>(
    before: Seq<T>,
    after: Seq<T>,
    links: Seq<TurnSource>,
    source_id: Seq<char>,
    from: Seq<char>,
    to: Seq<char>,
    i: int,
)
    requires
        handed_over(before, after, links, source_id, from, to),
        0 <= i < before.len(),
        before[i].key().account_key != from,
    ensures
        after[i] == before[i],
{
    assert(!handed(before[i], links, source_id, from));
}

/// The findings of a ledger once an account was audited anew.
pub open spec fn findings_renewed(
    ledger: TurnLedger,
    account_key: Seq<char>,
    now: i64,
) -> Seq<TimelineAudit> {
    audits_of_orphans(
        audits_of_turns(
            audits_kept(ledger.audits@, Some(account_key)),
            ledger.turns@,
            ledger@.samples,
            Some(account_key),
            AuditReason::SourceMissing,
            now,
        ),
        ledger.samples@,
        ledger@,
        Some(account_key),
        now,
    )
}

/// Hands the rows of a source to an account and audits that account anew. Where the
/// account's totals would not be those of its timeline, nothing is handed over.
pub fn move_source_rows(
    ledger: &mut TurnLedger,
    source_id: &str,
    from: &str,
    to: &str,
    now: i64,
) -> (r: Result<(), AccountingError>)
    requires
        old(ledger)@.wf(),
    ensures
        exists|moved: TurnLedger|
            {
                &&& #[trigger] ledger_handed_over(*old(ledger), moved, source_id@, from@, to@)
                &&& match r {
                    Ok(()) => {
                        &&& accounts_closed(moved@, Some(to@))
                        &&& final(ledger).turns == moved.turns
                        &&& final(ledger).samples == moved.samples
                        &&& final(ledger).turn_sources == moved.turn_sources
                        &&& final(ledger).parse_errors == moved.parse_errors
                        &&& final(ledger).audits@ == findings_renewed(moved, to@, now)
                    },
                    Err(error) => {
                        &&& !accounts_closed(moved@, Some(to@))
                        &&& names_fault(error, moved@, Some(to@))
                        &&& *final(ledger) == *old(ledger)
                    },
                }
            },
        final(ledger)@.wf(),
{
    let mut moved = hand_over_ledger(ledger, source_id, from, to);
    let ghost handed = moved;
    proof {
        lemma_handed_over_keeps_wf(*ledger, handed, source_id@, from@, to@);
    }
    match moved.verify_token_accounting(Some(to)) {
        Ok(()) => {
            moved.audit_timeline_gaps(Some(to), AuditReason::SourceMissing, now);
            *ledger = moved;
            Ok(())
        },
        Err(error) => Err(error),
    }
}

/// The link says that the source holds the turn.
pub open spec fn ties(
    link: TurnSource,
    source_id: Seq<char>,
    account_key: Seq<char>,
    thread_id: Seq<char>,
    turn_id: Seq<char>,
) -> bool {
    &&& link.source_id@ == source_id
    &&& link.account_key@ == account_key
    &&& link.thread_id@ == thread_id
    &&& link.turn_id@ == turn_id
}

/// The source holds the turn.
pub open spec fn is_tied(
    links: Seq<TurnSource>,
    source_id: Seq<char>,
    account_key: Seq<char>,
    thread_id: Seq<char>,
    turn_id: Seq<char>,
) -> bool {
    exists|i: int|
        0 <= i < links.len() && ties(
            #[trigger] links[i],
            source_id,
            account_key,
            thread_id,
            turn_id,
        )
}

/// The source holds the turn, and whatever holds it is that source.
pub open spec fn is_tied_only(
    links: Seq<TurnSource>,
    source_id: Seq<char>,
    account_key: Seq<char>,
    thread_id: Seq<char>,
    turn_id: Seq<char>,
) -> bool {
    &&& is_tied(links, source_id, account_key, thread_id, turn_id)
    &&& forall|i: int, other: Seq<char>|
        0 <= i < links.len() && #[trigger] ties(links[i], other, account_key, thread_id, turn_id)
            ==> other == source_id
}

proof fn lemma_owning_is_being_tied(links: Seq<TurnSource>, source_id: Seq<char>, key: TurnKey)
    ensures
        owns(links, source_id, key) == is_tied(
            links,
            source_id,
            key.account_key,
            key.thread_id,
            key.turn_id,
        ),
        owns_alone(links, source_id, key) == is_tied_only(
            links,
            source_id,
            key.account_key,
            key.thread_id,
            key.turn_id,
        ),
{
    let (account, thread, turn) = (key.account_key, key.thread_id, key.turn_id);
    assert forall|i: int, other: Seq<char>| 0 <= i < links.len() implies (#[trigger] ties(
        links[i],
        other,
        account,
        thread,
        turn,
    ) <==> links[i].source_id@ == other && links[i].key() == key) by {}
    if owns(links, source_id, key) {
        let i = choose|i: int|
            0 <= i < links.len() && (#[trigger] links[i]).source_id@ == source_id && links[i].key()
                == key;
        assert(ties(links[i], source_id, account, thread, turn));
    }
    if is_tied(links, source_id, account, thread, turn) {
        let i = choose|i: int|
            0 <= i < links.len() && ties(#[trigger] links[i], source_id, account, thread, turn);
        assert(links[i].key() == key);
    }
    if owned_elsewhere(links, source_id, key) {
        let i = choose|i: int|
            0 <= i < links.len() && (#[trigger] links[i]).source_id@ != source_id && links[i].key()
                == key;
        assert(ties(links[i], links[i].source_id@, account, thread, turn));
    } else {
        assert forall|i: int, other: Seq<char>|
            0 <= i < links.len() && #[trigger] ties(
                links[i],
                other,
                account,
                thread,
                turn,
            ) implies other == source_id by {
            assert(links[i].key() == key);
        }
    }
}

proof fn lemma_not_owned_alone<T: TurnRow>(
    rows: Seq<T>,
    links: Seq<TurnSource>,
    source_id: Seq<char>,
    row: T,
)
    requires
        rows.contains(row),
    ensures
        not_owned_alone(rows, links, source_id).contains(row) <==> !is_tied_only(
            links,
            source_id,
            row.key().account_key,
            row.key().thread_id,
            row.key().turn_id,
        ),
{
    let pick = |row: T| !owns_alone(links, source_id, row.key());
    let kept = not_owned_alone(rows, links, source_id);
    lemma_owning_is_being_tied(links, source_id, row.key());
    if pick(row) {
        let from = choose|from: int| 0 <= from < rows.len() && rows[from] == row;
        let at = lemma_filter_keeps(rows, pick, from);
        assert(kept[at] == row);
    }
    if kept.contains(row) {
        let at = choose|at: int| 0 <= at < kept.len() && kept[at] == row;
        let from = lemma_filter_member(rows, pick, at);
        assert(pick(rows[from]));
    }
}

/// When a source's generation ends, a turn and its samples leave the ledger exactly where the
/// source holds the turn and no other source does. Nothing is added, and the links that stay
/// are those of the other sources.
pub proof fn lemma_only_what_the_source_alone_holds_goes(
    before: TurnLedger,
    after: TurnLedger,
    source_id: Seq<char>,
)
    requires
        after.turns@ == not_owned_alone(before.turns@, before.turn_sources@, source_id),
        after.samples@ == not_owned_alone(before.samples@, before.turn_sources@, source_id),
        after.turn_sources@ == links_of_others(before.turn_sources@, source_id),
    ensures
        forall|turn: TurnUsageRecord|
            before.turns@.contains(turn) ==> (#[trigger] after.turns@.contains(turn)
                <==> !is_tied_only(
                before.turn_sources@,
                source_id,
                turn.account_key@,
                turn.thread_id@,
                turn.turn_id@,
            )),
        forall|sample: TurnTokenSample|
            before.samples@.contains(sample) ==> (#[trigger] after.samples@.contains(sample)
                <==> !is_tied_only(
                before.turn_sources@,
                source_id,
                sample.account_key@,
                sample.thread_id@,
                sample.turn_id@,
            )),
        forall|turn: TurnUsageRecord| #[trigger]
            after.turns@.contains(turn) ==> before.turns@.contains(turn),
        forall|sample: TurnTokenSample| #[trigger]
            after.samples@.contains(sample) ==> before.samples@.contains(sample),
        forall|link: TurnSource| #[trigger]
            after.turn_sources@.contains(link) <==> before.turn_sources@.contains(link)
                && link.source_id@ != source_id,
{
    let links = before.turn_sources@;
    assert forall|turn: TurnUsageRecord| before.turns@.contains(turn) implies (
    #[trigger] after.turns@.contains(turn) <==> !is_tied_only(
        links,
        source_id,
        turn.account_key@,
        turn.thread_id@,
        turn.turn_id@,
    )) by {
        lemma_not_owned_alone(before.turns@, links, source_id, turn);
    }
    assert forall|sample: TurnTokenSample| before.samples@.contains(sample) implies (
    #[trigger] after.samples@.contains(sample) <==> !is_tied_only(
        links,
        source_id,
        sample.account_key@,
        sample.thread_id@,
        sample.turn_id@,
    )) by {
        lemma_not_owned_alone(before.samples@, links, source_id, sample);
    }
    assert forall|turn: TurnUsageRecord| #[trigger]
        after.turns@.contains(turn) implies before.turns@.contains(turn) by {
        let pick = |row: TurnUsageRecord| !owns_alone(links, source_id, row.key());
        let at = choose|at: int| 0 <= at < after.turns@.len() && after.turns@[at] == turn;
        let from = lemma_filter_member(before.turns@, pick, at);
        assert(before.turns@[from] == turn);
    }
    assert forall|sample: TurnTokenSample| #[trigger]
        after.samples@.contains(sample) implies before.samples@.contains(sample) by {
        let pick = |row: TurnTokenSample| !owns_alone(links, source_id, row.key());
        let at = choose|at: int| 0 <= at < after.samples@.len() && after.samples@[at] == sample;
        let from = lemma_filter_member(before.samples@, pick, at);
        assert(before.samples@[from] == sample);
    }
    let pick = is_of_another_source(source_id);
    assert forall|link: TurnSource| #[trigger]
        after.turn_sources@.contains(link) <==> links.contains(link) && link.source_id@
            != source_id by {
        if after.turn_sources@.contains(link) {
            let at = choose|at: int|
                0 <= at < after.turn_sources@.len() && after.turn_sources@[at] == link;
            let from = lemma_filter_member(links, pick, at);
            assert(links[from] == link);
        }
        if links.contains(link) && link.source_id@ != source_id {
            let from = choose|from: int| 0 <= from < links.len() && links[from] == link;
            assert(pick(links[from]));
            let at = lemma_filter_keeps(links, pick, from);
            assert(after.turn_sources@[at] == link);
        }
    }
}

/// What a replaced source had recorded with no link to show for it is set aside with its whole
/// account: no turn, sample, link or parse error of that account stays, and all others do.
pub proof fn lemma_unlinked_account_is_set_aside(
    before: TurnLedger,
    after: TurnLedger,
    source_id: Seq<char>,
    account: Seq<char>,
    now: i64,
)
    requires
        replaced_rows_removed(before, after, source_id, Some(account), now),
        forall|i: int|
            0 <= i < before.turn_sources@.len() ==> (
            #[trigger] before.turn_sources@[i]).source_id@ != source_id,
    ensures
        forall|turn: TurnUsageRecord| #[trigger]
            after.turns@.contains(turn) <==> before.turns@.contains(turn) && turn.account_key@
                != account,
        forall|sample: TurnTokenSample| #[trigger]
            after.samples@.contains(sample) <==> before.samples@.contains(sample)
                && sample.account_key@ != account,
        forall|link: TurnSource| #[trigger]
            after.turn_sources@.contains(link) <==> before.turn_sources@.contains(link)
                && link.account_key@ != account,
        forall|error: StoredParseError| #[trigger]
            after.parse_errors@.contains(error) <==> before.parse_errors@.contains(error)
                && error.account_key@ != account,
{
    lemma_others_keep_exactly(before.turns@, account);
    lemma_others_keep_exactly(before.samples@, account);
    lemma_others_keep_exactly(before.turn_sources@, account);
    lemma_others_keep_exactly(before.parse_errors@, account);
}

proof fn lemma_out_of_the_way<T: TurnRow, U: TurnRow>(
    rows: Seq<T>,
    having: Seq<U>,
    links: Seq<TurnSource>,
    source_id: Seq<char>,
    from: Seq<char>,
    to: Seq<char>,
)
    ensures
        forall|row: T| #[trigger]
            out_of_the_way(rows, having, links, source_id, from, to).contains(row)
                <==> rows.contains(row) && !in_the_way(row, having, links, source_id, from, to),
{
    let pick = |row: T| !in_the_way(row, having, links, source_id, from, to);
    let kept = out_of_the_way(rows, having, links, source_id, from, to);
    assert forall|row: T| #[trigger]
        kept.contains(row) <==> rows.contains(row) && !in_the_way(
            row,
            having,
            links,
            source_id,
            from,
            to,
        ) by {
        if kept.contains(row) {
            let at = choose|at: int| 0 <= at < kept.len() && kept[at] == row;
            let found = lemma_filter_member(rows, pick, at);
            assert(rows[found] == row);
        }
        if rows.contains(row) && pick(row) {
            let found = choose|found: int| 0 <= found < rows.len() && rows[found] == row;
            let at = lemma_filter_keeps(rows, pick, found);
            assert(kept[at] == row);
        }
    }
}

/// When a source's rows pass from one account to another, every turn that the source holds
/// under the first is there under the second with its numbers unchanged, and no turn that it
/// holds stays under the first. The turns of the first account that it does not hold stay, and
/// so do the turns of all others; of the second account's own turns only one that the source
/// held too makes way.
pub proof fn lemma_turns_of_the_source_are_handed_over(
    before: TurnLedger,
    after: TurnLedger,
    source_id: Seq<char>,
    from: Seq<char>,
    to: Seq<char>,
    turn: TurnUsageRecord,
)
    requires
        ledger_handed_over(before, after, source_id, from, to),
        from != to,
        before.turns@.contains(turn),
    ensures
        ({
            let held = is_tied(
                before.turn_sources@,
                source_id,
                turn.account_key@,
                turn.thread_id@,
                turn.turn_id@,
            );
            &&& turn.account_key@ == from && held ==> {
                &&& exists|i: int|
                    {
                        &&& 0 <= i < after.turns@.len()
                        &&& (#[trigger] after.turns@[i]).account_key@ == to
                        &&& after.turns@[i].thread_id == turn.thread_id
                        &&& after.turns@[i].turn_id == turn.turn_id
                        &&& after.turns@[i].usage == turn.usage
                        &&& after.turns@[i].started_at == turn.started_at
                        &&& after.turns@[i].completed_at == turn.completed_at
                        &&& after.turns@[i].model == turn.model
                        &&& after.turns@[i].estimated_credits == turn.estimated_credits
                    }
                &&& !after.turns@.contains(turn)
            }
            &&& turn.account_key@ == from && !held ==> after.turns@.contains(turn)
            &&& turn.account_key@ != from && turn.account_key@ != to ==> after.turns@.contains(turn)
            &&& turn.account_key@ == to && !is_tied(
                before.turn_sources@,
                source_id,
                from,
                turn.thread_id@,
                turn.turn_id@,
            ) ==> after.turns@.contains(turn)
        }),
{
    let links = before.turn_sources@;
    let rows = before.turns@;
    let kept = out_of_the_way(rows, rows, links, source_id, from, to);
    lemma_out_of_the_way(rows, rows, links, source_id, from, to);
    lemma_owning_is_being_tied(links, source_id, turn.key());
    lemma_owning_is_being_tied(links, source_id, of_account(turn.key(), from));
    if !in_the_way(turn, rows, links, source_id, from, to) {
        assert(kept.contains(turn));
        let i = choose|i: int| 0 <= i < kept.len() && kept[i] == turn;
        if handed(turn, links, source_id, from) {
            assert(TurnUsageRecord::moved(kept[i], after.turns@[i], to));
            if after.turns@.contains(turn) {
                let k = choose|k: int| 0 <= k < after.turns@.len() && after.turns@[k] == turn;
                if handed(kept[k], links, source_id, from) {
                    assert(TurnUsageRecord::moved(kept[k], after.turns@[k], to));
                } else {
                    assert(after.turns@[k] == kept[k]);
                }
            }
        } else {
            assert(after.turns@[i] == turn);
        }
    }
}

/// When a source's rows pass from one account to another, every sample that the source holds
/// under the first is there under the second with its numbers unchanged, and all that it does
/// not hold stay where they are.
pub proof fn lemma_samples_of_the_source_are_handed_over(
    before: TurnLedger,
    after: TurnLedger,
    source_id: Seq<char>,
    from: Seq<char>,
    to: Seq<char>,
    sample: TurnTokenSample,
)
    requires
        ledger_handed_over(before, after, source_id, from, to),
        from != to,
        before.samples@.contains(sample),
    ensures
        ({
            let held = is_tied(
                before.turn_sources@,
                source_id,
                sample.account_key@,
                sample.thread_id@,
                sample.turn_id@,
            );
            &&& sample.account_key@ == from && held ==> {
                &&& exists|i: int|
                    {
                        &&& 0 <= i < after.samples@.len()
                        &&& (#[trigger] after.samples@[i]).account_key@ == to
                        &&& after.samples@[i].thread_id == sample.thread_id
                        &&& after.samples@[i].turn_id == sample.turn_id
                        &&& after.samples@[i].segment_no == sample.segment_no
                        &&& after.samples@[i].sampled_at == sample.sampled_at
                        &&& after.samples@[i].cumulative_tokens == sample.cumulative_tokens
                        &&& after.samples@[i].delta_tokens == sample.delta_tokens
                    }
                &&& !after.samples@.contains(sample)
            }
            &&& sample.account_key@ == from && !held ==> after.samples@.contains(sample)
            &&& sample.account_key@ != from && sample.account_key@ != to
                ==> after.samples@.contains(sample)
            &&& sample.account_key@ == to && !is_tied(
                before.turn_sources@,
                source_id,
                from,
                sample.thread_id@,
                sample.turn_id@,
            ) ==> after.samples@.contains(sample)
        }),
{
    let links = before.turn_sources@;
    let rows = before.samples@;
    let kept = out_of_the_way(rows, rows, links, source_id, from, to);
    lemma_out_of_the_way(rows, rows, links, source_id, from, to);
    lemma_owning_is_being_tied(links, source_id, sample.key());
    lemma_owning_is_being_tied(links, source_id, of_account(sample.key(), from));
    if !in_the_way(sample, rows, links, source_id, from, to) {
        assert(kept.contains(sample));
        let i = choose|i: int| 0 <= i < kept.len() && kept[i] == sample;
        if handed(sample, links, source_id, from) {
            assert(TurnTokenSample::moved(kept[i], after.samples@[i], to));
            if after.samples@.contains(sample) {
                let k = choose|k: int| 0 <= k < after.samples@.len() && after.samples@[k] == sample;
                if handed(kept[k], links, source_id, from) {
                    assert(TurnTokenSample::moved(kept[k], after.samples@[k], to));
                } else {
                    assert(after.samples@[k] == kept[k]);
                }
            }
        } else {
            assert(after.samples@[i] == sample);
        }
    }
}

/// Once a source's rows were handed over, all of its links are the account's, and the links of
/// other sources are what they were. Its parse errors go with it.
pub proof fn lemma_links_go_with_the_source(
    before: TurnLedger,
    after: TurnLedger,
    source_id: Seq<char>,
    from: Seq<char>,
    to: Seq<char>,
)
    requires
        ledger_handed_over(before, after, source_id, from, to),
    ensures
        forall|i: int|
            0 <= i < after.turn_sources@.len() && (
            #[trigger] after.turn_sources@[i]).source_id@ == source_id
                ==> after.turn_sources@[i].account_key@ == to,
        forall|link: TurnSource|
            link.source_id@ != source_id ==> (#[trigger] after.turn_sources@.contains(link)
                <==> before.turn_sources@.contains(link)),
        after.parse_errors@.len() == before.parse_errors@.len(),
        forall|i: int|
            0 <= i < before.parse_errors@.len() ==> {
                let was = #[trigger] before.parse_errors@[i];
                let is = after.parse_errors@[i];
                &&& is.file_path == was.file_path
                &&& is.byte_offset == was.byte_offset
                &&& is.error == was.error
                &&& is.account_key@ == if was.account_key@ == from && text_opt(was.source_id)
                    == Some(source_id) {
                    to
                } else {
                    was.account_key@
                }
            },
{
    let links = before.turn_sources@;
    let kept = links_kept(links, source_id, from, to);
    let pick = stands_alone(links, source_id, from, to);
    let all = after.turn_sources@;
    assert forall|i: int| 0 <= i < all.len() && (#[trigger] all[i]).source_id@
        == source_id implies all[i].account_key@ == to by {
        if kept[i].source_id@ == source_id {
            assert(TurnSource::moved(kept[i], all[i], to));
        } else {
            assert(all[i] == kept[i]);
        }
    }
    assert forall|link: TurnSource| link.source_id@ != source_id implies (
    #[trigger] all.contains(link) <==> links.contains(link)) by {
        if all.contains(link) {
            let i = choose|i: int| 0 <= i < all.len() && all[i] == link;
            if kept[i].source_id@ == source_id {
                assert(TurnSource::moved(kept[i], all[i], to));
            }
            assert(all[i] == kept[i]);
            let found = lemma_filter_member(links, pick, i);
            assert(links[found] == link);
        }
        if links.contains(link) {
            let found = choose|found: int| 0 <= found < links.len() && links[found] == link;
            assert(pick(links[found]));
            let at = lemma_filter_keeps(links, pick, found);
            assert(kept[at] == link);
            assert(all[at] == link);
        }
    }
}

/// The parse errors that leave with a source are those that name it.
pub proof fn lemma_errors_of_the_source_go(errors: Seq<StoredParseError>, source_id: Seq<char>)
    ensures
        forall|error: StoredParseError| #[trigger]
            errors_of_others(errors, source_id).contains(error) <==> errors.contains(error)
                && !(error.source_id matches Some(named) && named@ == source_id),
{
    let pick = is_error_elsewhere(source_id);
    let kept = errors_of_others(errors, source_id);
    assert forall|error: StoredParseError| #[trigger]
        kept.contains(error) <==> errors.contains(error) && !(error.source_id matches Some(named)
            && named@ == source_id) by {
        if kept.contains(error) {
            let at = choose|at: int| 0 <= at < kept.len() && kept[at] == error;
            let from = lemma_filter_member(errors, pick, at);
            assert(errors[from] == error);
        }
        if errors.contains(error) && pick(error) {
            let from = choose|from: int| 0 <= from < errors.len() && errors[from] == error;
            let at = lemma_filter_keeps(errors, pick, from);
            assert(kept[at] == error);
        }
    }
}

/// What is said of the account of a replaced source: nothing where it had none; that it was
/// reduced where links tie rows to the source, and that it was set aside where none do.
pub proof fn lemma_replaced_account_is_told(
    told: ReplacedAccount,
    account: Option<Seq<char>>,
    linked: bool,
)
    requires
        tells_of(told, account, linked),
    ensures
        told is Unowned <==> account is None,
        told matches ReplacedAccount::Reduced(key) ==> linked && account == Some(key@),
        told matches ReplacedAccount::SetAside(key) ==> !linked && account == Some(key@),
        account is Some && linked ==> told is Reduced,
        account is Some && !linked ==> told is SetAside,
{
}

/// Registering a file that replaces nothing leaves the ledger as it is. One that replaces a
/// source takes out what that source alone holds, and nothing that another holds too.
pub proof fn lemma_registering_takes_out_only_the_replaced(
    before: TurnLedger,
    after: TurnLedger,
    sources: Seq<SourceView>,
    registration: Registration,
    told: ReplacedAccount,
    now: i64,
)
    requires
        ledger_registered(before, after, sources, registration, told, now),
    ensures
        !(registration is Replaced) ==> after == before && told is Unowned,
        registration matches Registration::Replaced(at, _) ==> ({
            let source = sources[at as int].source_id;
            (exists|i: int|
                0 <= i < before.turn_sources@.len() && (
                #[trigger] before.turn_sources@[i]).source_id@ == source) ==> forall|
                turn: TurnUsageRecord,
            |
                before.turns@.contains(turn) ==> (#[trigger] after.turns@.contains(turn)
                    <==> !is_tied_only(
                    before.turn_sources@,
                    source,
                    turn.account_key@,
                    turn.thread_id@,
                    turn.turn_id@,
                ))
        }),
{
    if let Registration::Replaced(at, _) = registration {
        let source = sources[at as int].source_id;
        let links = before.turn_sources@;
        if has_links(links, source) {
            lemma_only_what_the_source_alone_holds_goes(before, after, source);
        }
    }
}

} // verus!
