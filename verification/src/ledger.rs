//! The token ledger: the turns with their canonical totals, the timeline of their increases,
//! and the accounting between the two.
use crate::models::TurnUsageRecord;
use crate::rollout::{SampleView, TurnTokenSample, TurnUpdate, TurnView, UpdateView};
use crate::table::{
    count_where, delete_account_rows, first_where, lemma_filter_counts, lemma_filter_empty,
    lemma_filter_keeps, lemma_filter_member, lemma_first_where, lemma_first_where_at,
    lemma_first_where_none, lemma_others_are_of_others, lemma_others_pairs, rows_of_others,
    sum_where, AccountRow,
};
use crate::text::{decimal, decimal_text, decimal_wide, same_text, str_opt, text_opt};
use vstd::prelude::*;

verus! {

/// The turn was read from this source.
#[derive(Debug)]
pub struct TurnSource {
    pub source_id: String,
    pub account_key: String,
    pub thread_id: String,
    pub turn_id: String,
    pub first_seen_at: i64,
}

/// Why a turn's total and its timeline were found apart.
#[derive(Clone, Copy, Debug, PartialEq, Eq, Structural)]
pub enum AuditReason {
    LegacyPreTimeline,
    SourceMissing,
    AccountingError,
    OrphanTimeline,
    AccountUnresolved,
}

#[derive(Debug)]
pub struct TimelineAudit {
    pub account_key: String,
    pub thread_id: String,
    pub turn_id: String,
    pub canonical_tokens: i64,
    pub timeline_tokens: i128,
    pub reason: AuditReason,
    pub first_seen_at: i64,
    pub last_seen_at: i64,
}

/// A line of a rollout log that was not JSON.
#[derive(Debug)]
pub struct StoredParseError {
    pub file_path: String,
    pub byte_offset: u64,
    pub error: String,
    pub account_key: String,
    pub source_id: Option<String>,
    pub rebuild_batch_id: String,
    pub first_seen_at: i64,
}

impl AccountRow for TurnUsageRecord {
    open spec fn account(&self) -> Seq<char> {
        self.account_key@
    }

    fn account_is(&self, key: &str) -> (r: bool) {
        same_text(self.account_key.as_str(), key)
    }
}

impl AccountRow for TurnTokenSample {
    open spec fn account(&self) -> Seq<char> {
        self.account_key@
    }

    fn account_is(&self, key: &str) -> (r: bool) {
        same_text(self.account_key.as_str(), key)
    }
}

impl AccountRow for TurnSource {
    open spec fn account(&self) -> Seq<char> {
        self.account_key@
    }

    fn account_is(&self, key: &str) -> (r: bool) {
        same_text(self.account_key.as_str(), key)
    }
}

impl AccountRow for TimelineAudit {
    open spec fn account(&self) -> Seq<char> {
        self.account_key@
    }

    fn account_is(&self, key: &str) -> (r: bool) {
        same_text(self.account_key.as_str(), key)
    }
}

impl AccountRow for StoredParseError {
    open spec fn account(&self) -> Seq<char> {
        self.account_key@
    }

    fn account_is(&self, key: &str) -> (r: bool) {
        same_text(self.account_key.as_str(), key)
    }
}

/// The account, the thread and the turn.
pub struct TurnKey {
    pub account_key: Seq<char>,
    pub thread_id: Seq<char>,
    pub turn_id: Seq<char>,
}

pub open spec fn turn_key(turn: TurnView) -> TurnKey {
    TurnKey { account_key: turn.account_key, thread_id: turn.thread_id, turn_id: turn.turn_id }
}

/// The turn that a sample belongs to.
pub open spec fn sample_turn(sample: SampleView) -> TurnKey {
    TurnKey {
        account_key: sample.account_key,
        thread_id: sample.thread_id,
        turn_id: sample.turn_id,
    }
}

/// Two samples are of the same turn, segment and cumulative total.
pub open spec fn same_sample(a: SampleView, b: SampleView) -> bool {
    sample_turn(a) == sample_turn(b) && a.segment_no == b.segment_no && a.cumulative_tokens
        == b.cumulative_tokens
}

pub open spec fn turn_views(turns: Seq<TurnUsageRecord>) -> Seq<TurnView> {
    Seq::new(turns.len(), |i: int| turns[i]@)
}

pub open spec fn sample_views(samples: Seq<TurnTokenSample>) -> Seq<SampleView> {
    Seq::new(samples.len(), |i: int| samples[i]@)
}

/// The place of the turn with the given key.
pub open spec fn turn_at(turns: Seq<TurnView>, key: TurnKey, at: int) -> bool {
    0 <= at < turns.len() && turn_key(turns[at]) == key
}

pub open spec fn has_turn(turns: Seq<TurnView>, key: TurnKey) -> bool {
    exists|at: int| #[trigger] turn_at(turns, key, at)
}

pub open spec fn has_sample(samples: Seq<SampleView>, sample: SampleView) -> bool {
    exists|at: int| 0 <= at < samples.len() && same_sample(#[trigger] samples[at], sample)
}

/// The sum of the increases on the timeline of a turn.
pub open spec fn timeline_total(samples: Seq<SampleView>, key: TurnKey) -> int
    decreases samples.len(),
{
    if samples.len() == 0 {
        0
    } else {
        timeline_total(samples.drop_last(), key) + if sample_turn(samples.last()) == key {
            samples.last().delta_tokens
        } else {
            0
        }
    }
}

/// No two turns have the same key.
pub open spec fn turns_unique(turns: Seq<TurnView>) -> bool {
    forall|i: int, j: int|
        0 <= i < j < turns.len() ==> turn_key(#[trigger] turns[i]) != turn_key(#[trigger] turns[j])
}

/// No two samples are of the same turn, segment and cumulative total.
pub open spec fn samples_unique(samples: Seq<SampleView>) -> bool {
    forall|i: int, j: int|
        0 <= i < j < samples.len() ==> !same_sample(#[trigger] samples[i], #[trigger] samples[j])
}

/// The turns after one is recorded: it takes the place of the one with its key.
pub open spec fn turns_with(turns: Seq<TurnView>, turn: TurnView) -> Seq<TurnView> {
    if has_turn(turns, turn_key(turn)) {
        let at = choose|at: int| #[trigger] turn_at(turns, turn_key(turn), at);
        turns.update(at, turn)
    } else {
        turns.push(turn)
    }
}

/// The samples after one is recorded: one that is there already is ignored.
pub open spec fn samples_with(samples: Seq<SampleView>, sample: SampleView) -> Seq<SampleView> {
    if has_sample(samples, sample) {
        samples
    } else {
        samples.push(sample)
    }
}

pub struct LedgerView {
    pub turns: Seq<TurnView>,
    pub samples: Seq<SampleView>,
}

impl LedgerView {
    pub open spec fn wf(self) -> bool {
        turns_unique(self.turns) && samples_unique(self.samples)
    }
}

/// The ledger after an update of a turn.
pub open spec fn ledger_with(ledger: LedgerView, update: UpdateView) -> LedgerView {
    LedgerView {
        turns: turns_with(ledger.turns, update.turn),
        samples: match update.sample {
            Some(sample) => samples_with(ledger.samples, sample),
            None => ledger.samples,
        },
    }
}

/// The turn belongs to the account, where one is named.
pub open spec fn in_scope(account_key: Seq<char>, scope: Option<Seq<char>>) -> bool {
    scope matches Some(key) ==> account_key == key
}

/// The turn's total is not the sum of its timeline.
pub open spec fn mismatched(turn: TurnView, samples: Seq<SampleView>) -> bool {
    let total = timeline_total(samples, turn_key(turn));
    turn.usage.raw_total_tokens < 0 || total < 0 || turn.usage.raw_total_tokens != total
}

/// The sample belongs to no turn.
pub open spec fn orphan(sample: SampleView, turns: Seq<TurnView>) -> bool {
    !has_turn(turns, sample_turn(sample))
}

/// Every turn in scope has the total of its timeline, and every sample in scope has a turn.
pub open spec fn accounts_closed(ledger: LedgerView, scope: Option<Seq<char>>) -> bool {
    &&& forall|i: int|
        0 <= i < ledger.turns.len() && in_scope((#[trigger] ledger.turns[i]).account_key, scope)
            ==> !mismatched(ledger.turns[i], ledger.samples)
    &&& forall|i: int|
        0 <= i < ledger.samples.len() && in_scope(
            (#[trigger] ledger.samples[i]).account_key,
            scope,
        ) ==> !orphan(ledger.samples[i], ledger.turns)
}

/// Why the accounts are not closed.
#[derive(Debug)]
pub enum AccountingError {
    Mismatch { thread_id: String, turn_id: String, canonical: i64, timeline: i128 },
    Orphan { thread_id: String, turn_id: String, timeline: i128 },
}

#[derive(Debug)]
pub struct TurnLedger {
    pub turns: Vec<TurnUsageRecord>,
    pub samples: Vec<TurnTokenSample>,
    pub turn_sources: Vec<TurnSource>,
    pub audits: Vec<TimelineAudit>,
    pub parse_errors: Vec<StoredParseError>,
}

impl View for TurnLedger {
    type V = LedgerView;

    open spec fn view(&self) -> LedgerView {
        LedgerView { turns: turn_views(self.turns@), samples: sample_views(self.samples@) }
    }
}

/// Where the turn with a key is recorded.
pub fn find_turn(turns: &Vec<TurnUsageRecord>, account: &str, thread: &str, turn: &str) -> (r: Option<
    usize,
>)
    ensures
        ({
            let key = TurnKey { account_key: account@, thread_id: thread@, turn_id: turn@ };
            match r {
                Some(at) => turn_at(turn_views(turns@), key, at as int),
                None => !has_turn(turn_views(turns@), key),
            }
        }),
{
    let ghost key = TurnKey { account_key: account@, thread_id: thread@, turn_id: turn@ };
    let mut i: usize = 0;
    while i < turns.len()
        invariant
            i <= turns.len(),
            key == (TurnKey { account_key: account@, thread_id: thread@, turn_id: turn@ }),
            forall|k: int| 0 <= k < i ==> !#[trigger] turn_at(turn_views(turns@), key, k),
        decreases turns.len() - i,
    {
        if same_text(turns[i].turn_id.as_str(), turn) && same_text(
            turns[i].thread_id.as_str(),
            thread,
        ) && same_text(turns[i].account_key.as_str(), account) {
            return Some(i);
        }
        i += 1;
    }
    None
}

fn find_sample(samples: &Vec<TurnTokenSample>, sample: &TurnTokenSample) -> (r: bool)
    ensures
        r == has_sample(sample_views(samples@), sample@),
{
    let mut i: usize = 0;
    while i < samples.len()
        invariant
            i <= samples.len(),
            forall|k: int|
                0 <= k < i ==> !same_sample(#[trigger] sample_views(samples@)[k], sample@),
        decreases samples.len() - i,
    {
        if samples[i].cumulative_tokens == sample.cumulative_tokens && samples[i].segment_no
            == sample.segment_no && same_text(samples[i].turn_id.as_str(), sample.turn_id.as_str())
            && same_text(samples[i].thread_id.as_str(), sample.thread_id.as_str()) && same_text(
            samples[i].account_key.as_str(),
            sample.account_key.as_str(),
        ) {
            assert(same_sample(sample_views(samples@)[i as int], sample@));
            return true;
        }
        i += 1;
    }
    false
}

/// The sum of the increases on the timeline of a turn.
pub fn timeline_tokens(
    samples: &Vec<TurnTokenSample>,
    account: &str,
    thread: &str,
    turn: &str,
) -> (r: i128)
    ensures
        r == timeline_total(
            sample_views(samples@),
            (TurnKey { account_key: account@, thread_id: thread@, turn_id: turn@ }),
        ),
{
    let ghost key = TurnKey { account_key: account@, thread_id: thread@, turn_id: turn@ };
    let ghost views = sample_views(samples@);
    let mut total: i128 = 0;
    let mut i: usize = 0;
    while i < samples.len()
        invariant
            i <= samples.len(),
            views == sample_views(samples@),
            key == (TurnKey { account_key: account@, thread_id: thread@, turn_id: turn@ }),
            total == timeline_total(views.take(i as int), key),
            -0x8000_0000_0000_0000 * i <= total <= 0x8000_0000_0000_0000 * i,
        decreases samples.len() - i,
    {
        proof {
            assert(views.take(i + 1).drop_last() =~= views.take(i as int));
            assert(views.take(i + 1).last() == samples@[i as int]@);
        }
        if same_text(samples[i].turn_id.as_str(), turn) && same_text(
            samples[i].thread_id.as_str(),
            thread,
        ) && same_text(samples[i].account_key.as_str(), account) {
            total = total + samples[i].delta_tokens as i128;
        }
        i += 1;
    }
    assert(views.take(views.len() as int) =~= views);
    total
}

proof fn lemma_unique_turn(turns: Seq<TurnView>, key: TurnKey, at: int)
    requires
        turns_unique(turns),
        turn_at(turns, key, at),
    ensures
        at == (choose|k: int| #[trigger] turn_at(turns, key, k)),
{
    let other = choose|k: int| #[trigger] turn_at(turns, key, k);
    assert(turn_at(turns, key, other));
    if other < at {
        assert(turn_key(turns[other]) != turn_key(turns[at]));
    }
    if at < other {
        assert(turn_key(turns[at]) != turn_key(turns[other]));
    }
}

impl TurnLedger {
    pub fn new() -> (r: TurnLedger)
        ensures
            r@.wf(),
            r.turns@.len() == 0,
            r.samples@.len() == 0,
            r.turn_sources@.len() == 0,
            r.audits@.len() == 0,
            r.parse_errors@.len() == 0,
    {
        TurnLedger {
            turns: Vec::new(),
            samples: Vec::new(),
            turn_sources: Vec::new(),
            audits: Vec::new(),
            parse_errors: Vec::new(),
        }
    }

    /// Records a turn in the place of the one with its key.
    pub fn upsert_turn(&mut self, turn: TurnUsageRecord)
        requires
            old(self)@.wf(),
        ensures
            final(self)@.turns == turns_with(old(self)@.turns, turn@),
            final(self)@.wf(),
            final(self).samples == old(self).samples,
            final(self).turn_sources == old(self).turn_sources,
            final(self).audits == old(self).audits,
            final(self).parse_errors == old(self).parse_errors,
    {
        let ghost before = self@.turns;
        match find_turn(
            &self.turns,
            turn.account_key.as_str(),
            turn.thread_id.as_str(),
            turn.turn_id.as_str(),
        ) {
            Some(at) => {
                proof {
                    lemma_unique_turn(before, turn_key(turn@), at as int);
                }
                self.turns.set(at, turn);
                assert(self@.turns =~= before.update(at as int, turn@));
            },
            None => {
                self.turns.push(turn);
                assert(self@.turns =~= before.push(turn@));
                assert forall|i: int| 0 <= i < before.len() implies turn_key(
                    #[trigger] before[i],
                ) != turn_key(turn@) by {
                    assert(!turn_at(before, turn_key(turn@), i));
                }
            },
        }
    }

    /// Records a sample that is not there already.
    pub fn insert_token_sample(&mut self, sample: TurnTokenSample)
        requires
            old(self)@.wf(),
        ensures
            final(self)@.samples == samples_with(old(self)@.samples, sample@),
            final(self)@.wf(),
            final(self).turns == old(self).turns,
            final(self).turn_sources == old(self).turn_sources,
            final(self).audits == old(self).audits,
            final(self).parse_errors == old(self).parse_errors,
    {
        let ghost before = self@.samples;
        if !find_sample(&self.samples, &sample) {
            self.samples.push(sample);
            assert(self@.samples =~= before.push(sample@));
        }
    }

    /// Records what a line of a log said.
    pub fn record(&mut self, update: TurnUpdate)
        requires
            old(self)@.wf(),
        ensures
            final(self)@ == ledger_with(old(self)@, update@),
            final(self)@.wf(),
            final(self).turn_sources == old(self).turn_sources,
            final(self).audits == old(self).audits,
            final(self).parse_errors == old(self).parse_errors,
    {
        let TurnUpdate { turn, sample, seen_at } = update;
        self.upsert_turn(turn);
        if let Some(sample) = sample {
            self.insert_token_sample(sample);
        }
    }
}

// ---------------------------------------------------------------------------
// Accounting
// ---------------------------------------------------------------------------

fn scope_holds(account_key: &str, scope: Option<&str>) -> (r: bool)
    ensures
        r == in_scope(account_key@, str_opt(scope)),
{
    match scope {
        Some(key) => same_text(account_key, key),
        None => true,
    }
}

impl AccountingError {
    pub open spec fn text(self) -> Seq<char> {
        match self {
            AccountingError::Mismatch { thread_id, turn_id, canonical, timeline } => {
                "token accounting inconsistent for turn "@ + thread_id@ + "/"@ + turn_id@
                    + ": canonical="@ + decimal(canonical as int) + ", timeline="@ + decimal(
                    timeline as int,
                )
            },
            AccountingError::Orphan { thread_id, turn_id, timeline } => {
                "orphan token timeline for turn "@ + thread_id@ + "/"@ + turn_id@
                    + ": canonical=missing, timeline="@ + decimal(timeline as int)
            },
        }
    }

    pub fn message(&self) -> (r: String)
        ensures
            r@ == self.text(),
    {
        match self {
            AccountingError::Mismatch { thread_id, turn_id, canonical, timeline } => {
                let mut r = "token accounting inconsistent for turn ".to_owned();
                r.append(thread_id.as_str());
                r.append("/");
                r.append(turn_id.as_str());
                r.append(": canonical=");
                r.append(decimal_text(*canonical).as_str());
                r.append(", timeline=");
                r.append(decimal_wide(*timeline).as_str());
                r
            },
            AccountingError::Orphan { thread_id, turn_id, timeline } => {
                let mut r = "orphan token timeline for turn ".to_owned();
                r.append(thread_id.as_str());
                r.append("/");
                r.append(turn_id.as_str());
                r.append(": canonical=missing, timeline=");
                r.append(decimal_wide(*timeline).as_str());
                r
            },
        }
    }
}

/// The error names a turn in scope whose total is not the sum of its timeline; or else,
/// where there is no such turn, a timeline in scope that belongs to no turn.
pub open spec fn names_fault(
    error: AccountingError,
    ledger: LedgerView,
    scope: Option<Seq<char>>,
) -> bool {
    match error {
        AccountingError::Mismatch { thread_id, turn_id, canonical, timeline } => exists|i: int|
            {
                &&& 0 <= i < ledger.turns.len()
                &&& in_scope((#[trigger] ledger.turns[i]).account_key, scope)
                &&& mismatched(ledger.turns[i], ledger.samples)
                &&& ledger.turns[i].thread_id == thread_id@
                &&& ledger.turns[i].turn_id == turn_id@
                &&& ledger.turns[i].usage.raw_total_tokens == canonical
                &&& timeline_total(ledger.samples, turn_key(ledger.turns[i])) == timeline
            },
        AccountingError::Orphan { thread_id, turn_id, timeline } => {
            &&& forall|i: int|
                0 <= i < ledger.turns.len() && in_scope(
                    (#[trigger] ledger.turns[i]).account_key,
                    scope,
                ) ==> !mismatched(ledger.turns[i], ledger.samples)
            &&& exists|i: int|
                {
                    &&& 0 <= i < ledger.samples.len()
                    &&& in_scope((#[trigger] ledger.samples[i]).account_key, scope)
                    &&& orphan(ledger.samples[i], ledger.turns)
                    &&& ledger.samples[i].thread_id == thread_id@
                    &&& ledger.samples[i].turn_id == turn_id@
                    &&& timeline_total(ledger.samples, sample_turn(ledger.samples[i])) == timeline
                }
        },
    }
}

/// The account's turns with tokens and no timeline.
pub open spec fn missing_turns(ledger: LedgerView, key: Seq<char>) -> Seq<TurnView> {
    ledger.turns.filter(
        |turn: TurnView|
            turn.account_key == key && turn.usage.raw_total_tokens > 0 && timeline_total(
                ledger.samples,
                turn_key(turn),
            ) == 0,
    )
}

/// The account's turns whose total contradicts their timeline.
pub open spec fn contradicted_turns(ledger: LedgerView, key: Seq<char>) -> Seq<TurnView> {
    ledger.turns.filter(
        |turn: TurnView|
            {
                let total = timeline_total(ledger.samples, turn_key(turn));
                turn.account_key == key && (turn.usage.raw_total_tokens < 0 || total < 0 || (total
                    > 0 && turn.usage.raw_total_tokens != total))
            },
    )
}

/// The account's samples that belong to no turn.
pub open spec fn orphan_samples(ledger: LedgerView, key: Seq<char>) -> Seq<SampleView> {
    ledger.samples.filter(
        |sample: SampleView| sample.account_key == key && orphan(sample, ledger.turns),
    )
}

impl TurnLedger {
    /// The total of the turn at `i` on its timeline.
    fn turn_timeline(&self, i: usize) -> (r: i128)
        requires
            i < self.turns.len(),
        ensures
            r == timeline_total(self@.samples, turn_key(self@.turns[i as int])),
    {
        timeline_tokens(
            &self.samples,
            self.turns[i].account_key.as_str(),
            self.turns[i].thread_id.as_str(),
            self.turns[i].turn_id.as_str(),
        )
    }

    fn sample_is_orphan(&self, i: usize) -> (r: bool)
        requires
            i < self.samples.len(),
        ensures
            r == orphan(self@.samples[i as int], self@.turns),
    {
        find_turn(
            &self.turns,
            self.samples[i].account_key.as_str(),
            self.samples[i].thread_id.as_str(),
            self.samples[i].turn_id.as_str(),
        ).is_none()
    }

    /// Holds the canonical totals against the timeline. This is an error and no ratio: a
    /// caller must not estimate anything from accounts that are not closed.
    pub fn verify_token_accounting(&self, account_key: Option<&str>) -> (r: Result<
        (),
        AccountingError,
    >)
        ensures
            match r {
                Ok(()) => accounts_closed(self@, str_opt(account_key)),
                Err(error) => {
                    &&& !accounts_closed(self@, str_opt(account_key))
                    &&& names_fault(error, self@, str_opt(account_key))
                },
            },
    {
        let ghost scope = str_opt(account_key);
        let mut i: usize = 0;
        while i < self.turns.len()
            invariant
                i <= self.turns.len(),
                scope == str_opt(account_key),
                forall|k: int|
                    0 <= k < i && in_scope((#[trigger] self@.turns[k]).account_key, scope)
                        ==> !mismatched(self@.turns[k], self@.samples),
            decreases self.turns.len() - i,
        {
            if scope_holds(self.turns[i].account_key.as_str(), account_key) {
                let canonical: i64 = self.turns[i].usage.raw_total_tokens;
                let timeline: i128 = self.turn_timeline(i);
                if canonical < 0 || timeline < 0 || canonical as i128 != timeline {
                    assert(mismatched(self@.turns[i as int], self@.samples));
                    return Err(
                        AccountingError::Mismatch {
                            thread_id: self.turns[i].thread_id.clone(),
                            turn_id: self.turns[i].turn_id.clone(),
                            canonical,
                            timeline,
                        },
                    );
                }
            }
            i += 1;
        }
        let mut i: usize = 0;
        while i < self.samples.len()
            invariant
                i <= self.samples.len(),
                scope == str_opt(account_key),
                forall|k: int|
                    0 <= k < self@.turns.len() && in_scope(
                        (#[trigger] self@.turns[k]).account_key,
                        scope,
                    ) ==> !mismatched(self@.turns[k], self@.samples),
                forall|k: int|
                    0 <= k < i && in_scope((#[trigger] self@.samples[k]).account_key, scope)
                        ==> !orphan(self@.samples[k], self@.turns),
            decreases self.samples.len() - i,
        {
            if scope_holds(self.samples[i].account_key.as_str(), account_key)
                && self.sample_is_orphan(i) {
                let timeline: i128 = timeline_tokens(
                    &self.samples,
                    self.samples[i].account_key.as_str(),
                    self.samples[i].thread_id.as_str(),
                    self.samples[i].turn_id.as_str(),
                );
                assert(orphan(self@.samples[i as int], self@.turns));
                return Err(
                    AccountingError::Orphan {
                        thread_id: self.samples[i].thread_id.clone(),
                        turn_id: self.samples[i].turn_id.clone(),
                        timeline,
                    },
                );
            }
            i += 1;
        }
        Ok(())
    }

    pub fn count_missing(&self, account_key: &str) -> (r: usize)
        ensures
            r == missing_turns(self@, account_key@).len(),
    {
        let ghost views = self@.turns;
        let ghost pick = |turn: TurnView|
            turn.account_key == account_key@ && turn.usage.raw_total_tokens > 0 && timeline_total(
                self@.samples,
                turn_key(turn),
            ) == 0;
        let mut n: usize = 0;
        let mut i: usize = 0;
        proof {
            reveal(Seq::filter);
        }
        while i < self.turns.len()
            invariant
                i <= self.turns.len(),
                n <= i,
                views == self@.turns,
                pick == (|turn: TurnView|
                    turn.account_key == account_key@ && turn.usage.raw_total_tokens > 0
                        && timeline_total(self@.samples, turn_key(turn)) == 0),
                n == views.take(i as int).filter(pick).len(),
            decreases self.turns.len() - i,
        {
            proof {
                assert(views.take(i + 1).drop_last() =~= views.take(i as int));
                assert(views.take(i + 1).last() == views[i as int]);
                reveal(Seq::filter);
            }
            if self.turns[i].account_is(account_key) && self.turns[i].usage.raw_total_tokens > 0
                && self.turn_timeline(i) == 0 {
                n += 1;
            }
            i += 1;
        }
        assert(views.take(views.len() as int) =~= views);
        n
    }

    pub fn count_mismatched(&self, account_key: &str) -> (r: usize)
        ensures
            r == contradicted_turns(self@, account_key@).len(),
    {
        let ghost views = self@.turns;
        let ghost pick = |turn: TurnView|
            {
                let total = timeline_total(self@.samples, turn_key(turn));
                turn.account_key == account_key@ && (turn.usage.raw_total_tokens < 0 || total < 0
                    || (total > 0 && turn.usage.raw_total_tokens != total))
            };
        let mut n: usize = 0;
        let mut i: usize = 0;
        proof {
            reveal(Seq::filter);
        }
        while i < self.turns.len()
            invariant
                i <= self.turns.len(),
                n <= i,
                views == self@.turns,
                pick == (|turn: TurnView|
                    {
                        let total = timeline_total(self@.samples, turn_key(turn));
                        turn.account_key == account_key@ && (turn.usage.raw_total_tokens < 0
                            || total < 0 || (total > 0 && turn.usage.raw_total_tokens != total))
                    }),
                n == views.take(i as int).filter(pick).len(),
            decreases self.turns.len() - i,
        {
            proof {
                assert(views.take(i + 1).drop_last() =~= views.take(i as int));
                assert(views.take(i + 1).last() == views[i as int]);
                reveal(Seq::filter);
            }
            if self.turns[i].account_is(account_key) {
                let canonical: i64 = self.turns[i].usage.raw_total_tokens;
                let total: i128 = self.turn_timeline(i);
                if canonical < 0 || total < 0 || (total > 0 && canonical as i128 != total) {
                    n += 1;
                }
            }
            i += 1;
        }
        assert(views.take(views.len() as int) =~= views);
        n
    }

    pub fn count_orphans(&self, account_key: &str) -> (r: usize)
        ensures
            r == orphan_samples(self@, account_key@).len(),
    {
        let ghost views = self@.samples;
        let ghost pick = |sample: SampleView|
            sample.account_key == account_key@ && orphan(sample, self@.turns);
        let mut n: usize = 0;
        let mut i: usize = 0;
        proof {
            reveal(Seq::filter);
        }
        while i < self.samples.len()
            invariant
                i <= self.samples.len(),
                n <= i,
                views == self@.samples,
                pick == (|sample: SampleView|
                    sample.account_key == account_key@ && orphan(sample, self@.turns)),
                n == views.take(i as int).filter(pick).len(),
            decreases self.samples.len() - i,
        {
            proof {
                assert(views.take(i + 1).drop_last() =~= views.take(i as int));
                assert(views.take(i + 1).last() == views[i as int]);
                reveal(Seq::filter);
            }
            if self.samples[i].account_is(account_key) && self.sample_is_orphan(i) {
                n += 1;
            }
            i += 1;
        }
        assert(views.take(views.len() as int) =~= views);
        n
    }
}

/// The accounts of one account are closed exactly where none of its turns is without a
/// timeline, none contradicts it, and none of its samples is without a turn.
pub proof fn lemma_closed_means_no_findings(ledger: LedgerView, key: Seq<char>)
    ensures
        accounts_closed(ledger, Some(key)) <==> {
            &&& missing_turns(ledger, key).len() == 0
            &&& contradicted_turns(ledger, key).len() == 0
            &&& orphan_samples(ledger, key).len() == 0
        },
{
    let missing = |turn: TurnView|
        turn.account_key == key && turn.usage.raw_total_tokens > 0 && timeline_total(
            ledger.samples,
            turn_key(turn),
        ) == 0;
    let contradicted = |turn: TurnView|
        {
            let total = timeline_total(ledger.samples, turn_key(turn));
            turn.account_key == key && (turn.usage.raw_total_tokens < 0 || total < 0 || (total > 0
                && turn.usage.raw_total_tokens != total))
        };
    let lost = |sample: SampleView| sample.account_key == key && orphan(sample, ledger.turns);
    lemma_filter_empty(ledger.turns, missing);
    lemma_filter_empty(ledger.turns, contradicted);
    lemma_filter_empty(ledger.samples, lost);
    if missing_turns(ledger, key).len() == 0 && contradicted_turns(ledger, key).len() == 0
        && orphan_samples(ledger, key).len() == 0 {
        assert forall|i: int|
            0 <= i < ledger.turns.len() && in_scope(
                (#[trigger] ledger.turns[i]).account_key,
                Some(key),
            ) implies !mismatched(ledger.turns[i], ledger.samples) by {
            assert(!missing(ledger.turns[i]));
            assert(!contradicted(ledger.turns[i]));
        }
        assert forall|i: int|
            0 <= i < ledger.samples.len() && in_scope(
                (#[trigger] ledger.samples[i]).account_key,
                Some(key),
            ) implies !orphan(ledger.samples[i], ledger.turns) by {
            assert(!lost(ledger.samples[i]));
        }
    }
    if accounts_closed(ledger, Some(key)) {
        assert forall|i: int| 0 <= i < ledger.turns.len() implies !missing(
            #[trigger] ledger.turns[i],
        ) && !contradicted(ledger.turns[i]) by {
            if ledger.turns[i].account_key == key {
                assert(!mismatched(ledger.turns[i], ledger.samples));
            }
        }
        assert forall|i: int| 0 <= i < ledger.samples.len() implies !lost(
            #[trigger] ledger.samples[i],
        ) by {}
    }
}

// ---------------------------------------------------------------------------
// Audits
// ---------------------------------------------------------------------------

pub open spec fn audit_key(audit: TimelineAudit) -> TurnKey {
    TurnKey {
        account_key: audit.account_key@,
        thread_id: audit.thread_id@,
        turn_id: audit.turn_id@,
    }
}

/// The audit is of the turn with the key.
pub open spec fn is_audit_of(key: TurnKey) -> spec_fn(TimelineAudit) -> bool {
    |audit: TimelineAudit| audit_key(audit) == key
}

/// The audits after a finding. A turn that was found before keeps the time of its first
/// finding, and the reason that it predates the timeline, where that was one.
pub open spec fn audits_with(audits: Seq<TimelineAudit>, finding: TimelineAudit) -> Seq<
    TimelineAudit,
> {
    match first_where(audits, is_audit_of(audit_key(finding))) {
        Some(at) => audits.update(
            at,
            TimelineAudit {
                canonical_tokens: finding.canonical_tokens,
                timeline_tokens: finding.timeline_tokens,
                reason: if audits[at].reason == AuditReason::LegacyPreTimeline && finding.reason
                    != AuditReason::AccountUnresolved {
                    AuditReason::LegacyPreTimeline
                } else {
                    finding.reason
                },
                last_seen_at: finding.last_seen_at,
                ..audits[at]
            },
        ),
        None => audits.push(finding),
    }
}

/// The finding is of another account, or of one that was set aside.
pub open spec fn is_kept_audit(scope: Option<Seq<char>>) -> spec_fn(TimelineAudit) -> bool {
    |audit: TimelineAudit|
        !in_scope(audit.account_key@, scope) || audit.reason == AuditReason::AccountUnresolved
}

/// The audits that a new audit of the scope leaves: those of other accounts, and those of
/// accounts that were set aside.
pub open spec fn audits_kept(audits: Seq<TimelineAudit>, scope: Option<Seq<char>>) -> Seq<
    TimelineAudit,
> {
    audits.filter(is_kept_audit(scope))
}

/// The finding on a turn whose total is not that of its timeline.
pub open spec fn gap_finding(
    turn: TurnUsageRecord,
    timeline: int,
    missing_reason: AuditReason,
    now: i64,
) -> TimelineAudit {
    TimelineAudit {
        account_key: turn.account_key,
        thread_id: turn.thread_id,
        turn_id: turn.turn_id,
        canonical_tokens: turn.usage.raw_total_tokens,
        timeline_tokens: timeline as i128,
        reason: if timeline == 0 {
            missing_reason
        } else {
            AuditReason::AccountingError
        },
        first_seen_at: now,
        last_seen_at: now,
    }
}

pub open spec fn orphan_finding(sample: TurnTokenSample, timeline: int, now: i64) -> TimelineAudit {
    TimelineAudit {
        account_key: sample.account_key,
        thread_id: sample.thread_id,
        turn_id: sample.turn_id,
        canonical_tokens: 0,
        timeline_tokens: timeline as i128,
        reason: AuditReason::OrphanTimeline,
        first_seen_at: now,
        last_seen_at: now,
    }
}

/// The audits after the findings on the turns in scope.
pub open spec fn audits_of_turns(
    audits: Seq<TimelineAudit>,
    turns: Seq<TurnUsageRecord>,
    samples: Seq<SampleView>,
    scope: Option<Seq<char>>,
    missing_reason: AuditReason,
    now: i64,
) -> Seq<TimelineAudit>
    decreases turns.len(),
{
    if turns.len() == 0 {
        audits
    } else {
        let before = audits_of_turns(
            audits,
            turns.drop_last(),
            samples,
            scope,
            missing_reason,
            now,
        );
        let turn = turns.last();
        let total = timeline_total(samples, turn_key(turn@));
        if in_scope(turn.account_key@, scope) && turn.usage.raw_total_tokens > 0
            && turn.usage.raw_total_tokens != total {
            audits_with(before, gap_finding(turn, total, missing_reason, now))
        } else {
            before
        }
    }
}

/// The audits after the findings on the samples in scope that belong to no turn.
pub open spec fn audits_of_orphans(
    audits: Seq<TimelineAudit>,
    samples: Seq<TurnTokenSample>,
    ledger: LedgerView,
    scope: Option<Seq<char>>,
    now: i64,
) -> Seq<TimelineAudit>
    decreases samples.len(),
{
    if samples.len() == 0 {
        audits
    } else {
        let before = audits_of_orphans(audits, samples.drop_last(), ledger, scope, now);
        let sample = samples.last();
        if in_scope(sample.account_key@, scope) && orphan(sample@, ledger.turns) {
            audits_with(
                before,
                orphan_finding(sample, timeline_total(ledger.samples, sample_turn(sample@)), now),
            )
        } else {
            before
        }
    }
}

/// The audits after the turns of an account are set aside.
pub open spec fn audits_of_quarantine(
    audits: Seq<TimelineAudit>,
    turns: Seq<TurnUsageRecord>,
    samples: Seq<SampleView>,
    key: Seq<char>,
    now: i64,
) -> Seq<TimelineAudit>
    decreases turns.len(),
{
    if turns.len() == 0 {
        audits
    } else {
        let before = audits_of_quarantine(audits, turns.drop_last(), samples, key, now);
        let turn = turns.last();
        if turn.account_key@ == key {
            let total = timeline_total(samples, turn_key(turn@));
            audits_with(
                before,
                TimelineAudit {
                    reason: AuditReason::AccountUnresolved,
                    ..gap_finding(turn, total, AuditReason::AccountUnresolved, now)
                },
            )
        } else {
            before
        }
    }
}

fn record_finding(audits: &mut Vec<TimelineAudit>, finding: TimelineAudit)
    ensures
        final(audits)@ == audits_with(old(audits)@, finding),
{
    let ghost pick = is_audit_of(audit_key(finding));
    let mut i: usize = 0;
    while i < audits.len()
        invariant
            i <= audits.len(),
            audits@ == old(audits)@,
            pick == is_audit_of(audit_key(finding)),
            forall|k: int| 0 <= k < i ==> !pick(#[trigger] audits@[k]),
        decreases audits.len() - i,
    {
        if same_text(audits[i].turn_id.as_str(), finding.turn_id.as_str()) && same_text(
            audits[i].thread_id.as_str(),
            finding.thread_id.as_str(),
        ) && same_text(audits[i].account_key.as_str(), finding.account_key.as_str()) {
            proof {
                lemma_first_where_at(audits@, pick, i as int);
            }
            let reason = if audits[i].reason == AuditReason::LegacyPreTimeline && finding.reason
                != AuditReason::AccountUnresolved {
                AuditReason::LegacyPreTimeline
            } else {
                finding.reason
            };
            let row = TimelineAudit {
                account_key: audits[i].account_key.clone(),
                thread_id: audits[i].thread_id.clone(),
                turn_id: audits[i].turn_id.clone(),
                canonical_tokens: finding.canonical_tokens,
                timeline_tokens: finding.timeline_tokens,
                reason,
                first_seen_at: audits[i].first_seen_at,
                last_seen_at: finding.last_seen_at,
            };
            audits.set(i, row);
            return;
        }
        i += 1;
    }
    proof {
        lemma_first_where_none(audits@, pick);
    }
    audits.push(finding);
}

impl TurnLedger {
    fn drop_audits(&mut self, scope: Option<&str>)
        ensures
            final(self).audits@ == audits_kept(old(self).audits@, str_opt(scope)),
            final(self).turns == old(self).turns,
            final(self).samples == old(self).samples,
            final(self).turn_sources == old(self).turn_sources,
            final(self).parse_errors == old(self).parse_errors,
    {
        let mut all: Vec<TimelineAudit> = Vec::new();
        std::mem::swap(&mut self.audits, &mut all);
        let ghost before = all@;
        let ghost keep = is_kept_audit(str_opt(scope));
        let mut kept: Vec<TimelineAudit> = Vec::new();
        proof {
            reveal(Seq::filter);
        }
        for audit in iter: all
            invariant
                iter.seq() == before,
                keep == is_kept_audit(str_opt(scope)),
                kept@ == before.take(iter.index()).filter(keep),
        {
            proof {
                let i = iter.index();
                assert(before.take(i + 1).drop_last() =~= before.take(i));
                assert(before.take(i + 1).last() == audit);
                reveal(Seq::filter);
            }
            if !scope_holds(audit.account_key.as_str(), scope) || audit.reason
                == AuditReason::AccountUnresolved {
                kept.push(audit);
            }
        }
        assert(before.take(before.len() as int) =~= before);
        self.audits = kept;
    }

    /// Audits the scope anew: every turn with tokens whose timeline has another total, and
    /// every timeline that belongs to no turn.
    pub fn audit_timeline_gaps(
        &mut self,
        account_key: Option<&str>,
        missing_reason: AuditReason,
        now: i64,
    )
        ensures
            final(self).audits@ == audits_of_orphans(
                audits_of_turns(
                    audits_kept(old(self).audits@, str_opt(account_key)),
                    old(self).turns@,
                    old(self)@.samples,
                    str_opt(account_key),
                    missing_reason,
                    now,
                ),
                old(self).samples@,
                old(self)@,
                str_opt(account_key),
                now,
            ),
            final(self).turns == old(self).turns,
            final(self).samples == old(self).samples,
            final(self).turn_sources == old(self).turn_sources,
            final(self).parse_errors == old(self).parse_errors,
    {
        let ghost scope = str_opt(account_key);
        let ghost ledger = self@;
        self.drop_audits(account_key);
        let ghost kept = self.audits@;
        let mut i: usize = 0;
        while i < self.turns.len()
            invariant
                i <= self.turns.len(),
                scope == str_opt(account_key),
                self@ == ledger,
                self.turns == old(self).turns,
                self.samples == old(self).samples,
                self.turn_sources == old(self).turn_sources,
                self.parse_errors == old(self).parse_errors,
                self.audits@ == audits_of_turns(
                    kept,
                    self.turns@.take(i as int),
                    ledger.samples,
                    scope,
                    missing_reason,
                    now,
                ),
            decreases self.turns.len() - i,
        {
            proof {
                assert(self.turns@.take(i + 1).drop_last() =~= self.turns@.take(i as int));
                assert(self.turns@.take(i + 1).last() == self.turns@[i as int]);
            }
            if scope_holds(self.turns[i].account_key.as_str(), account_key)
                && self.turns[i].usage.raw_total_tokens > 0 {
                let total: i128 = self.turn_timeline(i);
                if self.turns[i].usage.raw_total_tokens as i128 != total {
                    let finding = TimelineAudit {
                        account_key: self.turns[i].account_key.clone(),
                        thread_id: self.turns[i].thread_id.clone(),
                        turn_id: self.turns[i].turn_id.clone(),
                        canonical_tokens: self.turns[i].usage.raw_total_tokens,
                        timeline_tokens: total,
                        reason: if total == 0 {
                            missing_reason
                        } else {
                            AuditReason::AccountingError
                        },
                        first_seen_at: now,
                        last_seen_at: now,
                    };
                    record_finding(&mut self.audits, finding);
                }
            }
            i += 1;
        }
        assert(self.turns@.take(self.turns.len() as int) =~= self.turns@);
        let ghost after_turns = self.audits@;
        let mut i: usize = 0;
        while i < self.samples.len()
            invariant
                i <= self.samples.len(),
                scope == str_opt(account_key),
                self@ == ledger,
                self.turns == old(self).turns,
                self.samples == old(self).samples,
                self.turn_sources == old(self).turn_sources,
                self.parse_errors == old(self).parse_errors,
                self.audits@ == audits_of_orphans(
                    after_turns,
                    self.samples@.take(i as int),
                    ledger,
                    scope,
                    now,
                ),
            decreases self.samples.len() - i,
        {
            proof {
                assert(self.samples@.take(i + 1).drop_last() =~= self.samples@.take(i as int));
                assert(self.samples@.take(i + 1).last() == self.samples@[i as int]);
            }
            if scope_holds(self.samples[i].account_key.as_str(), account_key)
                && self.sample_is_orphan(i) {
                let total: i128 = timeline_tokens(
                    &self.samples,
                    self.samples[i].account_key.as_str(),
                    self.samples[i].thread_id.as_str(),
                    self.samples[i].turn_id.as_str(),
                );
                let finding = TimelineAudit {
                    account_key: self.samples[i].account_key.clone(),
                    thread_id: self.samples[i].thread_id.clone(),
                    turn_id: self.samples[i].turn_id.clone(),
                    canonical_tokens: 0,
                    timeline_tokens: total,
                    reason: AuditReason::OrphanTimeline,
                    first_seen_at: now,
                    last_seen_at: now,
                };
                record_finding(&mut self.audits, finding);
            }
            i += 1;
        }
        assert(self.samples@.take(self.samples.len() as int) =~= self.samples@);
    }

    /// Sets the rows of an account aside: each of its turns leaves an audit, and its turns,
    /// samples, parse errors and links to sources go.
    pub fn quarantine_unverified_account_data(&mut self, account_key: &str, now: i64)
        ensures
            final(self).audits@ == audits_of_quarantine(
                old(self).audits@,
                old(self).turns@,
                old(self)@.samples,
                account_key@,
                now,
            ),
            final(self).turns@ == rows_of_others(old(self).turns@, account_key@),
            final(self).samples@ == rows_of_others(old(self).samples@, account_key@),
            final(self).parse_errors@ == rows_of_others(old(self).parse_errors@, account_key@),
            final(self).turn_sources@ == rows_of_others(old(self).turn_sources@, account_key@),
            old(self)@.wf() ==> final(self)@.wf(),
    {
        let ghost before = *self;
        let mut i: usize = 0;
        while i < self.turns.len()
            invariant
                i <= self.turns.len(),
                self.turns == old(self).turns,
                self.samples == old(self).samples,
                self.turn_sources == old(self).turn_sources,
                self.parse_errors == old(self).parse_errors,
                self.audits@ == audits_of_quarantine(
                    old(self).audits@,
                    self.turns@.take(i as int),
                    self@.samples,
                    account_key@,
                    now,
                ),
            decreases self.turns.len() - i,
        {
            proof {
                assert(self.turns@.take(i + 1).drop_last() =~= self.turns@.take(i as int));
                assert(self.turns@.take(i + 1).last() == self.turns@[i as int]);
            }
            if self.turns[i].account_is(account_key) {
                let total: i128 = self.turn_timeline(i);
                let finding = TimelineAudit {
                    account_key: self.turns[i].account_key.clone(),
                    thread_id: self.turns[i].thread_id.clone(),
                    turn_id: self.turns[i].turn_id.clone(),
                    canonical_tokens: self.turns[i].usage.raw_total_tokens,
                    timeline_tokens: total,
                    reason: AuditReason::AccountUnresolved,
                    first_seen_at: now,
                    last_seen_at: now,
                };
                record_finding(&mut self.audits, finding);
            }
            i += 1;
        }
        assert(self.turns@.take(self.turns.len() as int) =~= self.turns@);
        delete_account_rows(&mut self.samples, account_key);
        delete_account_rows(&mut self.turns, account_key);
        delete_account_rows(&mut self.parse_errors, account_key);
        delete_account_rows(&mut self.turn_sources, account_key);
        proof {
            if before@.wf() {
                lemma_clearing_keeps_wf(before, *self, account_key@);
            }
        }
    }

    /// Removes what was derived of an account.
    pub fn clear_rollout_derived_data(&mut self, account_key: &str)
        ensures
            final(self).turns@ == rows_of_others(old(self).turns@, account_key@),
            final(self).samples@ == rows_of_others(old(self).samples@, account_key@),
            final(self).audits@ == rows_of_others(old(self).audits@, account_key@),
            final(self).parse_errors@ == rows_of_others(old(self).parse_errors@, account_key@),
            final(self).turn_sources == old(self).turn_sources,
            old(self)@.wf() ==> final(self)@.wf(),
    {
        let ghost before = *self;
        delete_account_rows(&mut self.samples, account_key);
        delete_account_rows(&mut self.turns, account_key);
        delete_account_rows(&mut self.audits, account_key);
        delete_account_rows(&mut self.parse_errors, account_key);
        proof {
            if before@.wf() {
                lemma_clearing_keeps_wf(before, *self, account_key@);
            }
        }
    }
}

// ---------------------------------------------------------------------------
// Staging, parse errors and sources
// ---------------------------------------------------------------------------

/// The turns with those of one account handed to another.
pub open spec fn turns_handed_over(turns: Seq<TurnView>, from: Seq<char>, to: Seq<char>) -> Seq<
    TurnView,
> {
    Seq::new(
        turns.len(),
        |i: int|
            if turns[i].account_key == from {
                TurnView { account_key: to, ..turns[i] }
            } else {
                turns[i]
            },
    )
}

/// The samples with those of one account handed to another.
pub open spec fn samples_handed_over(samples: Seq<SampleView>, from: Seq<char>, to: Seq<char>) -> Seq<
    SampleView,
> {
    Seq::new(
        samples.len(),
        |i: int|
            if samples[i].account_key == from {
                SampleView { account_key: to, ..samples[i] }
            } else {
                samples[i]
            },
    )
}

/// A parse error apart from the account that it is recorded for.
pub open spec fn same_but_account(a: StoredParseError, b: StoredParseError) -> bool {
    &&& a.file_path == b.file_path
    &&& a.byte_offset == b.byte_offset
    &&& a.error == b.error
    &&& a.source_id == b.source_id
    &&& a.rebuild_batch_id == b.rebuild_batch_id
    &&& a.first_seen_at == b.first_seen_at
}

/// The parse errors with those of one account handed to another.
pub open spec fn errors_handed_over(
    before: Seq<StoredParseError>,
    after: Seq<StoredParseError>,
    from: Seq<char>,
    to: Seq<char>,
) -> bool {
    &&& after.len() == before.len()
    &&& forall|i: int|
        0 <= i < before.len() ==> if (#[trigger] before[i]).account_key@ == from {
            same_but_account(after[i], before[i]) && after[i].account_key@ == to
        } else {
            after[i] == before[i]
        }
}

fn hand_over_turns(turns: &mut Vec<TurnUsageRecord>, from: &str, to: &str)
    ensures
        turn_views(final(turns)@) == turns_handed_over(turn_views(old(turns)@), from@, to@),
{
    let ghost before = turn_views(turns@);
    let mut all: Vec<TurnUsageRecord> = Vec::new();
    std::mem::swap(turns, &mut all);
    for row in iter: all
        invariant
            turn_views(iter.seq()) == before,
            turns@.len() == iter.index(),
            forall|k: int|
                0 <= k < iter.index() ==> (#[trigger] turns@[k])@ == turns_handed_over(
                    before,
                    from@,
                    to@,
                )[k],
    {
        let mut row = row;
        assert(before[iter.index()] == row@);
        if row.account_is(from) {
            row.account_key = to.to_owned();
        }
        turns.push(row);
    }
    assert(turn_views(turns@) =~= turns_handed_over(before, from@, to@));
}

fn hand_over_samples(samples: &mut Vec<TurnTokenSample>, from: &str, to: &str)
    ensures
        sample_views(final(samples)@) == samples_handed_over(
            sample_views(old(samples)@),
            from@,
            to@,
        ),
{
    let ghost before = sample_views(samples@);
    let mut all: Vec<TurnTokenSample> = Vec::new();
    std::mem::swap(samples, &mut all);
    for row in iter: all
        invariant
            sample_views(iter.seq()) == before,
            samples@.len() == iter.index(),
            forall|k: int|
                0 <= k < iter.index() ==> (#[trigger] samples@[k])@ == samples_handed_over(
                    before,
                    from@,
                    to@,
                )[k],
    {
        let mut row = row;
        assert(before[iter.index()] == row@);
        if row.account_is(from) {
            row.account_key = to.to_owned();
        }
        samples.push(row);
    }
    assert(sample_views(samples@) =~= samples_handed_over(before, from@, to@));
}

fn hand_over_errors(errors: &mut Vec<StoredParseError>, from: &str, to: &str)
    ensures
        errors_handed_over(old(errors)@, final(errors)@, from@, to@),
{
    let ghost before = errors@;
    let mut all: Vec<StoredParseError> = Vec::new();
    std::mem::swap(errors, &mut all);
    for row in iter: all
        invariant
            iter.seq() == before,
            errors@.len() == iter.index(),
            forall|i: int|
                0 <= i < iter.index() ==> if (#[trigger] before[i]).account_key@ == from@ {
                    same_but_account(errors@[i], before[i]) && errors@[i].account_key@ == to@
                } else {
                    errors@[i] == before[i]
                },
    {
        let mut row = row;
        if row.account_is(from) {
            row.account_key = to.to_owned();
        }
        errors.push(row);
    }
}

/// Taking the rows of an account out keeps the rows of the ledger unique.
pub proof fn lemma_clearing_keeps_wf(before: TurnLedger, after: TurnLedger, key: Seq<char>)
    requires
        before@.wf(),
        after.turns@ == rows_of_others(before.turns@, key),
        after.samples@ == rows_of_others(before.samples@, key),
    ensures
        after@.wf(),
{
    let apart = |a: TurnUsageRecord, b: TurnUsageRecord| turn_key(a@) != turn_key(b@);
    let distinct = |a: TurnTokenSample, b: TurnTokenSample| !same_sample(a@, b@);
    assert forall|i: int, j: int| 0 <= i < j < before.turns@.len() implies apart(
        #[trigger] before.turns@[i],
        #[trigger] before.turns@[j],
    ) by {
        assert(turn_key(before@.turns[i]) != turn_key(before@.turns[j]));
    }
    lemma_others_pairs(before.turns@, key, apart);
    assert forall|i: int, j: int| 0 <= i < j < before.samples@.len() implies distinct(
        #[trigger] before.samples@[i],
        #[trigger] before.samples@[j],
    ) by {
        assert(!same_sample(before@.samples[i], before@.samples[j]));
    }
    lemma_others_pairs(before.samples@, key, distinct);
    assert forall|i: int, j: int| 0 <= i < j < after@.turns.len() implies turn_key(
        #[trigger] after@.turns[i],
    ) != turn_key(#[trigger] after@.turns[j]) by {
        assert(apart(after.turns@[i], after.turns@[j]));
    }
    assert forall|i: int, j: int| 0 <= i < j < after@.samples.len() implies !same_sample(
        #[trigger] after@.samples[i],
        #[trigger] after@.samples[j],
    ) by {
        assert(distinct(after.samples@[i], after.samples@[j]));
    }
}

/// Handing the rows of one account to another that has none keeps them unique.
proof fn lemma_handing_over_keeps_wf(ledger: TurnLedger, from: Seq<char>, to: Seq<char>)
    requires
        ledger@.wf(),
        forall|i: int| 0 <= i < ledger.turns@.len() ==> (#[trigger] ledger.turns@[i]).account() != to,
        forall|i: int|
            0 <= i < ledger.samples@.len() ==> (#[trigger] ledger.samples@[i]).account() != to,
    ensures
        turns_unique(turns_handed_over(ledger@.turns, from, to)),
        samples_unique(samples_handed_over(ledger@.samples, from, to)),
{
    let turns = ledger@.turns;
    let samples = ledger@.samples;
    assert forall|i: int| 0 <= i < turns.len() implies (#[trigger] turns[i]).account_key != to by {
        assert(ledger.turns@[i].account() != to);
    }
    assert forall|i: int| 0 <= i < samples.len() implies (#[trigger] samples[i]).account_key
        != to by {
        assert(ledger.samples@[i].account() != to);
    }
    let turns_after = turns_handed_over(turns, from, to);
    let samples_after = samples_handed_over(samples, from, to);
    assert forall|i: int, j: int| 0 <= i < j < turns_after.len() implies turn_key(
        #[trigger] turns_after[i],
    ) != turn_key(#[trigger] turns_after[j]) by {
        assert(turn_key(turns[i]) != turn_key(turns[j]));
    }
    assert forall|i: int, j: int| 0 <= i < j < samples_after.len() implies !same_sample(
        #[trigger] samples_after[i],
        #[trigger] samples_after[j],
    ) by {
        assert(!same_sample(samples[i], samples[j]));
    }
}

impl TurnLedger {
    /// Puts what was staged in the place of what was derived of the account.
    pub fn replace_account_from_staging(&mut self, account_key: &str, staging_key: &str)
        ensures
            final(self)@.turns == turns_handed_over(
                turn_views(rows_of_others(old(self).turns@, account_key@)),
                staging_key@,
                account_key@,
            ),
            final(self)@.samples == samples_handed_over(
                sample_views(rows_of_others(old(self).samples@, account_key@)),
                staging_key@,
                account_key@,
            ),
            final(self).audits@ == rows_of_others(old(self).audits@, account_key@),
            errors_handed_over(
                rows_of_others(old(self).parse_errors@, account_key@),
                final(self).parse_errors@,
                staging_key@,
                account_key@,
            ),
            final(self).turn_sources == old(self).turn_sources,
            old(self)@.wf() ==> final(self)@.wf(),
    {
        self.clear_rollout_derived_data(account_key);
        let ghost cleared = *self;
        hand_over_turns(&mut self.turns, staging_key, account_key);
        hand_over_samples(&mut self.samples, staging_key, account_key);
        hand_over_errors(&mut self.parse_errors, staging_key, account_key);
        proof {
            if cleared@.wf() {
                lemma_others_are_of_others(old(self).turns@, account_key@);
                lemma_others_are_of_others(old(self).samples@, account_key@);
                lemma_handing_over_keeps_wf(cleared, staging_key@, account_key@);
            }
        }
    }

    /// Hands the parse errors that were staged to the account.
    pub fn keep_staged_errors(&mut self, account_key: &str, staging_key: &str)
        ensures
            errors_handed_over(
                old(self).parse_errors@,
                final(self).parse_errors@,
                staging_key@,
                account_key@,
            ),
            final(self).turns == old(self).turns,
            final(self).samples == old(self).samples,
            final(self).audits == old(self).audits,
            final(self).turn_sources == old(self).turn_sources,
    {
        hand_over_errors(&mut self.parse_errors, staging_key, account_key);
    }

    /// Records a line that was not JSON. One that was recorded before keeps the time at
    /// which it was first seen.
    pub fn record_parse_error(&mut self, error: StoredParseError)
        ensures
            final(self).parse_errors@ == errors_with(old(self).parse_errors@, error),
            final(self).turns == old(self).turns,
            final(self).samples == old(self).samples,
            final(self).audits == old(self).audits,
            final(self).turn_sources == old(self).turn_sources,
    {
        let ghost pick = |row: StoredParseError|
            row.file_path@ == error.file_path@ && row.byte_offset == error.byte_offset;
        let mut i: usize = 0;
        while i < self.parse_errors.len()
            invariant
                i <= self.parse_errors.len(),
                *self == *old(self),
                pick == (|row: StoredParseError|
                    row.file_path@ == error.file_path@ && row.byte_offset == error.byte_offset),
                forall|k: int| 0 <= k < i ==> !pick(#[trigger] self.parse_errors@[k]),
            decreases self.parse_errors.len() - i,
        {
            if self.parse_errors[i].byte_offset == error.byte_offset && same_text(
                self.parse_errors[i].file_path.as_str(),
                error.file_path.as_str(),
            ) {
                proof {
                    lemma_first_where_at(self.parse_errors@, pick, i as int);
                }
                let row = StoredParseError {
                    file_path: self.parse_errors[i].file_path.clone(),
                    first_seen_at: self.parse_errors[i].first_seen_at,
                    byte_offset: error.byte_offset,
                    error: error.error,
                    account_key: error.account_key,
                    source_id: error.source_id,
                    rebuild_batch_id: error.rebuild_batch_id,
                };
                self.parse_errors.set(i, row);
                return;
            }
            i += 1;
        }
        proof {
            lemma_first_where_none(self.parse_errors@, pick);
        }
        self.parse_errors.push(error);
    }

    /// Records that a turn was read from a source, where that is not recorded already.
    pub fn link_turn_source(&mut self, link: TurnSource)
        ensures
            final(self).turn_sources@ == links_with(old(self).turn_sources@, link),
            final(self).turns == old(self).turns,
            final(self).samples == old(self).samples,
            final(self).audits == old(self).audits,
            final(self).parse_errors == old(self).parse_errors,
    {
        let mut i: usize = 0;
        while i < self.turn_sources.len()
            invariant
                i <= self.turn_sources.len(),
                *self == *old(self),
                forall|k: int| 0 <= k < i ==> !same_link(#[trigger] self.turn_sources@[k], link),
            decreases self.turn_sources.len() - i,
        {
            if same_text(self.turn_sources[i].turn_id.as_str(), link.turn_id.as_str()) && same_text(
                self.turn_sources[i].thread_id.as_str(),
                link.thread_id.as_str(),
            ) && same_text(self.turn_sources[i].account_key.as_str(), link.account_key.as_str())
                && same_text(self.turn_sources[i].source_id.as_str(), link.source_id.as_str()) {
                assert(same_link(self.turn_sources@[i as int], link));
                return;
            }
            i += 1;
        }
        self.turn_sources.push(link);
    }

    /// Records what a line of a source's log said.
    pub fn record_from_source(&mut self, update: TurnUpdate, source_id: &str)
        requires
            old(self)@.wf(),
        ensures
            final(self)@ == ledger_with(old(self)@, update@),
            final(self)@.wf(),
            link_views(final(self).turn_sources@) == link_views_with(
                link_views(old(self).turn_sources@),
                update_link(update@, source_id@),
            ),
            final(self).audits == old(self).audits,
            final(self).parse_errors == old(self).parse_errors,
    {
        let link = TurnSource {
            source_id: source_id.to_owned(),
            account_key: update.turn.account_key.clone(),
            thread_id: update.turn.thread_id.clone(),
            turn_id: update.turn.turn_id.clone(),
            first_seen_at: update.seen_at,
        };
        let ghost links = self.turn_sources@;
        self.record(update);
        proof {
            lemma_link_views_with(links, link);
        }
        self.link_turn_source(link);
    }
}

/// The parse errors after one is recorded.
pub open spec fn errors_with(errors: Seq<StoredParseError>, error: StoredParseError) -> Seq<
    StoredParseError,
> {
    match first_where(
        errors,
        |row: StoredParseError|
            row.file_path@ == error.file_path@ && row.byte_offset == error.byte_offset,
    ) {
        Some(at) => errors.update(
            at,
            StoredParseError {
                file_path: errors[at].file_path,
                first_seen_at: errors[at].first_seen_at,
                ..error
            },
        ),
        None => errors.push(error),
    }
}

pub open spec fn same_link(a: TurnSource, b: TurnSource) -> bool {
    a.source_id@ == b.source_id@ && a.account_key@ == b.account_key@ && a.thread_id@ == b.thread_id@
        && a.turn_id@ == b.turn_id@
}

pub open spec fn links_with(links: Seq<TurnSource>, link: TurnSource) -> Seq<TurnSource> {
    if exists|k: int| 0 <= k < links.len() && same_link(#[trigger] links[k], link) {
        links
    } else {
        links.push(link)
    }
}

/// The mathematical value of a [`TurnSource`].
pub struct LinkView {
    pub source_id: Seq<char>,
    pub key: TurnKey,
    pub first_seen_at: int,
}

pub open spec fn link_view(link: TurnSource) -> LinkView {
    LinkView {
        source_id: link.source_id@,
        key: TurnKey {
            account_key: link.account_key@,
            thread_id: link.thread_id@,
            turn_id: link.turn_id@,
        },
        first_seen_at: link.first_seen_at as int,
    }
}

pub open spec fn link_views(links: Seq<TurnSource>) -> Seq<LinkView> {
    Seq::new(links.len(), |i: int| link_view(links[i]))
}

pub open spec fn has_link(links: Seq<LinkView>, link: LinkView) -> bool {
    exists|k: int|
        0 <= k < links.len() && (#[trigger] links[k]).source_id == link.source_id && links[k].key
            == link.key
}

/// The links after one is recorded: one that is there already is ignored.
pub open spec fn link_views_with(links: Seq<LinkView>, link: LinkView) -> Seq<LinkView> {
    if has_link(links, link) {
        links
    } else {
        links.push(link)
    }
}

/// The link between a source and the turn that an update is of.
pub open spec fn update_link(update: UpdateView, source_id: Seq<char>) -> LinkView {
    LinkView { source_id, key: turn_key(update.turn), first_seen_at: update.seen_at }
}

proof fn lemma_link_views_with(links: Seq<TurnSource>, link: TurnSource)
    ensures
        link_views(links_with(links, link)) == link_views_with(link_views(links), link_view(link)),
{
    let views = link_views(links);
    if exists|k: int| 0 <= k < links.len() && same_link(#[trigger] links[k], link) {
        let k = choose|k: int| 0 <= k < links.len() && same_link(#[trigger] links[k], link);
        assert(views[k].source_id == link_view(link).source_id && views[k].key == link_view(
            link,
        ).key);
    } else {
        assert forall|k: int| 0 <= k < views.len() implies !((#[trigger] views[k]).source_id
            == link_view(link).source_id && views[k].key == link_view(link).key) by {
            assert(!same_link(links[k], link));
        }
        assert(link_views(links.push(link)) =~= views.push(link_view(link)));
    }
}

/// The mathematical value of a [`StoredParseError`].
pub struct StoredErrorView {
    pub file_path: Seq<char>,
    pub byte_offset: int,
    pub error: Seq<char>,
    pub account_key: Seq<char>,
    pub source_id: Option<Seq<char>>,
    pub rebuild_batch_id: Seq<char>,
    pub first_seen_at: int,
}

impl View for StoredParseError {
    type V = StoredErrorView;

    open spec fn view(&self) -> StoredErrorView {
        StoredErrorView {
            file_path: self.file_path@,
            byte_offset: self.byte_offset as int,
            error: self.error@,
            account_key: self.account_key@,
            source_id: text_opt(self.source_id),
            rebuild_batch_id: self.rebuild_batch_id@,
            first_seen_at: self.first_seen_at as int,
        }
    }
}

pub open spec fn stored_error_views(errors: Seq<StoredParseError>) -> Seq<StoredErrorView> {
    Seq::new(errors.len(), |i: int| errors[i]@)
}

/// The error is of the line that begins there.
pub open spec fn is_error_at(file_path: Seq<char>, byte_offset: int) -> spec_fn(
    StoredErrorView,
) -> bool {
    |row: StoredErrorView| row.file_path == file_path && row.byte_offset == byte_offset
}

/// The parse errors after one is recorded in the place of what was known of its line.
pub open spec fn stored_errors_with(
    errors: Seq<StoredErrorView>,
    error: StoredErrorView,
) -> Seq<StoredErrorView> {
    match first_where(errors, is_error_at(error.file_path, error.byte_offset)) {
        Some(at) => errors.update(
            at,
            StoredErrorView { first_seen_at: errors[at].first_seen_at, ..error },
        ),
        None => errors.push(error),
    }
}

/// What recording a parse error means for the values of the table.
pub proof fn lemma_stored_errors_with(errors: Seq<StoredParseError>, error: StoredParseError)
    ensures
        stored_error_views(errors_with(errors, error)) == stored_errors_with(
            stored_error_views(errors),
            error@,
        ),
{
    let views = stored_error_views(errors);
    let pick = |row: StoredParseError|
        row.file_path@ == error.file_path@ && row.byte_offset == error.byte_offset;
    let pick_view = is_error_at(error@.file_path, error@.byte_offset);
    lemma_first_where(errors, pick);
    match first_where(errors, pick) {
        Some(at) => {
            assert forall|k: int| 0 <= k < at implies !pick_view(#[trigger] views[k]) by {
                assert(!pick(errors[k]));
            }
            lemma_first_where_at(views, pick_view, at);
            assert(stored_error_views(errors_with(errors, error)) =~= stored_errors_with(
                views,
                error@,
            ));
        },
        None => {
            assert forall|k: int| 0 <= k < views.len() implies !pick_view(#[trigger] views[k]) by {
                assert(!pick(errors[k]));
            }
            lemma_first_where_none(views, pick_view);
            assert(stored_error_views(errors.push(error)) =~= views.push(error@));
        },
    }
}

impl AuditReason {
    pub open spec fn name(self) -> Seq<char> {
        match self {
            AuditReason::LegacyPreTimeline => "legacy_pre_timeline"@,
            AuditReason::SourceMissing => "source_missing"@,
            AuditReason::AccountingError => "accounting_error"@,
            AuditReason::OrphanTimeline => "orphan_timeline"@,
            AuditReason::AccountUnresolved => "account_unresolved"@,
        }
    }

    /// What a stored name stands for.
    pub open spec fn named(name: Seq<char>) -> AuditReason {
        if name == "legacy_pre_timeline"@ {
            AuditReason::LegacyPreTimeline
        } else if name == "source_missing"@ {
            AuditReason::SourceMissing
        } else if name == "orphan_timeline"@ {
            AuditReason::OrphanTimeline
        } else if name == "account_unresolved"@ {
            AuditReason::AccountUnresolved
        } else {
            AuditReason::AccountingError
        }
    }

    pub fn as_str(self) -> (r: &'static str)
        ensures
            r@ == self.name(),
    {
        match self {
            AuditReason::LegacyPreTimeline => "legacy_pre_timeline",
            AuditReason::SourceMissing => "source_missing",
            AuditReason::AccountingError => "accounting_error",
            AuditReason::OrphanTimeline => "orphan_timeline",
            AuditReason::AccountUnresolved => "account_unresolved",
        }
    }

    pub fn parse(name: &str) -> (r: AuditReason)
        ensures
            r == AuditReason::named(name@),
    {
        if same_text(name, "legacy_pre_timeline") {
            AuditReason::LegacyPreTimeline
        } else if same_text(name, "source_missing") {
            AuditReason::SourceMissing
        } else if same_text(name, "orphan_timeline") {
            AuditReason::OrphanTimeline
        } else if same_text(name, "account_unresolved") {
            AuditReason::AccountUnresolved
        } else {
            AuditReason::AccountingError
        }
    }
}

/// A reason that is stored is read back.
pub proof fn lemma_audit_reason_round_trip(value: AuditReason)
    ensures
        AuditReason::named(value.name()) == value,
{
    reveal_strlit("legacy_pre_timeline");
    reveal_strlit("source_missing");
    reveal_strlit("accounting_error");
    reveal_strlit("orphan_timeline");
    reveal_strlit("account_unresolved");
    assert("legacy_pre_timeline"@.len() == 19);
    assert("source_missing"@.len() == 14);
    assert("accounting_error"@.len() == 16);
    assert("orphan_timeline"@.len() == 15);
    assert("account_unresolved"@.len() == 18);
}

// ---------------------------------------------------------------------------
// Laws
// ---------------------------------------------------------------------------

/// The turn is of this account and thread, and has this name.
pub open spec fn is_turn(
    turn: TurnView,
    account: Seq<char>,
    thread: Seq<char>,
    name: Seq<char>,
) -> bool {
    turn.account_key == account && turn.thread_id == thread && turn.turn_id == name
}

/// A turn that is recorded is read back as it was recorded, under its account, thread and
/// name; every other turn stays as it was.
pub proof fn lemma_recorded_turn_is_read(turns: Seq<TurnView>, turn: TurnView)
    requires
        turns_unique(turns),
    ensures
        ({
            let after = turns_with(turns, turn);
            &&& exists|i: int| 0 <= i < after.len() && #[trigger] after[i] == turn
            &&& forall|i: int|
                0 <= i < after.len() && is_turn(
                    #[trigger] after[i],
                    turn.account_key,
                    turn.thread_id,
                    turn.turn_id,
                ) ==> after[i] == turn
            &&& forall|i: int|
                0 <= i < turns.len() && !is_turn(
                    #[trigger] turns[i],
                    turn.account_key,
                    turn.thread_id,
                    turn.turn_id,
                ) ==> after[i] == turns[i]
            &&& turns.len() <= after.len() <= turns.len() + 1
        }),
{
    let after = turns_with(turns, turn);
    let key = turn_key(turn);
    if has_turn(turns, key) {
        let at = choose|at: int| #[trigger] turn_at(turns, key, at);
        assert(after[at] == turn);
        assert forall|i: int|
            0 <= i < after.len() && is_turn(
                #[trigger] after[i],
                turn.account_key,
                turn.thread_id,
                turn.turn_id,
            ) implies after[i] == turn by {
            if i != at {
                assert(after[i] == turns[i]);
                if i < at {
                    assert(turn_key(turns[i]) != turn_key(turns[at]));
                } else {
                    assert(turn_key(turns[at]) != turn_key(turns[i]));
                }
            }
        }
    } else {
        assert(after[turns.len() as int] == turn);
        assert forall|i: int|
            0 <= i < after.len() && is_turn(
                #[trigger] after[i],
                turn.account_key,
                turn.thread_id,
                turn.turn_id,
            ) implies after[i] == turn by {
            if i < turns.len() {
                assert(turn_at(turns, key, i));
            }
        }
    }
}

/// The samples are of one turn, one segment of it and one running total.
pub open spec fn is_repeated(a: SampleView, b: SampleView) -> bool {
    &&& a.account_key == b.account_key
    &&& a.thread_id == b.thread_id
    &&& a.turn_id == b.turn_id
    &&& a.segment_no == b.segment_no
    &&& a.cumulative_tokens == b.cumulative_tokens
}

/// A sample is added at the end, unless one of its turn, segment and running total is there
/// already; then nothing changes.
pub proof fn lemma_sample_is_recorded_once(samples: Seq<SampleView>, sample: SampleView)
    ensures
        ({
            let known = exists|i: int|
                0 <= i < samples.len() && is_repeated(#[trigger] samples[i], sample);
            &&& known ==> samples_with(samples, sample) == samples
            &&& !known ==> samples_with(samples, sample) == samples.push(sample)
        }),
{
    if has_sample(samples, sample) {
        let i = choose|i: int| 0 <= i < samples.len() && same_sample(#[trigger] samples[i], sample);
        assert(is_repeated(samples[i], sample));
    }
    if exists|i: int| 0 <= i < samples.len() && is_repeated(#[trigger] samples[i], sample) {
        let i = choose|i: int| 0 <= i < samples.len() && is_repeated(#[trigger] samples[i], sample);
        assert(same_sample(samples[i], sample));
    }
}

/// The increase is on the timeline of the turn.
pub open spec fn increase_of(key: TurnKey) -> spec_fn(SampleView) -> bool {
    |sample: SampleView|
        {
            &&& sample.account_key == key.account_key
            &&& sample.thread_id == key.thread_id
            &&& sample.turn_id == key.turn_id
        }
}

pub open spec fn its_increase() -> spec_fn(SampleView) -> int {
    |sample: SampleView| sample.delta_tokens
}

/// The total of a timeline is the sum of the increases of its account, thread and turn.
pub proof fn lemma_timeline_is_sum_of_increases(samples: Seq<SampleView>, key: TurnKey)
    ensures
        timeline_total(samples, key) == sum_where(samples, increase_of(key), its_increase()),
    decreases samples.len(),
{
    if samples.len() > 0 {
        lemma_timeline_is_sum_of_increases(samples.drop_last(), key);
    }
}

/// Accounts are closed exactly where every turn's total is the sum of the increases of its
/// account, thread and name and none is negative, and every increase has its turn.
pub proof fn lemma_closed_accounts_agree(ledger: LedgerView, scope: Option<Seq<char>>)
    ensures
        accounts_closed(ledger, scope) <==> {
            &&& forall|i: int|
                0 <= i < ledger.turns.len() && (scope is None || scope == Some(
                    (#[trigger] ledger.turns[i]).account_key,
                )) ==> {
                    let turn = ledger.turns[i];
                    let sum = sum_where(
                        ledger.samples,
                        increase_of(
                            TurnKey {
                                account_key: turn.account_key,
                                thread_id: turn.thread_id,
                                turn_id: turn.turn_id,
                            },
                        ),
                        its_increase(),
                    );
                    turn.usage.raw_total_tokens == sum && sum >= 0
                }
            &&& forall|i: int|
                0 <= i < ledger.samples.len() && (scope is None || scope == Some(
                    (#[trigger] ledger.samples[i]).account_key,
                )) ==> exists|k: int|
                    0 <= k < ledger.turns.len() && is_turn(
                        #[trigger] ledger.turns[k],
                        ledger.samples[i].account_key,
                        ledger.samples[i].thread_id,
                        ledger.samples[i].turn_id,
                    )
        },
{
    assert forall|i: int| 0 <= i < ledger.turns.len() implies {
        let turn = ledger.turns[i];
        let sum = sum_where(ledger.samples, increase_of(turn_key(turn)), its_increase());
        mismatched(#[trigger] ledger.turns[i], ledger.samples) == !(turn.usage.raw_total_tokens
            == sum && sum >= 0)
    } by {
        lemma_timeline_is_sum_of_increases(ledger.samples, turn_key(ledger.turns[i]));
    }
    assert forall|i: int| 0 <= i < ledger.samples.len() implies {
        orphan(#[trigger] ledger.samples[i], ledger.turns) == !exists|k: int|
            0 <= k < ledger.turns.len() && is_turn(
                #[trigger] ledger.turns[k],
                ledger.samples[i].account_key,
                ledger.samples[i].thread_id,
                ledger.samples[i].turn_id,
            )
    } by {
        let sample = ledger.samples[i];
        let key = sample_turn(sample);
        if has_turn(ledger.turns, key) {
            let k = choose|k: int| #[trigger] turn_at(ledger.turns, key, k);
            assert(is_turn(
                ledger.turns[k],
                sample.account_key,
                sample.thread_id,
                sample.turn_id,
            ));
        }
        if exists|k: int|
            0 <= k < ledger.turns.len() && is_turn(
                #[trigger] ledger.turns[k],
                sample.account_key,
                sample.thread_id,
                sample.turn_id,
            ) {
            let k = choose|k: int|
                0 <= k < ledger.turns.len() && is_turn(
                    #[trigger] ledger.turns[k],
                    sample.account_key,
                    sample.thread_id,
                    sample.turn_id,
                );
            assert(turn_at(ledger.turns, key, k));
        }
    }
}

/// Rows that are handed over change their account and nothing else; the rows of every other
/// account stay, and none is left to the one that handed over.
pub proof fn lemma_handing_over_changes_the_account(
    turns: Seq<TurnView>,
    samples: Seq<SampleView>,
    from: Seq<char>,
    to: Seq<char>,
)
    requires
        from != to,
    ensures
        turns_handed_over(turns, from, to).len() == turns.len(),
        samples_handed_over(samples, from, to).len() == samples.len(),
        forall|i: int|
            0 <= i < turns.len() ==> {
                let after = #[trigger] turns_handed_over(turns, from, to)[i];
                &&& after.account_key != from
                &&& turns[i].account_key == from ==> after.account_key == to
                &&& turns[i].account_key != from ==> after == turns[i]
                &&& after.thread_id == turns[i].thread_id
                &&& after.turn_id == turns[i].turn_id
                &&& after.usage == turns[i].usage
                &&& after.started_at == turns[i].started_at
                &&& after.completed_at == turns[i].completed_at
                &&& after.model == turns[i].model
                &&& after.estimated_units == turns[i].estimated_units
            },
        forall|i: int|
            0 <= i < samples.len() ==> {
                let after = #[trigger] samples_handed_over(samples, from, to)[i];
                &&& after.account_key != from
                &&& samples[i].account_key == from ==> after.account_key == to
                &&& samples[i].account_key != from ==> after == samples[i]
                &&& after.thread_id == samples[i].thread_id
                &&& after.turn_id == samples[i].turn_id
                &&& after.delta_tokens == samples[i].delta_tokens
                &&& after.cumulative_tokens == samples[i].cumulative_tokens
                &&& after.segment_no == samples[i].segment_no
                &&& after.sampled_at == samples[i].sampled_at
            },
{
}

/// The audit names the turn.
pub open spec fn audits_turn(
    audit: TimelineAudit,
    account: Seq<char>,
    thread: Seq<char>,
    name: Seq<char>,
) -> bool {
    audit.account_key@ == account && audit.thread_id@ == thread && audit.turn_id@ == name
}

/// A finding is recorded under its turn, with its counts and the time at which it was made.
/// A turn that was found before keeps the time of its first finding. Every other audit stays.
pub proof fn lemma_finding_is_recorded(audits: Seq<TimelineAudit>, finding: TimelineAudit)
    ensures
        ({
            let after = audits_with(audits, finding);
            &&& exists|i: int|
                {
                    &&& 0 <= i < after.len()
                    &&& audits_turn(
                        #[trigger] after[i],
                        finding.account_key@,
                        finding.thread_id@,
                        finding.turn_id@,
                    )
                    &&& after[i].canonical_tokens == finding.canonical_tokens
                    &&& after[i].timeline_tokens == finding.timeline_tokens
                    &&& after[i].last_seen_at == finding.last_seen_at
                    &&& after[i].reason == finding.reason || after[i].reason
                        == AuditReason::LegacyPreTimeline
                    &&& i < audits.len() ==> after[i].first_seen_at == audits[i].first_seen_at
                    &&& i == audits.len() ==> after[i] == finding
                }
            &&& forall|i: int|
                0 <= i < audits.len() && !audits_turn(
                    #[trigger] audits[i],
                    finding.account_key@,
                    finding.thread_id@,
                    finding.turn_id@,
                ) ==> after[i] == audits[i]
            &&& audits.len() <= after.len() <= audits.len() + 1
        }),
{
    let after = audits_with(audits, finding);
    let pick = is_audit_of(audit_key(finding));
    lemma_first_where(audits, pick);
    match first_where(audits, pick) {
        Some(at) => {
            assert(audits_turn(
                after[at],
                finding.account_key@,
                finding.thread_id@,
                finding.turn_id@,
            ));
        },
        None => {
            assert(audits_turn(
                after[audits.len() as int],
                finding.account_key@,
                finding.thread_id@,
                finding.turn_id@,
            ));
        },
    }
}

/// An audit of the turns leaves what other accounts' audits say, and finds every turn in its
/// scope that has tokens and another total than its timeline: the turn has an audit with the
/// two counts.
pub proof fn lemma_every_gap_is_found(
    audits: Seq<TimelineAudit>,
    turns: Seq<TurnUsageRecord>,
    samples: Seq<SampleView>,
    scope: Option<Seq<char>>,
    missing_reason: AuditReason,
    now: i64,
    at: int,
)
    requires
        0 <= at < turns.len(),
        turns_unique(turn_views(turns)),
        scope is None || scope == Some(turns[at].account_key@),
        turns[at].usage.raw_total_tokens > 0,
        timeline_total(samples, turn_key(turns[at]@)) != turns[at].usage.raw_total_tokens,
        i128::MIN <= timeline_total(samples, turn_key(turns[at]@)) <= i128::MAX,
    ensures
        ({
            let after = audits_of_turns(audits, turns, samples, scope, missing_reason, now);
            exists|i: int|
                {
                    &&& 0 <= i < after.len()
                    &&& audits_turn(
                        #[trigger] after[i],
                        turns[at].account_key@,
                        turns[at].thread_id@,
                        turns[at].turn_id@,
                    )
                    &&& after[i].canonical_tokens == turns[at].usage.raw_total_tokens
                    &&& after[i].timeline_tokens == timeline_total(samples, turn_key(turns[at]@))
                    &&& after[i].last_seen_at == now
                }
        }),
    decreases turns.len(),
{
    let turn = turns[at];
    let last = turns.last();
    let front = turns.drop_last();
    let before = audits_of_turns(audits, front, samples, scope, missing_reason, now);
    let after = audits_of_turns(audits, turns, samples, scope, missing_reason, now);
    let total = timeline_total(samples, turn_key(last@));
    if at == turns.len() - 1 {
        let finding = gap_finding(last, total, missing_reason, now);
        lemma_finding_is_recorded(before, finding);
        let i = choose|i: int|
            {
                &&& 0 <= i < after.len()
                &&& audits_turn(
                    #[trigger] after[i],
                    finding.account_key@,
                    finding.thread_id@,
                    finding.turn_id@,
                )
                &&& after[i].canonical_tokens == finding.canonical_tokens
                &&& after[i].timeline_tokens == finding.timeline_tokens
                &&& after[i].last_seen_at == finding.last_seen_at
            };
        assert(audits_turn(
            after[i],
            turn.account_key@,
            turn.thread_id@,
            turn.turn_id@,
        ));
    } else {
        assert(front[at] == turn);
        assert forall|i: int, j: int| 0 <= i < j < front.len() implies turn_key(
            #[trigger] turn_views(front)[i],
        ) != turn_key(#[trigger] turn_views(front)[j]) by {
            assert(turn_views(front)[i] == turn_views(turns)[i]);
            assert(turn_views(front)[j] == turn_views(turns)[j]);
        }
        lemma_every_gap_is_found(audits, front, samples, scope, missing_reason, now, at);
        let i = choose|i: int|
            {
                &&& 0 <= i < before.len()
                &&& audits_turn(
                    #[trigger] before[i],
                    turn.account_key@,
                    turn.thread_id@,
                    turn.turn_id@,
                )
                &&& before[i].canonical_tokens == turn.usage.raw_total_tokens
                &&& before[i].timeline_tokens == timeline_total(samples, turn_key(turn@))
                &&& before[i].last_seen_at == now
            };
        if after != before {
            let finding = gap_finding(last, total, missing_reason, now);
            lemma_finding_is_recorded(before, finding);
            assert(turn_key(turn_views(turns)[at]) != turn_key(
                turn_views(turns)[turns.len() - 1],
            ));
            assert(!audits_turn(
                before[i],
                finding.account_key@,
                finding.thread_id@,
                finding.turn_id@,
            ));
            assert(after[i] == before[i]);
        }
        assert(audits_turn(
            after[i],
            turn.account_key@,
            turn.thread_id@,
            turn.turn_id@,
        ));
    }
}

/// An account's findings: a turn with tokens and none on its timeline is missing there, one
/// whose timeline has another total contradicts it, and a sample without a turn is lost. None
/// is of another account.
pub proof fn lemma_findings_are_the_accounts(ledger: LedgerView, key: Seq<char>)
    ensures
        forall|i: int|
            0 <= i < missing_turns(ledger, key).len() ==> (#[trigger] missing_turns(
                ledger,
                key,
            )[i]).account_key == key,
        forall|i: int|
            0 <= i < contradicted_turns(ledger, key).len() ==> (#[trigger] contradicted_turns(
                ledger,
                key,
            )[i]).account_key == key,
        forall|i: int|
            0 <= i < orphan_samples(ledger, key).len() ==> (#[trigger] orphan_samples(
                ledger,
                key,
            )[i]).account_key == key,
{
    let missing = |turn: TurnView|
        turn.account_key == key && turn.usage.raw_total_tokens > 0 && timeline_total(
            ledger.samples,
            turn_key(turn),
        ) == 0;
    let contradicted = |turn: TurnView|
        {
            let total = timeline_total(ledger.samples, turn_key(turn));
            turn.account_key == key && (turn.usage.raw_total_tokens < 0 || total < 0 || (total > 0
                && turn.usage.raw_total_tokens != total))
        };
    let lost = |sample: SampleView| sample.account_key == key && orphan(sample, ledger.turns);
    assert forall|i: int| 0 <= i < missing_turns(ledger, key).len() implies (
    #[trigger] missing_turns(ledger, key)[i]).account_key == key by {
        let from = crate::table::lemma_filter_member(ledger.turns, missing, i);
    }
    assert forall|i: int| 0 <= i < contradicted_turns(ledger, key).len() implies (
    #[trigger] contradicted_turns(ledger, key)[i]).account_key == key by {
        let from = crate::table::lemma_filter_member(ledger.turns, contradicted, i);
    }
    assert forall|i: int| 0 <= i < orphan_samples(ledger, key).len() implies (
    #[trigger] orphan_samples(ledger, key)[i]).account_key == key by {
        let from = crate::table::lemma_filter_member(ledger.samples, lost, i);
    }
}

/// A line that could not be read is on record with what is known of it now, once for its place
/// in its file: what was known of the same place makes way but for when it was first seen, and
/// the other errors stay.
pub proof fn lemma_parse_error_is_recorded(errors: Seq<StoredErrorView>, error: StoredErrorView)
    ensures
        ({
            let after = stored_errors_with(errors, error);
            &&& errors.len() <= after.len() <= errors.len() + 1
            &&& exists|i: int|
                {
                    &&& 0 <= i < after.len()
                    &&& (#[trigger] after[i]).file_path == error.file_path
                    &&& after[i].byte_offset == error.byte_offset
                    &&& after[i].error == error.error
                    &&& after[i].account_key == error.account_key
                    &&& after[i].source_id == error.source_id
                    &&& after[i].rebuild_batch_id == error.rebuild_batch_id
                    &&& i < errors.len() ==> after[i].first_seen_at == errors[i].first_seen_at
                        && after.len() == errors.len()
                    &&& i == errors.len() ==> after[i].first_seen_at == error.first_seen_at
                }
            &&& forall|i: int|
                0 <= i < errors.len() && !((#[trigger] errors[i]).file_path == error.file_path
                    && errors[i].byte_offset == error.byte_offset) ==> after[i] == errors[i]
            &&& after.len() > errors.len() ==> forall|i: int|
                0 <= i < errors.len() ==> !((#[trigger] errors[i]).file_path == error.file_path
                    && errors[i].byte_offset == error.byte_offset)
        }),
{
    let pick = is_error_at(error.file_path, error.byte_offset);
    lemma_first_where(errors, pick);
    let after = stored_errors_with(errors, error);
    match first_where(errors, pick) {
        Some(at) => {
            assert(pick(errors[at]));
            assert(after[at].file_path == error.file_path);
        },
        None => {
            assert(after[errors.len() as int].file_path == error.file_path);
            assert forall|i: int| 0 <= i < errors.len() implies !((
            #[trigger] errors[i]).file_path == error.file_path && errors[i].byte_offset
                == error.byte_offset) by {
                assert(!pick(errors[i]));
            }
        },
    }
}

/// The sum of the increases of a turn's account, thread and name.
pub open spec fn increases_of(ledger: LedgerView, turn: TurnView) -> int {
    sum_where(
        ledger.samples,
        increase_of(
            TurnKey {
                account_key: turn.account_key,
                thread_id: turn.thread_id,
                turn_id: turn.turn_id,
            },
        ),
        its_increase(),
    )
}

/// The account's turns without a timeline are those with tokens whose increases come to
/// nothing.
pub proof fn lemma_missing_turns_have_no_increase(ledger: LedgerView, key: Seq<char>)
    ensures
        missing_turns(ledger, key).len() == count_where(
            ledger.turns,
            |turn: TurnView|
                turn.account_key == key && turn.usage.raw_total_tokens > 0 && increases_of(
                    ledger,
                    turn,
                ) == 0,
        ),
{
    let same = |turn: TurnView|
        turn.account_key == key && turn.usage.raw_total_tokens > 0 && increases_of(ledger, turn)
            == 0;
    let pick = |turn: TurnView|
        turn.account_key == key && turn.usage.raw_total_tokens > 0 && timeline_total(
            ledger.samples,
            turn_key(turn),
        ) == 0;
    assert forall|i: int| 0 <= i < ledger.turns.len() implies pick(#[trigger] ledger.turns[i])
        == same(ledger.turns[i]) by {
        lemma_timeline_is_sum_of_increases(ledger.samples, turn_key(ledger.turns[i]));
    }
    lemma_filter_counts(ledger.turns, pick, same);
}

/// The account's contradicted turns are those that have a timeline of another total, or whose
/// total or timeline is negative.
pub proof fn lemma_contradicted_turns_disagree(ledger: LedgerView, key: Seq<char>)
    ensures
        contradicted_turns(ledger, key).len() == count_where(
            ledger.turns,
            |turn: TurnView|
                turn.account_key == key && (turn.usage.raw_total_tokens < 0 || increases_of(
                    ledger,
                    turn,
                ) < 0 || (increases_of(ledger, turn) > 0 && increases_of(ledger, turn)
                    != turn.usage.raw_total_tokens)),
        ),
{
    let same = |turn: TurnView|
        turn.account_key == key && (turn.usage.raw_total_tokens < 0 || increases_of(ledger, turn)
            < 0 || (increases_of(ledger, turn) > 0 && increases_of(ledger, turn)
            != turn.usage.raw_total_tokens));
    let pick = |turn: TurnView|
        {
            let total = timeline_total(ledger.samples, turn_key(turn));
            turn.account_key == key && (turn.usage.raw_total_tokens < 0 || total < 0 || (total > 0
                && turn.usage.raw_total_tokens != total))
        };
    assert forall|i: int| 0 <= i < ledger.turns.len() implies pick(#[trigger] ledger.turns[i])
        == same(ledger.turns[i]) by {
        lemma_timeline_is_sum_of_increases(ledger.samples, turn_key(ledger.turns[i]));
    }
    lemma_filter_counts(ledger.turns, pick, same);
}

/// A turn of the ledger has the account, thread and name.
pub open spec fn names_turn(
    turns: Seq<TurnView>,
    account_key: Seq<char>,
    thread_id: Seq<char>,
    turn_id: Seq<char>,
) -> bool {
    exists|k: int|
        0 <= k < turns.len() && is_turn(#[trigger] turns[k], account_key, thread_id, turn_id)
}

/// The account's orphans are its samples whose account, thread and name no turn has.
pub proof fn lemma_orphans_have_no_turn(ledger: LedgerView, key: Seq<char>)
    ensures
        orphan_samples(ledger, key).len() == count_where(
            ledger.samples,
            |sample: SampleView|
                sample.account_key == key && !names_turn(
                    ledger.turns,
                    sample.account_key,
                    sample.thread_id,
                    sample.turn_id,
                ),
        ),
{
    let same = |sample: SampleView|
        sample.account_key == key && !names_turn(
            ledger.turns,
            sample.account_key,
            sample.thread_id,
            sample.turn_id,
        );
    let pick = |sample: SampleView| sample.account_key == key && orphan(sample, ledger.turns);
    assert forall|i: int| 0 <= i < ledger.samples.len() implies pick(#[trigger] ledger.samples[i])
        == same(ledger.samples[i]) by {
        let sample = ledger.samples[i];
        let turn = sample_turn(sample);
        if has_turn(ledger.turns, turn) {
            let k = choose|k: int| #[trigger] turn_at(ledger.turns, turn, k);
            assert(is_turn(
                ledger.turns[k],
                sample.account_key,
                sample.thread_id,
                sample.turn_id,
            ));
        }
        if names_turn(ledger.turns, sample.account_key, sample.thread_id, sample.turn_id) {
            let k = choose|k: int|
                0 <= k < ledger.turns.len() && is_turn(
                    #[trigger] ledger.turns[k],
                    sample.account_key,
                    sample.thread_id,
                    sample.turn_id,
                );
            assert(turn_at(ledger.turns, turn, k));
        }
    }
    lemma_filter_counts(ledger.samples, pick, same);
}

/// The fault that is named is there: a turn of the scope whose total is not the sum of its
/// increases, or is negative, with both of them; or, where no turn has that fault, an increase
/// of the scope without a turn.
pub proof fn lemma_named_fault_is_there(
    error: AccountingError,
    ledger: LedgerView,
    scope: Option<Seq<char>>,
)
    requires
        names_fault(error, ledger, scope),
    ensures
        error matches AccountingError::Mismatch { thread_id, turn_id, canonical, timeline } ==> (
        exists|i: int|
            {
                let turn = #[trigger] ledger.turns[i];
                &&& 0 <= i < ledger.turns.len()
                &&& scope is None || scope == Some(turn.account_key)
                &&& turn.thread_id == thread_id@
                &&& turn.turn_id == turn_id@
                &&& turn.usage.raw_total_tokens == canonical
                &&& increases_of(ledger, turn) == timeline
                &&& canonical != timeline || timeline < 0
            }),
        error matches AccountingError::Orphan { thread_id, turn_id, timeline } ==> (exists|i: int|
            {
                let sample = #[trigger] ledger.samples[i];
                &&& 0 <= i < ledger.samples.len()
                &&& scope is None || scope == Some(sample.account_key)
                &&& sample.thread_id == thread_id@
                &&& sample.turn_id == turn_id@
                &&& !names_turn(
                    ledger.turns,
                    sample.account_key,
                    sample.thread_id,
                    sample.turn_id,
                )
            }),
        !accounts_closed(ledger, scope),
{
    match error {
        AccountingError::Mismatch { thread_id, turn_id, canonical, timeline } => {
            let i = choose|i: int|
                {
                    &&& 0 <= i < ledger.turns.len()
                    &&& in_scope((#[trigger] ledger.turns[i]).account_key, scope)
                    &&& mismatched(ledger.turns[i], ledger.samples)
                    &&& ledger.turns[i].thread_id == thread_id@
                    &&& ledger.turns[i].turn_id == turn_id@
                    &&& ledger.turns[i].usage.raw_total_tokens == canonical
                    &&& timeline_total(ledger.samples, turn_key(ledger.turns[i])) == timeline
                };
            lemma_timeline_is_sum_of_increases(ledger.samples, turn_key(ledger.turns[i]));
            assert(increases_of(ledger, ledger.turns[i]) == timeline);
        },
        AccountingError::Orphan { thread_id, turn_id, timeline } => {
            let i = choose|i: int|
                {
                    &&& 0 <= i < ledger.samples.len()
                    &&& in_scope((#[trigger] ledger.samples[i]).account_key, scope)
                    &&& orphan(ledger.samples[i], ledger.turns)
                    &&& ledger.samples[i].thread_id == thread_id@
                    &&& ledger.samples[i].turn_id == turn_id@
                    &&& timeline_total(ledger.samples, sample_turn(ledger.samples[i])) == timeline
                };
            let sample = ledger.samples[i];
            if names_turn(ledger.turns, sample.account_key, sample.thread_id, sample.turn_id) {
                let k = choose|k: int|
                    0 <= k < ledger.turns.len() && is_turn(
                        #[trigger] ledger.turns[k],
                        sample.account_key,
                        sample.thread_id,
                        sample.turn_id,
                    );
                assert(turn_at(ledger.turns, sample_turn(sample), k));
            }
        },
    }
}

/// A finding of a turn tells its account, thread and name, its total and the sum of its
/// increases; where there are none, the reason is the one that was given for that.
pub proof fn lemma_finding_tells_both_totals(
    turn: TurnUsageRecord,
    timeline: int,
    missing_reason: AuditReason,
    now: i64,
)
    requires
        i128::MIN <= timeline <= i128::MAX,
    ensures
        ({
            let finding = gap_finding(turn, timeline, missing_reason, now);
            &&& finding.account_key == turn.account_key
            &&& finding.thread_id == turn.thread_id
            &&& finding.turn_id == turn.turn_id
            &&& finding.canonical_tokens == turn.usage.raw_total_tokens
            &&& finding.timeline_tokens == timeline
            &&& timeline == 0 ==> finding.reason == missing_reason
            &&& timeline != 0 ==> finding.reason == AuditReason::AccountingError
            &&& finding.first_seen_at == now
            &&& finding.last_seen_at == now
        }),
{
}

/// A finding of an increase without a turn tells where it would belong and the sum of the
/// increases there, with nothing beside it.
pub proof fn lemma_orphan_finding_has_no_turn(sample: TurnTokenSample, timeline: int, now: i64)
    requires
        i128::MIN <= timeline <= i128::MAX,
    ensures
        ({
            let finding = orphan_finding(sample, timeline, now);
            &&& finding.account_key == sample.account_key
            &&& finding.thread_id == sample.thread_id
            &&& finding.turn_id == sample.turn_id
            &&& finding.canonical_tokens == 0
            &&& finding.timeline_tokens == timeline
            &&& finding.reason == AuditReason::OrphanTimeline
            &&& finding.last_seen_at == now
        }),
{
}

/// An audit that is made anew replaces the findings of the accounts that it is for, but for
/// those on what was set aside; the findings of other accounts stay.
pub proof fn lemma_audit_keeps_other_findings(
    audits: Seq<TimelineAudit>,
    scope: Option<Seq<char>>,
    audit: TimelineAudit,
)
    ensures
        audits_kept(audits, scope).contains(audit) <==> {
            &&& audits.contains(audit)
            &&& audit.reason == AuditReason::AccountUnresolved || (scope is Some && scope->0
                != audit.account_key@)
        },
{
    let keep = is_kept_audit(scope);
    let kept = audits_kept(audits, scope);
    if kept.contains(audit) {
        let at = choose|at: int| 0 <= at < kept.len() && kept[at] == audit;
        let from = lemma_filter_member(audits, keep, at);
        assert(audits[from] == audit);
    }
    if audits.contains(audit) && keep(audit) {
        let from = choose|from: int| 0 <= from < audits.len() && audits[from] == audit;
        let at = lemma_filter_keeps(audits, keep, from);
        assert(kept[at] == audit);
    }
}

} // verus!
