//! What each category of work used in a period: a category is a model, at a reasoning effort,
//! in a speed mode.
use crate::arith::{clamp_i64, max_int, min_int, saturating_add, saturating_sub};
use crate::ledger::TurnLedger;
use crate::estimator::{CategoryEstimate, WEEK_MINS};
use crate::models::{Confidence, TurnUsageRecord};
use crate::percent::{quota_code, Percent, FULL_CODE};
use crate::quota::{resets_agree, same_reset_at, RateLimitRow, RateSample};
use crate::recorder::DailyUsageRow;
use crate::rollout::TurnTokenSample;
use crate::sorting::{sort_rows, sorted, Ranked};
use crate::table::{lemma_take_grows, sum_where};
use crate::text::{comes_before, joined, lemma_precedes_is_order, precedes, same_text, str_opt};
use vstd::prelude::*;

verus! {

/// A category of work.
#[derive(Debug)]
pub struct CategoryKey {
    pub model: String,
    pub reasoning_effort: String,
    pub speed_mode: String,
}

/// The mathematical value of a [`CategoryKey`].
#[verifier::ext_equal]
pub struct KeyView {
    pub model: Seq<char>,
    pub reasoning_effort: Seq<char>,
    pub speed_mode: Seq<char>,
}

impl View for CategoryKey {
    type V = KeyView;

    open spec fn view(&self) -> KeyView {
        KeyView {
            model: self.model@,
            reasoning_effort: self.reasoning_effort@,
            speed_mode: self.speed_mode@,
        }
    }
}

/// The order of categories: by model, then effort, then speed.
pub open spec fn key_precedes(a: KeyView, b: KeyView) -> bool {
    if a.model != b.model {
        precedes(a.model, b.model)
    } else if a.reasoning_effort != b.reasoning_effort {
        precedes(a.reasoning_effort, b.reasoning_effort)
    } else {
        precedes(a.speed_mode, b.speed_mode)
    }
}

pub proof fn lemma_key_order(a: KeyView, b: KeyView, c: KeyView)
    ensures
        key_precedes(a, b) ==> !key_precedes(b, a),
        key_precedes(a, b) && key_precedes(b, c) ==> key_precedes(a, c),
        !key_precedes(a, b) && !key_precedes(b, c) ==> !key_precedes(a, c),
        !key_precedes(a, b) && !key_precedes(b, a) ==> a == b,
{
    lemma_precedes_is_order(a.model, b.model, c.model);
    lemma_precedes_is_order(a.reasoning_effort, b.reasoning_effort, c.reasoning_effort);
    lemma_precedes_is_order(a.speed_mode, b.speed_mode, c.speed_mode);
    lemma_precedes_is_order(b.model, c.model, a.model);
    lemma_precedes_is_order(b.reasoning_effort, c.reasoning_effort, a.reasoning_effort);
    lemma_precedes_is_order(b.speed_mode, c.speed_mode, a.speed_mode);
    lemma_precedes_is_order(a.model, c.model, b.model);
    lemma_precedes_is_order(a.reasoning_effort, c.reasoning_effort, b.reasoning_effort);
    lemma_precedes_is_order(a.speed_mode, c.speed_mode, b.speed_mode);
}

impl CategoryKey {
    pub fn same(&self, other: &CategoryKey) -> (r: bool)
        ensures
            r == (self@ == other@),
    {
        same_text(self.model.as_str(), other.model.as_str()) && same_text(
            self.reasoning_effort.as_str(),
            other.reasoning_effort.as_str(),
        ) && same_text(self.speed_mode.as_str(), other.speed_mode.as_str())
    }

    pub fn is_before(&self, other: &CategoryKey) -> (r: bool)
        ensures
            r == key_precedes(self@, other@),
    {
        if !same_text(self.model.as_str(), other.model.as_str()) {
            comes_before(self.model.as_str(), other.model.as_str())
        } else if !same_text(self.reasoning_effort.as_str(), other.reasoning_effort.as_str()) {
            comes_before(self.reasoning_effort.as_str(), other.reasoning_effort.as_str())
        } else {
            comes_before(self.speed_mode.as_str(), other.speed_mode.as_str())
        }
    }

    pub fn copy_key(&self) -> (r: CategoryKey)
        ensures
            r == *self,
    {
        CategoryKey {
            model: self.model.clone(),
            reasoning_effort: self.reasoning_effort.clone(),
            speed_mode: self.speed_mode.clone(),
        }
    }
}

// ---------------------------------------------------------------------------
// The timeline of an account
// ---------------------------------------------------------------------------

/// An increase of a turn's tokens, with its category.
#[derive(Debug)]
pub struct TimelineEvent {
    pub key: CategoryKey,
    /// The model was named; where it was not, the category's model is `unknown`.
    pub named: bool,
    pub thread_id: String,
    pub turn_id: String,
    pub sampled_at: i64,
    pub delta_tokens: i64,
}

/// The mathematical value of a [`TimelineEvent`].
#[verifier::ext_equal]
pub struct EventView {
    pub key: KeyView,
    pub named: bool,
    pub thread_id: Seq<char>,
    pub turn_id: Seq<char>,
    pub sampled_at: int,
    pub delta_tokens: int,
}

impl View for TimelineEvent {
    type V = EventView;

    open spec fn view(&self) -> EventView {
        EventView {
            key: self.key@,
            named: self.named,
            thread_id: self.thread_id@,
            turn_id: self.turn_id@,
            sampled_at: self.sampled_at as int,
            delta_tokens: self.delta_tokens as int,
        }
    }
}

pub open spec fn event_views(events: Seq<TimelineEvent>) -> Seq<EventView> {
    Seq::new(events.len(), |i: int| events[i]@)
}

/// The event that a sample of the timeline is.
pub open spec fn event_of(sample: TurnTokenSample) -> EventView {
    EventView {
        key: KeyView {
            model: match sample.model {
                Some(model) => model@,
                None => "unknown"@,
            },
            reasoning_effort: sample.reasoning_effort@,
            speed_mode: sample.speed_mode@,
        },
        named: sample.model is Some,
        thread_id: sample.thread_id@,
        turn_id: sample.turn_id@,
        sampled_at: sample.sampled_at as int,
        delta_tokens: sample.delta_tokens as int,
    }
}

/// The turn that a sample belongs to is recorded.
pub open spec fn has_turn(sample: TurnTokenSample, turns: Seq<TurnUsageRecord>) -> bool {
    exists|k: int|
        0 <= k < turns.len() && (#[trigger] turns[k]).account_key@ == sample.account_key@
            && turns[k].thread_id@ == sample.thread_id@ && turns[k].turn_id@ == sample.turn_id@
}

/// The account's increases, in the order in which they were recorded. An increase without a
/// turn is left out: nothing says what it belongs to.
pub open spec fn account_events(
    samples: Seq<TurnTokenSample>,
    turns: Seq<TurnUsageRecord>,
    account_key: Seq<char>,
) -> Seq<EventView>
    decreases samples.len(),
{
    if samples.len() == 0 {
        Seq::empty()
    } else {
        let before = account_events(samples.drop_last(), turns, account_key);
        if samples.last().account_key@ == account_key && has_turn(samples.last(), turns) {
            before.push(event_of(samples.last()))
        } else {
            before
        }
    }
}

fn turn_is_recorded(sample: &TurnTokenSample, turns: &Vec<TurnUsageRecord>) -> (r: bool)
    ensures
        r == has_turn(*sample, turns@),
{
    let mut k: usize = 0;
    while k < turns.len()
        invariant
            k <= turns.len(),
            forall|j: int|
                0 <= j < k ==> !((#[trigger] turns@[j]).account_key@ == sample.account_key@
                    && turns@[j].thread_id@ == sample.thread_id@ && turns@[j].turn_id@
                    == sample.turn_id@),
        decreases turns.len() - k,
    {
        if same_text(turns[k].turn_id.as_str(), sample.turn_id.as_str()) && same_text(
            turns[k].thread_id.as_str(),
            sample.thread_id.as_str(),
        ) && same_text(turns[k].account_key.as_str(), sample.account_key.as_str()) {
            assert(turns@[k as int].account_key@ == sample.account_key@);
            return true;
        }
        k += 1;
    }
    false
}

/// The account's increases, in the order in which they were recorded.
pub fn account_timeline(ledger: &TurnLedger, account_key: &str) -> (r: Vec<TimelineEvent>)
    ensures
        event_views(r@) == account_events(ledger.samples@, ledger.turns@, account_key@),
{
    let mut r: Vec<TimelineEvent> = Vec::new();
    let ghost samples = ledger.samples@;
    let mut i: usize = 0;
    assert(samples.take(0) =~= Seq::empty());
    while i < ledger.samples.len()
        invariant
            i <= ledger.samples.len(),
            samples == ledger.samples@,
            event_views(r@) == account_events(samples.take(i as int), ledger.turns@, account_key@),
        decreases ledger.samples.len() - i,
    {
        let sample = &ledger.samples[i];
        proof {
            assert(samples.take(i + 1).drop_last() =~= samples.take(i as int));
            assert(samples.take(i + 1).last() == *sample);
        }
        if same_text(sample.account_key.as_str(), account_key) && turn_is_recorded(
            sample,
            &ledger.turns,
        ) {
            let event = TimelineEvent {
                key: CategoryKey {
                    model: match &sample.model {
                        Some(model) => model.clone(),
                        None => "unknown".to_owned(),
                    },
                    reasoning_effort: sample.reasoning_effort.clone(),
                    speed_mode: sample.speed_mode.clone(),
                },
                named: sample.model.is_some(),
                thread_id: sample.thread_id.clone(),
                turn_id: sample.turn_id.clone(),
                sampled_at: sample.sampled_at,
                delta_tokens: sample.delta_tokens,
            };
            let ghost view = event@;
            assert(view =~= event_of(*sample));
            let ghost before = event_views(r@);
            r.push(event);
            assert(event_views(r@) =~= before.push(view));
        }
        i += 1;
    }
    assert(samples.take(samples.len() as int) =~= samples);
    r
}

// ---------------------------------------------------------------------------
// Local usage of a period
// ---------------------------------------------------------------------------

/// The event belongs to the category and lies in the period. A model that was not named
/// makes a group of its own within its category.
pub open spec fn in_group(
    event: EventView,
    key: KeyView,
    named: bool,
    start: int,
    end: int,
) -> bool {
    event.key == key && event.named == named && start <= event.sampled_at < end
}

/// What a group's increases add up to.
pub open spec fn group_sum(
    events: Seq<EventView>,
    key: KeyView,
    named: bool,
    start: int,
    end: int,
) -> int
    decreases events.len(),
{
    if events.len() == 0 {
        0
    } else {
        group_sum(events.drop_last(), key, named, start, end) + if in_group(
            events.last(),
            key,
            named,
            start,
            end,
        ) {
            events.last().delta_tokens
        } else {
            0
        }
    }
}

/// By what turns are told apart when they are counted.
pub open spec fn turn_text(event: EventView) -> Seq<char> {
    event.thread_id + ":"@ + event.turn_id
}

/// The event is the first of its turn in its group.
pub open spec fn first_of_turn(
    events: Seq<EventView>,
    i: int,
    key: KeyView,
    start: int,
    end: int,
) -> bool {
    &&& in_group(events[i], key, events[i].named, start, end)
    &&& forall|j: int|
        0 <= j < i ==> !(in_group(#[trigger] events[j], key, events[i].named, start, end)
            && turn_text(events[j]) == turn_text(events[i]))
}

/// How many turns of the category there are among the first `n` events.
pub open spec fn turns_of(
    events: Seq<EventView>,
    n: int,
    key: KeyView,
    start: int,
    end: int,
) -> nat
    decreases n,
{
    if n <= 0 {
        0
    } else {
        turns_of(events, n - 1, key, start, end) + if first_of_turn(
            events,
            n - 1,
            key,
            start,
            end,
        ) {
            1nat
        } else {
            0nat
        }
    }
}

/// The tokens of a category: those of its two groups, neither counted below zero.
pub open spec fn category_tokens(
    events: Seq<EventView>,
    key: KeyView,
    start: int,
    end: int,
) -> int {
    clamp_i64(
        max_int(group_sum(events, key, true, start, end), 0) + max_int(
            group_sum(events, key, false, start, end),
            0,
        ),
    )
}

pub open spec fn fits_i64(value: int) -> bool {
    i64::MIN <= value <= i64::MAX
}

/// A category's tokens and turns in a period.
#[derive(Debug)]
pub struct LocalCategory {
    pub key: CategoryKey,
    pub tokens: i64,
    pub turn_count: usize,
}

impl Ranked for LocalCategory {
    open spec fn behind(self, other: LocalCategory) -> bool {
        key_precedes(other.key@, self.key@)
    }

    fn goes_behind(&self, other: &LocalCategory) -> (r: bool) {
        other.key.is_before(&self.key)
    }

    proof fn behind_is_order(a: LocalCategory, b: LocalCategory, c: LocalCategory) {
        lemma_key_order(c.key@, b.key@, a.key@);
        lemma_key_order(b.key@, a.key@, c.key@);
        lemma_key_order(a.key@, b.key@, c.key@);
    }
}

/// A row is what its category used in the period.
pub open spec fn is_usage(
    row: LocalCategory,
    events: Seq<EventView>,
    start: int,
    end: int,
) -> bool {
    &&& row.tokens == category_tokens(events, row.key@, start, end)
    &&& row.turn_count == turns_of(events, events.len() as int, row.key@, start, end)
}

/// An event of the period has this category.
pub open spec fn occurs(events: Seq<EventView>, n: int, key: KeyView, start: int, end: int) -> bool {
    exists|i: int|
        0 <= i < n && (#[trigger] events[i]).key == key && start <= events[i].sampled_at < end
}

/// The rows list exactly the categories that occur, each once.
pub open spec fn lists_categories(
    rows: Seq<LocalCategory>,
    events: Seq<EventView>,
    n: int,
    start: int,
    end: int,
) -> bool {
    &&& forall|k: int| 0 <= k < rows.len() ==> is_usage(#[trigger] rows[k], events, start, end)
    &&& forall|k: int|
        0 <= k < rows.len() ==> occurs(events, n, (#[trigger] rows[k]).key@, start, end)
    &&& forall|i: int|
        0 <= i < n && start <= (#[trigger] events[i]).sampled_at < end ==> row_listed(
            rows,
            events[i].key,
        )
}

pub open spec fn row_listed(rows: Seq<LocalCategory>, key: KeyView) -> bool {
    exists|k: int| 0 <= k < rows.len() && (#[trigger] rows[k]).key@ == key
}

/// Every row stands before the ones after it, and no category stands twice.
pub open spec fn strictly_by_key(rows: Seq<LocalCategory>) -> bool {
    forall|i: int, j: int|
        0 <= i < j < rows.len() ==> key_precedes(
            (#[trigger] rows[i]).key@,
            (#[trigger] rows[j]).key@,
        )
}

pub open spec fn all_tokens(rows: Seq<LocalCategory>) -> int
    decreases rows.len(),
{
    if rows.len() == 0 {
        0
    } else {
        clamp_i64(all_tokens(rows.drop_last()) + rows.last().tokens)
    }
}

/// What each category used in a period, by category, and what all used.
#[derive(Debug)]
pub struct LocalUsage {
    pub rows: Vec<LocalCategory>,
    pub total: i64,
}

/// The increases of one group are more than can be counted.
#[derive(Clone, Copy, Debug, PartialEq, Eq, Structural)]
pub struct TokenOverflow;

/// Every group of the period can be counted.
pub open spec fn countable(events: Seq<EventView>, n: int, start: int, end: int) -> bool {
    forall|i: int|
        0 <= i < n && start <= (#[trigger] events[i]).sampled_at < end ==> fits_i64(
            group_sum(events, events[i].key, true, start, end),
        ) && fits_i64(group_sum(events, events[i].key, false, start, end))
}

fn sum_group(
    events: &Vec<TimelineEvent>,
    key: &CategoryKey,
    named: bool,
    start: i64,
    end: i64,
) -> (r: i128)
    ensures
        r == group_sum(event_views(events@), key@, named, start as int, end as int),
{
    let ghost views = event_views(events@);
    let mut sum: i128 = 0;
    let mut i: usize = 0;
    assert(views.take(0) =~= Seq::empty());
    while i < events.len()
        invariant
            i <= events.len(),
            views == event_views(events@),
            sum == group_sum(views.take(i as int), key@, named, start as int, end as int),
            -(i * 0x8000_0000_0000_0000) <= sum <= i * 0x7fff_ffff_ffff_ffff,
        decreases events.len() - i,
    {
        proof {
            assert(views.take(i + 1).drop_last() =~= views.take(i as int));
            assert(views.take(i + 1).last() == events@[i as int]@);
        }
        let event = &events[i];
        if event.named == named && event.sampled_at >= start && event.sampled_at < end
            && event.key.same(key) {
            sum = sum + event.delta_tokens as i128;
        }
        i += 1;
    }
    assert(views.take(views.len() as int) =~= views);
    sum
}

fn same_turn_text(a: &TimelineEvent, b: &TimelineEvent) -> (r: bool)
    ensures
        r == (turn_text(a@) == turn_text(b@)),
{
    let mut left = a.thread_id.clone();
    left.append(":");
    left.append(a.turn_id.as_str());
    let mut right = b.thread_id.clone();
    right.append(":");
    right.append(b.turn_id.as_str());
    same_text(left.as_str(), right.as_str())
}

fn begins_turn(
    events: &Vec<TimelineEvent>,
    i: usize,
    key: &CategoryKey,
    start: i64,
    end: i64,
) -> (r: bool)
    requires
        i < events@.len(),
    ensures
        r == first_of_turn(event_views(events@), i as int, key@, start as int, end as int),
{
    let ghost views = event_views(events@);
    let event = &events[i];
    assert(views[i as int] == event@);
    if !(event.sampled_at >= start && event.sampled_at < end && event.key.same(key)) {
        return false;
    }
    let mut j: usize = 0;
    while j < i
        invariant
            j <= i < events@.len(),
            views == event_views(events@),
            *event == events@[i as int],
            forall|k: int|
                0 <= k < j ==> !(in_group(
                    #[trigger] views[k],
                    key@,
                    event.named,
                    start as int,
                    end as int,
                ) && turn_text(views[k]) == turn_text(event@)),
        decreases i - j,
    {
        let other = &events[j];
        assert(views[j as int] == other@);
        if other.named == event.named && other.sampled_at >= start && other.sampled_at < end
            && other.key.same(key) && same_turn_text(other, event) {
            return false;
        }
        j += 1;
    }
    true
}

fn count_turns(events: &Vec<TimelineEvent>, key: &CategoryKey, start: i64, end: i64) -> (r: usize)
    ensures
        r == turns_of(
            event_views(events@),
            events@.len() as int,
            key@,
            start as int,
            end as int,
        ),
{
    let mut count: usize = 0;
    let mut i: usize = 0;
    while i < events.len()
        invariant
            i <= events.len(),
            count <= i,
            count == turns_of(event_views(events@), i as int, key@, start as int, end as int),
        decreases events.len() - i,
    {
        if begins_turn(events, i, key, start, end) {
            count += 1;
        }
        i += 1;
    }
    count
}

fn find_row(rows: &Vec<LocalCategory>, key: &CategoryKey) -> (r: bool)
    ensures
        r == row_listed(rows@, key@),
{
    let mut k: usize = 0;
    while k < rows.len()
        invariant
            k <= rows.len(),
            forall|j: int| 0 <= j < k ==> (#[trigger] rows@[j]).key@ != key@,
        decreases rows.len() - k,
    {
        if rows[k].key.same(key) {
            return true;
        }
        k += 1;
    }
    false
}

/// Sorting rows that are each listed once puts them strictly in order, and keeps what they
/// list.
proof fn lemma_sorted_categories(
    rows: Seq<LocalCategory>,
    events: Seq<EventView>,
    start: int,
    end: int,
)
    requires
        lists_categories(rows, events, events.len() as int, start, end),
        forall|i: int, j: int|
            0 <= i < j < rows.len() ==> (#[trigger] rows[i]).key@ != (#[trigger] rows[j]).key@,
    ensures
        lists_categories(sorted(rows), events, events.len() as int, start, end),
        strictly_by_key(sorted(rows)),
{
    let after = sorted(rows);
    crate::sorting::lemma_sorted(rows);
    crate::sorting::lemma_sorted_apart(rows, |a: LocalCategory, b: LocalCategory| a.key@ != b.key@);
    assert forall|k: int| 0 <= k < after.len() implies is_usage(
        #[trigger] after[k],
        events,
        start,
        end,
    ) && occurs(events, events.len() as int, after[k].key@, start, end) by {
        let from = crate::sorting::lemma_sorted_member(rows, k);
        assert(rows[from] == after[k]);
    }
    assert forall|i: int|
        0 <= i < events.len() && start <= (#[trigger] events[i]).sampled_at < end implies row_listed(
        after,
        events[i].key,
    ) by {
        let k = choose|k: int| 0 <= k < rows.len() && (#[trigger] rows[k]).key@ == events[i].key;
        let to = crate::sorting::lemma_sorted_keeps(rows, k);
        assert(after[to].key@ == events[i].key);
    }
    assert forall|i: int, j: int| 0 <= i < j < after.len() implies key_precedes(
        (#[trigger] after[i]).key@,
        (#[trigger] after[j]).key@,
    ) by {
        assert(!after[i].behind(after[j]));
        assert(after[i].key@ != after[j].key@);
        lemma_key_order(after[i].key@, after[j].key@, after[j].key@);
    }
}

/// What each category used in a period. An increase counts where it was made, not where its
/// turn began.
pub fn local_category_usage(
    events: &Vec<TimelineEvent>,
    start: i64,
    end: i64,
) -> (r: Result<LocalUsage, TokenOverflow>)
    ensures
        ({
            let views = event_views(events@);
            match r {
                Ok(usage) => {
                    &&& countable(views, views.len() as int, start as int, end as int)
                    &&& lists_categories(
                        usage.rows@,
                        views,
                        views.len() as int,
                        start as int,
                        end as int,
                    )
                    &&& strictly_by_key(usage.rows@)
                    &&& usage.total == all_tokens(usage.rows@)
                },
                Err(_) => !countable(views, views.len() as int, start as int, end as int),
            }
        }),
{
    let ghost views = event_views(events@);
    let mut rows: Vec<LocalCategory> = Vec::new();
    let mut i: usize = 0;
    while i < events.len()
        invariant
            i <= events.len(),
            views == event_views(events@),
            lists_categories(rows@, views, i as int, start as int, end as int),
            countable(views, i as int, start as int, end as int),
            forall|a: int, b: int|
                0 <= a < b < rows@.len() ==> (#[trigger] rows@[a]).key@ != (#[trigger] rows@[b]).key@,
        decreases events.len() - i,
    {
        let event = &events[i];
        let ghost before = rows@;
        assert(views[i as int] == event@);
        if event.sampled_at >= start && event.sampled_at < end {
            let named: i128 = sum_group(events, &event.key, true, start, end);
            let unnamed: i128 = sum_group(events, &event.key, false, start, end);
            if named > i64::MAX as i128 || named < i64::MIN as i128 || unnamed > i64::MAX as i128
                || unnamed < i64::MIN as i128 {
                assert(!countable(views, views.len() as int, start as int, end as int));
                return Err(TokenOverflow);
            }
            if !find_row(&rows, &event.key) {
                let named: i64 = if named < 0 {
                    0
                } else {
                    named as i64
                };
                let unnamed: i64 = if unnamed < 0 {
                    0
                } else {
                    unnamed as i64
                };
                let row = LocalCategory {
                    key: event.key.copy_key(),
                    tokens: saturating_add(named, unnamed),
                    turn_count: count_turns(events, &event.key, start, end),
                };
                assert(is_usage(row, views, start as int, end as int));
                rows.push(row);
                assert(rows@[rows@.len() - 1].key@ == views[i as int].key);
            }
        }
        proof {
            assert forall|k: int| 0 <= k < rows@.len() implies occurs(
                views,
                i + 1,
                (#[trigger] rows@[k]).key@,
                start as int,
                end as int,
            ) by {
                if k < before.len() {
                    assert(before[k] == rows@[k]);
                    let at = choose|at: int|
                        0 <= at < i && (#[trigger] views[at]).key == before[k].key@ && start
                            <= views[at].sampled_at < end;
                    assert(views[at].key == rows@[k].key@);
                } else {
                    assert(views[i as int].key == rows@[k].key@);
                }
            }
            assert forall|k: int|
                0 <= k < i + 1 && start <= (#[trigger] views[k]).sampled_at < end implies row_listed(
                rows@,
                views[k].key,
            ) by {
                if k < i {
                    let at = choose|at: int|
                        0 <= at < before.len() && (#[trigger] before[at]).key@ == views[k].key;
                    assert(rows@[at].key@ == views[k].key);
                }
            }
        }
        i += 1;
    }
    proof {
        lemma_sorted_categories(rows@, views, start as int, end as int);
    }
    let rows = sort_rows(rows);
    let mut total: i64 = 0;
    let mut k: usize = 0;
    assert(rows@.take(0) =~= Seq::empty());
    while k < rows.len()
        invariant
            k <= rows.len(),
            total == all_tokens(rows@.take(k as int)),
        decreases rows.len() - k,
    {
        proof {
            assert(rows@.take(k + 1).drop_last() =~= rows@.take(k as int));
            assert(rows@.take(k + 1).last() == rows@[k as int]);
        }
        total = saturating_add(total, rows[k].tokens);
        k += 1;
    }
    assert(rows@.take(rows@.len() as int) =~= rows@);
    Ok(LocalUsage { rows, total })
}

// ---------------------------------------------------------------------------
// The weekly quota
// ---------------------------------------------------------------------------

/// How many seconds a week's quota lasts.
pub const WEEK_SECS: i64 = 604_800;

/// The account's window of the weekly quota.
#[derive(Debug)]
pub struct QuotaWindow {
    pub start: i64,
    pub end: i64,
    pub limit_id: String,
    pub window: String,
    pub used_percent: Percent,
    pub window_duration_mins: i64,
}

pub open spec fn is_weekly(row: RateLimitRow, account_key: Seq<char>) -> bool {
    row.account_key@ == account_key && row.sample.window_duration_mins == WEEK_MINS
}

/// The account's latest weekly observation among the first `n`; of several at one time, the
/// first.
pub open spec fn latest_weekly(
    rows: Seq<RateLimitRow>,
    n: int,
    account_key: Seq<char>,
) -> Option<int>
    decreases n,
{
    if n <= 0 {
        None
    } else {
        let best = latest_weekly(rows, n - 1, account_key);
        if !is_weekly(rows[n - 1], account_key) {
            best
        } else {
            match best {
                Some(at) => if rows[n - 1].sample.sampled_at > rows[at].sample.sampled_at {
                    Some(n - 1)
                } else {
                    best
                },
                None => Some(n - 1),
            }
        }
    }
}

/// What the account's latest weekly observation names.
pub open spec fn is_quota_window(
    found: Option<QuotaWindow>,
    rows: Seq<RateLimitRow>,
    account_key: Option<Seq<char>>,
) -> bool {
    match account_key {
        Some(key) => match latest_weekly(rows, rows.len() as int, key) {
            Some(at) => match (found, rows[at].sample.resets_at) {
                (Some(window), Some(resets_at)) => {
                    &&& window.end == resets_at
                    &&& window.start == clamp_i64(resets_at - WEEK_SECS)
                    &&& window.limit_id@ == rows[at].limit_id@
                    &&& window.window@ == rows[at].window@
                    &&& window.used_percent.code == quota_code(
                        rows[at].sample.used_percent.code as int,
                    )
                    &&& window.window_duration_mins == WEEK_MINS
                },
                (None, None) => true,
                _ => false,
            },
            None => found is None,
        },
        None => found is None,
    }
}

/// The window that the account's latest weekly observation names. One that does not say
/// when it resets names none: its length alone does not tell where it begins.
pub fn latest_quota_window(
    rows: &Vec<RateLimitRow>,
    account_key: Option<&str>,
) -> (r: Option<QuotaWindow>)
    ensures
        is_quota_window(r, rows@, str_opt(account_key)),
{
    let account_key = match account_key {
        Some(key) => key,
        None => {
            return None;
        },
    };
    let mut best: Option<usize> = None;
    let mut i: usize = 0;
    while i < rows.len()
        invariant
            i <= rows.len(),
            match (best, latest_weekly(rows@, i as int, account_key@)) {
                (Some(at), Some(spec_at)) => at == spec_at && at < i && is_weekly(
                    rows@[at as int],
                    account_key@,
                ),
                (None, None) => true,
                _ => false,
            },
        decreases rows.len() - i,
    {
        if rows[i].sample.window_duration_mins == WEEK_MINS && same_text(
            rows[i].account_key.as_str(),
            account_key,
        ) {
            best = match best {
                Some(at) => if rows[i].sample.sampled_at > rows[at].sample.sampled_at {
                    Some(i)
                } else {
                    Some(at)
                },
                None => Some(i),
            };
        }
        i += 1;
    }
    match best {
        Some(at) => match rows[at].sample.resets_at {
            Some(resets_at) => {
                Some(
                    QuotaWindow {
                        start: saturating_sub(resets_at, WEEK_SECS),
                        end: resets_at,
                        limit_id: rows[at].limit_id.clone(),
                        window: rows[at].window.clone(),
                        used_percent: rows[at].sample.used_percent.in_quota(),
                        window_duration_mins: WEEK_MINS,
                    },
                )
            },
            None => None,
        },
        None => None,
    }
}

/// The observations of a weekly bucket in a stretch of time, in the order in which they were
/// recorded.
pub open spec fn bucket_observations(
    rows: Seq<RateLimitRow>,
    account_key: Seq<char>,
    limit_id: Seq<char>,
    window: Seq<char>,
    from: int,
    to: int,
) -> Seq<RateSample>
    decreases rows.len(),
{
    if rows.len() == 0 {
        Seq::empty()
    } else {
        let before = bucket_observations(
            rows.drop_last(),
            account_key,
            limit_id,
            window,
            from,
            to,
        );
        let last = rows.last();
        if is_weekly(last, account_key) && last.limit_id@ == limit_id && last.window@ == window
            && from <= last.sample.sampled_at < to {
            before.push(last.sample)
        } else {
            before
        }
    }
}

/// Two observations in a row say what the day used: they are of one cycle, the later is of
/// the day, and the share did not fall.
pub open spec fn counts_for_day(
    previous: RateSample,
    current: RateSample,
    start: int,
    end: int,
) -> bool {
    &&& start <= current.sampled_at < end
    &&& current.sampled_at > previous.sampled_at
    &&& current.used_percent.code >= previous.used_percent.code
    &&& resets_agree(previous.resets_at, current.resets_at)
}

/// The places, among the first `n` observations, of those that count with the one before.
pub open spec fn counted_places(samples: Seq<RateSample>, n: int, start: int, end: int) -> Seq<int>
    decreases n,
{
    if n <= 1 {
        Seq::empty()
    } else {
        let before = counted_places(samples, n - 1, start, end);
        if counts_for_day(samples[n - 2], samples[n - 1], start, end) {
            before.push(n - 1)
        } else {
            before
        }
    }
}

pub open spec fn places(counted: Seq<usize>) -> Seq<int> {
    Seq::new(counted.len(), |i: int| counted[i] as int)
}

/// What the observations of a day say: each counted place stands for an increase from the
/// observation before.
#[derive(Debug)]
pub struct DayObservations {
    pub samples: Vec<RateSample>,
    pub counted: Vec<usize>,
}

/// How long before a day an observation may lie that the day is measured from.
pub const DAY_SECS: i64 = 86_400;

/// The observations of a weekly bucket from which the day's use is read. They reach back a
/// day before it, so that there is something to measure from.
pub fn observe_day(
    rows: &Vec<RateLimitRow>,
    account_key: &str,
    quota: &QuotaWindow,
    start: i64,
    end: i64,
) -> (r: DayObservations)
    ensures
        r.samples@ == sorted(
            bucket_observations(
                rows@,
                account_key@,
                quota.limit_id@,
                quota.window@,
                clamp_i64(start - DAY_SECS),
                end as int,
            ),
        ),
        places(r.counted@) == counted_places(
            r.samples@,
            r.samples@.len() as int,
            start as int,
            end as int,
        ),
{
    let from: i64 = saturating_sub(start, DAY_SECS);
    let mut found: Vec<RateSample> = Vec::new();
    let mut i: usize = 0;
    assert(rows@.take(0) =~= Seq::empty());
    while i < rows.len()
        invariant
            i <= rows.len(),
            found@ == bucket_observations(
                rows@.take(i as int),
                account_key@,
                quota.limit_id@,
                quota.window@,
                from as int,
                end as int,
            ),
        decreases rows.len() - i,
    {
        proof {
            assert(rows@.take(i + 1).drop_last() =~= rows@.take(i as int));
            assert(rows@.take(i + 1).last() == rows@[i as int]);
        }
        let row = &rows[i];
        if row.sample.window_duration_mins == WEEK_MINS && row.sample.sampled_at >= from
            && row.sample.sampled_at < end && same_text(row.account_key.as_str(), account_key)
            && same_text(row.limit_id.as_str(), quota.limit_id.as_str()) && same_text(
            row.window.as_str(),
            quota.window.as_str(),
        ) {
            found.push(row.sample);
        }
        i += 1;
    }
    assert(rows@.take(rows@.len() as int) =~= rows@);
    let samples = sort_rows(found);
    let mut counted: Vec<usize> = Vec::new();
    let mut k: usize = 1;
    assert(places(counted@) =~= Seq::empty());
    while k < samples.len()
        invariant
            1 <= k,
            k <= samples.len() || samples.len() == 0,
            places(counted@) == counted_places(
                samples@,
                if samples@.len() == 0 {
                    0
                } else {
                    k as int
                },
                start as int,
                end as int,
            ),
        decreases samples.len() - k,
    {
        let previous = samples[k - 1];
        let current = samples[k];
        if current.sampled_at >= start && current.sampled_at < end && current.sampled_at
            > previous.sampled_at && current.used_percent.code >= previous.used_percent.code
            && same_reset_at(previous.resets_at, current.resets_at) {
            let ghost before = places(counted@);
            counted.push(k);
            assert(places(counted@) =~= before.push(k as int));
        }
        k += 1;
    }
    DayObservations { samples, counted }
}

/// What is said of a quantity: that it was observed, or that too little was.
#[derive(Clone, Copy, Debug, PartialEq, Eq, Structural)]
pub enum UsageStatus {
    Observed,
    Estimated,
    InsufficientData,
}

impl UsageStatus {
    pub open spec fn name(self) -> Seq<char> {
        match self {
            UsageStatus::Observed => "observed"@,
            UsageStatus::Estimated => "estimated"@,
            UsageStatus::InsufficientData => "insufficient_data"@,
        }
    }

    pub fn as_str(self) -> (r: &'static str)
        ensures
            r@ == self.name(),
    {
        match self {
            UsageStatus::Observed => "observed",
            UsageStatus::Estimated => "estimated",
            UsageStatus::InsufficientData => "insufficient_data",
        }
    }
}

/// What is said of the quota that a day used, apart from how much it was.
#[derive(Clone, Copy, Debug, PartialEq, Eq, Structural)]
pub struct QuotaMetric {
    pub status: UsageStatus,
    pub sample_count: usize,
    pub confidence: Confidence,
}

pub open spec fn quota_metric(sample_count: usize) -> QuotaMetric {
    if sample_count == 0 {
        QuotaMetric {
            status: UsageStatus::InsufficientData,
            sample_count: 0,
            confidence: Confidence::Low,
        }
    } else {
        QuotaMetric {
            status: UsageStatus::Observed,
            sample_count,
            confidence: if sample_count >= 3 {
                Confidence::High
            } else {
                Confidence::Medium
            },
        }
    }
}

pub fn insufficient_quota_metric() -> (r: QuotaMetric)
    ensures
        r == quota_metric(0),
{
    QuotaMetric {
        status: UsageStatus::InsufficientData,
        sample_count: 0,
        confidence: Confidence::Low,
    }
}

/// What is said of the quota that a day used: nothing without an account or a window.
pub fn daily_quota_usage(observations: Option<&DayObservations>) -> (r: QuotaMetric)
    ensures
        r == match observations {
            Some(seen) => quota_metric(seen.counted@.len() as usize),
            None => quota_metric(0),
        },
{
    match observations {
        Some(seen) => {
            let sample_count: usize = seen.counted.len();
            if sample_count == 0 {
                insufficient_quota_metric()
            } else {
                QuotaMetric {
                    status: UsageStatus::Observed,
                    sample_count,
                    confidence: if sample_count >= 3 {
                        Confidence::High
                    } else {
                        Confidence::Medium
                    },
                }
            }
        },
        None => insufficient_quota_metric(),
    }
}

// ---------------------------------------------------------------------------
// What the server says
// ---------------------------------------------------------------------------

/// What the server said a thread had used in a category, in millionths of a credit.
#[derive(Debug)]
pub struct ServerSample {
    pub account_key: String,
    pub thread_id: String,
    pub sampled_at: i64,
    pub key: CategoryKey,
    pub credits_micros: i64,
}

/// The sample `j` comes before the sample `i` of the same thread and category.
pub open spec fn server_earlier(rows: Seq<ServerSample>, j: int, i: int) -> bool {
    &&& rows[j].account_key@ == rows[i].account_key@
    &&& rows[j].thread_id@ == rows[i].thread_id@
    &&& rows[j].key@ == rows[i].key@
    &&& rows[j].sampled_at < rows[i].sampled_at || (rows[j].sampled_at == rows[i].sampled_at && j
        < i)
}

/// The last sample before the sample `i` of its thread and category, among the first `n`.
pub open spec fn server_previous(rows: Seq<ServerSample>, i: int, n: int) -> Option<int>
    decreases n,
{
    if n <= 0 {
        None
    } else {
        let best = server_previous(rows, i, n - 1);
        if !server_earlier(rows, n - 1, i) {
            best
        } else {
            match best {
                Some(at) => if rows[n - 1].sampled_at >= rows[at].sampled_at {
                    Some(n - 1)
                } else {
                    best
                },
                None => Some(n - 1),
            }
        }
    }
}

/// What a sample adds to the one before. A fall is a correction or a new count, and all of
/// it was used.
pub open spec fn server_delta(previous: int, credits: int) -> int {
    let previous = max_int(previous, 0);
    if credits >= previous {
        credits - previous
    } else {
        max_int(credits, 0)
    }
}

/// The sample is of the account and the category, in the period, and has one before it.
pub open spec fn server_counts(
    rows: Seq<ServerSample>,
    i: int,
    account_key: Seq<char>,
    key: KeyView,
    start: int,
    end: int,
) -> bool {
    &&& rows[i].account_key@ == account_key
    &&& rows[i].key@ == key
    &&& start <= rows[i].sampled_at < end
    &&& server_previous(rows, i, rows.len() as int) is Some
}

/// What the server says a category used, by the first `n` samples.
pub open spec fn server_usage(
    rows: Seq<ServerSample>,
    n: int,
    account_key: Seq<char>,
    key: KeyView,
    start: int,
    end: int,
) -> Option<int>
    decreases n,
{
    if n <= 0 {
        None
    } else {
        let before = server_usage(rows, n - 1, account_key, key, start, end);
        if server_counts(rows, n - 1, account_key, key, start, end) {
            let previous = server_previous(rows, n - 1, rows.len() as int)->0;
            let sum = match before {
                Some(sum) => sum,
                None => 0,
            };
            Some(
                clamp_i64(
                    sum + server_delta(
                        rows[previous].credits_micros as int,
                        rows[n - 1].credits_micros as int,
                    ),
                ),
            )
        } else {
            before
        }
    }
}

fn find_server_previous(rows: &Vec<ServerSample>, i: usize) -> (r: Option<usize>)
    requires
        i < rows@.len(),
    ensures
        match (r, server_previous(rows@, i as int, rows@.len() as int)) {
            (Some(at), Some(spec_at)) => at == spec_at && at < rows@.len(),
            (None, None) => true,
            _ => false,
        },
{
    let mut best: Option<usize> = None;
    let mut j: usize = 0;
    while j < rows.len()
        invariant
            j <= rows.len(),
            i < rows@.len(),
            match (best, server_previous(rows@, i as int, j as int)) {
                (Some(at), Some(spec_at)) => at == spec_at && at < j,
                (None, None) => true,
                _ => false,
            },
        decreases rows.len() - j,
    {
        let earlier = rows[j].sampled_at < rows[i].sampled_at || (rows[j].sampled_at
            == rows[i].sampled_at && j < i);
        if earlier && same_text(rows[j].thread_id.as_str(), rows[i].thread_id.as_str())
            && rows[j].key.same(&rows[i].key) && same_text(
            rows[j].account_key.as_str(),
            rows[i].account_key.as_str(),
        ) {
            best = match best {
                Some(at) => if rows[j].sampled_at >= rows[at].sampled_at {
                    Some(j)
                } else {
                    Some(at)
                },
                None => Some(j),
            };
        }
        j += 1;
    }
    best
}

/// What the server says a category of the account used in a period, where it says so.
pub fn server_category_delta(
    rows: &Vec<ServerSample>,
    account_key: &str,
    key: &CategoryKey,
    start: i64,
    end: i64,
) -> (r: Option<i64>)
    ensures
        match (
            r,
            server_usage(
                rows@,
                rows@.len() as int,
                account_key@,
                key@,
                start as int,
                end as int,
            ),
        ) {
            (Some(found), Some(sum)) => found == sum,
            (None, None) => true,
            _ => false,
        },
{
    let mut sum: Option<i64> = None;
    let mut i: usize = 0;
    while i < rows.len()
        invariant
            i <= rows.len(),
            match (
                sum,
                server_usage(
                    rows@,
                    i as int,
                    account_key@,
                    key@,
                    start as int,
                    end as int,
                ),
            ) {
                (Some(found), Some(sum)) => found == sum,
                (None, None) => true,
                _ => false,
            },
        decreases rows.len() - i,
    {
        if rows[i].sampled_at >= start && rows[i].sampled_at < end && rows[i].key.same(key)
            && same_text(rows[i].account_key.as_str(), account_key) {
            if let Some(at) = find_server_previous(rows, i) {
                let previous: i64 = rows[at].credits_micros.max(0);
                let credits: i64 = rows[i].credits_micros;
                let delta: i64 = if credits >= previous {
                    credits - previous
                } else {
                    credits.max(0)
                };
                let so_far: i64 = match sum {
                    Some(sum) => sum,
                    None => 0,
                };
                sum = Some(saturating_add(so_far, delta));
            }
        }
        i += 1;
    }
    sum
}

/// The server's increase is never negative.
pub proof fn lemma_server_delta_is_nonnegative(previous: int, credits: int)
    ensures
        server_delta(previous, credits) >= 0,
{
}

/// Whether the server tells what a thread used.
#[derive(Clone, Copy, Debug, PartialEq, Eq, Structural)]
pub enum Capability {
    Available,
    Unavailable,
    Syncing,
}

impl Capability {
    pub open spec fn name(self) -> Seq<char> {
        match self {
            Capability::Available => "available"@,
            Capability::Unavailable => "unavailable"@,
            Capability::Syncing => "syncing"@,
        }
    }

    pub fn as_str(self) -> (r: &'static str)
        ensures
            r@ == self.name(),
    {
        match self {
            Capability::Available => "available",
            Capability::Unavailable => "unavailable",
            Capability::Syncing => "syncing",
        }
    }
}

#[derive(Debug)]
pub struct ThreadCapability {
    pub account_key: String,
    pub capability: String,
}

/// A thread of the account has this capability.
pub open spec fn some_thread(
    rows: Seq<ThreadCapability>,
    account_key: Seq<char>,
    capability: Seq<char>,
) -> bool {
    exists|i: int|
        0 <= i < rows.len() && (#[trigger] rows[i]).account_key@ == account_key
            && rows[i].capability@ == capability
}

fn has_thread(rows: &Vec<ThreadCapability>, account_key: &str, capability: &str) -> (r: bool)
    ensures
        r == some_thread(rows@, account_key@, capability@),
{
    let mut i: usize = 0;
    while i < rows.len()
        invariant
            i <= rows.len(),
            forall|k: int|
                0 <= k < i ==> !((#[trigger] rows@[k]).account_key@ == account_key@
                    && rows@[k].capability@ == capability@),
        decreases rows.len() - i,
    {
        if same_text(rows[i].account_key.as_str(), account_key) && same_text(
            rows[i].capability.as_str(),
            capability,
        ) {
            return true;
        }
        i += 1;
    }
    false
}

pub open spec fn account_capability(
    rows: Seq<ThreadCapability>,
    account_key: Option<Seq<char>>,
) -> Capability {
    match account_key {
        Some(key) => if some_thread(rows, key, "available"@) {
            Capability::Available
        } else if some_thread(rows, key, "unavailable"@) {
            Capability::Unavailable
        } else {
            Capability::Syncing
        },
        None => Capability::Syncing,
    }
}

pub fn server_capability(
    rows: &Vec<ThreadCapability>,
    account_key: Option<&str>,
) -> (r: Capability)
    ensures
        r == account_capability(rows@, str_opt(account_key)),
{
    match account_key {
        Some(key) => if has_thread(rows, key, "available") {
            Capability::Available
        } else if has_thread(rows, key, "unavailable") {
            Capability::Unavailable
        } else {
            Capability::Syncing
        },
        None => Capability::Syncing,
    }
}

/// The row is of the account and of one of the dates.
pub open spec fn official_counts(
    row: DailyUsageRow,
    account_key: Seq<char>,
    from: Seq<char>,
    to: Seq<char>,
) -> bool {
    row.account_key@ == account_key && !precedes(row.date@, from) && !precedes(to, row.date@)
}

/// What the official counts of the dates add up to, where there are any.
pub open spec fn official_sum(
    rows: Seq<DailyUsageRow>,
    account_key: Seq<char>,
    from: Seq<char>,
    to: Seq<char>,
) -> Option<int>
    decreases rows.len(),
{
    if rows.len() == 0 {
        None
    } else {
        let before = official_sum(rows.drop_last(), account_key, from, to);
        if official_counts(rows.last(), account_key, from, to) {
            Some(
                match before {
                    Some(sum) => sum + rows.last().official_tokens,
                    None => rows.last().official_tokens as int,
                },
            )
        } else {
            before
        }
    }
}

/// The official count of an account from one date to another.
pub fn official_tokens(
    rows: &Vec<DailyUsageRow>,
    account_key: Option<&str>,
    from: &str,
    to: &str,
) -> (r: Result<Option<i64>, TokenOverflow>)
    ensures
        match account_key {
            Some(key) => match official_sum(rows@, key@, from@, to@) {
                Some(sum) => if fits_i64(sum) {
                    r == Ok::<Option<i64>, TokenOverflow>(Some(max_int(sum, 0) as i64))
                } else {
                    r is Err
                },
                None => r == Ok::<Option<i64>, TokenOverflow>(None),
            },
            None => r == Ok::<Option<i64>, TokenOverflow>(None),
        },
{
    let account_key = match account_key {
        Some(key) => key,
        None => {
            return Ok(None);
        },
    };
    let mut sum: Option<i128> = None;
    let mut i: usize = 0;
    assert(rows@.take(0) =~= Seq::empty());
    while i < rows.len()
        invariant
            i <= rows.len(),
            match (sum, official_sum(rows@.take(i as int), account_key@, from@, to@)) {
                (Some(found), Some(sum)) => {
                    &&& found == sum
                    &&& -(i * 0x8000_0000_0000_0000) <= found <= i * 0x7fff_ffff_ffff_ffff
                },
                (None, None) => true,
                _ => false,
            },
        decreases rows.len() - i,
    {
        proof {
            assert(rows@.take(i + 1).drop_last() =~= rows@.take(i as int));
            assert(rows@.take(i + 1).last() == rows@[i as int]);
        }
        let row = &rows[i];
        if same_text(row.account_key.as_str(), account_key) && !comes_before(
            row.date.as_str(),
            from,
        ) && !comes_before(to, row.date.as_str()) {
            sum = Some(
                match sum {
                    Some(sum) => sum + row.official_tokens as i128,
                    None => row.official_tokens as i128,
                },
            );
        }
        i += 1;
    }
    assert(rows@.take(rows@.len() as int) =~= rows@);
    match sum {
        Some(sum) => if sum > i64::MAX as i128 || sum < i64::MIN as i128 {
            Err(TokenOverflow)
        } else if sum < 0 {
            Ok(Some(0))
        } else {
            Ok(Some(sum as i64))
        },
        None => Ok(None),
    }
}

// ---------------------------------------------------------------------------
// The view of a period
// ---------------------------------------------------------------------------

#[derive(Clone, Copy, Debug, PartialEq, Eq, Structural)]
pub enum PeriodKind {
    Day,
    QuotaWeek,
}

/// From where the bounds of a period are known.
#[derive(Clone, Copy, Debug, PartialEq, Eq, Structural)]
pub enum PeriodSource {
    LocalDay,
    QuotaWindow,
    InsufficientData,
}

impl PeriodSource {
    pub open spec fn name(self) -> Seq<char> {
        match self {
            PeriodSource::LocalDay => "local_day"@,
            PeriodSource::QuotaWindow => "quota_window"@,
            PeriodSource::InsufficientData => "insufficient_data"@,
        }
    }

    pub fn as_str(self) -> (r: &'static str)
        ensures
            r@ == self.name(),
    {
        match self {
            PeriodSource::LocalDay => "local_day",
            PeriodSource::QuotaWindow => "quota_window",
            PeriodSource::InsufficientData => "insufficient_data",
        }
    }
}

#[derive(Debug)]
pub struct Period {
    pub kind: PeriodKind,
    pub source: PeriodSource,
    pub start: i64,
    pub end: i64,
    pub quota_window: Option<QuotaWindow>,
}

/// The period of a name. The weekly view is that of the account's quota window; without one
/// it is empty, and no other week takes its place.
pub fn resolve_period(
    period: &str,
    day: (i64, i64),
    window: Option<QuotaWindow>,
    now: i64,
) -> (r: Result<Period, String>)
    ensures
        match r {
            Ok(found) => if period@ == "day"@ {
                &&& found.kind == PeriodKind::Day
                &&& found.source == PeriodSource::LocalDay
                &&& (found.start, found.end) == day
                &&& found.quota_window is None
            } else {
                &&& period@ == "quota_week"@
                &&& found.kind == PeriodKind::QuotaWeek
                &&& found.quota_window == window
                &&& match window {
                    Some(window) => {
                        &&& found.source == PeriodSource::QuotaWindow
                        &&& found.start == window.start
                        &&& found.end == window.end
                    },
                    None => {
                        &&& found.source == PeriodSource::InsufficientData
                        &&& found.start == now
                        &&& found.end == now
                    },
                }
            },
            Err(message) => {
                &&& period@ != "day"@
                &&& period@ != "quota_week"@
                &&& message@ == "Unknown usage period: "@ + period@
            },
        },
{
    if same_text(period, "day") {
        Ok(
            Period {
                kind: PeriodKind::Day,
                source: PeriodSource::LocalDay,
                start: day.0,
                end: day.1,
                quota_window: None,
            },
        )
    } else if same_text(period, "quota_week") {
        match window {
            Some(window) => Ok(
                Period {
                    kind: PeriodKind::QuotaWeek,
                    source: PeriodSource::QuotaWindow,
                    start: window.start,
                    end: window.end,
                    quota_window: Some(window),
                },
            ),
            None => Ok(
                Period {
                    kind: PeriodKind::QuotaWeek,
                    source: PeriodSource::InsufficientData,
                    start: now,
                    end: now,
                    quota_window: None,
                },
            ),
        }
    } else {
        Err(joined("Unknown usage period: ", period))
    }
}

/// What is shown of a category.
#[derive(Debug)]
pub struct CategoryUsageItem {
    pub key: CategoryKey,
    pub fast: bool,
    pub turn_count: usize,
    pub tokens: i64,
    /// What the server says was used, where it says so.
    pub server_credits_micros: Option<i64>,
    pub weekly_estimate: Option<CategoryEstimate>,
}

impl Ranked for CategoryUsageItem {
    open spec fn behind(self, other: CategoryUsageItem) -> bool {
        self.tokens < other.tokens || (self.tokens == other.tokens && key_precedes(
            other.key@,
            self.key@,
        ))
    }

    fn goes_behind(&self, other: &CategoryUsageItem) -> (r: bool) {
        self.tokens < other.tokens || (self.tokens == other.tokens && other.key.is_before(
            &self.key,
        ))
    }

    proof fn behind_is_order(a: CategoryUsageItem, b: CategoryUsageItem, c: CategoryUsageItem) {
        lemma_key_order(c.key@, b.key@, a.key@);
        lemma_key_order(b.key@, a.key@, c.key@);
        lemma_key_order(a.key@, b.key@, c.key@);
    }
}

pub open spec fn found_server_usage(
    server: Seq<ServerSample>,
    account_key: Option<Seq<char>>,
    key: KeyView,
    start: int,
    end: int,
) -> Option<i64> {
    match account_key {
        Some(account) => match server_usage(
            server,
            server.len() as int,
            account,
            key,
            start,
            end,
        ) {
            Some(sum) => Some(sum as i64),
            None => None,
        },
        None => None,
    }
}

/// What is shown of a category, given what it used and what is estimated of it.
pub open spec fn item_of(
    row: LocalCategory,
    estimate: Option<CategoryEstimate>,
    server: Seq<ServerSample>,
    account_key: Option<Seq<char>>,
    start: int,
    end: int,
) -> CategoryUsageItem {
    CategoryUsageItem {
        key: row.key,
        fast: row.key.speed_mode@ == "fast_requested"@,
        turn_count: row.turn_count,
        tokens: row.tokens,
        server_credits_micros: found_server_usage(server, account_key, row.key@, start, end),
        weekly_estimate: estimate,
    }
}

/// What is shown of each category that was used locally. What only the server knows of makes
/// no category.
pub open spec fn items_of(
    rows: Seq<LocalCategory>,
    estimates: Seq<CategoryEstimate>,
    server: Seq<ServerSample>,
    account_key: Option<Seq<char>>,
    start: int,
    end: int,
) -> Seq<CategoryUsageItem> {
    Seq::new(
        rows.len(),
        |i: int|
            item_of(
                rows[i],
                if i < estimates.len() {
                    Some(estimates[i])
                } else {
                    None
                },
                server,
                account_key,
                start,
                end,
            ),
    )
}

pub open spec fn turns_shown(rows: Seq<LocalCategory>) -> int
    decreases rows.len(),
{
    if rows.len() == 0 {
        0
    } else {
        turns_shown(rows.drop_last()) + rows.last().turn_count
    }
}

fn count_shown(rows: &Vec<LocalCategory>) -> (r: u128)
    ensures
        r == turns_shown(rows@),
{
    let mut sum: u128 = 0;
    let mut i: usize = 0;
    assert(rows@.take(0) =~= Seq::empty());
    while i < rows.len()
        invariant
            i <= rows.len(),
            sum == turns_shown(rows@.take(i as int)),
            sum <= i * 0xffff_ffff_ffff_ffff,
        decreases rows.len() - i,
    {
        proof {
            assert(rows@.take(i + 1).drop_last() =~= rows@.take(i as int));
            assert(rows@.take(i + 1).last() == rows@[i as int]);
        }
        sum = sum + rows[i].turn_count as u128;
        i += 1;
    }
    assert(rows@.take(rows@.len() as int) =~= rows@);
    sum
}

/// What is shown of a period.
#[derive(Debug)]
pub struct CategoryUsage {
    pub period: Period,
    pub official_tokens: Option<i64>,
    pub local_tokens: i64,
    pub turn_count: u128,
    /// How sure the local count is.
    pub token_confidence: Confidence,
    pub server_usage_capability: Capability,
    pub categories: Vec<CategoryUsageItem>,
}

/// Puts together what is shown of a period: the categories that were used, the most used
/// first.
pub fn category_usage(
    period: Period,
    local: LocalUsage,
    estimates: Vec<CategoryEstimate>,
    account_key: Option<&str>,
    server: &Vec<ServerSample>,
    capabilities: &Vec<ThreadCapability>,
    official: Option<i64>,
) -> (r: CategoryUsage)
    ensures
        r.period == period,
        r.official_tokens == official,
        r.local_tokens == local.total,
        r.turn_count == turns_shown(local.rows@),
        r.token_confidence == if local.total > 0 {
            Confidence::High
        } else {
            Confidence::Unknown
        },
        r.server_usage_capability == account_capability(capabilities@, str_opt(account_key)),
        r.categories@ == sorted(
            items_of(
                local.rows@,
                estimates@,
                server@,
                str_opt(account_key),
                period.start as int,
                period.end as int,
            ),
        ),
{
    let turn_count: u128 = count_shown(&local.rows);
    let total: i64 = local.total;
    let start: i64 = period.start;
    let end: i64 = period.end;
    let ghost rows = local.rows@;
    let ghost given = estimates@;
    let ghost wanted = items_of(
        rows,
        given,
        server@,
        str_opt(account_key),
        start as int,
        end as int,
    );
    let mut estimates = estimates;
    let mut rest: Vec<CategoryEstimate> = Vec::new();
    while estimates.len() > 0
        invariant
            estimates@ + rest@.reverse() =~= given,
        decreases estimates.len(),
    {
        let ghost before = estimates@;
        let ghost turned = rest@;
        if let Some(last) = estimates.pop() {
            rest.push(last);
            assert(rest@.reverse() =~= seq![last] + turned.reverse());
            assert(before =~= estimates@ + seq![last]);
        }
    }
    assert(rest@.reverse() =~= given);
    let mut items: Vec<CategoryUsageItem> = Vec::new();
    for row in iter: local.rows
        invariant
            iter.seq() == rows,
            items@.len() == iter.index(),
            wanted == items_of(
                rows,
                given,
                server@,
                str_opt(account_key),
                start as int,
                end as int,
            ),
            rest@.reverse() =~= given.skip(
                if iter.index() <= given.len() {
                    iter.index()
                } else {
                    given.len() as int
                },
            ),
            forall|k: int| 0 <= k < items@.len() ==> #[trigger] items@[k] == wanted[k],
    {
        let server_credits_micros = match account_key {
            Some(account) => server_category_delta(server, account, &row.key, start, end),
            None => None,
        };
        let ghost left = rest@;
        let ghost at = iter.index();
        let weekly_estimate = rest.pop();
        proof {
            if at < given.len() {
                assert(left.reverse() == given.skip(at));
                assert(left.reverse().len() == given.skip(at).len());
                assert(left.len() == given.len() - at);
                assert(left.reverse()[0] == given.skip(at)[0]);
                assert(left.last() == given[at]);
                assert(rest@.reverse() =~= left.reverse().drop_first());
                assert(given.skip(at).drop_first() =~= given.skip(at + 1));
            } else {
                assert(left.reverse().len() == 0);
            }
        }
        let fast = same_text(row.key.speed_mode.as_str(), "fast_requested");
        let item = CategoryUsageItem {
            fast,
            turn_count: row.turn_count,
            tokens: row.tokens,
            server_credits_micros,
            weekly_estimate,
            key: row.key,
        };
        assert(item == wanted[at]);
        items.push(item);
    }
    assert(items@ =~= wanted);
    CategoryUsage {
        period,
        official_tokens: official,
        local_tokens: total,
        turn_count,
        token_confidence: if total > 0 {
            Confidence::High
        } else {
            Confidence::Unknown
        },
        server_usage_capability: server_capability(capabilities, account_key),
        categories: sort_rows(items),
    }
}

// ---------------------------------------------------------------------------
// The window that is shown
// ---------------------------------------------------------------------------

/// The row observes the account's quota of a week.
pub open spec fn is_week_of(row: RateLimitRow, account_key: Seq<char>) -> bool {
    row.account_key@ == account_key && row.sample.window_duration_mins == 7 * 24 * 60
}

/// The window is the one that the row names: it ends at the row's reset and begins a week
/// before, under the row's limit and window, with the row's used share.
pub open spec fn is_named_by(window: QuotaWindow, row: RateLimitRow) -> bool {
    &&& row.sample.resets_at == Some(window.end)
    &&& window.end - 604_800 >= i64::MIN ==> window.start == window.end - 604_800
    &&& window.end - 604_800 < i64::MIN ==> window.start == i64::MIN
    &&& window.limit_id@ == row.limit_id@
    &&& window.window@ == row.window@
    &&& window.window_duration_mins == row.sample.window_duration_mins
    &&& 0 <= row.sample.used_percent.code <= FULL_CODE ==> window.used_percent
        == row.sample.used_percent
    &&& row.sample.used_percent.code < 0 ==> window.used_percent.code == 0
    &&& row.sample.used_percent.code > FULL_CODE ==> window.used_percent.code == FULL_CODE
}

/// Where a window is found for an account, a weekly row with that account's key names it, and
/// no weekly row of that account is later. Where none is found, the account has no weekly
/// row, or the latest one does not say when it resets.
pub proof fn lemma_window_is_the_accounts_latest(
    window: Option<QuotaWindow>,
    rows: Seq<RateLimitRow>,
    account_key: Option<Seq<char>>,
)
    requires
        is_quota_window(window, rows, account_key),
    ensures
        account_key is None ==> window is None,
        window matches Some(window) ==> exists|at: int|
            {
                &&& 0 <= at < rows.len()
                &&& is_week_of(#[trigger] rows[at], account_key->0)
                &&& is_named_by(window, rows[at])
                &&& forall|k: int|
                    0 <= k < rows.len() && is_week_of(#[trigger] rows[k], account_key->0)
                        ==> rows[k].sample.sampled_at <= rows[at].sample.sampled_at
            },
        account_key matches Some(key) ==> (window is None ==> {
            ||| forall|k: int| 0 <= k < rows.len() ==> !is_week_of(#[trigger] rows[k], key)
            ||| exists|at: int|
                {
                    &&& 0 <= at < rows.len()
                    &&& is_week_of(#[trigger] rows[at], key)
                    &&& rows[at].sample.resets_at is None
                    &&& forall|k: int|
                        0 <= k < rows.len() && is_week_of(#[trigger] rows[k], key)
                            ==> rows[k].sample.sampled_at <= rows[at].sample.sampled_at
                }
        }),
{
    match account_key {
        Some(key) => {
            lemma_weekly_is_the_latest(rows, rows.len() as int, key);
            match latest_weekly(rows, rows.len() as int, key) {
                Some(at) => {
                    assert(is_week_of(rows[at], key));
                    match window {
                        Some(window) => {
                            assert(is_named_by(window, rows[at]));
                        },
                        None => {},
                    }
                },
                None => {},
            }
        },
        None => {},
    }
}

proof fn lemma_weekly_is_the_latest(rows: Seq<RateLimitRow>, n: int, account_key: Seq<char>)
    requires
        0 <= n <= rows.len(),
    ensures
        match latest_weekly(rows, n, account_key) {
            Some(at) => {
                &&& 0 <= at < n
                &&& is_week_of(rows[at], account_key)
                &&& forall|k: int|
                    0 <= k < n && is_week_of(#[trigger] rows[k], account_key)
                        ==> rows[k].sample.sampled_at <= rows[at].sample.sampled_at
            },
            None => forall|k: int| 0 <= k < n ==> !is_week_of(#[trigger] rows[k], account_key),
        },
    decreases n,
{
    if n > 0 {
        lemma_weekly_is_the_latest(rows, n - 1, account_key);
        assert(is_week_of(rows[n - 1], account_key) == is_weekly(rows[n - 1], account_key));
    }
}

proof fn lemma_weekly_without(
    rows: Seq<RateLimitRow>,
    at: int,
    other: RateLimitRow,
    account_key: Seq<char>,
    n: int,
)
    requires
        0 <= at <= rows.len(),
        0 <= n <= rows.len(),
        !is_week_of(other, account_key),
    ensures
        ({
            let more = rows.insert(at, other);
            let shifted = match latest_weekly(rows, n, account_key) {
                Some(found) => if found < at {
                    Some(found)
                } else {
                    Some(found + 1)
                },
                None => None,
            };
            &&& n <= at ==> latest_weekly(more, n, account_key) == latest_weekly(
                rows,
                n,
                account_key,
            )
            &&& n >= at ==> latest_weekly(more, n + 1, account_key) == shifted
        }),
    decreases n,
{
    let more = rows.insert(at, other);
    lemma_weekly_is_the_latest(rows, n, account_key);
    if n > 0 {
        lemma_weekly_without(rows, at, other, account_key, n - 1);
        lemma_weekly_is_the_latest(rows, n - 1, account_key);
        if n <= at {
            assert(more[n - 1] == rows[n - 1]);
        } else {
            assert(more[n] == rows[n - 1]);
        }
        match latest_weekly(rows, n - 1, account_key) {
            Some(found) => {
                if found < at {
                    assert(more[found] == rows[found]);
                } else {
                    assert(more[found + 1] == rows[found]);
                }
            },
            None => {},
        }
    }
    if n == at {
        assert(more[n] == other);
    }
}

/// The two windows say the same.
pub open spec fn same_window(left: Option<QuotaWindow>, right: Option<QuotaWindow>) -> bool {
    match (left, right) {
        (Some(left), Some(right)) => {
            &&& left.start == right.start
            &&& left.end == right.end
            &&& left.limit_id@ == right.limit_id@
            &&& left.window@ == right.window@
            &&& left.used_percent == right.used_percent
            &&& left.window_duration_mins == right.window_duration_mins
        },
        (None, None) => true,
        _ => false,
    }
}

/// Rows of other accounts, and rows of other windows than the weekly ones, make no difference
/// to the window that is found for an account.
pub proof fn lemma_window_is_of_the_account(
    before: Option<QuotaWindow>,
    after: Option<QuotaWindow>,
    rows: Seq<RateLimitRow>,
    at: int,
    other: RateLimitRow,
    account_key: Seq<char>,
)
    requires
        0 <= at <= rows.len(),
        other.account_key@ != account_key || other.sample.window_duration_mins != 7 * 24 * 60,
        is_quota_window(before, rows, Some(account_key)),
        is_quota_window(after, rows.insert(at, other), Some(account_key)),
    ensures
        same_window(before, after),
{
    let more = rows.insert(at, other);
    lemma_weekly_without(rows, at, other, account_key, rows.len() as int);
    lemma_weekly_is_the_latest(rows, rows.len() as int, account_key);
    match latest_weekly(rows, rows.len() as int, account_key) {
        Some(found) => {
            if found < at {
                assert(more[found] == rows[found]);
            } else {
                assert(more[found + 1] == rows[found]);
            }
        },
        None => {},
    }
}

// ---------------------------------------------------------------------------
// What a period adds up to
// ---------------------------------------------------------------------------

/// The increases of an account are its samples whose turn is recorded, one for one and in
/// their order; each keeps its category, its turn, its time and its tokens.
pub proof fn lemma_events_are_samples(
    samples: Seq<TurnTokenSample>,
    turns: Seq<TurnUsageRecord>,
    account_key: Seq<char>,
) -> (from: Seq<int>)
    ensures
        ({
            let events = account_events(samples, turns, account_key);
            &&& from.len() == events.len()
            &&& forall|e: int|
                0 <= e < from.len() ==> {
                    let sample = samples[#[trigger] from[e]];
                    &&& 0 <= from[e] < samples.len()
                    &&& sample.account_key@ == account_key
                    &&& is_recorded(sample, turns)
                    &&& sample.model matches Some(model) ==> events[e].key.model == model@
                    &&& sample.model is None ==> events[e].key.model == "unknown"@
                    &&& events[e].named == sample.model is Some
                    &&& events[e].key.reasoning_effort == sample.reasoning_effort@
                    &&& events[e].key.speed_mode == sample.speed_mode@
                    &&& events[e].thread_id == sample.thread_id@
                    &&& events[e].turn_id == sample.turn_id@
                    &&& events[e].sampled_at == sample.sampled_at
                    &&& events[e].delta_tokens == sample.delta_tokens
                }
            &&& forall|d: int, e: int| 0 <= d < e < from.len() ==> from[d] < from[e]
            &&& forall|i: int|
                0 <= i < samples.len() && (#[trigger] samples[i]).account_key@ == account_key
                    && is_recorded(samples[i], turns) ==> from.contains(i)
        }),
    decreases samples.len(),
{
    if samples.len() == 0 {
        Seq::empty()
    } else {
        let front = samples.drop_last();
        let before = lemma_events_are_samples(front, turns, account_key);
        let sample = samples.last();
        let last = samples.len() - 1;
        lemma_recorded(sample, turns);
        assert forall|i: int| 0 <= i < last implies samples[i] == #[trigger] front[i] by {}
        if sample.account_key@ == account_key && is_recorded(sample, turns) {
            let from = before.push(last);
            assert(from[before.len() as int] == last);
            assert forall|f: int| 0 <= f < before.len() implies from[f] == #[trigger] before[f] by {}
            assert forall|i: int|
                0 <= i < samples.len() && (#[trigger] samples[i]).account_key@ == account_key
                    && is_recorded(samples[i], turns) implies from.contains(i) by {
                if i < last {
                    assert(front[i] == samples[i]);
                    assert(before.contains(i));
                    let f = choose|f: int| 0 <= f < before.len() && before[f] == i;
                    assert(from[f] == i);
                }
            }
            from
        } else {
            assert forall|i: int|
                0 <= i < samples.len() && (#[trigger] samples[i]).account_key@ == account_key
                    && is_recorded(samples[i], turns) implies before.contains(i) by {
                assert(front[i] == samples[i]);
            }
            before
        }
    }
}

/// A turn of the sample's account, thread and number is recorded.
pub open spec fn is_recorded(sample: TurnTokenSample, turns: Seq<TurnUsageRecord>) -> bool {
    exists|k: int|
        {
            &&& 0 <= k < turns.len()
            &&& (#[trigger] turns[k]).turn_id@ == sample.turn_id@
            &&& turns[k].thread_id@ == sample.thread_id@
            &&& turns[k].account_key@ == sample.account_key@
        }
}

proof fn lemma_recorded(sample: TurnTokenSample, turns: Seq<TurnUsageRecord>)
    ensures
        has_turn(sample, turns) == is_recorded(sample, turns),
{
    if has_turn(sample, turns) {
        let k = choose|k: int|
            0 <= k < turns.len() && (#[trigger] turns[k]).account_key@ == sample.account_key@
                && turns[k].thread_id@ == sample.thread_id@ && turns[k].turn_id@
                == sample.turn_id@;
        assert(turns[k].turn_id@ == sample.turn_id@);
    }
    if is_recorded(sample, turns) {
        let k = choose|k: int|
            {
                &&& 0 <= k < turns.len()
                &&& (#[trigger] turns[k]).turn_id@ == sample.turn_id@
                &&& turns[k].thread_id@ == sample.thread_id@
                &&& turns[k].account_key@ == sample.account_key@
            };
        assert(turns[k].account_key@ == sample.account_key@);
    }
}

/// The increase is of the category, and was made from `start` on and before `end`.
pub open spec fn made_in(key: KeyView, start: int, end: int) -> spec_fn(EventView) -> bool {
    |event: EventView| event.key == key && start <= event.sampled_at && event.sampled_at < end
}

/// The increase was made from `start` on and before `end`.
pub open spec fn made_between(start: int, end: int) -> spec_fn(EventView) -> bool {
    |event: EventView| start <= event.sampled_at && event.sampled_at < end
}

pub open spec fn its_tokens() -> spec_fn(EventView) -> int {
    |event: EventView| event.delta_tokens
}

/// No increase is below zero.
pub open spec fn only_rises(events: Seq<EventView>) -> bool {
    forall|i: int| 0 <= i < events.len() ==> (#[trigger] events[i]).delta_tokens >= 0
}

proof fn lemma_groups_make_the_category(
    events: Seq<EventView>,
    key: KeyView,
    start: int,
    end: int,
)
    requires
        only_rises(events),
    ensures
        group_sum(events, key, true, start, end) >= 0,
        group_sum(events, key, false, start, end) >= 0,
        group_sum(events, key, true, start, end) + group_sum(events, key, false, start, end)
            == sum_where(events, made_in(key, start, end), its_tokens()),
    decreases events.len(),
{
    if events.len() > 0 {
        let front = events.drop_last();
        assert forall|i: int| 0 <= i < front.len() implies (#[trigger] front[i]).delta_tokens
            >= 0 by {
            assert(front[i] == events[i]);
        }
        lemma_groups_make_the_category(front, key, start, end);
        assert(events[events.len() - 1].delta_tokens >= 0);
    }
}

/// A category's tokens in a period are the sum of its increases that were made in it, as far
/// as they can be counted.
pub proof fn lemma_category_is_sum_of_increases(
    row: LocalCategory,
    events: Seq<EventView>,
    start: int,
    end: int,
)
    requires
        only_rises(events),
        is_usage(row, events, start, end),
    ensures
        row.tokens == min_int(
            sum_where(events, made_in(row.key@, start, end), its_tokens()),
            i64::MAX as int,
        ),
{
    lemma_groups_make_the_category(events, row.key@, start, end);
}

/// What the first `m` categories used, of the first `n` increases.
spec fn used_by(
    rows: Seq<LocalCategory>,
    m: int,
    events: Seq<EventView>,
    n: int,
    start: int,
    end: int,
) -> int
    decreases m,
{
    if m <= 0 {
        0
    } else {
        used_by(rows, m - 1, events, n, start, end) + sum_where(
            events.take(n),
            made_in(rows[m - 1].key@, start, end),
            its_tokens(),
        )
    }
}

proof fn lemma_increase_is_of_one_category(
    rows: Seq<LocalCategory>,
    m: int,
    events: Seq<EventView>,
    n: int,
    start: int,
    end: int,
)
    requires
        strictly_by_key(rows),
        0 <= m <= rows.len(),
        0 < n <= events.len(),
    ensures
        used_by(rows, m, events, n, start, end) == used_by(rows, m, events, n - 1, start, end)
            + if made_between(start, end)(events[n - 1]) && row_listed(
            rows.take(m),
            events[n - 1].key,
        ) {
            events[n - 1].delta_tokens
        } else {
            0
        },
    decreases m,
{
    if m > 0 {
        lemma_increase_is_of_one_category(rows, m - 1, events, n, start, end);
        lemma_take_grows(events, n);
        let key = events[n - 1].key;
        let front = rows.take(m - 1);
        let listed = rows.take(m);
        if row_listed(front, key) {
            let k = choose|k: int| 0 <= k < front.len() && (#[trigger] front[k]).key@ == key;
            assert(listed[k].key@ == key);
            assert(key_precedes(rows[k].key@, rows[m - 1].key@));
            lemma_key_order(key, key, key);
        }
        if rows[m - 1].key@ == key {
            assert(listed[m - 1].key@ == key);
        }
        if row_listed(listed, key) && rows[m - 1].key@ != key {
            let k = choose|k: int| 0 <= k < listed.len() && (#[trigger] listed[k]).key@ == key;
            assert(front[k].key@ == key);
        }
    }
}

proof fn lemma_nothing_is_used(
    rows: Seq<LocalCategory>,
    m: int,
    events: Seq<EventView>,
    start: int,
    end: int,
)
    ensures
        used_by(rows, m, events, 0, start, end) == 0,
    decreases m,
{
    if m > 0 {
        lemma_nothing_is_used(rows, m - 1, events, start, end);
        assert(events.take(0).len() == 0);
    }
}

proof fn lemma_categories_use_every_increase(
    rows: Seq<LocalCategory>,
    events: Seq<EventView>,
    n: int,
    start: int,
    end: int,
)
    requires
        strictly_by_key(rows),
        0 <= n <= events.len(),
        forall|i: int|
            0 <= i < events.len() && start <= (#[trigger] events[i]).sampled_at < end ==> row_listed(
                rows,
                events[i].key,
            ),
    ensures
        used_by(rows, rows.len() as int, events, n, start, end) == sum_where(
            events.take(n),
            made_between(start, end),
            its_tokens(),
        ),
    decreases n,
{
    if n > 0 {
        lemma_categories_use_every_increase(rows, events, n - 1, start, end);
        lemma_increase_is_of_one_category(rows, rows.len() as int, events, n, start, end);
        lemma_take_grows(events, n);
        assert(rows.take(rows.len() as int) =~= rows);
        assert(events[n - 1].key == events[n - 1].key);
    } else {
        lemma_nothing_is_used(rows, rows.len() as int, events, start, end);
        assert(events.take(0).len() == 0);
    }
}

proof fn lemma_total_is_used(
    rows: Seq<LocalCategory>,
    m: int,
    events: Seq<EventView>,
    start: int,
    end: int,
)
    requires
        only_rises(events),
        0 <= m <= rows.len(),
        forall|k: int| 0 <= k < rows.len() ==> is_usage(#[trigger] rows[k], events, start, end),
    ensures
        used_by(rows, m, events, events.len() as int, start, end) >= 0,
        all_tokens(rows.take(m)) == min_int(
            used_by(rows, m, events, events.len() as int, start, end),
            i64::MAX as int,
        ),
    decreases m,
{
    if m > 0 {
        lemma_total_is_used(rows, m - 1, events, start, end);
        lemma_take_grows(rows, m);
        assert(is_usage(rows[m - 1], events, start, end));
        lemma_category_is_sum_of_increases(rows[m - 1], events, start, end);
        lemma_groups_make_the_category(events, rows[m - 1].key@, start, end);
        assert(events.take(events.len() as int) =~= events);
    } else {
        assert(rows.take(0).len() == 0);
    }
}

/// Everything that was used in a period is in one of its categories: what they add up to is
/// the sum of all the increases that were made in it, as far as it can be counted.
pub proof fn lemma_categories_add_up_to_the_period(
    rows: Seq<LocalCategory>,
    events: Seq<EventView>,
    start: int,
    end: int,
)
    requires
        only_rises(events),
        lists_categories(rows, events, events.len() as int, start, end),
        strictly_by_key(rows),
    ensures
        all_tokens(rows) == min_int(
            sum_where(events, made_between(start, end), its_tokens()),
            i64::MAX as int,
        ),
{
    let n = events.len() as int;
    let m = rows.len() as int;
    lemma_categories_use_every_increase(rows, events, n, start, end);
    lemma_total_is_used(rows, m, events, start, end);
    assert(rows.take(m) =~= rows);
    assert(events.take(n) =~= events);
}

/// One more increase adds a turn to a category exactly where it is of the category, was made
/// in the period, and no earlier one of the category is of its turn.
pub proof fn lemma_turn_is_counted_once(
    events: Seq<EventView>,
    event: EventView,
    key: KeyView,
    start: int,
    end: int,
)
    ensures
        ({
            let more = events.push(event);
            let counted = turns_of(events, events.len() as int, key, start, end);
            let after = turns_of(more, more.len() as int, key, start, end);
            let in_period = event.key == key && start <= event.sampled_at && event.sampled_at < end;
            let seen = exists|j: int|
                {
                    &&& 0 <= j < events.len()
                    &&& (#[trigger] events[j]).key == key
                    &&& events[j].named == event.named
                    &&& start <= events[j].sampled_at
                    &&& events[j].sampled_at < end
                    &&& events[j].thread_id + ":"@ + events[j].turn_id == event.thread_id + ":"@
                        + event.turn_id
                };
            &&& in_period && !seen ==> after == counted + 1
            &&& !in_period || seen ==> after == counted
        }),
{
    let more = events.push(event);
    let n = events.len() as int;
    lemma_turns_of_prefix(events, event, n, key, start, end);
    assert(more[n] == event);
    let in_period = event.key == key && start <= event.sampled_at && event.sampled_at < end;
    let seen = exists|j: int|
        {
            &&& 0 <= j < events.len()
            &&& (#[trigger] events[j]).key == key
            &&& events[j].named == event.named
            &&& start <= events[j].sampled_at
            &&& events[j].sampled_at < end
            &&& events[j].thread_id + ":"@ + events[j].turn_id == event.thread_id + ":"@
                + event.turn_id
        };
    if in_period && !seen {
        assert forall|j: int| 0 <= j < n implies !(in_group(
            #[trigger] more[j],
            key,
            event.named,
            start,
            end,
        ) && turn_text(more[j]) == turn_text(event)) by {
            assert(more[j] == events[j]);
        }
        assert(first_of_turn(more, n, key, start, end));
    }
    if seen {
        let j = choose|j: int|
            {
                &&& 0 <= j < events.len()
                &&& (#[trigger] events[j]).key == key
                &&& events[j].named == event.named
                &&& start <= events[j].sampled_at
                &&& events[j].sampled_at < end
                &&& events[j].thread_id + ":"@ + events[j].turn_id == event.thread_id + ":"@
                    + event.turn_id
            };
        assert(in_group(more[j], key, event.named, start, end));
        assert(!first_of_turn(more, n, key, start, end));
    }
}

proof fn lemma_turns_of_prefix(
    events: Seq<EventView>,
    event: EventView,
    n: int,
    key: KeyView,
    start: int,
    end: int,
)
    requires
        n <= events.len(),
    ensures
        turns_of(events.push(event), n, key, start, end) == turns_of(events, n, key, start, end),
    decreases n,
{
    let more = events.push(event);
    if n > 0 {
        lemma_turns_of_prefix(events, event, n - 1, key, start, end);
        assert(more[n - 1] == events[n - 1]);
        if first_of_turn(events, n - 1, key, start, end) {
            assert forall|j: int| 0 <= j < n - 1 implies !(in_group(
                #[trigger] more[j],
                key,
                more[n - 1].named,
                start,
                end,
            ) && turn_text(more[j]) == turn_text(more[n - 1])) by {
                assert(more[j] == events[j]);
            }
        }
        if first_of_turn(more, n - 1, key, start, end) {
            assert forall|j: int| 0 <= j < n - 1 implies !(in_group(
                #[trigger] events[j],
                key,
                events[n - 1].named,
                start,
                end,
            ) && turn_text(events[j]) == turn_text(events[n - 1])) by {
                assert(more[j] == events[j]);
            }
        }
    }
}

// ---------------------------------------------------------------------------
// What a day and the server say
// ---------------------------------------------------------------------------

/// The row observes the weekly bucket in the stretch of time.
pub open spec fn observed_between(
    account_key: Seq<char>,
    limit_id: Seq<char>,
    window: Seq<char>,
    from: int,
    to: int,
) -> spec_fn(RateLimitRow) -> bool {
    |row: RateLimitRow|
        {
            &&& row.account_key@ == account_key
            &&& row.limit_id@ == limit_id
            &&& row.window@ == window
            &&& row.sample.window_duration_mins == 7 * 24 * 60
            &&& from <= row.sample.sampled_at
            &&& row.sample.sampled_at < to
        }
}

/// The observations that a day's use is read from are those of the account's weekly bucket in
/// the stretch of time, each once, and of no other row. They stand by their time.
pub proof fn lemma_day_is_read_from_its_bucket(
    rows: Seq<RateLimitRow>,
    account_key: Seq<char>,
    limit_id: Seq<char>,
    window: Seq<char>,
    from: int,
    to: int,
)
    ensures
        ({
            let samples = sorted(
                bucket_observations(rows, account_key, limit_id, window, from, to),
            );
            let pick = observed_between(account_key, limit_id, window, from, to);
            &&& samples.len() == rows.filter(pick).len()
            &&& forall|k: int|
                0 <= k < samples.len() ==> exists|i: int|
                    0 <= i < rows.len() && pick(#[trigger] rows[i]) && rows[i].sample
                        == #[trigger] samples[k]
            &&& forall|i: int|
                0 <= i < rows.len() && pick(#[trigger] rows[i]) ==> samples.contains(
                    rows[i].sample,
                )
            &&& forall|k: int, m: int|
                0 <= k < m < samples.len() ==> (#[trigger] samples[k]).sampled_at <= (
                #[trigger] samples[m]).sampled_at
        }),
{
    let pick = observed_between(account_key, limit_id, window, from, to);
    let found = bucket_observations(rows, account_key, limit_id, window, from, to);
    let samples = sorted(found);
    lemma_observations_are_filtered(rows, account_key, limit_id, window, from, to);
    crate::sorting::lemma_sorted(found);
    assert forall|k: int| 0 <= k < samples.len() implies exists|i: int|
        0 <= i < rows.len() && pick(#[trigger] rows[i]) && rows[i].sample
            == #[trigger] samples[k] by {
        let at = crate::sorting::lemma_sorted_member(found, k);
        let i = crate::table::lemma_filter_member(rows, pick, at);
        assert(pick(rows[i]) && rows[i].sample == samples[k]);
    }
    assert forall|i: int| 0 <= i < rows.len() && pick(#[trigger] rows[i]) implies samples.contains(
        rows[i].sample,
    ) by {
        let at = crate::table::lemma_filter_keeps(rows, pick, i);
        assert(found[at] == rows[i].sample);
        let to = crate::sorting::lemma_sorted_keeps(found, at);
        assert(samples[to] == rows[i].sample);
    }
    assert forall|k: int, m: int| 0 <= k < m < samples.len() implies (
    #[trigger] samples[k]).sampled_at <= (#[trigger] samples[m]).sampled_at by {
        assert(!samples[k].behind(samples[m]));
    }
}

proof fn lemma_observations_are_filtered(
    rows: Seq<RateLimitRow>,
    account_key: Seq<char>,
    limit_id: Seq<char>,
    window: Seq<char>,
    from: int,
    to: int,
)
    ensures
        bucket_observations(rows, account_key, limit_id, window, from, to)
            == crate::quota::samples_of(
            rows.filter(observed_between(account_key, limit_id, window, from, to)),
        ),
    decreases rows.len(),
{
    reveal(Seq::filter);
    let pick = observed_between(account_key, limit_id, window, from, to);
    if rows.len() > 0 {
        lemma_observations_are_filtered(
            rows.drop_last(),
            account_key,
            limit_id,
            window,
            from,
            to,
        );
    }
    assert(bucket_observations(rows, account_key, limit_id, window, from, to)
        =~= crate::quota::samples_of(rows.filter(pick)));
}

/// An observation counts for a day where it was made on the day, later than the one before,
/// with a share that is no lower, and both name a reset within a few seconds of each other or
/// none. The places are those of the observations that count, in their order.
pub proof fn lemma_counted_places_are_rises(
    samples: Seq<RateSample>,
    n: int,
    start: int,
    end: int,
)
    requires
        0 <= n <= samples.len(),
    ensures
        ({
            let found = counted_places(samples, n, start, end);
            &&& forall|k: int|
                0 <= k < found.len() ==> 1 <= #[trigger] found[k] < n && rises_on_day(
                    samples[found[k] - 1],
                    samples[found[k]],
                    start,
                    end,
                )
            &&& forall|i: int|
                1 <= i < n && rises_on_day(samples[i - 1], #[trigger] samples[i], start, end)
                    ==> found.contains(i)
            &&& forall|j: int, k: int| 0 <= j < k < found.len() ==> found[j] < found[k]
        }),
    decreases n,
{
    if n > 1 {
        lemma_counted_places_are_rises(samples, n - 1, start, end);
        let before = counted_places(samples, n - 1, start, end);
        let found = counted_places(samples, n, start, end);
        assert(rises_on_day(samples[n - 2], samples[n - 1], start, end) == counts_for_day(
            samples[n - 2],
            samples[n - 1],
            start,
            end,
        ));
        assert forall|k: int| 0 <= k < before.len() implies found[k] == #[trigger] before[k] by {}
        assert forall|i: int|
            1 <= i < n && rises_on_day(
                samples[i - 1],
                #[trigger] samples[i],
                start,
                end,
            ) implies found.contains(i) by {
            if i < n - 1 {
                assert(before.contains(i));
                let k = choose|k: int| 0 <= k < before.len() && before[k] == i;
                assert(found[k] == i);
            } else {
                assert(found[before.len() as int] == i);
            }
        }
    }
}

pub open spec fn rises_on_day(
    before: RateSample,
    here: RateSample,
    start: int,
    end: int,
) -> bool {
    &&& start <= here.sampled_at
    &&& here.sampled_at < end
    &&& before.sampled_at < here.sampled_at
    &&& before.used_percent.code <= here.used_percent.code
    &&& match (before.resets_at, here.resets_at) {
        (Some(a), Some(b)) => a - b <= 5 && b - a <= 5,
        (None, None) => true,
        _ => false,
    }
}

/// The sample is of the same account, thread and category as the other.
pub open spec fn same_series(a: ServerSample, b: ServerSample) -> bool {
    a.account_key@ == b.account_key@ && a.thread_id@ == b.thread_id@ && a.key@ == b.key@
}

/// What a sample is measured from is the latest earlier one of its account, thread and
/// category; of several at one time, the one that was recorded last.
pub proof fn lemma_server_previous_is_latest(rows: Seq<ServerSample>, i: int, n: int)
    requires
        0 <= i < rows.len(),
        0 <= n <= rows.len(),
    ensures
        match server_previous(rows, i, n) {
            Some(at) => {
                &&& 0 <= at < n
                &&& at != i
                &&& same_series(rows[at], rows[i])
                &&& rows[at].sampled_at <= rows[i].sampled_at
                &&& rows[at].sampled_at == rows[i].sampled_at ==> at < i
                &&& forall|k: int|
                    0 <= k < n && same_series(#[trigger] rows[k], rows[i]) && (rows[k].sampled_at
                        < rows[i].sampled_at || (k < i && rows[k].sampled_at
                        == rows[i].sampled_at)) ==> rows[k].sampled_at <= rows[at].sampled_at
                &&& forall|k: int|
                    at < k < n && same_series(#[trigger] rows[k], rows[i]) && (rows[k].sampled_at
                        < rows[i].sampled_at || (k < i && rows[k].sampled_at
                        == rows[i].sampled_at)) ==> rows[k].sampled_at < rows[at].sampled_at
            },
            None => forall|k: int|
                0 <= k < n && same_series(#[trigger] rows[k], rows[i]) ==> rows[i].sampled_at
                    < rows[k].sampled_at || (i <= k && rows[i].sampled_at == rows[k].sampled_at),
        },
    decreases n,
{
    if n > 0 {
        lemma_server_previous_is_latest(rows, i, n - 1);
        assert(same_series(rows[n - 1], rows[i]) == (rows[n - 1].account_key@
            == rows[i].account_key@ && rows[n - 1].thread_id@ == rows[i].thread_id@ && rows[n
            - 1].key@ == rows[i].key@));
    }
}

/// What a sample adds: as much as it lies above the one before, and all of it where it lies
/// below.
pub proof fn lemma_server_delta_is_growth(previous: int, credits: int)
    requires
        previous >= 0,
        credits >= 0,
    ensures
        credits >= previous ==> previous + server_delta(previous, credits) == credits,
        credits < previous ==> server_delta(previous, credits) == credits,
{
}

/// Where no sample of the account and the category was made in the period, the server says
/// nothing of it; what it says comes from such samples alone.
pub proof fn lemma_server_says_only_of_the_category(
    rows: Seq<ServerSample>,
    n: int,
    account_key: Seq<char>,
    key: KeyView,
    start: int,
    end: int,
)
    requires
        0 <= n <= rows.len(),
    ensures
        server_usage(rows, n, account_key, key, start, end) is Some <==> exists|i: int|
            {
                &&& 0 <= i < n
                &&& (#[trigger] rows[i]).account_key@ == account_key
                &&& rows[i].key@ == key
                &&& start <= rows[i].sampled_at
                &&& rows[i].sampled_at < end
                &&& server_previous(rows, i, rows.len() as int) is Some
            },
        server_usage(rows, n, account_key, key, start, end) matches Some(sum) ==> 0 <= sum
            <= i64::MAX,
    decreases n,
{
    if n > 0 {
        lemma_server_says_only_of_the_category(rows, n - 1, account_key, key, start, end);
        assert(rows[n - 1].account_key@ == rows[n - 1].account_key@);
    }
}

/// The row is the account's official count of a date of the period.
pub open spec fn official_between(
    account_key: Seq<char>,
    from: Seq<char>,
    to: Seq<char>,
) -> spec_fn(DailyUsageRow) -> bool {
    |row: DailyUsageRow|
        {
            &&& row.account_key@ == account_key
            &&& !precedes(row.date@, from)
            &&& !precedes(to, row.date@)
        }
}

pub open spec fn official_count() -> spec_fn(DailyUsageRow) -> int {
    |row: DailyUsageRow| row.official_tokens as int
}

/// The official count of a period is told where the account has any on its dates, and is what
/// they add up to.
pub proof fn lemma_official_is_sum_of_days(
    rows: Seq<DailyUsageRow>,
    account_key: Seq<char>,
    from: Seq<char>,
    to: Seq<char>,
)
    ensures
        ({
            let pick = official_between(account_key, from, to);
            let sum = sum_where(rows, pick, official_count());
            match official_sum(rows, account_key, from, to) {
                Some(found) => found == sum && exists|i: int|
                    0 <= i < rows.len() && pick(#[trigger] rows[i]),
                None => sum == 0 && forall|i: int| 0 <= i < rows.len() ==> !pick(#[trigger] rows[i]),
            }
        }),
    decreases rows.len(),
{
    if rows.len() > 0 {
        let front = rows.drop_last();
        let pick = official_between(account_key, from, to);
        lemma_official_is_sum_of_days(front, account_key, from, to);
        assert(rows[rows.len() - 1] == rows.last());
        assert forall|i: int| 0 <= i < front.len() implies rows[i] == #[trigger] front[i] by {}
        if official_sum(front, account_key, from, to) is Some {
            let i = choose|i: int| 0 <= i < front.len() && pick(#[trigger] front[i]);
            assert(pick(rows[i]));
        }
        if official_sum(rows, account_key, from, to) is None {
            assert forall|i: int| 0 <= i < rows.len() implies !pick(#[trigger] rows[i]) by {
                if i < front.len() {
                    assert(rows[i] == front[i]);
                }
            }
        }
    }
}

/// What is shown of a period is its categories, each once, the most used first; of two that
/// were used alike, the one whose name comes first. Each shows the tokens and the turns that
/// were counted of it, and whether it asked for speed.
pub proof fn lemma_categories_are_shown_by_use(
    rows: Seq<LocalCategory>,
    estimates: Seq<CategoryEstimate>,
    server: Seq<ServerSample>,
    account_key: Option<Seq<char>>,
    start: int,
    end: int,
)
    ensures
        ({
            let items = sorted(items_of(rows, estimates, server, account_key, start, end));
            &&& items.len() == rows.len()
            &&& forall|k: int|
                0 <= k < items.len() ==> exists|i: int|
                    0 <= i < rows.len() && shows_row(#[trigger] items[k], #[trigger] rows[i])
            &&& forall|i: int|
                0 <= i < rows.len() ==> exists|k: int|
                    0 <= k < items.len() && shows_row(#[trigger] items[k], #[trigger] rows[i])
            &&& forall|j: int, k: int|
                0 <= j < k < items.len() ==> (#[trigger] items[j]).tokens >= (
                #[trigger] items[k]).tokens
            &&& forall|j: int, k: int|
                0 <= j < k < items.len() && (#[trigger] items[j]).tokens == (
                #[trigger] items[k]).tokens ==> !key_precedes(items[k].key@, items[j].key@)
        }),
{
    let all = items_of(rows, estimates, server, account_key, start, end);
    let items = sorted(all);
    crate::sorting::lemma_sorted(all);
    assert forall|k: int| 0 <= k < items.len() implies exists|i: int|
        0 <= i < rows.len() && shows_row(#[trigger] items[k], #[trigger] rows[i]) by {
        let from = crate::sorting::lemma_sorted_member(all, k);
        assert(shows_row(items[k], rows[from]));
    }
    assert forall|i: int| 0 <= i < rows.len() implies exists|k: int|
        0 <= k < items.len() && shows_row(#[trigger] items[k], #[trigger] rows[i]) by {
        let to = crate::sorting::lemma_sorted_keeps(all, i);
        assert(shows_row(items[to], rows[i]));
    }
    assert forall|j: int, k: int| 0 <= j < k < items.len() implies (#[trigger] items[j]).tokens >= (
    #[trigger] items[k]).tokens by {
        assert(!items[j].behind(items[k]));
    }
    assert forall|j: int, k: int|
        0 <= j < k < items.len() && (#[trigger] items[j]).tokens == (
        #[trigger] items[k]).tokens implies !key_precedes(items[k].key@, items[j].key@) by {
        assert(!items[j].behind(items[k]));
    }
}

pub open spec fn shows_row(item: CategoryUsageItem, row: LocalCategory) -> bool {
    &&& item.key == row.key
    &&& item.tokens == row.tokens
    &&& item.turn_count == row.turn_count
    &&& item.fast == (row.key.speed_mode@ == "fast_requested"@)
}

/// The turns that are shown are those of all the categories.
pub proof fn lemma_turns_shown_add_up(rows: Seq<LocalCategory>)
    ensures
        turns_shown(rows) == sum_where(
            rows,
            |row: LocalCategory| true,
            |row: LocalCategory| row.turn_count as int,
        ),
    decreases rows.len(),
{
    if rows.len() > 0 {
        lemma_turns_shown_add_up(rows.drop_last());
    }
}

/// The server tells what an account's threads used where it does so for any of them, and is
/// asked again where nothing is known of any.
pub proof fn lemma_capability_is_that_of_a_thread(
    rows: Seq<ThreadCapability>,
    account_key: Seq<char>,
)
    ensures
        ({
            let found = account_capability(rows, Some(account_key));
            &&& found == Capability::Available <==> exists|i: int|
                {
                    &&& 0 <= i < rows.len()
                    &&& (#[trigger] rows[i]).account_key@ == account_key
                    &&& rows[i].capability@ == "available"@
                }
            &&& found == Capability::Syncing ==> forall|i: int|
                0 <= i < rows.len() && (#[trigger] rows[i]).account_key@ == account_key
                    ==> rows[i].capability@ != "available"@ && rows[i].capability@
                    != "unavailable"@
        }),
        account_capability(rows, None) == Capability::Syncing,
{
}

/// A quota's use rests on the rises that were counted: on none it is not known, on one or two
/// it is middling sure, and on three or more sure.
pub proof fn lemma_metric_rests_on_its_rises(count: usize)
    ensures
        quota_metric(count).sample_count == count,
        quota_metric(count).status == UsageStatus::InsufficientData <==> count < 1,
        quota_metric(count).status == UsageStatus::Observed <==> count >= 1,
        quota_metric(count).confidence == Confidence::Low <==> count < 1,
        quota_metric(count).confidence == Confidence::Medium <==> count == 1 || count == 2,
        quota_metric(count).confidence == Confidence::High <==> count > 2,
{
}

/// By how much a sample lies above the one before it of its account, thread and category; all
/// of it where it lies below, and nothing where there is none before.
pub open spec fn credits_grown(rows: Seq<ServerSample>, i: int) -> int {
    match server_previous(rows, i, rows.len() as int) {
        Some(at) => {
            let was = if rows[at].credits_micros < 0 {
                0
            } else {
                rows[at].credits_micros as int
            };
            let is = rows[i].credits_micros as int;
            if was <= is {
                is - was
            } else if is > 0 {
                is
            } else {
                0
            }
        },
        None => 0,
    }
}

/// The growth of all samples of the account and the category in the period.
pub open spec fn growth_within(
    rows: Seq<ServerSample>,
    n: int,
    account_key: Seq<char>,
    key: KeyView,
    start: int,
    end: int,
) -> int
    decreases n,
{
    if n <= 0 {
        0
    } else {
        growth_within(rows, n - 1, account_key, key, start, end) + if rows[n - 1].account_key@
            == account_key && rows[n - 1].key@ == key && start <= rows[n - 1].sampled_at
            && rows[n - 1].sampled_at < end {
            credits_grown(rows, n - 1)
        } else {
            0
        }
    }
}

/// What the server says of a category in a period is the sum of the growth of its samples in
/// the period, up to the greatest count there is.
pub proof fn lemma_server_usage_is_sum_of_growth(
    rows: Seq<ServerSample>,
    n: int,
    account_key: Seq<char>,
    key: KeyView,
    start: int,
    end: int,
)
    requires
        0 <= n <= rows.len(),
    ensures
        growth_within(rows, n, account_key, key, start, end) >= 0,
        server_usage(rows, n, account_key, key, start, end) matches Some(sum) ==> sum == min_int(
            growth_within(rows, n, account_key, key, start, end),
            i64::MAX as int,
        ),
        server_usage(rows, n, account_key, key, start, end) is None ==> growth_within(
            rows,
            n,
            account_key,
            key,
            start,
            end,
        ) == 0,
    decreases n,
{
    if n > 0 {
        lemma_server_usage_is_sum_of_growth(rows, n - 1, account_key, key, start, end);
        assert(credits_grown(rows, n - 1) >= 0);
    }
}

} // verus!
