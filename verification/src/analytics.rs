//! Adding up the usage of a range: what each day, each category and each account used.
//!
//! Tokens and turns are counted exactly. A share of the quota, or of a turn's credits, is a
//! ratio: what stands here is the terms that it is made of.
use crate::arith::{
    clamp_i128, clamp_i64, max_int, min_int, saturating_add, saturating_add_wide, saturating_sub,
};
use crate::calendar::{date_text, is_reached, text_of_day, FIRST_DAY, LAST_DAY};
use crate::health::AccountDataHealth;
use crate::models::{
    unresolved_key, AccountScope, Confidence, Credits, TokenUsage, TurnUsageRecord,
    UsageAnalyticsPoint, UsageAnalyticsQuery,
};
use crate::names::{add_name, ascending, has_name, lists};
use crate::percent::Percent;
use crate::quota::{BucketIntervals, QuotaInterval, RateLimitRow};
use crate::rate_card::{estimated_units, units_of, RateCard};
use crate::recorder::{AccountRecord, DailyUsageRow};
use crate::repository::{
    bounds, category_for, category_name, date_for, date_range, dates, dates_from, day_of, day_start,
    is_known, is_legacy, may_show, range_label, range_name, scope_keys, timezone_offset, DateRange,
    RANGE_END,
};
use crate::sorting::{sort_rows, sorted, Ranked};
use crate::table::{
    count_where, first_where, lemma_first_where_at, lemma_first_where_none, lemma_sum_nonnegative,
    lemma_sum_of_none, lemma_sum_of_one, lemma_take_grows, sum_where,
};
use crate::text::{
    ascii_lower, comes_before, lemma_precedes_is_order, precedes, same_text, text_opt,
};
use vstd::prelude::*;

verus! {

// ---------------------------------------------------------------------------
// The turns of a range
// ---------------------------------------------------------------------------

/// What the analytics know of a turn.
#[derive(Debug)]
pub struct TurnFacts {
    pub account_key: String,
    pub started_at: i64,
    pub day: i64,
    pub category: String,
    pub usage: TokenUsage,
    pub credits: Option<Credits>,
    /// The record of the turn is not to be relied on.
    pub unsure: bool,
}

/// The mathematical value of [`TurnFacts`].
#[verifier::ext_equal]
pub struct FactsView {
    pub account_key: Seq<char>,
    pub started_at: int,
    pub day: int,
    pub category: Seq<char>,
    pub usage: TokenUsage,
    pub units: Option<int>,
    pub unsure: bool,
}

impl View for TurnFacts {
    type V = FactsView;

    open spec fn view(&self) -> FactsView {
        FactsView {
            account_key: self.account_key@,
            started_at: self.started_at as int,
            day: self.day as int,
            category: self.category@,
            usage: self.usage,
            units: units_of(self.credits),
            unsure: self.unsure,
        }
    }
}

pub open spec fn facts_views(facts: Seq<TurnFacts>) -> Seq<FactsView> {
    Seq::new(facts.len(), |i: int| facts[i]@)
}

pub open spec fn facts_of(
    turn: TurnUsageRecord,
    breakdown: Seq<char>,
    offset: int,
    now: int,
) -> FactsView {
    FactsView {
        account_key: turn.account_key@,
        started_at: turn.started_at as int,
        day: day_of(turn.started_at as int, offset, now),
        category: category_name(
            breakdown,
            turn.account_key@,
            text_opt(turn.model),
            turn.reasoning_effort@,
            turn.speed_mode@,
        ),
        usage: turn.usage,
        units: estimated_units(text_opt(turn.model), turn.speed_mode@, turn.usage),
        unsure: turn.confidence == Confidence::Low || turn.confidence == Confidence::Unknown,
    }
}

/// The turns of the accounts that began in the range.
pub open spec fn turn_facts(
    turns: Seq<TurnUsageRecord>,
    keys: Seq<String>,
    range: DateRange,
    breakdown: Seq<char>,
    now: int,
) -> Seq<FactsView>
    decreases turns.len(),
{
    if turns.len() == 0 {
        Seq::empty()
    } else {
        let before = turn_facts(turns.drop_last(), keys, range, breakdown, now);
        let turn = turns.last();
        if range.start <= turn.started_at < range.end && lists(keys, turn.account_key@) {
            before.push(facts_of(turn, breakdown, range.offset as int, now))
        } else {
            before
        }
    }
}

/// The turns of the accounts that began in the range, with what each is known to be.
pub fn load_turns(
    turns: &Vec<TurnUsageRecord>,
    keys: &Vec<String>,
    range: DateRange,
    breakdown: &str,
    now: i64,
) -> (r: Vec<TurnFacts>)
    ensures
        facts_views(r@) == turn_facts(turns@, keys@, range, breakdown@, now as int),
{
    let card = RateCard::current();
    let mut r: Vec<TurnFacts> = Vec::new();
    let mut i: usize = 0;
    assert(turns@.take(0) =~= Seq::empty());
    assert(facts_views(r@) =~= Seq::empty());
    while i < turns.len()
        invariant
            i <= turns.len(),
            facts_views(r@) == turn_facts(
                turns@.take(i as int),
                keys@,
                range,
                breakdown@,
                now as int,
            ),
        decreases turns.len() - i,
    {
        let turn = &turns[i];
        proof {
            assert(turns@.take(i + 1).drop_last() =~= turns@.take(i as int));
            assert(turns@.take(i + 1).last() == *turn);
        }
        if turn.started_at >= range.start && turn.started_at < range.end && has_name(
            keys,
            turn.account_key.as_str(),
        ) {
            let model = match &turn.model {
                Some(model) => Some(model.as_str()),
                None => None,
            };
            let facts = TurnFacts {
                account_key: turn.account_key.clone(),
                started_at: turn.started_at,
                day: date_for(turn.started_at, range.offset, now),
                category: category_for(breakdown, turn),
                usage: turn.usage,
                credits: card.calculate(model, turn.speed_mode.as_str(), &turn.usage),
                unsure: turn.confidence == Confidence::Low || turn.confidence
                    == Confidence::Unknown,
            };
            let ghost view = facts@;
            assert(view =~= facts_of(*turn, breakdown@, range.offset as int, now as int));
            let ghost before = facts_views(r@);
            r.push(facts);
            assert(facts_views(r@) =~= before.push(view));
        }
        i += 1;
    }
    assert(turns@.take(turns@.len() as int) =~= turns@);
    r
}

/// What a turn adds to a category: its total, or, where the kinds of tokens are told apart,
/// its tokens of the kind.
pub open spec fn part_of(facts: FactsView, by_kind: bool, name: Seq<char>) -> Option<int> {
    if !by_kind {
        if name == facts.category {
            Some(facts.usage.raw_total_tokens as int)
        } else {
            None
        }
    } else {
        let tokens = if name == "输入"@ {
            facts.usage.input_tokens as int
        } else if name == "缓存输入"@ {
            facts.usage.cached_input_tokens as int
        } else if name == "输出"@ {
            max_int(
                clamp_i64(facts.usage.output_tokens - facts.usage.reasoning_output_tokens),
                0,
            )
        } else if name == "推理"@ {
            facts.usage.reasoning_output_tokens as int
        } else {
            0
        };
        if tokens > 0 {
            Some(tokens)
        } else {
            None
        }
    }
}

fn read_part(facts: &TurnFacts, by_kind: bool, name: &str) -> (r: Option<i64>)
    ensures
        match (r, part_of(facts@, by_kind, name@)) {
            (Some(found), Some(tokens)) => found == tokens,
            (None, None) => true,
            _ => false,
        },
{
    if !by_kind {
        if same_text(name, facts.category.as_str()) {
            Some(facts.usage.raw_total_tokens)
        } else {
            None
        }
    } else {
        let tokens: i64 = if same_text(name, "输入") {
            facts.usage.input_tokens
        } else if same_text(name, "缓存输入") {
            facts.usage.cached_input_tokens
        } else if same_text(name, "输出") {
            saturating_sub(facts.usage.output_tokens, facts.usage.reasoning_output_tokens).max(0)
        } else if same_text(name, "推理") {
            facts.usage.reasoning_output_tokens
        } else {
            0
        };
        if tokens > 0 {
            Some(tokens)
        } else {
            None
        }
    }
}

/// A part of a turn's credits: `part` of `whole` of them.
#[derive(Clone, Copy, Debug, PartialEq, Eq, Structural)]
pub struct CreditShare {
    pub credits: Credits,
    pub part: i64,
    pub whole: i64,
}

/// What some turns add up to in a category.
#[derive(Debug)]
pub struct Aggregate {
    pub raw_tokens: i64,
    pub shares: Vec<CreditShare>,
    pub turn_count: usize,
    pub low_confidence: bool,
}

/// The mathematical value of an [`Aggregate`].
#[verifier::ext_equal]
pub struct AggregateView {
    pub raw_tokens: int,
    pub shares: Seq<CreditShare>,
    pub turn_count: int,
    pub low_confidence: bool,
}

impl View for Aggregate {
    type V = AggregateView;

    open spec fn view(&self) -> AggregateView {
        AggregateView {
            raw_tokens: self.raw_tokens as int,
            shares: self.shares@,
            turn_count: self.turn_count as int,
            low_confidence: self.low_confidence,
        }
    }
}

pub open spec fn empty_aggregate() -> AggregateView {
    AggregateView {
        raw_tokens: 0,
        shares: Seq::empty(),
        turn_count: 0,
        low_confidence: false,
    }
}

/// The aggregate with one more turn.
pub open spec fn aggregate_with(
    aggregate: AggregateView,
    facts: FactsView,
    tokens: int,
    by_kind: bool,
) -> AggregateView {
    AggregateView {
        raw_tokens: clamp_i64(aggregate.raw_tokens + max_int(tokens, 0)),
        shares: match facts.units {
            Some(units) => aggregate.shares.push(
                CreditShare {
                    credits: Credits { units: units as i128 },
                    part: if by_kind {
                        tokens as i64
                    } else {
                        1
                    },
                    whole: if by_kind {
                        max_int(facts.usage.raw_total_tokens as int, 1) as i64
                    } else {
                        1
                    },
                },
            ),
            None => aggregate.shares,
        },
        turn_count: aggregate.turn_count + 1,
        low_confidence: aggregate.low_confidence || facts.units is None || facts.unsure,
    }
}

/// What the first `n` turns add up to in a category of a day.
pub open spec fn aggregate_of(
    facts: Seq<FactsView>,
    n: int,
    day: int,
    name: Seq<char>,
    by_kind: bool,
) -> AggregateView
    decreases n,
{
    if n <= 0 {
        empty_aggregate()
    } else {
        let before = aggregate_of(facts, n - 1, day, name, by_kind);
        match part_of(facts[n - 1], by_kind, name) {
            Some(tokens) => if facts[n - 1].day == day {
                aggregate_with(before, facts[n - 1], tokens, by_kind)
            } else {
                before
            },
            None => before,
        }
    }
}

/// How sure a count is: of nothing, nothing is known; what rests on one sure turn is surest.
pub open spec fn aggregate_confidence(turn_count: int, low_confidence: bool) -> Confidence {
    if turn_count == 0 {
        Confidence::Unknown
    } else if low_confidence {
        Confidence::Low
    } else if turn_count == 1 {
        Confidence::High
    } else {
        Confidence::Medium
    }
}

impl Aggregate {
    pub fn confidence(&self) -> (r: Confidence)
        ensures
            r == aggregate_confidence(self.turn_count as int, self.low_confidence),
    {
        if self.turn_count == 0 {
            Confidence::Unknown
        } else if self.low_confidence {
            Confidence::Low
        } else if self.turn_count == 1 {
            Confidence::High
        } else {
            Confidence::Medium
        }
    }
}

fn aggregate_day(facts: &Vec<TurnFacts>, day: i64, name: &str, by_kind: bool) -> (r: Aggregate)
    ensures
        r@ == aggregate_of(facts_views(facts@), facts@.len() as int, day as int, name@, by_kind),
{
    let ghost views = facts_views(facts@);
    let mut r = Aggregate {
        raw_tokens: 0,
        shares: Vec::new(),
        turn_count: 0,
        low_confidence: false,
    };
    let mut i: usize = 0;
    assert(r@ =~= empty_aggregate());
    while i < facts.len()
        invariant
            i <= facts.len(),
            views == facts_views(facts@),
            r.turn_count <= i,
            r@ == aggregate_of(views, i as int, day as int, name@, by_kind),
        decreases facts.len() - i,
    {
        let turn = &facts[i];
        assert(views[i as int] == turn@);
        let ghost before = r@;
        if turn.day == day {
            if let Some(tokens) = read_part(turn, by_kind, name) {
                r.raw_tokens = saturating_add(r.raw_tokens, tokens.max(0));
                r.turn_count += 1;
                match turn.credits {
                    Some(credits) => {
                        r.shares.push(
                            CreditShare {
                                credits,
                                part: if by_kind {
                                    tokens
                                } else {
                                    1
                                },
                                whole: if by_kind {
                                    turn.usage.raw_total_tokens.max(1)
                                } else {
                                    1
                                },
                            },
                        );
                    },
                    None => {
                        r.low_confidence = true;
                    },
                }
                if turn.unsure {
                    r.low_confidence = true;
                }
                assert(r@ =~= aggregate_with(before, turn@, tokens as int, by_kind));
            }
        }
        i += 1;
    }
    r
}

// ---------------------------------------------------------------------------
// Official counts
// ---------------------------------------------------------------------------

/// The official count is of one of the accounts and within the range.
pub open spec fn official_row(
    row: DailyUsageRow,
    keys: Seq<String>,
    from: Seq<char>,
    to: Seq<char>,
) -> bool {
    lists(keys, row.account_key@) && !precedes(row.date@, from) && !precedes(to, row.date@)
}

fn is_official_row(row: &DailyUsageRow, keys: &Vec<String>, from: &str, to: &str) -> (r: bool)
    ensures
        r == official_row(*row, keys@, from@, to@),
{
    !comes_before(row.date.as_str(), from) && !comes_before(to, row.date.as_str()) && has_name(
        keys,
        row.account_key.as_str(),
    )
}

/// The official count of a date, over the accounts, where there is one.
pub open spec fn official_of(
    rows: Seq<DailyUsageRow>,
    n: int,
    keys: Seq<String>,
    from: Seq<char>,
    to: Seq<char>,
    date: Seq<char>,
) -> Option<int>
    decreases n,
{
    if n <= 0 {
        None
    } else {
        let before = official_of(rows, n - 1, keys, from, to, date);
        if official_row(rows[n - 1], keys, from, to) && rows[n - 1].date@ == date {
            let sum = match before {
                Some(sum) => sum,
                None => 0,
            };
            Some(clamp_i64(sum + max_int(rows[n - 1].official_tokens as int, 0)))
        } else {
            before
        }
    }
}

/// The count of the last of the accounts, in the order of their keys, whose official count of
/// the date exceeds what is known locally.
pub open spec fn exceeding_row(
    rows: Seq<DailyUsageRow>,
    n: int,
    keys: Seq<String>,
    from: Seq<char>,
    to: Seq<char>,
    date: Seq<char>,
    local: int,
) -> Option<int>
    decreases n,
{
    if n <= 0 {
        None
    } else {
        let best = exceeding_row(rows, n - 1, keys, from, to, date, local);
        let row = rows[n - 1];
        if official_row(row, keys, from, to) && row.date@ == date && max_int(
            row.official_tokens as int,
            0,
        ) > local {
            match best {
                Some(at) => if precedes(row.account_key@, rows[at].account_key@) {
                    best
                } else {
                    Some(n - 1)
                },
                None => Some(n - 1),
            }
        } else {
            best
        }
    }
}

/// The tokens of a date that the official count holds and no turn accounts for.
pub open spec fn unattributed_of(
    rows: Seq<DailyUsageRow>,
    keys: Seq<String>,
    from: Seq<char>,
    to: Seq<char>,
    date: Seq<char>,
    local: int,
) -> Option<int> {
    match exceeding_row(rows, rows.len() as int, keys, from, to, date, local) {
        Some(at) => Some(rows[at].official_tokens - local),
        None => None,
    }
}

/// Which official counts a query looks at.
pub struct OfficialScope<'a> {
    pub rows: &'a Vec<DailyUsageRow>,
    pub keys: &'a Vec<String>,
    pub from: &'a str,
    pub to: &'a str,
}

fn sum_official(scope: &OfficialScope, date: &str) -> (r: Option<i64>)
    ensures
        match (
            r,
            official_of(
                scope.rows@,
                scope.rows@.len() as int,
                scope.keys@,
                scope.from@,
                scope.to@,
                date@,
            ),
        ) {
            (Some(found), Some(sum)) => found == sum,
            (None, None) => true,
            _ => false,
        },
{
    let mut sum: Option<i64> = None;
    let mut i: usize = 0;
    while i < scope.rows.len()
        invariant
            i <= scope.rows@.len(),
            match (
                sum,
                official_of(
                    scope.rows@,
                    i as int,
                    scope.keys@,
                    scope.from@,
                    scope.to@,
                    date@,
                ),
            ) {
                (Some(found), Some(sum)) => found == sum,
                (None, None) => true,
                _ => false,
            },
        decreases scope.rows.len() - i,
    {
        let row = &scope.rows[i];
        if same_text(row.date.as_str(), date) && is_official_row(
            row,
            scope.keys,
            scope.from,
            scope.to,
        ) {
            let so_far: i64 = match sum {
                Some(sum) => sum,
                None => 0,
            };
            sum = Some(saturating_add(so_far, row.official_tokens.max(0)));
        }
        i += 1;
    }
    sum
}

fn find_unattributed(scope: &OfficialScope, date: &str, local: i64) -> (r: Option<i64>)
    requires
        local >= 0,
    ensures
        match (
            r,
            unattributed_of(
                scope.rows@,
                scope.keys@,
                scope.from@,
                scope.to@,
                date@,
                local as int,
            ),
        ) {
            (Some(found), Some(tokens)) => found == tokens,
            (None, None) => true,
            _ => false,
        },
{
    let mut best: Option<usize> = None;
    let mut i: usize = 0;
    while i < scope.rows.len()
        invariant
            i <= scope.rows@.len(),
            local >= 0,
            match (
                best,
                exceeding_row(
                    scope.rows@,
                    i as int,
                    scope.keys@,
                    scope.from@,
                    scope.to@,
                    date@,
                    local as int,
                ),
            ) {
                (Some(found), Some(at)) => found == at && found < i
                    && scope.rows@[at].official_tokens > local,
                (None, None) => true,
                _ => false,
            },
        decreases scope.rows.len() - i,
    {
        let row = &scope.rows[i];
        if row.official_tokens.max(0) > local && same_text(row.date.as_str(), date)
            && is_official_row(row, scope.keys, scope.from, scope.to) {
            best = match best {
                Some(at) => if comes_before(
                    row.account_key.as_str(),
                    scope.rows[at].account_key.as_str(),
                ) {
                    Some(at)
                } else {
                    Some(i)
                },
                None => Some(i),
            };
        }
        i += 1;
    }
    match best {
        Some(at) => Some(scope.rows[at].official_tokens - local),
        None => None,
    }
}

// ---------------------------------------------------------------------------
// Quota steps
// ---------------------------------------------------------------------------

/// A step of an account's primary quota.
#[derive(Debug)]
pub struct StepFacts {
    pub account_key: String,
    pub start_at: i64,
    pub end_at: i64,
    /// The day on which it ended.
    pub day: i64,
    pub start_percent: Percent,
    pub end_percent: Percent,
}

/// The mathematical value of [`StepFacts`].
#[verifier::ext_equal]
pub struct StepView {
    pub account_key: Seq<char>,
    pub start_at: int,
    pub end_at: int,
    pub day: int,
    pub start_percent: Percent,
    pub end_percent: Percent,
}

impl View for StepFacts {
    type V = StepView;

    open spec fn view(&self) -> StepView {
        StepView {
            account_key: self.account_key@,
            start_at: self.start_at as int,
            end_at: self.end_at as int,
            day: self.day as int,
            start_percent: self.start_percent,
            end_percent: self.end_percent,
        }
    }
}

pub open spec fn step_views(steps: Seq<StepFacts>) -> Seq<StepView> {
    Seq::new(steps.len(), |i: int| steps[i]@)
}

/// The turn began within the step.
pub open spec fn in_step(facts: FactsView, step: StepView) -> bool {
    &&& facts.account_key == step.account_key
    &&& step.start_at < facts.started_at <= step.end_at
}

/// The credits of the turns of a step.
pub open spec fn step_units(facts: Seq<FactsView>, n: int, step: StepView) -> int
    decreases n,
{
    if n <= 0 {
        0
    } else {
        let before = step_units(facts, n - 1, step);
        match facts[n - 1].units {
            Some(units) => if in_step(facts[n - 1], step) {
                clamp_i128(before + units)
            } else {
                before
            },
            None => before,
        }
    }
}

/// The step can be shared out among its turns: they cost something.
pub open spec fn is_shared_out(facts: Seq<FactsView>, step: StepView) -> bool {
    step_units(facts, facts.len() as int, step) > 0
}

fn sum_step(facts: &Vec<TurnFacts>, step: &StepFacts) -> (r: i128)
    ensures
        r == step_units(facts_views(facts@), facts@.len() as int, step@),
{
    let ghost views = facts_views(facts@);
    let mut sum: i128 = 0;
    let mut i: usize = 0;
    while i < facts.len()
        invariant
            i <= facts.len(),
            views == facts_views(facts@),
            sum == step_units(views, i as int, step@),
        decreases facts.len() - i,
    {
        let turn = &facts[i];
        assert(views[i as int] == turn@);
        if let Some(credits) = turn.credits {
            if turn.started_at > step.start_at && turn.started_at <= step.end_at && same_text(
                turn.account_key.as_str(),
                step.account_key.as_str(),
            ) {
                sum = saturating_add_wide(sum, credits.units);
            }
        }
        i += 1;
    }
    sum
}

/// Sharing out the step gives something to the category of the day.
pub open spec fn step_touches(
    facts: Seq<FactsView>,
    step: StepView,
    day: int,
    name: Seq<char>,
) -> bool {
    if is_shared_out(facts, step) {
        exists|j: int|
            0 <= j < facts.len() && in_step(#[trigger] facts[j], step) && facts[j].day == day
                && facts[j].category == name
    } else {
        step.day == day && name == UNATTRIBUTED@
    }
}

/// The category that holds what nothing accounts for.
pub const UNATTRIBUTED: &'static str = "Unattributed";

/// A part of a step goes to a turn: `credits` of `whole` of it.
#[derive(Clone, Copy, Debug, PartialEq, Eq, Structural)]
pub struct StepShare {
    pub step: usize,
    pub turn: usize,
    pub credits: Credits,
    pub whole: Credits,
}

/// The shares of one step among the first `n` turns.
pub open spec fn shares_of_step(
    facts: Seq<FactsView>,
    n: int,
    step: StepView,
    index: usize,
) -> Seq<StepShare>
    decreases n,
{
    if n <= 0 || !is_shared_out(facts, step) {
        Seq::empty()
    } else {
        let before = shares_of_step(facts, n - 1, step, index);
        if in_step(facts[n - 1], step) {
            before.push(
                StepShare {
                    step: index,
                    turn: (n - 1) as usize,
                    credits: Credits {
                        units: match facts[n - 1].units {
                            Some(units) => units as i128,
                            None => 0,
                        },
                    },
                    whole: Credits {
                        units: step_units(facts, facts.len() as int, step) as i128,
                    },
                },
            )
        } else {
            before
        }
    }
}

/// The shares of the first `n` steps.
pub open spec fn shares_of_steps(
    facts: Seq<FactsView>,
    steps: Seq<StepView>,
    n: int,
) -> Seq<StepShare>
    decreases n,
{
    if n <= 0 {
        Seq::empty()
    } else {
        shares_of_steps(facts, steps, n - 1) + shares_of_step(
            facts,
            facts.len() as int,
            steps[n - 1],
            (n - 1) as usize,
        )
    }
}

/// How the steps are shared out: by what the turns within each cost, never by their tokens.
/// A step that no turn accounts for has no share.
pub fn share_out_steps(facts: &Vec<TurnFacts>, steps: &Vec<StepFacts>) -> (r: Vec<StepShare>)
    ensures
        r@ == shares_of_steps(facts_views(facts@), step_views(steps@), steps@.len() as int),
{
    let ghost views = facts_views(facts@);
    let ghost all = step_views(steps@);
    let mut r: Vec<StepShare> = Vec::new();
    let mut k: usize = 0;
    while k < steps.len()
        invariant
            k <= steps.len(),
            views == facts_views(facts@),
            all == step_views(steps@),
            r@ == shares_of_steps(views, all, k as int),
        decreases steps.len() - k,
    {
        let step = &steps[k];
        assert(all[k as int] == step@);
        let whole: i128 = sum_step(facts, step);
        let ghost before = r@;
        if whole > 0 {
            let mut i: usize = 0;
            assert(shares_of_step(views, 0, step@, k) =~= Seq::empty());
            while i < facts.len()
                invariant
                    i <= facts.len(),
                    views == facts_views(facts@),
                    whole == step_units(views, views.len() as int, step@),
                    whole > 0,
                    r@ =~= before + shares_of_step(views, i as int, step@, k),
                decreases facts.len() - i,
            {
                let turn = &facts[i];
                assert(views[i as int] == turn@);
                if turn.started_at > step.start_at && turn.started_at <= step.end_at && same_text(
                    turn.account_key.as_str(),
                    step.account_key.as_str(),
                ) {
                    r.push(
                        StepShare {
                            step: k,
                            turn: i,
                            credits: match turn.credits {
                                Some(credits) => credits,
                                None => Credits { units: 0 },
                            },
                            whole: Credits { units: whole },
                        },
                    );
                }
                i += 1;
            }
        }
        assert(r@ =~= before + shares_of_step(views, views.len() as int, step@, k));
        k += 1;
    }
    r
}

pub open spec fn shared_units(shares: Seq<StepShare>) -> int
    decreases shares.len(),
{
    if shares.len() == 0 {
        0
    } else {
        shared_units(shares.drop_last()) + shares.last().credits.units
    }
}

proof fn lemma_step_units_grow(facts: Seq<FactsView>, n: int, m: int, step: StepView)
    requires
        0 <= n <= m <= facts.len(),
        forall|i: int|
            0 <= i < facts.len() ==> ((#[trigger] facts[i]).units matches Some(units) ==> 0 <= units
                <= i128::MAX),
    ensures
        0 <= step_units(facts, n, step) <= step_units(facts, m, step) <= i128::MAX,
    decreases m,
{
    if m > n {
        lemma_step_units_grow(facts, n, m - 1, step);
        assert(facts[m - 1].units matches Some(units) ==> 0 <= units <= i128::MAX);
    } else if n > 0 {
        lemma_step_units_grow(facts, n - 1, n - 1, step);
        assert(facts[n - 1].units matches Some(units) ==> 0 <= units <= i128::MAX);
    }
}

/// A step that is shared out is shared out wholly: its shares add up to the whole.
pub proof fn lemma_step_is_shared_out_wholly(
    facts: Seq<FactsView>,
    n: int,
    step: StepView,
    index: usize,
)
    requires
        0 <= n <= facts.len(),
        is_shared_out(facts, step),
        step_units(facts, facts.len() as int, step) < i128::MAX,
        forall|i: int|
            0 <= i < facts.len() ==> ((#[trigger] facts[i]).units matches Some(units) ==> 0 <= units
                <= i128::MAX),
    ensures
        shared_units(shares_of_step(facts, n, step, index)) == step_units(facts, n, step),
    decreases n,
{
    if n > 0 {
        lemma_step_is_shared_out_wholly(facts, n - 1, step, index);
        lemma_step_units_grow(facts, n, facts.len() as int, step);
        lemma_step_units_grow(facts, n - 1, n, step);
        let before = shares_of_step(facts, n - 1, step, index);
        let after = shares_of_step(facts, n, step, index);
        assert(facts[n - 1].units matches Some(units) ==> 0 <= units <= i128::MAX);
        if in_step(facts[n - 1], step) {
            assert(after.drop_last() =~= before);
        }
    }
}

// ---------------------------------------------------------------------------
// Days
// ---------------------------------------------------------------------------

/// What the first `n` turns of a day add up to.
pub open spec fn local_of(facts: Seq<FactsView>, n: int, day: int) -> int
    decreases n,
{
    if n <= 0 {
        0
    } else {
        let before = local_of(facts, n - 1, day);
        if facts[n - 1].day == day {
            clamp_i64(before + max_int(facts[n - 1].usage.raw_total_tokens as int, 0))
        } else {
            before
        }
    }
}

pub open spec fn turns_on(facts: Seq<FactsView>, n: int, day: int) -> nat
    decreases n,
{
    if n <= 0 {
        0
    } else {
        turns_on(facts, n - 1, day) + if facts[n - 1].day == day {
            1nat
        } else {
            0nat
        }
    }
}

/// What the turns cost, where any of them has a price.
pub open spec fn units_on(facts: Seq<FactsView>, n: int, day: int) -> Option<int>
    decreases n,
{
    if n <= 0 {
        None
    } else {
        let before = units_on(facts, n - 1, day);
        match facts[n - 1].units {
            Some(units) => if facts[n - 1].day == day {
                Some(
                    match before {
                        Some(sum) => clamp_i128(sum + units),
                        None => clamp_i128(units),
                    },
                )
            } else {
                before
            },
            None => before,
        }
    }
}

/// What a category used on a day.
#[derive(Debug)]
pub struct DayCategory {
    pub name: String,
    pub aggregate: Aggregate,
}

/// A day of the range.
#[derive(Debug)]
pub struct DayUsage {
    pub day: i64,
    pub date: String,
    pub local_tokens: i64,
    pub official_tokens: Option<i64>,
    pub credits: Option<Credits>,
    pub turn_count: usize,
    pub categories: Vec<DayCategory>,
}

/// Something is said of the category on the day.
pub open spec fn is_shown(
    facts: Seq<FactsView>,
    steps: Seq<StepView>,
    unattributed: Option<int>,
    day: int,
    name: Seq<char>,
    by_kind: bool,
) -> bool {
    ||| some_part(facts, facts.len() as int, day, name, by_kind)
    ||| name == UNATTRIBUTED@ && unattributed is Some
    ||| some_step(facts, steps, steps.len() as int, day, name)
}

pub open spec fn some_part(
    facts: Seq<FactsView>,
    n: int,
    day: int,
    name: Seq<char>,
    by_kind: bool,
) -> bool {
    exists|i: int|
        0 <= i < n && (#[trigger] facts[i]).day == day && part_of(facts[i], by_kind, name) is Some
}

pub open spec fn some_step(
    facts: Seq<FactsView>,
    steps: Seq<StepView>,
    n: int,
    day: int,
    name: Seq<char>,
) -> bool {
    exists|k: int| 0 <= k < n && step_touches(facts, #[trigger] steps[k], day, name)
}

/// What a category used on a day: what its turns did, or, where an official count goes beyond
/// them, what that leaves unexplained.
pub open spec fn shown_aggregate(
    facts: Seq<FactsView>,
    unattributed: Option<int>,
    day: int,
    name: Seq<char>,
    by_kind: bool,
) -> AggregateView {
    let found = aggregate_of(facts, facts.len() as int, day, name, by_kind);
    match unattributed {
        Some(tokens) => if name == UNATTRIBUTED@ {
            AggregateView { raw_tokens: tokens, ..found }
        } else {
            found
        },
        None => found,
    }
}

/// The categories stand in their order, are those of which something is said, and hold what
/// is said.
pub open spec fn are_categories(
    categories: Seq<DayCategory>,
    facts: Seq<FactsView>,
    steps: Seq<StepView>,
    unattributed: Option<int>,
    day: int,
    by_kind: bool,
) -> bool {
    &&& categories_ascend(categories)
    &&& forall|name: Seq<char>| #[trigger]
        names_category(categories, name) <==> is_shown(
            facts,
            steps,
            unattributed,
            day,
            name,
            by_kind,
        )
    &&& forall|k: int|
        0 <= k < categories.len() ==> (#[trigger] categories[k]).aggregate@ == shown_aggregate(
            facts,
            unattributed,
            day,
            categories[k].name@,
            by_kind,
        )
}

pub open spec fn categories_ascend(categories: Seq<DayCategory>) -> bool {
    forall|i: int, j: int|
        0 <= i < j < categories.len() ==> precedes(
            (#[trigger] categories[i]).name@,
            (#[trigger] categories[j]).name@,
        )
}

pub open spec fn names_category(categories: Seq<DayCategory>, name: Seq<char>) -> bool {
    exists|k: int| 0 <= k < categories.len() && (#[trigger] categories[k]).name@ == name
}

/// The kinds of tokens that are told apart.
pub open spec fn is_kind(name: Seq<char>) -> bool {
    name == "输入"@ || name == "缓存输入"@ || name == "输出"@ || name == "推理"@
}

fn add_part_names(names: &mut Vec<String>, facts: &TurnFacts, by_kind: bool)
    requires
        ascending(old(names)@),
    ensures
        ascending(final(names)@),
        forall|name: Seq<char>| #[trigger]
            lists(final(names)@, name) <==> lists(old(names)@, name) || part_of(
                facts@,
                by_kind,
                name,
            ) is Some,
{
    if !by_kind {
        add_name(names, facts.category.as_str());
    } else {
        if read_part(facts, by_kind, "输入").is_some() {
            add_name(names, "输入");
        }
        if read_part(facts, by_kind, "缓存输入").is_some() {
            add_name(names, "缓存输入");
        }
        if read_part(facts, by_kind, "输出").is_some() {
            add_name(names, "输出");
        }
        if read_part(facts, by_kind, "推理").is_some() {
            add_name(names, "推理");
        }
        assert forall|name: Seq<char>| part_of(facts@, by_kind, name) is Some implies is_kind(
            name,
        ) by {}
    }
}

fn add_step_names(
    names: &mut Vec<String>,
    facts: &Vec<TurnFacts>,
    step: &StepFacts,
    day: i64,
)
    requires
        ascending(old(names)@),
    ensures
        ascending(final(names)@),
        forall|name: Seq<char>| #[trigger]
            lists(final(names)@, name) <==> lists(old(names)@, name) || step_touches(
                facts_views(facts@),
                step@,
                day as int,
                name,
            ),
{
    let ghost views = facts_views(facts@);
    let ghost before = names@;
    if sum_step(facts, step) > 0 {
        let mut i: usize = 0;
        while i < facts.len()
            invariant
                i <= facts.len(),
                views == facts_views(facts@),
                ascending(names@),
                forall|name: Seq<char>| #[trigger]
                    lists(names@, name) <==> lists(before, name) || exists|j: int|
                        0 <= j < i && in_step(#[trigger] views[j], step@) && views[j].day == day
                            && views[j].category == name,
            decreases facts.len() - i,
        {
            let turn = &facts[i];
            assert(views[i as int] == turn@);
            let ghost so_far = names@;
            if turn.day == day && turn.started_at > step.start_at && turn.started_at
                <= step.end_at && same_text(
                turn.account_key.as_str(),
                step.account_key.as_str(),
            ) {
                add_name(names, turn.category.as_str());
                assert(in_step(views[i as int], step@) && views[i as int].day == day);
            }
            assert forall|name: Seq<char>| #[trigger]
                lists(names@, name) <==> lists(before, name) || exists|j: int|
                    0 <= j < i + 1 && in_step(#[trigger] views[j], step@) && views[j].day == day
                        && views[j].category == name by {
                assert(lists(so_far, name) <==> lists(before, name) || exists|j: int|
                    0 <= j < i && in_step(#[trigger] views[j], step@) && views[j].day == day
                        && views[j].category == name);
            }
            i += 1;
        }
    } else if step.day == day {
        add_name(names, UNATTRIBUTED);
    }
}

/// The names of the categories of which something is said on a day.
fn day_names(
    facts: &Vec<TurnFacts>,
    steps: &Vec<StepFacts>,
    unattributed: Option<i64>,
    day: i64,
    by_kind: bool,
) -> (r: Vec<String>)
    ensures
        ascending(r@),
        forall|name: Seq<char>| #[trigger]
            lists(r@, name) <==> is_shown(
                facts_views(facts@),
                step_views(steps@),
                match unattributed {
                    Some(tokens) => Some(tokens as int),
                    None => None,
                },
                day as int,
                name,
                by_kind,
            ),
{
    let ghost views = facts_views(facts@);
    let ghost all = step_views(steps@);
    let mut names: Vec<String> = Vec::new();
    let mut i: usize = 0;
    while i < facts.len()
        invariant
            i <= facts.len(),
            views == facts_views(facts@),
            ascending(names@),
            forall|name: Seq<char>| #[trigger]
                lists(names@, name) <==> some_part(views, i as int, day as int, name, by_kind),
        decreases facts.len() - i,
    {
        let ghost before = names@;
        assert(views[i as int] == facts@[i as int]@);
        if facts[i].day == day {
            add_part_names(&mut names, &facts[i], by_kind);
        }
        assert forall|name: Seq<char>| #[trigger]
            lists(names@, name) <==> some_part(views, i + 1, day as int, name, by_kind) by {
            assert(lists(before, name) <==> some_part(views, i as int, day as int, name, by_kind));
            if some_part(views, i as int, day as int, name, by_kind) {
                let k = choose|k: int|
                    0 <= k < i && (#[trigger] views[k]).day == day && part_of(
                        views[k],
                        by_kind,
                        name,
                    ) is Some;
                assert(views[k].day == day);
            }
            if views[i as int].day == day && part_of(views[i as int], by_kind, name) is Some {
                assert(some_part(views, i + 1, day as int, name, by_kind));
            }
        }
        i += 1;
    }
    if unattributed.is_some() {
        add_name(&mut names, UNATTRIBUTED);
    }
    let ghost base = names@;
    let mut k: usize = 0;
    while k < steps.len()
        invariant
            k <= steps.len(),
            views == facts_views(facts@),
            all == step_views(steps@),
            ascending(names@),
            forall|name: Seq<char>| #[trigger]
                lists(names@, name) <==> lists(base, name) || some_step(
                    views,
                    all,
                    k as int,
                    day as int,
                    name,
                ),
        decreases steps.len() - k,
    {
        let ghost before = names@;
        assert(all[k as int] == steps@[k as int]@);
        add_step_names(&mut names, facts, &steps[k], day);
        assert forall|name: Seq<char>| #[trigger]
            lists(names@, name) <==> lists(base, name) || some_step(
                views,
                all,
                k + 1,
                day as int,
                name,
            ) by {
            assert(lists(before, name) <==> lists(base, name) || some_step(
                views,
                all,
                k as int,
                day as int,
                name,
            ));
            if some_step(views, all, k as int, day as int, name) {
                let m = choose|m: int|
                    0 <= m < k && step_touches(views, #[trigger] all[m], day as int, name);
                assert(step_touches(views, all[m], day as int, name));
            }
            if step_touches(views, all[k as int], day as int, name) {
                assert(some_step(views, all, k + 1, day as int, name));
            }
        }
        k += 1;
    }
    names
}

fn day_categories(
    facts: &Vec<TurnFacts>,
    steps: &Vec<StepFacts>,
    unattributed: Option<i64>,
    day: i64,
    by_kind: bool,
) -> (r: Vec<DayCategory>)
    ensures
        are_categories(
            r@,
            facts_views(facts@),
            step_views(steps@),
            match unattributed {
                Some(tokens) => Some(tokens as int),
                None => None,
            },
            day as int,
            by_kind,
        ),
{
    let ghost left = match unattributed {
        Some(tokens) => Some(tokens as int),
        None => None,
    };
    let ghost views = facts_views(facts@);
    let names = day_names(facts, steps, unattributed, day, by_kind);
    let ghost listed = names@;
    let mut r: Vec<DayCategory> = Vec::new();
    for name in iter: names
        invariant
            iter.seq() == listed,
            r@.len() == iter.index(),
            views == facts_views(facts@),
            left == match unattributed {
                Some(tokens) => Some(tokens as int),
                None => None,
            },
            forall|k: int|
                0 <= k < r@.len() ==> (#[trigger] r@[k]).name == listed[k] && r@[k].aggregate@
                    == shown_aggregate(views, left, day as int, r@[k].name@, by_kind),
    {
        let mut aggregate = aggregate_day(facts, day, name.as_str(), by_kind);
        let ghost found = aggregate@;
        if let Some(tokens) = unattributed {
            if same_text(name.as_str(), UNATTRIBUTED) {
                aggregate.raw_tokens = tokens;
                assert(aggregate@ =~= (AggregateView { raw_tokens: tokens as int, ..found }));
            }
        }
        r.push(DayCategory { name, aggregate });
    }
    proof {
        assert forall|i: int, j: int| 0 <= i < j < r@.len() implies precedes(
            (#[trigger] r@[i]).name@,
            (#[trigger] r@[j]).name@,
        ) by {
            assert(precedes(listed[i]@, listed[j]@));
        }
        assert forall|name: Seq<char>| #[trigger]
            names_category(r@, name) <==> is_shown(
                views,
                step_views(steps@),
                left,
                day as int,
                name,
                by_kind,
            ) by {
            if lists(listed, name) {
                let k = choose|k: int| 0 <= k < listed.len() && (#[trigger] listed[k])@ == name;
                assert(r@[k].name@ == name);
            }
            if names_category(r@, name) {
                let k = choose|k: int| 0 <= k < r@.len() && (#[trigger] r@[k]).name@ == name;
                assert(listed[k]@ == name);
                assert(lists(listed, name));
            }
        }
    }
    r
}

fn sum_local(facts: &Vec<TurnFacts>, day: i64) -> (r: (i64, usize, Option<Credits>))
    ensures
        r.0 == local_of(facts_views(facts@), facts@.len() as int, day as int),
        r.0 >= 0,
        r.1 == turns_on(facts_views(facts@), facts@.len() as int, day as int),
        units_of(r.2) == units_on(facts_views(facts@), facts@.len() as int, day as int),
{
    let ghost views = facts_views(facts@);
    let mut tokens: i64 = 0;
    let mut count: usize = 0;
    let mut credits: Option<Credits> = None;
    let mut i: usize = 0;
    while i < facts.len()
        invariant
            i <= facts.len(),
            views == facts_views(facts@),
            tokens == local_of(views, i as int, day as int),
            tokens >= 0,
            count <= i,
            count == turns_on(views, i as int, day as int),
            units_of(credits) == units_on(views, i as int, day as int),
        decreases facts.len() - i,
    {
        let turn = &facts[i];
        assert(views[i as int] == turn@);
        if turn.day == day {
            tokens = saturating_add(tokens, turn.usage.raw_total_tokens.max(0));
            count += 1;
            if let Some(price) = turn.credits {
                credits = Some(
                    match credits {
                        Some(sum) => Credits { units: saturating_add_wide(sum.units, price.units) },
                        None => price,
                    },
                );
            }
        }
        i += 1;
    }
    (tokens, count, credits)
}

/// What is said of a day.
pub open spec fn is_day(
    usage: DayUsage,
    facts: Seq<FactsView>,
    steps: Seq<StepView>,
    rows: Seq<DailyUsageRow>,
    keys: Seq<String>,
    from: Seq<char>,
    to: Seq<char>,
    by_kind: bool,
) -> bool {
    let n = facts.len() as int;
    let day = usage.day as int;
    let date = usage.date@;
    &&& usage.local_tokens == local_of(facts, n, day)
    &&& usage.turn_count == turns_on(facts, n, day)
    &&& units_of(usage.credits) == units_on(facts, n, day)
    &&& match (usage.official_tokens, official_of(rows, rows.len() as int, keys, from, to, date)) {
        (Some(found), Some(sum)) => found == sum,
        (None, None) => true,
        _ => false,
    }
    &&& are_categories(
        usage.categories@,
        facts,
        steps,
        unattributed_of(rows, keys, from, to, date, usage.local_tokens as int),
        day,
        by_kind,
    )
}

/// What is said of a day.
pub fn day_usage(
    facts: &Vec<TurnFacts>,
    steps: &Vec<StepFacts>,
    scope: &OfficialScope,
    day: i64,
    date: String,
    by_kind: bool,
) -> (r: DayUsage)
    ensures
        r.day == day,
        r.date == date,
        is_day(
            r,
            facts_views(facts@),
            step_views(steps@),
            scope.rows@,
            scope.keys@,
            scope.from@,
            scope.to@,
            by_kind,
        ),
{
    let (local_tokens, turn_count, credits) = sum_local(facts, day);
    let official_tokens = sum_official(scope, date.as_str());
    let unattributed = find_unattributed(scope, date.as_str(), local_tokens);
    let categories = day_categories(facts, steps, unattributed, day, by_kind);
    DayUsage { day, date, local_tokens, official_tokens, credits, turn_count, categories }
}

/// The point of a day: its counts, and what of the official one nothing local explains.
pub fn point_of(day: &DayUsage) -> (r: UsageAnalyticsPoint)
    requires
        day.local_tokens >= 0,
    ensures
        r.date@ == day.date@,
        r.official_tokens == day.official_tokens,
        r.local_tokens == day.local_tokens,
        r.unattributed_tokens == match day.official_tokens {
            Some(official) => max_int(clamp_i64(official - day.local_tokens), 0),
            None => 0,
        },
        r.category_values@.len() == day.categories@.len(),
        forall|k: int|
            0 <= k < r.category_values@.len() ==> (#[trigger] r.category_values@[k]).0@
                == day.categories@[k].name@ && r.category_values@[k].1
                == day.categories@[k].aggregate.raw_tokens,
{
    let unattributed: i64 = match day.official_tokens {
        Some(official) => saturating_sub(official, day.local_tokens).max(0),
        None => 0,
    };
    let mut values: Vec<(String, i64)> = Vec::new();
    let mut k: usize = 0;
    while k < day.categories.len()
        invariant
            k <= day.categories@.len(),
            values@.len() == k,
            forall|j: int|
                0 <= j < k ==> (#[trigger] values@[j]).0@ == day.categories@[j].name@
                    && values@[j].1 == day.categories@[j].aggregate.raw_tokens,
        decreases day.categories.len() - k,
    {
        values.push((day.categories[k].name.clone(), day.categories[k].aggregate.raw_tokens));
        k += 1;
    }
    UsageAnalyticsPoint {
        date: day.date.clone(),
        official_tokens: day.official_tokens,
        local_tokens: day.local_tokens,
        unattributed_tokens: unattributed,
        category_values: values,
    }
}

// ---------------------------------------------------------------------------
// The steps of a range
// ---------------------------------------------------------------------------

impl Ranked for StepFacts {
    open spec fn behind(self, other: StepFacts) -> bool {
        self.end_at > other.end_at
    }

    fn goes_behind(&self, other: &StepFacts) -> (r: bool) {
        self.end_at > other.end_at
    }

    proof fn behind_is_order(a: StepFacts, b: StepFacts, c: StepFacts) {
    }
}

pub open spec fn step_of(
    account_key: String,
    interval: QuotaInterval,
    offset: int,
    now: int,
) -> StepFacts {
    StepFacts {
        account_key,
        start_at: interval.start_at,
        end_at: interval.end_at,
        day: day_of(interval.end_at as int, offset, now) as i64,
        start_percent: interval.start_percent,
        end_percent: interval.end_percent,
    }
}

/// The steps of a bucket that reach into the range, among the first `n`.
pub open spec fn bucket_steps(
    bucket: BucketIntervals,
    n: int,
    range: DateRange,
    now: int,
) -> Seq<StepFacts>
    decreases n,
{
    if n <= 0 {
        Seq::empty()
    } else {
        let before = bucket_steps(bucket, n - 1, range, now);
        let interval = bucket.intervals@[n - 1];
        if interval.end_at > range.start && interval.start_at < range.end {
            before.push(step_of(bucket.account_key, interval, range.offset as int, now))
        } else {
            before
        }
    }
}

/// The steps of the accounts' primary buckets that reach into the range, among the first `n`.
pub open spec fn range_steps(
    buckets: Seq<BucketIntervals>,
    n: int,
    keys: Seq<String>,
    range: DateRange,
    now: int,
) -> Seq<StepFacts>
    decreases n,
{
    if n <= 0 {
        Seq::empty()
    } else {
        let before = range_steps(buckets, n - 1, keys, range, now);
        let bucket = buckets[n - 1];
        if bucket.window@ == "primary"@ && lists(keys, bucket.account_key@) {
            before + bucket_steps(bucket, bucket.intervals@.len() as int, range, now)
        } else {
            before
        }
    }
}

/// The steps of the accounts' primary quotas that reach into the range, by when they ended.
pub fn load_intervals(
    buckets: &Vec<BucketIntervals>,
    keys: &Vec<String>,
    range: DateRange,
    now: i64,
) -> (r: Vec<StepFacts>)
    ensures
        r@ == sorted(range_steps(buckets@, buckets@.len() as int, keys@, range, now as int)),
{
    let mut steps: Vec<StepFacts> = Vec::new();
    let mut b: usize = 0;
    while b < buckets.len()
        invariant
            b <= buckets.len(),
            steps@ == range_steps(buckets@, b as int, keys@, range, now as int),
        decreases buckets.len() - b,
    {
        let bucket = &buckets[b];
        let ghost before = steps@;
        if same_text(bucket.window.as_str(), "primary") && has_name(
            keys,
            bucket.account_key.as_str(),
        ) {
            let mut i: usize = 0;
            assert(bucket_steps(*bucket, 0, range, now as int) =~= Seq::empty());
            while i < bucket.intervals.len()
                invariant
                    i <= bucket.intervals@.len(),
                    steps@ =~= before + bucket_steps(*bucket, i as int, range, now as int),
                decreases bucket.intervals.len() - i,
            {
                let interval = &bucket.intervals[i];
                if interval.end_at > range.start && interval.start_at < range.end {
                    let step = StepFacts {
                        account_key: bucket.account_key.clone(),
                        start_at: interval.start_at,
                        end_at: interval.end_at,
                        day: date_for(interval.end_at, range.offset, now),
                        start_percent: interval.start_percent,
                        end_percent: interval.end_percent,
                    };
                    assert(step == step_of(
                        bucket.account_key,
                        *interval,
                        range.offset as int,
                        now as int,
                    ));
                    steps.push(step);
                }
                i += 1;
            }
        }
        b += 1;
    }
    sort_rows(steps)
}

// ---------------------------------------------------------------------------
// The breakdown over the range
// ---------------------------------------------------------------------------

pub open spec fn is_named(name: Seq<char>) -> spec_fn(DayCategory) -> bool {
    |category: DayCategory| category.name@ == name
}

pub open spec fn category_at(categories: Seq<DayCategory>, name: Seq<char>) -> Option<int> {
    first_where(categories, is_named(name))
}

/// What a category used over the days.
#[derive(Debug)]
pub struct BreakdownItem {
    pub name: String,
    pub raw_tokens: i128,
    pub shares: Vec<CreditShare>,
    pub turn_count: u128,
}

/// The mathematical value of what a [`BreakdownItem`] counts.
#[verifier::ext_equal]
pub struct BreakdownView {
    pub raw_tokens: int,
    pub shares: Seq<CreditShare>,
    pub turn_count: int,
}

impl BreakdownItem {
    pub open spec fn counts(self) -> BreakdownView {
        BreakdownView {
            raw_tokens: self.raw_tokens as int,
            shares: self.shares@,
            turn_count: self.turn_count as int,
        }
    }

    /// How sure the count is. Whether its turns were sure is not asked here.
    pub fn confidence(&self) -> (r: Confidence)
        ensures
            r == aggregate_confidence(self.turn_count as int, false),
    {
        if self.turn_count == 0 {
            Confidence::Unknown
        } else if self.turn_count == 1 {
            Confidence::High
        } else {
            Confidence::Medium
        }
    }
}

/// What a category used over the first `n` days.
pub open spec fn breakdown_of(days: Seq<DayUsage>, n: int, name: Seq<char>) -> BreakdownView
    decreases n,
{
    if n <= 0 {
        BreakdownView { raw_tokens: 0, shares: Seq::empty(), turn_count: 0 }
    } else {
        let before = breakdown_of(days, n - 1, name);
        let categories = days[n - 1].categories@;
        match category_at(categories, name) {
            Some(at) => {
                let found = categories[at].aggregate@;
                BreakdownView {
                    raw_tokens: before.raw_tokens + found.raw_tokens,
                    shares: before.shares + found.shares,
                    turn_count: before.turn_count + found.turn_count,
                }
            },
            None => before,
        }
    }
}

fn find_category(categories: &Vec<DayCategory>, name: &str) -> (r: Option<usize>)
    ensures
        match (r, category_at(categories@, name@)) {
            (Some(found), Some(at)) => found == at && found < categories@.len(),
            (None, None) => true,
            _ => false,
        },
{
    let ghost pick = is_named(name@);
    let mut i: usize = 0;
    while i < categories.len()
        invariant
            i <= categories.len(),
            pick == is_named(name@),
            forall|k: int| 0 <= k < i ==> !pick(#[trigger] categories@[k]),
        decreases categories.len() - i,
    {
        if same_text(categories[i].name.as_str(), name) {
            proof {
                lemma_first_where_at(categories@, pick, i as int);
            }
            return Some(i);
        }
        i += 1;
    }
    proof {
        lemma_first_where_none(categories@, pick);
    }
    None
}

fn sum_breakdown(days: &Vec<DayUsage>, name: String) -> (r: BreakdownItem)
    ensures
        r.name == name,
        r.counts() == breakdown_of(days@, days@.len() as int, name@),
{
    let mut raw_tokens: i128 = 0;
    let mut shares: Vec<CreditShare> = Vec::new();
    let mut turn_count: u128 = 0;
    let mut i: usize = 0;
    while i < days.len()
        invariant
            i <= days.len(),
            raw_tokens == breakdown_of(days@, i as int, name@).raw_tokens,
            shares@ == breakdown_of(days@, i as int, name@).shares,
            turn_count == breakdown_of(days@, i as int, name@).turn_count,
            -(i * 0x8000_0000_0000_0000) <= raw_tokens <= i * 0x7fff_ffff_ffff_ffff,
            turn_count <= i * 0xffff_ffff_ffff_ffff,
        decreases days.len() - i,
    {
        if let Some(at) = find_category(&days[i].categories, name.as_str()) {
            let found = &days[i].categories[at].aggregate;
            raw_tokens = raw_tokens + found.raw_tokens as i128;
            turn_count = turn_count + found.turn_count as u128;
            let ghost before = shares@;
            let mut k: usize = 0;
            while k < found.shares.len()
                invariant
                    k <= found.shares@.len(),
                    shares@ =~= before + found.shares@.take(k as int),
                decreases found.shares.len() - k,
            {
                shares.push(found.shares[k]);
                assert(found.shares@.take(k + 1) =~= found.shares@.take(k as int).push(
                    found.shares@[k as int],
                ));
                k += 1;
            }
            assert(found.shares@.take(found.shares@.len() as int) =~= found.shares@);
        }
        i += 1;
    }
    BreakdownItem { name, raw_tokens, shares, turn_count }
}

/// A step of which no turn takes a share.
pub open spec fn some_unshared(facts: Seq<FactsView>, steps: Seq<StepView>, n: int) -> bool {
    exists|k: int| 0 <= k < n && !is_shared_out(facts, #[trigger] steps[k])
}

/// The category is one of the breakdown: something was said of it on a day, or a step is
/// accounted for by nothing.
pub open spec fn in_breakdown(
    days: Seq<DayUsage>,
    n: int,
    facts: Seq<FactsView>,
    steps: Seq<StepView>,
    name: Seq<char>,
) -> bool {
    ||| some_day_names(days, n, name)
    ||| name == UNATTRIBUTED@ && some_unshared(facts, steps, steps.len() as int)
}

pub open spec fn some_day_names(days: Seq<DayUsage>, n: int, name: Seq<char>) -> bool {
    exists|i: int| 0 <= i < n && names_category((#[trigger] days[i]).categories@, name)
}

/// The breakdown stands in the order of the names, holds those of which something was said,
/// and for each what the days add up to.
pub open spec fn is_breakdown(
    items: Seq<BreakdownItem>,
    days: Seq<DayUsage>,
    facts: Seq<FactsView>,
    steps: Seq<StepView>,
) -> bool {
    &&& forall|i: int, j: int|
        0 <= i < j < items.len() ==> precedes(
            (#[trigger] items[i]).name@,
            (#[trigger] items[j]).name@,
        )
    &&& forall|name: Seq<char>| #[trigger]
        names_item(items, name) <==> in_breakdown(days, days.len() as int, facts, steps, name)
    &&& forall|k: int|
        0 <= k < items.len() ==> (#[trigger] items[k]).counts() == breakdown_of(
            days,
            days.len() as int,
            items[k].name@,
        )
}

pub open spec fn names_item(items: Seq<BreakdownItem>, name: Seq<char>) -> bool {
    exists|k: int| 0 <= k < items.len() && (#[trigger] items[k]).name@ == name
}

fn has_unshared(facts: &Vec<TurnFacts>, steps: &Vec<StepFacts>) -> (r: bool)
    ensures
        r == some_unshared(facts_views(facts@), step_views(steps@), steps@.len() as int),
{
    let ghost views = facts_views(facts@);
    let ghost all = step_views(steps@);
    let mut k: usize = 0;
    while k < steps.len()
        invariant
            k <= steps.len(),
            views == facts_views(facts@),
            all == step_views(steps@),
            forall|j: int| 0 <= j < k ==> is_shared_out(views, #[trigger] all[j]),
        decreases steps.len() - k,
    {
        assert(all[k as int] == steps@[k as int]@);
        if sum_step(facts, &steps[k]) <= 0 {
            assert(!is_shared_out(views, all[k as int]));
            return true;
        }
        k += 1;
    }
    false
}

fn add_category_names(names: &mut Vec<String>, categories: &Vec<DayCategory>)
    requires
        ascending(old(names)@),
    ensures
        ascending(final(names)@),
        forall|name: Seq<char>| #[trigger]
            lists(final(names)@, name) <==> lists(old(names)@, name) || names_category(
                categories@,
                name,
            ),
{
    let ghost before = names@;
    let mut k: usize = 0;
    while k < categories.len()
        invariant
            k <= categories.len(),
            ascending(names@),
            forall|name: Seq<char>| #[trigger]
                lists(names@, name) <==> lists(before, name) || exists|j: int|
                    0 <= j < k && (#[trigger] categories@[j]).name@ == name,
        decreases categories.len() - k,
    {
        let ghost so_far = names@;
        add_name(names, categories[k].name.as_str());
        assert forall|name: Seq<char>| #[trigger]
            lists(names@, name) <==> lists(before, name) || exists|j: int|
                0 <= j < k + 1 && (#[trigger] categories@[j]).name@ == name by {
            assert(lists(so_far, name) <==> lists(before, name) || exists|j: int|
                0 <= j < k && (#[trigger] categories@[j]).name@ == name);
            if categories@[k as int].name@ == name {
                assert(lists(names@, name));
            }
        }
        k += 1;
    }
}

/// The breakdown of the days.
pub fn break_down(
    days: &Vec<DayUsage>,
    facts: &Vec<TurnFacts>,
    steps: &Vec<StepFacts>,
) -> (r: Vec<BreakdownItem>)
    ensures
        is_breakdown(r@, days@, facts_views(facts@), step_views(steps@)),
{
    let ghost views = facts_views(facts@);
    let ghost all = step_views(steps@);
    let mut names: Vec<String> = Vec::new();
    let mut i: usize = 0;
    while i < days.len()
        invariant
            i <= days.len(),
            ascending(names@),
            forall|name: Seq<char>| #[trigger]
                lists(names@, name) <==> some_day_names(days@, i as int, name),
        decreases days.len() - i,
    {
        let ghost before = names@;
        add_category_names(&mut names, &days[i].categories);
        assert forall|name: Seq<char>| #[trigger]
            lists(names@, name) <==> some_day_names(days@, i + 1, name) by {
            assert(lists(before, name) <==> some_day_names(days@, i as int, name));
            if some_day_names(days@, i as int, name) {
                let k = choose|k: int|
                    0 <= k < i && names_category((#[trigger] days@[k]).categories@, name);
                assert(names_category(days@[k].categories@, name));
            }
            if names_category(days@[i as int].categories@, name) {
                assert(some_day_names(days@, i + 1, name));
            }
        }
        i += 1;
    }
    if has_unshared(facts, steps) {
        add_name(&mut names, UNATTRIBUTED);
    }
    let ghost listed = names@;
    let mut r: Vec<BreakdownItem> = Vec::new();
    for name in iter: names
        invariant
            iter.seq() == listed,
            r@.len() == iter.index(),
            forall|k: int|
                0 <= k < r@.len() ==> (#[trigger] r@[k]).name == listed[k] && r@[k].counts()
                    == breakdown_of(days@, days@.len() as int, r@[k].name@),
    {
        r.push(sum_breakdown(days, name));
    }
    proof {
        assert forall|i: int, j: int| 0 <= i < j < r@.len() implies precedes(
            (#[trigger] r@[i]).name@,
            (#[trigger] r@[j]).name@,
        ) by {
            assert(precedes(listed[i]@, listed[j]@));
        }
        assert forall|name: Seq<char>| #[trigger]
            names_item(r@, name) <==> in_breakdown(days@, days@.len() as int, views, all, name) by {
            if lists(listed, name) {
                let k = choose|k: int| 0 <= k < listed.len() && (#[trigger] listed[k])@ == name;
                assert(r@[k].name@ == name);
            }
            if names_item(r@, name) {
                let k = choose|k: int| 0 <= k < r@.len() && (#[trigger] r@[k]).name@ == name;
                assert(listed[k]@ == name);
                assert(lists(listed, name));
            }
        }
    }
    r
}

// ---------------------------------------------------------------------------
// Accounts
// ---------------------------------------------------------------------------

/// What an account used over the range.
#[derive(Debug)]
pub struct AccountSummary {
    pub account_key: String,
    pub display_name: Option<String>,
    pub raw_tokens: i64,
    pub credits: Option<Credits>,
    pub turn_count: usize,
    pub active_days: usize,
    /// What of the quota is used, and when it resets, as last observed.
    pub quota: Option<(Percent, Option<i64>)>,
}

/// The turns that an account began, among the first `n`: their tokens, number and price.
pub open spec fn account_tokens(facts: Seq<FactsView>, n: int, key: Seq<char>) -> int
    decreases n,
{
    if n <= 0 {
        0
    } else {
        let before = account_tokens(facts, n - 1, key);
        if facts[n - 1].account_key == key {
            clamp_i64(before + max_int(facts[n - 1].usage.raw_total_tokens as int, 0))
        } else {
            before
        }
    }
}

pub open spec fn account_turns(facts: Seq<FactsView>, n: int, key: Seq<char>) -> nat
    decreases n,
{
    if n <= 0 {
        0
    } else {
        account_turns(facts, n - 1, key) + if facts[n - 1].account_key == key {
            1nat
        } else {
            0nat
        }
    }
}

pub open spec fn account_units(facts: Seq<FactsView>, n: int, key: Seq<char>) -> Option<int>
    decreases n,
{
    if n <= 0 {
        None
    } else {
        let before = account_units(facts, n - 1, key);
        match facts[n - 1].units {
            Some(units) => if facts[n - 1].account_key == key {
                Some(
                    match before {
                        Some(sum) => clamp_i128(sum + units),
                        None => clamp_i128(units),
                    },
                )
            } else {
                before
            },
            None => before,
        }
    }
}

/// The account was active on the date: a turn began on it, or there is an official count.
pub open spec fn active_on(
    facts: Seq<FactsView>,
    rows: Seq<DailyUsageRow>,
    keys: Seq<String>,
    from: Seq<char>,
    to: Seq<char>,
    key: Seq<char>,
    date: Seq<char>,
) -> bool {
    turn_on_date(facts, facts.len() as int, key, date) || counted_on_date(
        rows,
        rows.len() as int,
        keys,
        from,
        to,
        key,
        date,
    )
}

pub open spec fn turn_on_date(
    facts: Seq<FactsView>,
    n: int,
    key: Seq<char>,
    date: Seq<char>,
) -> bool {
    exists|i: int|
        0 <= i < n && (#[trigger] facts[i]).account_key == key && i32::MIN <= facts[i].day
            <= i32::MAX && date_text(facts[i].day) == Some(date)
}

pub open spec fn counted_on_date(
    rows: Seq<DailyUsageRow>,
    n: int,
    keys: Seq<String>,
    from: Seq<char>,
    to: Seq<char>,
    key: Seq<char>,
    date: Seq<char>,
) -> bool {
    exists|i: int|
        0 <= i < n && (#[trigger] rows[i]).account_key@ == key && rows[i].date@ == date
            && official_row(rows[i], keys, from, to)
}

/// There are this many dates on which the account was active.
pub open spec fn active_dates(
    facts: Seq<FactsView>,
    rows: Seq<DailyUsageRow>,
    keys: Seq<String>,
    from: Seq<char>,
    to: Seq<char>,
    key: Seq<char>,
    count: int,
) -> bool {
    exists|dates: Seq<String>|
        {
            &&& #[trigger] ascending(dates)
            &&& dates.len() == count
            &&& forall|date: Seq<char>| #[trigger]
                lists(dates, date) <==> active_on(facts, rows, keys, from, to, key, date)
        }
}

/// A later observation tells more of a quota; a weekly one more than any other.
pub open spec fn tells_more(row: RateLimitRow, best: RateLimitRow) -> bool {
    let row_weekly = row.sample.window_duration_mins == 10_080;
    let best_weekly = best.sample.window_duration_mins == 10_080;
    (row_weekly && !best_weekly) || (row_weekly == best_weekly && row.sample.sampled_at
        > best.sample.sampled_at)
}

/// The account's observation of its primary quota that tells most, among the first `n`.
pub open spec fn latest_primary(rows: Seq<RateLimitRow>, n: int, key: Seq<char>) -> Option<int>
    decreases n,
{
    if n <= 0 {
        None
    } else {
        let best = latest_primary(rows, n - 1, key);
        if rows[n - 1].account_key@ == key && rows[n - 1].window@ == "primary"@ {
            match best {
                Some(at) => if tells_more(rows[n - 1], rows[at]) {
                    Some(n - 1)
                } else {
                    best
                },
                None => Some(n - 1),
            }
        } else {
            best
        }
    }
}

/// What is known of an account's quota now.
pub open spec fn quota_of(rows: Seq<RateLimitRow>, key: Seq<char>) -> Option<(Percent, Option<i64>)> {
    match latest_primary(rows, rows.len() as int, key) {
        Some(at) => Some((rows[at].sample.used_percent, rows[at].sample.resets_at)),
        None => None,
    }
}

pub fn latest_quota(rows: &Vec<RateLimitRow>, key: &str) -> (r: Option<(Percent, Option<i64>)>)
    ensures
        r == quota_of(rows@, key@),
{
    let mut best: Option<usize> = None;
    let mut i: usize = 0;
    while i < rows.len()
        invariant
            i <= rows.len(),
            match (best, latest_primary(rows@, i as int, key@)) {
                (Some(found), Some(at)) => found == at && found < i,
                (None, None) => true,
                _ => false,
            },
        decreases rows.len() - i,
    {
        if same_text(rows[i].window.as_str(), "primary") && same_text(
            rows[i].account_key.as_str(),
            key,
        ) {
            best = match best {
                Some(at) => {
                    let row_weekly = rows[i].sample.window_duration_mins == 10_080;
                    let best_weekly = rows[at].sample.window_duration_mins == 10_080;
                    if (row_weekly && !best_weekly) || (row_weekly == best_weekly
                        && rows[i].sample.sampled_at > rows[at].sample.sampled_at) {
                        Some(i)
                    } else {
                        Some(at)
                    }
                },
                None => Some(i),
            };
        }
        i += 1;
    }
    match best {
        Some(at) => Some((rows[at].sample.used_percent, rows[at].sample.resets_at)),
        None => None,
    }
}

/// The record is the account's.
pub open spec fn is_record_of(key: Seq<char>) -> spec_fn(AccountRecord) -> bool {
    |account: AccountRecord| account.account_key@ == key
}

/// The name that an account is shown under.
pub open spec fn display_of(accounts: Seq<AccountRecord>, key: Seq<char>) -> Option<Seq<char>> {
    match first_where(accounts, is_record_of(key)) {
        Some(at) => text_opt(accounts[at].display_name),
        None => None,
    }
}

pub fn account_display(accounts: &Vec<AccountRecord>, key: &str) -> (r: Option<String>)
    ensures
        text_opt(r) == display_of(accounts@, key@),
{
    let ghost pick = is_record_of(key@);
    let mut i: usize = 0;
    while i < accounts.len()
        invariant
            i <= accounts.len(),
            pick == is_record_of(key@),
            forall|k: int| 0 <= k < i ==> !pick(#[trigger] accounts@[k]),
        decreases accounts.len() - i,
    {
        if same_text(accounts[i].account_key.as_str(), key) {
            proof {
                lemma_first_where_at(accounts@, pick, i as int);
            }
            return match &accounts[i].display_name {
                Some(name) => Some(name.clone()),
                None => None,
            };
        }
        i += 1;
    }
    proof {
        lemma_first_where_none(accounts@, pick);
    }
    None
}

/// What is said of an account.
pub open spec fn is_summary(
    summary: AccountSummary,
    facts: Seq<FactsView>,
    accounts: Seq<AccountRecord>,
    quotas: Seq<RateLimitRow>,
    rows: Seq<DailyUsageRow>,
    keys: Seq<String>,
    from: Seq<char>,
    to: Seq<char>,
) -> bool {
    let n = facts.len() as int;
    let key = summary.account_key@;
    &&& text_opt(summary.display_name) == display_of(accounts, key)
    &&& summary.raw_tokens == account_tokens(facts, n, key)
    &&& summary.turn_count == account_turns(facts, n, key)
    &&& units_of(summary.credits) == account_units(facts, n, key)
    &&& active_dates(facts, rows, keys, from, to, key, summary.active_days as int)
    &&& summary.quota == quota_of(quotas, key)
}

fn list_active_dates(facts: &Vec<TurnFacts>, scope: &OfficialScope, key: &str) -> (r: Vec<String>)
    ensures
        ascending(r@),
        forall|date: Seq<char>| #[trigger]
            lists(r@, date) <==> active_on(
                facts_views(facts@),
                scope.rows@,
                scope.keys@,
                scope.from@,
                scope.to@,
                key@,
                date,
            ),
{
    let ghost views = facts_views(facts@);
    let mut dates: Vec<String> = Vec::new();
    let mut i: usize = 0;
    while i < facts.len()
        invariant
            i <= facts.len(),
            views == facts_views(facts@),
            ascending(dates@),
            forall|date: Seq<char>| #[trigger]
                lists(dates@, date) <==> turn_on_date(views, i as int, key@, date),
        decreases facts.len() - i,
    {
        let ghost before = dates@;
        assert(views[i as int] == facts@[i as int]@);
        let day: i64 = facts[i].day;
        if i32::MIN as i64 <= day && day <= i32::MAX as i64 && same_text(
            facts[i].account_key.as_str(),
            key,
        ) {
            if let Some(date) = text_of_day(day as i32) {
                add_name(&mut dates, date.as_str());
            }
        }
        assert forall|date: Seq<char>| #[trigger]
            lists(dates@, date) <==> turn_on_date(views, i + 1, key@, date) by {
            assert(lists(before, date) <==> turn_on_date(views, i as int, key@, date));
            if turn_on_date(views, i as int, key@, date) {
                let k = choose|k: int|
                    0 <= k < i && (#[trigger] views[k]).account_key == key@ && i32::MIN
                        <= views[k].day <= i32::MAX && date_text(views[k].day) == Some(date);
                assert(views[k].account_key == key@);
            }
            let last = views[i as int];
            if last.account_key == key@ && i32::MIN <= last.day <= i32::MAX && date_text(last.day)
                == Some(date) {
                assert(turn_on_date(views, i + 1, key@, date));
            }
        }
        i += 1;
    }
    let ghost base = dates@;
    let mut i: usize = 0;
    while i < scope.rows.len()
        invariant
            i <= scope.rows@.len(),
            ascending(dates@),
            forall|date: Seq<char>| #[trigger]
                lists(dates@, date) <==> lists(base, date) || counted_on_date(
                    scope.rows@,
                    i as int,
                    scope.keys@,
                    scope.from@,
                    scope.to@,
                    key@,
                    date,
                ),
        decreases scope.rows.len() - i,
    {
        let ghost before = dates@;
        let row = &scope.rows[i];
        if same_text(row.account_key.as_str(), key) && is_official_row(
            row,
            scope.keys,
            scope.from,
            scope.to,
        ) {
            add_name(&mut dates, row.date.as_str());
        }
        assert forall|date: Seq<char>| #[trigger]
            lists(dates@, date) <==> lists(base, date) || counted_on_date(
                scope.rows@,
                i + 1,
                scope.keys@,
                scope.from@,
                scope.to@,
                key@,
                date,
            ) by {
            assert(lists(before, date) <==> lists(base, date) || counted_on_date(
                scope.rows@,
                i as int,
                scope.keys@,
                scope.from@,
                scope.to@,
                key@,
                date,
            ));
            if counted_on_date(
                scope.rows@,
                i as int,
                scope.keys@,
                scope.from@,
                scope.to@,
                key@,
                date,
            ) {
                let k = choose|k: int|
                    0 <= k < i && (#[trigger] scope.rows@[k]).account_key@ == key@
                        && scope.rows@[k].date@ == date && official_row(
                        scope.rows@[k],
                        scope.keys@,
                        scope.from@,
                        scope.to@,
                    );
                assert(scope.rows@[k].account_key@ == key@);
            }
            let last = scope.rows@[i as int];
            if last.account_key@ == key@ && last.date@ == date && official_row(
                last,
                scope.keys@,
                scope.from@,
                scope.to@,
            ) {
                assert(counted_on_date(
                    scope.rows@,
                    i + 1,
                    scope.keys@,
                    scope.from@,
                    scope.to@,
                    key@,
                    date,
                ));
            }
        }
        i += 1;
    }
    dates
}

/// What is said of an account.
pub fn account_summary(
    facts: &Vec<TurnFacts>,
    accounts: &Vec<AccountRecord>,
    quotas: &Vec<RateLimitRow>,
    scope: &OfficialScope,
    key: &str,
) -> (r: AccountSummary)
    ensures
        r.account_key@ == key@,
        is_summary(
            r,
            facts_views(facts@),
            accounts@,
            quotas@,
            scope.rows@,
            scope.keys@,
            scope.from@,
            scope.to@,
        ),
{
    let ghost views = facts_views(facts@);
    let mut tokens: i64 = 0;
    let mut count: usize = 0;
    let mut credits: Option<Credits> = None;
    let mut i: usize = 0;
    while i < facts.len()
        invariant
            i <= facts.len(),
            views == facts_views(facts@),
            tokens == account_tokens(views, i as int, key@),
            count <= i,
            count == account_turns(views, i as int, key@),
            units_of(credits) == account_units(views, i as int, key@),
        decreases facts.len() - i,
    {
        let turn = &facts[i];
        assert(views[i as int] == turn@);
        if same_text(turn.account_key.as_str(), key) {
            tokens = saturating_add(tokens, turn.usage.raw_total_tokens.max(0));
            count += 1;
            if let Some(price) = turn.credits {
                credits = Some(
                    match credits {
                        Some(sum) => Credits { units: saturating_add_wide(sum.units, price.units) },
                        None => price,
                    },
                );
            }
        }
        i += 1;
    }
    let active = list_active_dates(facts, scope, key);
    proof {
        assert(ascending(active@));
    }
    AccountSummary {
        account_key: key.to_owned(),
        display_name: account_display(accounts, key),
        raw_tokens: tokens,
        credits,
        turn_count: count,
        active_days: active.len(),
        quota: latest_quota(quotas, key),
    }
}

// ---------------------------------------------------------------------------
// The whole
// ---------------------------------------------------------------------------

/// What a day counts as: its official count where there is one, and the local one otherwise.
pub open spec fn raw_of(day: DayUsage) -> int {
    match day.official_tokens {
        Some(official) => official as int,
        None => day.local_tokens as int,
    }
}

/// What the days add up to.
#[derive(Clone, Copy, Debug, PartialEq, Eq, Structural)]
pub struct UsageTotals {
    pub raw_tokens: i128,
    pub official_tokens: i128,
    pub local_tokens: i128,
    pub active_days: usize,
}

#[verifier::ext_equal]
pub struct TotalsView {
    pub raw_tokens: int,
    pub official_tokens: int,
    pub local_tokens: int,
    pub active_days: int,
}

impl View for UsageTotals {
    type V = TotalsView;

    open spec fn view(&self) -> TotalsView {
        TotalsView {
            raw_tokens: self.raw_tokens as int,
            official_tokens: self.official_tokens as int,
            local_tokens: self.local_tokens as int,
            active_days: self.active_days as int,
        }
    }
}

/// What the first `n` days add up to. A day is active where it counts anything or a turn
/// began on it.
pub open spec fn totals_of(days: Seq<DayUsage>, n: int) -> TotalsView
    decreases n,
{
    if n <= 0 {
        TotalsView { raw_tokens: 0, official_tokens: 0, local_tokens: 0, active_days: 0 }
    } else {
        let before = totals_of(days, n - 1);
        let day = days[n - 1];
        TotalsView {
            raw_tokens: before.raw_tokens + raw_of(day),
            official_tokens: before.official_tokens + match day.official_tokens {
                Some(official) => official as int,
                None => 0,
            },
            local_tokens: before.local_tokens + day.local_tokens,
            active_days: before.active_days + if raw_of(day) > 0 || day.turn_count > 0 {
                1int
            } else {
                0int
            },
        }
    }
}

/// Adds up the days.
pub fn total_days(days: &Vec<DayUsage>) -> (r: UsageTotals)
    ensures
        r@ == totals_of(days@, days@.len() as int),
{
    let mut r = UsageTotals {
        raw_tokens: 0,
        official_tokens: 0,
        local_tokens: 0,
        active_days: 0,
    };
    let mut i: usize = 0;
    while i < days.len()
        invariant
            i <= days.len(),
            r@ == totals_of(days@, i as int),
            r.active_days <= i,
            -(i * 0x8000_0000_0000_0000) <= r.raw_tokens <= i * 0x7fff_ffff_ffff_ffff,
            -(i * 0x8000_0000_0000_0000) <= r.official_tokens <= i * 0x7fff_ffff_ffff_ffff,
            -(i * 0x8000_0000_0000_0000) <= r.local_tokens <= i * 0x7fff_ffff_ffff_ffff,
        decreases days.len() - i,
    {
        let day = &days[i];
        let raw: i64 = match day.official_tokens {
            Some(official) => official,
            None => day.local_tokens,
        };
        let official: i64 = match day.official_tokens {
            Some(official) => official,
            None => 0,
        };
        r = UsageTotals {
            raw_tokens: r.raw_tokens + raw as i128,
            official_tokens: r.official_tokens + official as i128,
            local_tokens: r.local_tokens + day.local_tokens as i128,
            active_days: if raw > 0 || day.turn_count > 0 {
                r.active_days + 1
            } else {
                r.active_days
            },
        };
        i += 1;
    }
    r
}

/// The tables that a query reads.
pub struct UsageTables<'a> {
    pub accounts: &'a Vec<AccountRecord>,
    pub turns: &'a Vec<TurnUsageRecord>,
    pub daily: &'a Vec<DailyUsageRow>,
    pub health: &'a Vec<AccountDataHealth>,
    pub buckets: &'a Vec<BucketIntervals>,
    pub quotas: &'a Vec<RateLimitRow>,
}

/// The usage of a range.
#[derive(Debug)]
pub struct UsageAnalytics {
    pub range: DateRange,
    pub from: String,
    pub to: String,
    pub label: String,
    pub keys: Vec<String>,
    pub turns: Vec<TurnFacts>,
    pub steps: Vec<StepFacts>,
    pub shares: Vec<StepShare>,
    pub timeline: Vec<DayUsage>,
    pub breakdown_items: Vec<BreakdownItem>,
    pub accounts: Vec<AccountSummary>,
    pub totals: UsageTotals,
}

/// The timeline holds each day of the range in turn, also those on which nothing was used.
pub open spec fn is_timeline(
    timeline: Seq<DayUsage>,
    usage: UsageAnalytics,
    rows: Seq<DailyUsageRow>,
    by_kind: bool,
) -> bool {
    &&& timeline.len() == usage.range.last - usage.range.first + 1
    &&& forall|i: int|
        0 <= i < timeline.len() ==> {
            &&& (#[trigger] timeline[i]).day == usage.range.first + i
            &&& date_text(usage.range.first + i) == Some(timeline[i].date@)
            &&& is_day(
                timeline[i],
                facts_views(usage.turns@),
                step_views(usage.steps@),
                rows,
                usage.keys@,
                usage.from@,
                usage.to@,
                by_kind,
            )
        }
}

/// The accounts of a query, in the order of their keys.
pub open spec fn are_summaries(
    summaries: Seq<AccountSummary>,
    usage: UsageAnalytics,
    accounts: Seq<AccountRecord>,
    quotas: Seq<RateLimitRow>,
    rows: Seq<DailyUsageRow>,
) -> bool {
    &&& summaries.len() == usage.keys@.len()
    &&& forall|i: int|
        0 <= i < summaries.len() ==> {
            &&& (#[trigger] summaries[i]).account_key@ == usage.keys@[i]@
            &&& is_summary(
                summaries[i],
                facts_views(usage.turns@),
                accounts,
                quotas,
                rows,
                usage.keys@,
                usage.from@,
                usage.to@,
            )
        }
}

/// The usage of the range that a query asks for, in the accounts that it speaks of.
pub fn query(
    tables: &UsageTables,
    request: &UsageAnalyticsQuery,
    local_offset: i32,
    now: i64,
) -> (r: Result<UsageAnalytics, String>)
    ensures
        ({
            let offset = timezone_offset(request.timezone@, local_offset as int);
            match (r, date_range(request.from@, request.to@, offset)) {
                (Ok(usage), Ok((first, last))) => {
                    let by_kind = request.breakdown@ == "tokenType"@;
                    let facts = facts_views(usage.turns@);
                    let steps = step_views(usage.steps@);
                    &&& FIRST_DAY <= first <= last < LAST_DAY
                    &&& usage.range.first == first
                    &&& usage.range.last == last
                    &&& usage.range.offset == offset
                    &&& usage.range.start == day_start(first, offset)
                    &&& usage.range.end == day_start(last + 1, offset)
                    &&& date_text(first) == Some(usage.from@)
                    &&& date_text(last) == Some(usage.to@)
                    &&& usage.label@ == range_name(usage.from@, usage.to@)
                    &&& ascending(usage.keys@)
                    &&& forall|key: Seq<char>| #[trigger]
                        lists(usage.keys@, key) <==> in_scope(*tables, request.account_scope, key)
                    &&& facts == turn_facts(
                        tables.turns@,
                        usage.keys@,
                        usage.range,
                        request.breakdown@,
                        now as int,
                    )
                    &&& usage.steps@ == sorted(
                        range_steps(
                            tables.buckets@,
                            tables.buckets@.len() as int,
                            usage.keys@,
                            usage.range,
                            now as int,
                        ),
                    )
                    &&& usage.shares@ == shares_of_steps(facts, steps, steps.len() as int)
                    &&& is_timeline(usage.timeline@, usage, tables.daily@, by_kind)
                    &&& is_breakdown(usage.breakdown_items@, usage.timeline@, facts, steps)
                    &&& are_summaries(
                        usage.accounts@,
                        usage,
                        tables.accounts@,
                        tables.quotas@,
                        tables.daily@,
                    )
                    &&& usage.totals@ == totals_of(
                        usage.timeline@,
                        usage.timeline@.len() as int,
                    )
                },
                (Err(error), Err(message)) => error@ == message,
                _ => false,
            }
        }),
{
    let range = match bounds(request, local_offset) {
        Ok(range) => range,
        Err(error) => {
            return Err(error);
        },
    };
    let texts = dates(range.first, range.last);
    let (from, to) = match (text_of_day(range.first), text_of_day(range.last)) {
        (Some(from), Some(to)) => (from, to),
        _ => {
            return Err(RANGE_END.to_owned());
        },
    };
    let keys = scope_keys(
        &request.account_scope,
        tables.accounts,
        tables.turns,
        tables.daily,
        tables.health,
    );
    let breakdown = request.breakdown.as_str();
    let by_kind = same_text(breakdown, "tokenType");
    let turns = load_turns(tables.turns, &keys, range, breakdown, now);
    let steps = load_intervals(tables.buckets, &keys, range, now);
    let shares = share_out_steps(&turns, &steps);
    let ghost facts = facts_views(turns@);
    let ghost all = step_views(steps@);
    let scope = OfficialScope {
        rows: tables.daily,
        keys: &keys,
        from: from.as_str(),
        to: to.as_str(),
    };
    let mut timeline: Vec<DayUsage> = Vec::new();
    let ghost given = texts@;
    let mut day: i64 = range.first as i64;
    for date in iter: texts
        invariant
            iter.seq() == given,
            dates_from(range.first as int, given),
            given.len() == range.last - range.first + 1,
            day == range.first + iter.index(),
            timeline@.len() == iter.index(),
            facts == facts_views(turns@),
            all == step_views(steps@),
            scope.rows@ == tables.daily@,
            scope.keys@ == keys@,
            scope.from@ == from@,
            scope.to@ == to@,
            forall|i: int|
                0 <= i < timeline@.len() ==> {
                    &&& (#[trigger] timeline@[i]).day == range.first + i
                    &&& date_text(range.first + i) == Some(timeline@[i].date@)
                    &&& is_day(
                        timeline@[i],
                        facts,
                        all,
                        tables.daily@,
                        keys@,
                        from@,
                        to@,
                        by_kind,
                    )
                },
    {
        assert(given[iter.index()] == date);
        timeline.push(day_usage(&turns, &steps, &scope, day, date, by_kind));
        day += 1;
    }
    let breakdown_items = break_down(&timeline, &turns, &steps);
    let mut accounts: Vec<AccountSummary> = Vec::new();
    let mut k: usize = 0;
    while k < keys.len()
        invariant
            k <= keys.len(),
            accounts@.len() == k,
            facts == facts_views(turns@),
            scope.rows@ == tables.daily@,
            scope.keys@ == keys@,
            scope.from@ == from@,
            scope.to@ == to@,
            forall|i: int|
                0 <= i < k ==> {
                    &&& (#[trigger] accounts@[i]).account_key@ == keys@[i]@
                    &&& is_summary(
                        accounts@[i],
                        facts,
                        tables.accounts@,
                        tables.quotas@,
                        tables.daily@,
                        keys@,
                        from@,
                        to@,
                    )
                },
        decreases keys.len() - k,
    {
        accounts.push(
            account_summary(&turns, tables.accounts, tables.quotas, &scope, keys[k].as_str()),
        );
        k += 1;
    }
    let totals = total_days(&timeline);
    let label = range_label(from.as_str(), to.as_str());
    Ok(
        UsageAnalytics {
            range,
            from,
            to,
            label,
            keys,
            turns,
            steps,
            shares,
            timeline,
            breakdown_items,
            accounts,
            totals,
        },
    )
}

/// The query speaks of the account.
pub open spec fn in_scope(tables: UsageTables, scope: AccountScope, key: Seq<char>) -> bool {
    match scope {
        AccountScope::Single { account_key } => key == account_key@ && !unresolved_key(key)
            && !is_legacy(tables.health@, key),
        AccountScope::All => is_known(tables.accounts@, tables.turns@, tables.daily@, key)
            && may_show(tables.health@, key),
    }
}

/// No account of which nothing verified is known is ever shown.
pub proof fn lemma_unresolved_is_never_shown(
    tables: UsageTables,
    scope: AccountScope,
    key: Seq<char>,
)
    requires
        unresolved_key(key),
    ensures
        !in_scope(tables, scope, key),
{
    crate::repository::lemma_unresolved_reads_so(key);
}

/// The range is made of whole days that the calendar reaches, in a zone that is less than a
/// day off. In a zone that is ahead, the calendar's first day has no beginning.
pub open spec fn has_whole_days(range: DateRange) -> bool {
    &&& FIRST_DAY <= range.first <= range.last < LAST_DAY
    &&& -86_400 < range.offset < 86_400
    &&& range.offset > 0 ==> FIRST_DAY < range.first
    &&& range.start == day_start(range.first as int, range.offset as int)
    &&& range.end == day_start(range.last + 1, range.offset as int)
}

/// A turn that began in the range falls on one of its days.
pub proof fn lemma_turn_falls_on_a_day(range: DateRange, started_at: int, now: int)
    requires
        has_whole_days(range),
        range.start <= started_at < range.end,
    ensures
        range.first <= day_of(started_at, range.offset as int, now) <= range.last,
{
    assert(is_reached(started_at / 86_400));
}

proof fn lemma_facts_fall_on_days(
    turns: Seq<TurnUsageRecord>,
    keys: Seq<String>,
    range: DateRange,
    breakdown: Seq<char>,
    now: int,
)
    requires
        has_whole_days(range),
    ensures
        ({
            let facts = turn_facts(turns, keys, range, breakdown, now);
            forall|i: int|
                0 <= i < facts.len() ==> range.first <= (#[trigger] facts[i]).day <= range.last
        }),
    decreases turns.len(),
{
    if turns.len() > 0 {
        lemma_facts_fall_on_days(turns.drop_last(), keys, range, breakdown, now);
        let turn = turns.last();
        if range.start <= turn.started_at < range.end {
            lemma_turn_falls_on_a_day(range, turn.started_at as int, now);
        }
    }
}

/// How many turns the first `n` days count.
pub open spec fn turns_counted(days: Seq<DayUsage>, n: int) -> nat
    decreases n,
{
    if n <= 0 {
        0
    } else {
        turns_counted(days, n - 1) + days[n - 1].turn_count as nat
    }
}

/// How many of the first `n` turns fall on the `count` days from `first` on.
spec fn turns_from(facts: Seq<FactsView>, n: int, first: int, count: int) -> nat
    decreases count,
{
    if count <= 0 {
        0
    } else {
        turns_from(facts, n, first, count - 1) + turns_on(facts, n, first + count - 1)
    }
}

proof fn lemma_turn_is_counted_once(facts: Seq<FactsView>, n: int, first: int, count: int)
    requires
        0 < n <= facts.len(),
    ensures
        turns_from(facts, n, first, count) == turns_from(facts, n - 1, first, count) + if first
            <= facts[n - 1].day < first + count {
            1nat
        } else {
            0nat
        },
    decreases count,
{
    if count > 0 {
        lemma_turn_is_counted_once(facts, n, first, count - 1);
    }
}

proof fn lemma_no_turn_is_counted(facts: Seq<FactsView>, first: int, count: int)
    ensures
        turns_from(facts, 0, first, count) == 0,
    decreases count,
{
    if count > 0 {
        lemma_no_turn_is_counted(facts, first, count - 1);
    }
}

proof fn lemma_turns_are_counted(facts: Seq<FactsView>, n: int, first: int, count: int)
    requires
        0 <= n <= facts.len(),
        forall|i: int| 0 <= i < facts.len() ==> first <= (#[trigger] facts[i]).day < first + count,
    ensures
        turns_from(facts, n, first, count) == n,
    decreases n,
{
    if n > 0 {
        lemma_turns_are_counted(facts, n - 1, first, count);
        lemma_turn_is_counted_once(facts, n, first, count);
        assert(first <= facts[n - 1].day < first + count);
    } else {
        lemma_no_turn_is_counted(facts, first, count);
    }
}

proof fn lemma_days_count_their_turns(
    usage: UsageAnalytics,
    rows: Seq<DailyUsageRow>,
    by_kind: bool,
    n: int,
)
    requires
        is_timeline(usage.timeline@, usage, rows, by_kind),
        0 <= n <= usage.timeline@.len(),
    ensures
        ({
            let facts = facts_views(usage.turns@);
            turns_counted(usage.timeline@, n) == turns_from(
                facts,
                facts.len() as int,
                usage.range.first as int,
                n,
            )
        }),
    decreases n,
{
    if n > 0 {
        lemma_days_count_their_turns(usage, rows, by_kind, n - 1);
        assert(usage.timeline@[n - 1].day == usage.range.first + n - 1);
    }
}

/// Every turn of a query is counted on one of its days: the days' counts add up to the turns.
pub proof fn lemma_days_count_every_turn(
    usage: UsageAnalytics,
    turns: Seq<TurnUsageRecord>,
    rows: Seq<DailyUsageRow>,
    breakdown: Seq<char>,
    now: int,
)
    requires
        has_whole_days(usage.range),
        facts_views(usage.turns@) == turn_facts(turns, usage.keys@, usage.range, breakdown, now),
        is_timeline(usage.timeline@, usage, rows, breakdown == "tokenType"@),
    ensures
        turns_counted(usage.timeline@, usage.timeline@.len() as int) == usage.turns@.len(),
{
    let facts = facts_views(usage.turns@);
    let first = usage.range.first as int;
    let count = usage.timeline@.len() as int;
    lemma_facts_fall_on_days(turns, usage.keys@, usage.range, breakdown, now);
    lemma_days_count_their_turns(usage, rows, breakdown == "tokenType"@, count);
    lemma_turns_are_counted(facts, facts.len() as int, first, count);
}

/// The tokens of the first `n` turns of a day, however many they are.
pub open spec fn tokens_on(facts: Seq<FactsView>, n: int, day: int) -> int
    decreases n,
{
    if n <= 0 {
        0
    } else {
        tokens_on(facts, n - 1, day) + if facts[n - 1].day == day {
            max_int(facts[n - 1].usage.raw_total_tokens as int, 0)
        } else {
            0
        }
    }
}

/// The tokens of the first `n` turns of a category on a day, however many they are.
spec fn tokens_in(facts: Seq<FactsView>, n: int, day: int, name: Seq<char>) -> int
    decreases n,
{
    if n <= 0 {
        0
    } else {
        tokens_in(facts, n - 1, day, name) + if facts[n - 1].day == day && facts[n - 1].category
            == name {
            max_int(facts[n - 1].usage.raw_total_tokens as int, 0)
        } else {
            0
        }
    }
}

/// What the first `m` categories used, but for what nothing local explains.
pub open spec fn attributed_tokens(categories: Seq<DayCategory>, m: int) -> int
    decreases m,
{
    if m <= 0 {
        0
    } else {
        attributed_tokens(categories, m - 1) + if categories[m - 1].name@ == UNATTRIBUTED@ {
            0
        } else {
            categories[m - 1].aggregate.raw_tokens as int
        }
    }
}

/// The tokens of the first `n` turns of a day in the first `m` categories.
spec fn tokens_listed(
    categories: Seq<DayCategory>,
    m: int,
    facts: Seq<FactsView>,
    n: int,
    day: int,
) -> int
    decreases m,
{
    if m <= 0 {
        0
    } else {
        tokens_listed(categories, m - 1, facts, n, day) + if categories[m - 1].name@
            == UNATTRIBUTED@ {
            0
        } else {
            tokens_in(facts, n, day, categories[m - 1].name@)
        }
    }
}

proof fn lemma_nothing_is_capped(facts: Seq<FactsView>, n: int, day: int, name: Seq<char>)
    requires
        tokens_on(facts, n, day) <= i64::MAX,
    ensures
        0 <= tokens_in(facts, n, day, name) <= tokens_on(facts, n, day),
        local_of(facts, n, day) == tokens_on(facts, n, day),
        aggregate_of(facts, n, day, name, false).raw_tokens == tokens_in(facts, n, day, name),
    decreases n,
{
    if n > 0 {
        lemma_nothing_is_capped(facts, n - 1, day, name);
    }
}

proof fn lemma_turn_is_listed_once(
    categories: Seq<DayCategory>,
    m: int,
    facts: Seq<FactsView>,
    n: int,
    day: int,
)
    requires
        categories_ascend(categories),
        0 <= m <= categories.len(),
        0 < n <= facts.len(),
    ensures
        tokens_listed(categories, m, facts, n, day) == tokens_listed(
            categories,
            m,
            facts,
            n - 1,
            day,
        ) + if facts[n - 1].day == day && facts[n - 1].category != UNATTRIBUTED@
            && names_category(categories.take(m), facts[n - 1].category) {
            max_int(facts[n - 1].usage.raw_total_tokens as int, 0)
        } else {
            0
        },
    decreases m,
{
    if m > 0 {
        lemma_turn_is_listed_once(categories, m - 1, facts, n, day);
        let name = facts[n - 1].category;
        let front = categories.take(m - 1);
        let listed = categories.take(m);
        let last = categories[m - 1].name@;
        if names_category(front, name) {
            let k = choose|k: int| 0 <= k < front.len() && (#[trigger] front[k]).name@ == name;
            assert(listed[k].name@ == name);
            assert(precedes(categories[k].name@, categories[m - 1].name@));
            lemma_precedes_is_order(name, name, name);
        }
        if last == name {
            assert(listed[m - 1].name@ == name);
        }
        if names_category(listed, name) && last != name {
            let k = choose|k: int| 0 <= k < listed.len() && (#[trigger] listed[k]).name@ == name;
            assert(front[k].name@ == name);
        }
    }
}

proof fn lemma_nothing_is_listed(
    categories: Seq<DayCategory>,
    m: int,
    facts: Seq<FactsView>,
    day: int,
)
    ensures
        tokens_listed(categories, m, facts, 0, day) == 0,
    decreases m,
{
    if m > 0 {
        lemma_nothing_is_listed(categories, m - 1, facts, day);
    }
}

proof fn lemma_day_is_listed(
    categories: Seq<DayCategory>,
    facts: Seq<FactsView>,
    n: int,
    day: int,
)
    requires
        categories_ascend(categories),
        0 <= n <= facts.len(),
        forall|i: int|
            0 <= i < facts.len() && (#[trigger] facts[i]).day == day ==> facts[i].category
                != UNATTRIBUTED@ && names_category(categories, facts[i].category),
    ensures
        tokens_listed(categories, categories.len() as int, facts, n, day) == tokens_on(
            facts,
            n,
            day,
        ),
    decreases n,
{
    let m = categories.len() as int;
    if n > 0 {
        lemma_day_is_listed(categories, facts, n - 1, day);
        lemma_turn_is_listed_once(categories, m, facts, n, day);
        assert(categories.take(m) =~= categories);
        assert(facts[n - 1].day == day ==> names_category(categories, facts[n - 1].category));
    } else {
        lemma_nothing_is_listed(categories, m, facts, day);
    }
}

proof fn lemma_categories_hold_their_turns(
    categories: Seq<DayCategory>,
    m: int,
    facts: Seq<FactsView>,
    steps: Seq<StepView>,
    unattributed: Option<int>,
    day: int,
)
    requires
        are_categories(categories, facts, steps, unattributed, day, false),
        0 <= m <= categories.len(),
        tokens_on(facts, facts.len() as int, day) <= i64::MAX,
    ensures
        attributed_tokens(categories, m) == tokens_listed(
            categories,
            m,
            facts,
            facts.len() as int,
            day,
        ),
    decreases m,
{
    if m > 0 {
        lemma_categories_hold_their_turns(categories, m - 1, facts, steps, unattributed, day);
        let category = categories[m - 1];
        lemma_nothing_is_capped(facts, facts.len() as int, day, category.name@);
        assert(category.aggregate@ == shown_aggregate(
            facts,
            unattributed,
            day,
            category.name@,
            false,
        ));
    }
}

/// Unless the kinds of tokens are told apart, the categories of a day add up to its local
/// tokens, once what nothing local explains is left out. The day's tokens are no more than
/// can be counted, and none of its turns has the name of what is left out.
pub proof fn lemma_categories_add_up_to_the_day(
    day: DayUsage,
    facts: Seq<FactsView>,
    steps: Seq<StepView>,
    rows: Seq<DailyUsageRow>,
    keys: Seq<String>,
    from: Seq<char>,
    to: Seq<char>,
)
    requires
        is_day(day, facts, steps, rows, keys, from, to, false),
        tokens_on(facts, facts.len() as int, day.day as int) <= i64::MAX,
        forall|i: int|
            0 <= i < facts.len() && (#[trigger] facts[i]).day == day.day ==> facts[i].category
                != UNATTRIBUTED@,
    ensures
        attributed_tokens(day.categories@, day.categories@.len() as int) == day.local_tokens,
{
    let n = facts.len() as int;
    let at = day.day as int;
    let left = unattributed_of(rows, keys, from, to, day.date@, day.local_tokens as int);
    let categories = day.categories@;
    assert forall|i: int| 0 <= i < n && (#[trigger] facts[i]).day == at implies names_category(
        categories,
        facts[i].category,
    ) by {
        let name = facts[i].category;
        assert(part_of(facts[i], false, name) is Some);
        assert(some_part(facts, n, at, name, false));
        assert(is_shown(facts, steps, left, at, name, false));
    }
    lemma_day_is_listed(categories, facts, n, at);
    lemma_categories_hold_their_turns(categories, categories.len() as int, facts, steps, left, at);
    lemma_nothing_is_capped(facts, n, at, UNATTRIBUTED@);
}

// ---------------------------------------------------------------------------
// The quota that is shown
// ---------------------------------------------------------------------------

/// The row observes a week's quota.
pub open spec fn is_of_a_week(row: RateLimitRow) -> bool {
    row.sample.window_duration_mins == 7 * 24 * 60
}

/// The row observes the account's primary quota.
pub open spec fn is_primary_of(row: RateLimitRow, key: Seq<char>) -> bool {
    row.account_key@ == key && row.window@ == "primary"@
}

/// Where an account's quota is told, it is that of one of the account's primary rows. No
/// primary row of the account of the same kind, weekly or not, has a later time, and where
/// any is weekly, the row is weekly. Where none is told, the account has no primary row.
pub proof fn lemma_quota_is_the_latest(rows: Seq<RateLimitRow>, key: Seq<char>)
    ensures
        match quota_of(rows, key) {
            Some((used, resets_at)) => exists|at: int|
                {
                    &&& 0 <= at < rows.len()
                    &&& is_primary_of(#[trigger] rows[at], key)
                    &&& rows[at].sample.used_percent == used
                    &&& rows[at].sample.resets_at == resets_at
                    &&& forall|k: int|
                        0 <= k < rows.len() && is_primary_of(#[trigger] rows[k], key) ==> {
                            &&& is_of_a_week(rows[k]) == is_of_a_week(rows[at])
                                ==> rows[k].sample.sampled_at <= rows[at].sample.sampled_at
                            &&& is_of_a_week(rows[k]) ==> is_of_a_week(rows[at])
                        }
                },
            None => forall|k: int|
                0 <= k < rows.len() ==> !is_primary_of(#[trigger] rows[k], key),
        },
{
    lemma_primary_is_the_latest(rows, rows.len() as int, key);
    match latest_primary(rows, rows.len() as int, key) {
        Some(at) => {
            assert(is_primary_of(rows[at], key));
        },
        None => {},
    }
}

proof fn lemma_primary_is_the_latest(rows: Seq<RateLimitRow>, n: int, key: Seq<char>)
    requires
        0 <= n <= rows.len(),
    ensures
        match latest_primary(rows, n, key) {
            Some(at) => {
                &&& 0 <= at < n
                &&& is_primary_of(rows[at], key)
                &&& forall|k: int|
                    0 <= k < n && is_primary_of(#[trigger] rows[k], key) ==> {
                        &&& is_of_a_week(rows[k]) == is_of_a_week(rows[at])
                            ==> rows[k].sample.sampled_at <= rows[at].sample.sampled_at
                        &&& is_of_a_week(rows[k]) ==> is_of_a_week(rows[at])
                    }
            },
            None => forall|k: int| 0 <= k < n ==> !is_primary_of(#[trigger] rows[k], key),
        },
    decreases n,
{
    if n > 0 {
        lemma_primary_is_the_latest(rows, n - 1, key);
        assert(is_primary_of(rows[n - 1], key) == (rows[n - 1].account_key@ == key && rows[n
            - 1].window@ == "primary"@));
    }
}

/// An observation of another account, or of another window, makes no difference to the quota
/// that is told of an account.
pub proof fn lemma_quota_is_of_the_account(
    rows: Seq<RateLimitRow>,
    at: int,
    other: RateLimitRow,
    key: Seq<char>,
)
    requires
        0 <= at <= rows.len(),
        other.account_key@ != key || other.window@ != "primary"@,
    ensures
        quota_of(rows.insert(at, other), key) == quota_of(rows, key),
{
    let more = rows.insert(at, other);
    lemma_primary_without(rows, at, other, key, rows.len() as int);
    lemma_primary_is_the_latest(rows, rows.len() as int, key);
    match latest_primary(rows, rows.len() as int, key) {
        Some(found) => {
            if found < at {
                assert(more[found] == rows[found]);
            } else {
                assert(more[found + 1] == rows[found]);
            }
        },
        None => {},
    }
}

proof fn lemma_primary_without(
    rows: Seq<RateLimitRow>,
    at: int,
    other: RateLimitRow,
    key: Seq<char>,
    n: int,
)
    requires
        0 <= at <= rows.len(),
        0 <= n <= rows.len(),
        other.account_key@ != key || other.window@ != "primary"@,
    ensures
        ({
            let more = rows.insert(at, other);
            let shifted = match latest_primary(rows, n, key) {
                Some(found) => if found < at {
                    Some(found)
                } else {
                    Some(found + 1)
                },
                None => None,
            };
            &&& n <= at ==> latest_primary(more, n, key) == latest_primary(rows, n, key)
            &&& n >= at ==> latest_primary(more, n + 1, key) == shifted
        }),
    decreases n,
{
    let more = rows.insert(at, other);
    lemma_primary_is_the_latest(rows, n, key);
    if n > 0 {
        lemma_primary_without(rows, at, other, key, n - 1);
        lemma_primary_is_the_latest(rows, n - 1, key);
        if n <= at {
            assert(more[n - 1] == rows[n - 1]);
        } else {
            assert(more[n] == rows[n - 1]);
        }
        match latest_primary(rows, n - 1, key) {
            Some(found) => {
                if found < at {
                    assert(more[found] == rows[found]);
                } else {
                    assert(more[found + 1] == rows[found]);
                }
            },
            None => {},
        }
    }
    if n == at {
        assert(more[n] == other);
    }
}

// ---------------------------------------------------------------------------
// What is added up
// ---------------------------------------------------------------------------

/// The turns of a query are those of its accounts that began in its range, one for one and
/// in their order; each keeps its account, its beginning and its usage, and falls on the day
/// of its beginning.
pub proof fn lemma_facts_are_turns(
    turns: Seq<TurnUsageRecord>,
    keys: Seq<String>,
    range: DateRange,
    breakdown: Seq<char>,
    now: int,
) -> (from: Seq<int>)
    ensures
        ({
            let facts = turn_facts(turns, keys, range, breakdown, now);
            &&& from.len() == facts.len()
            &&& forall|f: int|
                0 <= f < from.len() ==> {
                    let turn = turns[#[trigger] from[f]];
                    &&& 0 <= from[f] < turns.len()
                    &&& range.start <= turn.started_at < range.end
                    &&& lists(keys, turn.account_key@)
                    &&& facts[f].account_key == turn.account_key@
                    &&& facts[f].started_at == turn.started_at
                    &&& facts[f].usage == turn.usage
                    &&& facts[f].day == day_of(
                        turn.started_at as int,
                        range.offset as int,
                        now,
                    )
                    &&& facts[f].category == category_name(
                        breakdown,
                        turn.account_key@,
                        text_opt(turn.model),
                        turn.reasoning_effort@,
                        turn.speed_mode@,
                    )
                    &&& facts[f].units == estimated_units(
                        text_opt(turn.model),
                        turn.speed_mode@,
                        turn.usage,
                    )
                    &&& facts[f].unsure == (turn.confidence != Confidence::High
                        && turn.confidence != Confidence::Medium)
                }
            &&& forall|f: int, g: int| 0 <= f < g < from.len() ==> from[f] < from[g]
            &&& forall|i: int|
                0 <= i < turns.len() && range.start <= (#[trigger] turns[i]).started_at < range.end
                    && lists(keys, turns[i].account_key@) ==> from.contains(i)
        }),
    decreases turns.len(),
{
    if turns.len() == 0 {
        Seq::empty()
    } else {
        let front = turns.drop_last();
        let before = lemma_facts_are_turns(front, keys, range, breakdown, now);
        let turn = turns.last();
        let last = turns.len() - 1;
        assert forall|i: int| 0 <= i < last implies turns[i] == #[trigger] front[i] by {}
        if range.start <= turn.started_at < range.end && lists(keys, turn.account_key@) {
            let from = before.push(last);
            assert(from[before.len() as int] == last);
            assert forall|f: int| 0 <= f < before.len() implies from[f] == #[trigger] before[f] by {}
            assert forall|i: int|
                0 <= i < turns.len() && range.start <= (#[trigger] turns[i]).started_at < range.end
                    && lists(keys, turns[i].account_key@) implies from.contains(i) by {
                if i < last {
                    assert(front[i] == turns[i]);
                    assert(before.contains(i));
                    let f = choose|f: int| 0 <= f < before.len() && before[f] == i;
                    assert(from[f] == i);
                }
            }
            from
        } else {
            assert forall|i: int|
                0 <= i < turns.len() && range.start <= (#[trigger] turns[i]).started_at < range.end
                    && lists(keys, turns[i].account_key@) implies before.contains(i) by {
                assert(front[i] == turns[i]);
            }
            before
        }
    }
}

/// The turn falls on the day and is of the category.
pub open spec fn turn_of(day: int, name: Seq<char>) -> spec_fn(FactsView) -> bool {
    |facts: FactsView| facts.day == day && facts.category == name
}

pub open spec fn turn_of_day(day: int) -> spec_fn(FactsView) -> bool {
    |facts: FactsView| facts.day == day
}

pub open spec fn turn_of_account(key: Seq<char>) -> spec_fn(FactsView) -> bool {
    |facts: FactsView| facts.account_key == key
}

/// The tokens that a turn adds to a count.
pub open spec fn all_its_tokens() -> spec_fn(FactsView) -> int {
    |facts: FactsView|
        if facts.usage.raw_total_tokens > 0 {
            facts.usage.raw_total_tokens as int
        } else {
            0
        }
}

/// What a turn costs; one without a price adds nothing.
pub open spec fn its_price() -> spec_fn(FactsView) -> int {
    |facts: FactsView|
        match facts.units {
            Some(units) => units,
            None => 0,
        }
}

/// A category of a day counts the turns of the day that are of it and adds up their tokens,
/// as far as they can be counted. It is unsure where any of them has no price or is unsure
/// itself.
pub proof fn lemma_category_adds_up(facts: Seq<FactsView>, n: int, day: int, name: Seq<char>)
    requires
        0 <= n <= facts.len(),
    ensures
        ({
            let found = aggregate_of(facts, n, day, name, false);
            let pick = turn_of(day, name);
            &&& found.turn_count == count_where(facts.take(n), pick)
            &&& found.raw_tokens == min_int(
                sum_where(facts.take(n), pick, all_its_tokens()),
                i64::MAX as int,
            )
            &&& found.low_confidence == exists|i: int|
                {
                    &&& 0 <= i < n
                    &&& (#[trigger] facts[i]).day == day
                    &&& facts[i].category == name
                    &&& facts[i].units is None || facts[i].unsure
                }
        }),
    decreases n,
{
    let pick = turn_of(day, name);
    let amount = all_its_tokens();
    if n > 0 {
        lemma_category_adds_up(facts, n - 1, day, name);
        lemma_take_grows(facts, n);
        lemma_sum_nonnegative(facts.take(n - 1), pick, amount);
        assert(facts[n - 1] == facts.take(n).last());
    }
}

/// The price of each turn of a category goes to it as a whole, in the order of the turns.
pub proof fn lemma_category_takes_whole_prices(
    facts: Seq<FactsView>,
    n: int,
    day: int,
    name: Seq<char>,
) -> (from: Seq<int>)
    requires
        0 <= n <= facts.len(),
        forall|i: int|
            0 <= i < facts.len() ==> ((#[trigger] facts[i]).units matches Some(units) ==> i128::MIN
                <= units <= i128::MAX),
    ensures
        ({
            let shares = aggregate_of(facts, n, day, name, false).shares;
            &&& from.len() == shares.len()
            &&& forall|k: int|
                0 <= k < from.len() ==> {
                    &&& 0 <= #[trigger] from[k] < n
                    &&& facts[from[k]].day == day
                    &&& facts[from[k]].category == name
                    &&& facts[from[k]].units == Some(shares[k].credits.units as int)
                    &&& shares[k].part == shares[k].whole
                }
            &&& forall|i: int|
                0 <= i < n && (#[trigger] facts[i]).day == day && facts[i].category == name
                    && facts[i].units is Some ==> from.contains(i)
            &&& forall|j: int, k: int| 0 <= j < k < from.len() ==> from[j] < from[k]
        }),
    decreases n,
{
    if n <= 0 {
        Seq::empty()
    } else {
        let before = lemma_category_takes_whole_prices(facts, n - 1, day, name);
        let last = facts[n - 1];
        if last.day == day && last.category == name && last.units is Some {
            let from = before.push(n - 1);
            assert forall|k: int| 0 <= k < before.len() implies from[k] == #[trigger] before[k] by {}
            assert(from[before.len() as int] == n - 1);
            assert forall|i: int|
                0 <= i < n && (#[trigger] facts[i]).day == day && facts[i].category == name
                    && facts[i].units is Some implies from.contains(i) by {
                if i < n - 1 {
                    let k = choose|k: int| 0 <= k < before.len() && before[k] == i;
                    assert(from[k] == i);
                }
            }
            from
        } else {
            before
        }
    }
}

/// The four kinds of a turn's tokens: the input, the cached input, the reasoning, and the
/// output without the reasoning. A kind of which there is nothing has no part.
pub proof fn lemma_kinds_are_told_apart(facts: FactsView)
    ensures
        part_of(facts, true, "输入"@) == positive(facts.usage.input_tokens as int),
        part_of(facts, true, "缓存输入"@) == positive(facts.usage.cached_input_tokens as int),
        part_of(facts, true, "推理"@) == positive(facts.usage.reasoning_output_tokens as int),
        0 <= facts.usage.reasoning_output_tokens <= facts.usage.output_tokens ==> part_of(
            facts,
            true,
            "输出"@,
        ) == positive(facts.usage.output_tokens - facts.usage.reasoning_output_tokens),
        forall|name: Seq<char>| #[trigger]
            part_of(facts, true, name) is Some ==> name == "输入"@ || name == "缓存输入"@ || name
                == "输出"@ || name == "推理"@,
{
    reveal_strlit("输入");
    reveal_strlit("缓存输入");
    reveal_strlit("输出");
    reveal_strlit("推理");
    assert("输入"@.len() == 2 && "输入"@[0] == '输' && "输入"@[1] == '入');
    assert("缓存输入"@.len() == 4);
    assert("输出"@.len() == 2 && "输出"@[1] == '出');
    assert("推理"@.len() == 2 && "推理"@[0] == '推');
}

pub open spec fn positive(n: int) -> Option<int> {
    if n > 0 {
        Some(n)
    } else {
        None
    }
}

/// A kind of tokens on a day is the sum of that kind over the day's turns, and the turns that
/// have any of it are counted.
pub proof fn lemma_kind_adds_up(facts: Seq<FactsView>, n: int, day: int, name: Seq<char>)
    requires
        0 <= n <= facts.len(),
    ensures
        ({
            let found = aggregate_of(facts, n, day, name, true);
            let has = |turn: FactsView| turn.day == day && part_of(turn, true, name) is Some;
            let tokens = |turn: FactsView| part_of(turn, true, name)->0;
            &&& found.turn_count == count_where(facts.take(n), has)
            &&& found.raw_tokens == min_int(
                sum_where(facts.take(n), has, tokens),
                i64::MAX as int,
            )
        }),
    decreases n,
{
    let has = |turn: FactsView| turn.day == day && part_of(turn, true, name) is Some;
    let tokens = |turn: FactsView| part_of(turn, true, name)->0;
    if n > 0 {
        lemma_kind_adds_up(facts, n - 1, day, name);
        lemma_take_grows(facts, n);
        lemma_sum_nonnegative(facts.take(n - 1), has, tokens);
    }
}

/// A day counts the turns that fall on it, adds up their tokens as far as they can be counted,
/// and has a price where any of them has one: the sum of their prices.
pub proof fn lemma_day_adds_up(facts: Seq<FactsView>, n: int, day: int)
    requires
        0 <= n <= facts.len(),
        forall|i: int|
            0 <= i < facts.len() ==> ((#[trigger] facts[i]).units matches Some(units) ==> units
                >= 0),
    ensures
        ({
            let pick = turn_of_day(day);
            &&& turns_on(facts, n, day) == count_where(facts.take(n), pick)
            &&& local_of(facts, n, day) == min_int(
                sum_where(facts.take(n), pick, all_its_tokens()),
                i64::MAX as int,
            )
            &&& units_on(facts, n, day) matches Some(units) ==> units == min_int(
                sum_where(facts.take(n), pick, its_price()),
                i128::MAX as int,
            )
            &&& units_on(facts, n, day) is Some <==> exists|i: int|
                0 <= i < n && (#[trigger] facts[i]).day == day && facts[i].units is Some
            &&& units_on(facts, n, day) is None ==> sum_where(facts.take(n), pick, its_price())
                == 0
        }),
    decreases n,
{
    let pick = turn_of_day(day);
    if n > 0 {
        lemma_day_adds_up(facts, n - 1, day);
        lemma_take_grows(facts, n);
        let front = facts.take(n - 1);
        lemma_sum_nonnegative(front, pick, all_its_tokens());
        assert forall|i: int| 0 <= i < front.len() && pick(#[trigger] front[i]) implies its_price()(
            front[i],
        ) >= 0 by {
            assert(front[i] == facts[i]);
        }
        lemma_sum_nonnegative(front, pick, its_price());
        assert(facts[n - 1].units matches Some(units) ==> units >= 0);
    }
}

/// An account counts the turns that are its own, adds up their tokens as far as they can be
/// counted, and has a price where any of them has one: the sum of their prices.
pub proof fn lemma_account_adds_up(facts: Seq<FactsView>, n: int, key: Seq<char>)
    requires
        0 <= n <= facts.len(),
        forall|i: int|
            0 <= i < facts.len() ==> ((#[trigger] facts[i]).units matches Some(units) ==> units
                >= 0),
    ensures
        ({
            let pick = turn_of_account(key);
            &&& account_turns(facts, n, key) == count_where(facts.take(n), pick)
            &&& account_tokens(facts, n, key) == min_int(
                sum_where(facts.take(n), pick, all_its_tokens()),
                i64::MAX as int,
            )
            &&& account_units(facts, n, key) matches Some(units) ==> units == min_int(
                sum_where(facts.take(n), pick, its_price()),
                i128::MAX as int,
            )
            &&& account_units(facts, n, key) is Some <==> exists|i: int|
                0 <= i < n && (#[trigger] facts[i]).account_key == key && facts[i].units is Some
            &&& account_units(facts, n, key) is None ==> sum_where(
                facts.take(n),
                pick,
                its_price(),
            ) == 0
        }),
    decreases n,
{
    let pick = turn_of_account(key);
    if n > 0 {
        lemma_account_adds_up(facts, n - 1, key);
        lemma_take_grows(facts, n);
        let front = facts.take(n - 1);
        lemma_sum_nonnegative(front, pick, all_its_tokens());
        assert forall|i: int| 0 <= i < front.len() && pick(#[trigger] front[i]) implies its_price()(
            front[i],
        ) >= 0 by {
            assert(front[i] == facts[i]);
        }
        lemma_sum_nonnegative(front, pick, its_price());
        assert(facts[n - 1].units matches Some(units) ==> units >= 0);
    }
}

/// The row is an official count of the date, of one of the accounts, on a date of the range.
pub open spec fn counts_date(
    keys: Seq<String>,
    from: Seq<char>,
    to: Seq<char>,
    date: Seq<char>,
) -> spec_fn(DailyUsageRow) -> bool {
    |row: DailyUsageRow|
        {
            &&& row.date@ == date
            &&& lists(keys, row.account_key@)
            &&& !precedes(date, from)
            &&& !precedes(to, date)
        }
}

pub open spec fn its_official_tokens() -> spec_fn(DailyUsageRow) -> int {
    |row: DailyUsageRow|
        if row.official_tokens > 0 {
            row.official_tokens as int
        } else {
            0
        }
}

/// The official count of a date is told where any of the accounts has one, and is what they
/// add up to, as far as it can be counted.
pub proof fn lemma_official_adds_up(
    rows: Seq<DailyUsageRow>,
    n: int,
    keys: Seq<String>,
    from: Seq<char>,
    to: Seq<char>,
    date: Seq<char>,
)
    requires
        0 <= n <= rows.len(),
    ensures
        ({
            let pick = counts_date(keys, from, to, date);
            let sum = sum_where(rows.take(n), pick, its_official_tokens());
            &&& official_of(rows, n, keys, from, to, date) matches Some(found) ==> found
                == min_int(sum, i64::MAX as int)
            &&& official_of(rows, n, keys, from, to, date) is Some <==> exists|i: int|
                {
                    &&& 0 <= i < n
                    &&& (#[trigger] rows[i]).date@ == date
                    &&& lists(keys, rows[i].account_key@)
                    &&& !precedes(date, from)
                    &&& !precedes(to, date)
                }
            &&& official_of(rows, n, keys, from, to, date) is None ==> sum == 0
        }),
    decreases n,
{
    let pick = counts_date(keys, from, to, date);
    if n > 0 {
        lemma_official_adds_up(rows, n - 1, keys, from, to, date);
        lemma_take_grows(rows, n);
        lemma_sum_nonnegative(rows.take(n - 1), pick, its_official_tokens());
        assert(rows[n - 1] == rows.take(n).last());
    }
}

/// What nothing local explains of a date is what an account's official count has above the
/// local one; it is told where any of the accounts' counts is above it.
pub proof fn lemma_unattributed_is_above_local(
    rows: Seq<DailyUsageRow>,
    keys: Seq<String>,
    from: Seq<char>,
    to: Seq<char>,
    date: Seq<char>,
    local: int,
)
    requires
        local >= 0,
    ensures
        match unattributed_of(rows, keys, from, to, date, local) {
            Some(tokens) => {
                &&& tokens > 0
                &&& exists|i: int|
                    {
                        &&& 0 <= i < rows.len()
                        &&& counts_date(keys, from, to, date)(#[trigger] rows[i])
                        &&& rows[i].official_tokens == local + tokens
                        &&& forall|k: int|
                            0 <= k < rows.len() && counts_date(keys, from, to, date)(
                                #[trigger] rows[k],
                            ) && rows[k].official_tokens > local ==> !precedes(
                                rows[i].account_key@,
                                rows[k].account_key@,
                            )
                    }
            },
            None => forall|i: int|
                0 <= i < rows.len() && counts_date(keys, from, to, date)(#[trigger] rows[i])
                    ==> rows[i].official_tokens <= local,
        },
{
    lemma_exceeding_row(rows, rows.len() as int, keys, from, to, date, local);
    match exceeding_row(rows, rows.len() as int, keys, from, to, date, local) {
        Some(at) => {
            assert(counts_date(keys, from, to, date)(rows[at]));
        },
        None => {},
    }
}

proof fn lemma_exceeding_row(
    rows: Seq<DailyUsageRow>,
    n: int,
    keys: Seq<String>,
    from: Seq<char>,
    to: Seq<char>,
    date: Seq<char>,
    local: int,
)
    requires
        0 <= n <= rows.len(),
        local >= 0,
    ensures
        match exceeding_row(rows, n, keys, from, to, date, local) {
            Some(at) => {
                &&& 0 <= at < n
                &&& counts_date(keys, from, to, date)(rows[at])
                &&& rows[at].official_tokens > local
                &&& forall|k: int|
                    0 <= k < n && counts_date(keys, from, to, date)(#[trigger] rows[k])
                        && rows[k].official_tokens > local ==> !precedes(
                        rows[at].account_key@,
                        rows[k].account_key@,
                    )
            },
            None => forall|i: int|
                0 <= i < n && counts_date(keys, from, to, date)(#[trigger] rows[i])
                    ==> rows[i].official_tokens <= local,
        },
    decreases n,
{
    if n > 0 {
        lemma_exceeding_row(rows, n - 1, keys, from, to, date, local);
        let row = rows[n - 1];
        let pick = counts_date(keys, from, to, date);
        assert(pick(row) == (official_row(row, keys, from, to) && row.date@ == date));
        lemma_precedes_is_order(row.account_key@, row.account_key@, row.account_key@);
        match exceeding_row(rows, n - 1, keys, from, to, date, local) {
            Some(at) => {
                assert forall|k: int|
                    0 <= k < n && pick(#[trigger] rows[k]) && rows[k].official_tokens
                        > local implies !precedes(
                    rows[exceeding_row(rows, n, keys, from, to, date, local)->0].account_key@,
                    rows[k].account_key@,
                ) by {
                    lemma_precedes_is_order(
                        row.account_key@,
                        rows[at].account_key@,
                        rows[k].account_key@,
                    );
                }
            },
            None => {},
        }
    }
}

/// The shares of a step go to turns of the step's account that began within it, each by what
/// the turn costs, of what all of them cost.
pub proof fn lemma_shares_go_to_turns_of_the_step(
    facts: Seq<FactsView>,
    n: int,
    step: StepView,
    index: usize,
)
    requires
        0 <= n <= facts.len() <= usize::MAX,
        forall|i: int|
            0 <= i < facts.len() ==> ((#[trigger] facts[i]).units matches Some(units) ==> 0 <= units
                <= i128::MAX),
    ensures
        ({
            let shares = shares_of_step(facts, n, step, index);
            forall|k: int|
                0 <= k < shares.len() ==> {
                    let turn = facts[(#[trigger] shares[k]).turn as int];
                    &&& shares[k].step == index
                    &&& shares[k].turn < n
                    &&& turn.account_key == step.account_key
                    &&& step.start_at < turn.started_at
                    &&& turn.started_at <= step.end_at
                    &&& shares[k].credits.units == its_price()(turn)
                    &&& shares[k].whole.units == step_units(facts, facts.len() as int, step)
                }
        }),
        is_shared_out(facts, step) ==> forall|i: int|
            0 <= i < n && (#[trigger] facts[i]).account_key == step.account_key && step.start_at
                < facts[i].started_at && facts[i].started_at <= step.end_at ==> has_share(
                shares_of_step(facts, n, step, index),
                i,
            ),
    decreases n,
{
    if n > 0 {
        lemma_shares_go_to_turns_of_the_step(facts, n - 1, step, index);
        lemma_step_units_grow(facts, n, facts.len() as int, step);
        let before = shares_of_step(facts, n - 1, step, index);
        let after = shares_of_step(facts, n, step, index);
        assert(facts[n - 1].units matches Some(units) ==> 0 <= units <= i128::MAX);
        if is_shared_out(facts, step) {
            assert forall|i: int|
                0 <= i < n && (#[trigger] facts[i]).account_key == step.account_key
                    && step.start_at < facts[i].started_at && facts[i].started_at
                    <= step.end_at implies has_share(after, i) by {
                if i < n - 1 {
                    assert(has_share(before, i));
                    let k = choose|k: int|
                        0 <= k < before.len() && (#[trigger] before[k]).turn == i;
                    assert(after[k].turn == i);
                } else {
                    assert(after[before.len() as int].turn == i);
                }
            }
        }
    }
}

pub open spec fn has_share(shares: Seq<StepShare>, turn: int) -> bool {
    exists|k: int| 0 <= k < shares.len() && (#[trigger] shares[k]).turn == turn
}

/// What the turns of a step cost is what those of its account cost that began within it.
pub proof fn lemma_step_costs_its_turns(facts: Seq<FactsView>, n: int, step: StepView)
    requires
        0 <= n <= facts.len(),
        forall|i: int|
            0 <= i < facts.len() ==> ((#[trigger] facts[i]).units matches Some(units) ==> units
                >= 0),
    ensures
        step_units(facts, n, step) == min_int(
            sum_where(facts.take(n), began_within(step), its_price()),
            i128::MAX as int,
        ),
    decreases n,
{
    let pick = began_within(step);
    if n > 0 {
        lemma_step_costs_its_turns(facts, n - 1, step);
        lemma_take_grows(facts, n);
        let front = facts.take(n - 1);
        assert forall|i: int| 0 <= i < front.len() && pick(#[trigger] front[i]) implies its_price()(
            front[i],
        ) >= 0 by {
            assert(front[i] == facts[i]);
        }
        lemma_sum_nonnegative(front, pick, its_price());
        assert(facts[n - 1].units matches Some(units) ==> units >= 0);
    }
}

pub open spec fn began_within(step: StepView) -> spec_fn(FactsView) -> bool {
    |facts: FactsView|
        {
            &&& facts.account_key == step.account_key
            &&& step.start_at < facts.started_at
            &&& facts.started_at <= step.end_at
        }
}

/// The step stands for an interval of a primary bucket of one of the accounts that reaches
/// into the range.
pub open spec fn stands_for_interval(
    step: StepFacts,
    buckets: Seq<BucketIntervals>,
    keys: Seq<String>,
    range: DateRange,
    now: int,
) -> bool {
    exists|b: int, i: int|
        {
            &&& 0 <= b < buckets.len()
            &&& 0 <= i < (#[trigger] buckets[b]).intervals@.len()
            &&& buckets[b].window@ == "primary"@
            &&& lists(keys, buckets[b].account_key@)
            &&& step.account_key@ == buckets[b].account_key@
            &&& is_interval_step(step, #[trigger] buckets[b].intervals@[i], range, now)
        }
}

/// The step says of the interval when it began and ended, on which day, and at which shares;
/// the interval reaches into the range.
pub open spec fn is_interval_step(
    step: StepFacts,
    interval: QuotaInterval,
    range: DateRange,
    now: int,
) -> bool {
    &&& step.start_at == interval.start_at
    &&& step.end_at == interval.end_at
    &&& step.start_percent == interval.start_percent
    &&& step.end_percent == interval.end_percent
    &&& range.start < interval.end_at
    &&& interval.start_at < range.end
    &&& step.day == day_of(interval.end_at as int, range.offset as int, now) as i64
}

pub open spec fn has_interval_step(
    steps: Seq<StepFacts>,
    account_key: Seq<char>,
    interval: QuotaInterval,
    range: DateRange,
    now: int,
) -> bool {
    exists|k: int|
        0 <= k < steps.len() && is_interval_step(#[trigger] steps[k], interval, range, now)
            && steps[k].account_key@ == account_key
}

/// The steps of a query are the intervals of its accounts' primary buckets that reach into
/// its range: each stands for one, each has its step, and they stand by when they ended.
pub proof fn lemma_steps_are_primary_intervals(
    buckets: Seq<BucketIntervals>,
    keys: Seq<String>,
    range: DateRange,
    now: int,
)
    ensures
        ({
            let steps = sorted(range_steps(buckets, buckets.len() as int, keys, range, now));
            &&& forall|k: int|
                0 <= k < steps.len() ==> stands_for_interval(
                    #[trigger] steps[k],
                    buckets,
                    keys,
                    range,
                    now,
                )
            &&& forall|b: int, i: int|
                {
                    &&& 0 <= b < buckets.len()
                    &&& 0 <= i < (#[trigger] buckets[b]).intervals@.len()
                    &&& buckets[b].window@ == "primary"@
                    &&& lists(keys, buckets[b].account_key@)
                    &&& range.start < (#[trigger] buckets[b].intervals@[i]).end_at
                    &&& buckets[b].intervals@[i].start_at < range.end
                } ==> has_interval_step(
                    steps,
                    buckets[b].account_key@,
                    buckets[b].intervals@[i],
                    range,
                    now,
                )
            &&& forall|k: int, m: int|
                0 <= k < m < steps.len() ==> (#[trigger] steps[k]).end_at <= (
                #[trigger] steps[m]).end_at
        }),
{
    let rows = range_steps(buckets, buckets.len() as int, keys, range, now);
    let steps = sorted(rows);
    lemma_range_steps(buckets, buckets.len() as int, keys, range, now);
    crate::sorting::lemma_sorted(rows);
    assert forall|k: int| 0 <= k < steps.len() implies stands_for_interval(
        #[trigger] steps[k],
        buckets,
        keys,
        range,
        now,
    ) by {
        let from = crate::sorting::lemma_sorted_member(rows, k);
        assert(stands_for_interval(rows[from], buckets, keys, range, now));
    }
    assert forall|b: int, i: int|
        {
            &&& 0 <= b < buckets.len()
            &&& 0 <= i < (#[trigger] buckets[b]).intervals@.len()
            &&& buckets[b].window@ == "primary"@
            &&& lists(keys, buckets[b].account_key@)
            &&& range.start < (#[trigger] buckets[b].intervals@[i]).end_at
            &&& buckets[b].intervals@[i].start_at < range.end
        } implies has_interval_step(
        steps,
        buckets[b].account_key@,
        buckets[b].intervals@[i],
        range,
        now,
    ) by {
        let interval = buckets[b].intervals@[i];
        assert(has_interval_step(rows, buckets[b].account_key@, interval, range, now));
        let k = choose|k: int|
            0 <= k < rows.len() && is_interval_step(#[trigger] rows[k], interval, range, now)
                && rows[k].account_key@ == buckets[b].account_key@;
        let to = crate::sorting::lemma_sorted_keeps(rows, k);
        assert(is_interval_step(steps[to], interval, range, now));
    }
    assert forall|k: int, m: int| 0 <= k < m < steps.len() implies (#[trigger] steps[k]).end_at <= (
    #[trigger] steps[m]).end_at by {
        assert(!steps[k].behind(steps[m]));
    }
}

proof fn lemma_bucket_steps(bucket: BucketIntervals, n: int, range: DateRange, now: int)
    requires
        0 <= n <= bucket.intervals@.len(),
    ensures
        ({
            let rows = bucket_steps(bucket, n, range, now);
            &&& forall|k: int|
                0 <= k < rows.len() ==> (#[trigger] rows[k]).account_key == bucket.account_key
                    && exists|i: int|
                    0 <= i < n && is_interval_step(
                        rows[k],
                        #[trigger] bucket.intervals@[i],
                        range,
                        now,
                    )
            &&& forall|i: int|
                0 <= i < n && range.start < (#[trigger] bucket.intervals@[i]).end_at
                    && bucket.intervals@[i].start_at < range.end ==> has_interval_step(
                    rows,
                    bucket.account_key@,
                    bucket.intervals@[i],
                    range,
                    now,
                )
        }),
    decreases n,
{
    if n > 0 {
        lemma_bucket_steps(bucket, n - 1, range, now);
        let before = bucket_steps(bucket, n - 1, range, now);
        let rows = bucket_steps(bucket, n, range, now);
        let last = bucket.intervals@[n - 1];
        assert forall|k: int| 0 <= k < rows.len() implies (#[trigger] rows[k]).account_key
            == bucket.account_key && exists|i: int|
            0 <= i < n && is_interval_step(rows[k], #[trigger] bucket.intervals@[i], range, now) by {
            if k < before.len() {
                assert(rows[k] == before[k]);
                let i = choose|i: int|
                    0 <= i < n - 1 && is_interval_step(
                        before[k],
                        #[trigger] bucket.intervals@[i],
                        range,
                        now,
                    );
                assert(is_interval_step(rows[k], bucket.intervals@[i], range, now));
            } else {
                assert(is_interval_step(rows[k], bucket.intervals@[n - 1], range, now));
            }
        }
        assert forall|i: int|
            0 <= i < n && range.start < (#[trigger] bucket.intervals@[i]).end_at
                && bucket.intervals@[i].start_at < range.end implies has_interval_step(
            rows,
            bucket.account_key@,
            bucket.intervals@[i],
            range,
            now,
        ) by {
            if i < n - 1 {
                let interval = bucket.intervals@[i];
                let k = choose|k: int|
                    0 <= k < before.len() && is_interval_step(
                        #[trigger] before[k],
                        interval,
                        range,
                        now,
                    ) && before[k].account_key@ == bucket.account_key@;
                assert(rows[k] == before[k]);
            } else {
                assert(is_interval_step(rows[before.len() as int], last, range, now));
            }
        }
    }
}

proof fn lemma_range_steps(
    buckets: Seq<BucketIntervals>,
    n: int,
    keys: Seq<String>,
    range: DateRange,
    now: int,
)
    requires
        0 <= n <= buckets.len(),
    ensures
        ({
            let rows = range_steps(buckets, n, keys, range, now);
            &&& forall|k: int|
                0 <= k < rows.len() ==> stands_for_interval(
                    #[trigger] rows[k],
                    buckets,
                    keys,
                    range,
                    now,
                )
            &&& forall|b: int, i: int|
                {
                    &&& 0 <= b < n
                    &&& 0 <= i < (#[trigger] buckets[b]).intervals@.len()
                    &&& buckets[b].window@ == "primary"@
                    &&& lists(keys, buckets[b].account_key@)
                    &&& range.start < (#[trigger] buckets[b].intervals@[i]).end_at
                    &&& buckets[b].intervals@[i].start_at < range.end
                } ==> has_interval_step(
                    rows,
                    buckets[b].account_key@,
                    buckets[b].intervals@[i],
                    range,
                    now,
                )
        }),
    decreases n,
{
    if n > 0 {
        lemma_range_steps(buckets, n - 1, keys, range, now);
        let before = range_steps(buckets, n - 1, keys, range, now);
        let rows = range_steps(buckets, n, keys, range, now);
        let bucket = buckets[n - 1];
        let own = bucket_steps(bucket, bucket.intervals@.len() as int, range, now);
        lemma_bucket_steps(bucket, bucket.intervals@.len() as int, range, now);
        assert forall|k: int| 0 <= k < rows.len() implies stands_for_interval(
            #[trigger] rows[k],
            buckets,
            keys,
            range,
            now,
        ) by {
            if k < before.len() {
                assert(rows[k] == before[k]);
            } else {
                let at = k - before.len();
                assert(rows[k] == own[at]);
                assert(own[at].account_key == bucket.account_key);
                let i = choose|i: int|
                    0 <= i < bucket.intervals@.len() && is_interval_step(
                        own[at],
                        #[trigger] bucket.intervals@[i],
                        range,
                        now,
                    );
                assert(is_interval_step(
                    rows[k],
                    buckets[n - 1].intervals@[i],
                    range,
                    now,
                ));
            }
        }
        assert forall|b: int, i: int|
            {
                &&& 0 <= b < n
                &&& 0 <= i < (#[trigger] buckets[b]).intervals@.len()
                &&& buckets[b].window@ == "primary"@
                &&& lists(keys, buckets[b].account_key@)
                &&& range.start < (#[trigger] buckets[b].intervals@[i]).end_at
                &&& buckets[b].intervals@[i].start_at < range.end
            } implies has_interval_step(
            rows,
            buckets[b].account_key@,
            buckets[b].intervals@[i],
            range,
            now,
        ) by {
            let interval = buckets[b].intervals@[i];
            if b < n - 1 {
                let k = choose|k: int|
                    0 <= k < before.len() && is_interval_step(
                        #[trigger] before[k],
                        interval,
                        range,
                        now,
                    ) && before[k].account_key@ == buckets[b].account_key@;
                assert(rows[k] == before[k]);
            } else {
                assert(has_interval_step(own, bucket.account_key@, interval, range, now));
                let k = choose|k: int|
                    0 <= k < own.len() && is_interval_step(#[trigger] own[k], interval, range, now)
                        && own[k].account_key@ == bucket.account_key@;
                assert(rows[before.len() + k] == own[k]);
            }
        }
    }
}

pub open spec fn every_day() -> spec_fn(DayUsage) -> bool {
    |day: DayUsage| true
}

/// The whole is what the days add up to: their local tokens, their official ones, and as the
/// raw count of each the official one where there is one and the local one otherwise. The
/// active days are those with a raw count or a turn.
pub proof fn lemma_totals_add_up(days: Seq<DayUsage>, n: int)
    requires
        0 <= n <= days.len(),
    ensures
        ({
            let total = totals_of(days, n);
            let raw = |day: DayUsage|
                match day.official_tokens {
                    Some(official) => official as int,
                    None => day.local_tokens as int,
                };
            let official = |day: DayUsage|
                match day.official_tokens {
                    Some(official) => official as int,
                    None => 0,
                };
            let local = |day: DayUsage| day.local_tokens as int;
            let active = |day: DayUsage|
                day.turn_count > 0 || match day.official_tokens {
                    Some(official) => official > 0,
                    None => day.local_tokens > 0,
                };
            &&& total.raw_tokens == sum_where(days.take(n), every_day(), raw)
            &&& total.official_tokens == sum_where(days.take(n), every_day(), official)
            &&& total.local_tokens == sum_where(days.take(n), every_day(), local)
            &&& total.active_days == count_where(days.take(n), active)
        }),
    decreases n,
{
    if n > 0 {
        lemma_totals_add_up(days, n - 1);
        lemma_take_grows(days, n);
    }
}

pub open spec fn goes_by(name: Seq<char>) -> spec_fn(DayCategory) -> bool {
    |category: DayCategory| category.name@ == name
}

pub open spec fn category_raw_tokens() -> spec_fn(DayCategory) -> int {
    |category: DayCategory| category.aggregate.raw_tokens as int
}

pub open spec fn category_turns() -> spec_fn(DayCategory) -> int {
    |category: DayCategory| category.aggregate.turn_count as int
}

/// What a day says of the category of a name: the tokens of its categories of that name.
pub open spec fn tokens_named(name: Seq<char>) -> spec_fn(DayUsage) -> int {
    |day: DayUsage| sum_where(day.categories@, goes_by(name), category_raw_tokens())
}

/// The turns of the categories of a name on a day.
pub open spec fn turns_named(name: Seq<char>) -> spec_fn(DayUsage) -> int {
    |day: DayUsage| sum_where(day.categories@, goes_by(name), category_turns())
}

/// The breakdown of a name is what the days say of it, added up.
pub proof fn lemma_breakdown_adds_up(days: Seq<DayUsage>, n: int, name: Seq<char>)
    requires
        0 <= n <= days.len(),
        forall|i: int| 0 <= i < days.len() ==> categories_ascend((#[trigger] days[i]).categories@),
    ensures
        ({
            let found = breakdown_of(days, n, name);
            &&& found.raw_tokens == sum_where(
                days.take(n),
                every_day(),
                tokens_named(name),
            )
            &&& found.turn_count == sum_where(
                days.take(n),
                every_day(),
                turns_named(name),
            )
        }),
    decreases n,
{
    if n > 0 {
        lemma_breakdown_adds_up(days, n - 1, name);
        lemma_take_grows(days, n);
        let categories = days[n - 1].categories@;
        let pick = goes_by(name);
        let tokens = category_raw_tokens();
        let turns = category_turns();
        crate::table::lemma_first_where(categories, is_named(name));
        assert(categories_ascend(categories));
        match category_at(categories, name) {
            Some(at) => {
                assert forall|i: int| 0 <= i < categories.len() && i != at implies !pick(
                    #[trigger] categories[i],
                ) by {
                    lemma_precedes_is_order(name, name, name);
                    if i < at {
                        assert(precedes(categories[i].name@, categories[at].name@));
                    } else {
                        assert(precedes(categories[at].name@, categories[i].name@));
                    }
                }
                lemma_sum_of_one(categories, pick, tokens, at);
                lemma_sum_of_one(categories, pick, turns, at);
            },
            None => {
                assert forall|i: int| 0 <= i < categories.len() implies !pick(
                    #[trigger] categories[i],
                ) by {
                    assert(!is_named(name)(categories[i]));
                }
                lemma_sum_of_none(categories, pick, tokens);
                lemma_sum_of_none(categories, pick, turns);
            },
        }
    }
}

/// The name that an account is shown under is that of its own record.
pub proof fn lemma_display_is_the_accounts(accounts: Seq<AccountRecord>, key: Seq<char>)
    ensures
        display_of(accounts, key) matches Some(name) ==> exists|i: int|
            {
                &&& 0 <= i < accounts.len()
                &&& (#[trigger] accounts[i]).account_key@ == key
                &&& text_opt(accounts[i].display_name) == Some(name)
            },
        display_of(accounts, key) is None ==> {
            ||| forall|i: int| 0 <= i < accounts.len() ==> (#[trigger] accounts[i]).account_key@ != key
            ||| exists|i: int|
                {
                    &&& 0 <= i < accounts.len()
                    &&& (#[trigger] accounts[i]).account_key@ == key
                    &&& accounts[i].display_name is None
                }
        },
{
    let pick = is_record_of(key);
    crate::table::lemma_first_where(accounts, pick);
    match first_where(accounts, pick) {
        Some(at) => {
            assert(accounts[at].account_key@ == key);
        },
        None => {
            assert forall|i: int| 0 <= i < accounts.len() implies (#[trigger] accounts[i]).account_key@
                != key by {
                assert(!pick(accounts[i]));
            }
        },
    }
}

/// A query of one account speaks of no other, and of none whose data was never verified. A
/// query of all speaks only of accounts of which something is known.
pub proof fn lemma_scope_is_kept(tables: UsageTables, scope: AccountScope, key: Seq<char>)
    requires
        in_scope(tables, scope, key),
    ensures
        scope matches AccountScope::Single { account_key } ==> key == account_key@,
        scope is All ==> {
            ||| exists|i: int|
                0 <= i < tables.accounts@.len() && (#[trigger] tables.accounts@[i]).account_key@
                    == key
            ||| exists|i: int|
                0 <= i < tables.turns@.len() && (#[trigger] tables.turns@[i]).account_key@ == key
            ||| exists|i: int|
                0 <= i < tables.daily@.len() && (#[trigger] tables.daily@[i]).account_key@ == key
        },
        forall|i: int|
            0 <= i < tables.health@.len() && (#[trigger] tables.health@[i]).account_key@ == key
                ==> tables.health@[i].status != crate::health::DataHealth::LegacyUnverified,
{
}

/// How sure a figure is follows from the turns that it rests on: from none nothing, from any
/// that is not sure little, from one all, and from several something between.
pub proof fn lemma_confidence_follows_the_turns(turn_count: int, low_confidence: bool)
    requires
        turn_count >= 0,
    ensures
        ({
            let sure = aggregate_confidence(turn_count, low_confidence);
            &&& sure == Confidence::Unknown <==> turn_count < 1
            &&& sure == Confidence::Low <==> turn_count >= 1 && low_confidence
            &&& sure == Confidence::High <==> turn_count == 1 && !low_confidence
            &&& sure == Confidence::Medium <==> turn_count >= 2 && !low_confidence
        }),
{
}

/// The summary of an account is made of its own turns, under its own name, with its own quota:
/// as many turns as began in the range, and all their tokens.
pub proof fn lemma_summary_is_the_accounts(
    summary: AccountSummary,
    facts: Seq<FactsView>,
    accounts: Seq<AccountRecord>,
    quotas: Seq<RateLimitRow>,
    rows: Seq<DailyUsageRow>,
    keys: Seq<String>,
    from: Seq<char>,
    to: Seq<char>,
)
    requires
        is_summary(summary, facts, accounts, quotas, rows, keys, from, to),
        forall|i: int|
            0 <= i < facts.len() ==> ((#[trigger] facts[i]).units matches Some(units) ==> units
                >= 0),
    ensures
        ({
            let pick = turn_of_account(summary.account_key@);
            &&& summary.turn_count == count_where(facts, pick)
            &&& summary.raw_tokens == min_int(
                sum_where(facts, pick, all_its_tokens()),
                i64::MAX as int,
            )
            &&& summary.credits matches Some(credits) ==> credits.units == min_int(
                sum_where(facts, pick, its_price()),
                i128::MAX as int,
            )
            &&& summary.credits is Some <==> exists|i: int|
                0 <= i < facts.len() && (#[trigger] facts[i]).account_key
                    == summary.account_key@ && facts[i].units is Some
        }),
        text_opt(summary.display_name) == display_of(accounts, summary.account_key@),
        summary.quota == quota_of(quotas, summary.account_key@),
{
    lemma_account_adds_up(facts, facts.len() as int, summary.account_key@);
    assert(facts.take(facts.len() as int) =~= facts);
}

/// An account was active on a date where one of its turns began on it, or where an official
/// count of it is for that date, within the range.
pub proof fn lemma_active_dates_are_the_accounts(
    facts: Seq<FactsView>,
    rows: Seq<DailyUsageRow>,
    keys: Seq<String>,
    from: Seq<char>,
    to: Seq<char>,
    key: Seq<char>,
    date: Seq<char>,
)
    ensures
        active_on(facts, rows, keys, from, to, key, date) ==> {
            ||| exists|i: int|
                0 <= i < facts.len() && (#[trigger] facts[i]).account_key == key && date_text(
                    facts[i].day,
                ) == Some(date)
            ||| exists|i: int|
                0 <= i < rows.len() && (#[trigger] rows[i]).account_key@ == key && rows[i].date@
                    == date && !precedes(date, from) && !precedes(to, date)
        },
        forall|i: int|
            0 <= i < facts.len() && (#[trigger] facts[i]).account_key == key && i32::MIN
                <= facts[i].day <= i32::MAX && date_text(facts[i].day) == Some(date) ==> active_on(
                facts,
                rows,
                keys,
                from,
                to,
                key,
                date,
            ),
        forall|i: int|
            0 <= i < rows.len() && (#[trigger] rows[i]).account_key@ == key && rows[i].date@ == date
                && !precedes(date, from) && !precedes(to, date) && lists(keys, key) ==> active_on(
                facts,
                rows,
                keys,
                from,
                to,
                key,
                date,
            ),
{
    if turn_on_date(facts, facts.len() as int, key, date) {
        let i = choose|i: int|
            0 <= i < facts.len() && (#[trigger] facts[i]).account_key == key && i32::MIN
                <= facts[i].day <= i32::MAX && date_text(facts[i].day) == Some(date);
        assert(facts[i].account_key == key);
    }
    if counted_on_date(rows, rows.len() as int, keys, from, to, key, date) {
        let i = choose|i: int|
            0 <= i < rows.len() && (#[trigger] rows[i]).account_key@ == key && rows[i].date@
                == date && official_row(rows[i], keys, from, to);
        assert(rows[i].account_key@ == key);
    }
}

/// The categories of a day are named once each, in order. Every category that a turn of the day
/// is of is among them, and every other name among them is that of a turn whose step the day
/// has a share of, or stands for what belongs to none.
pub proof fn lemma_days_categories_are_its_turns(
    categories: Seq<DayCategory>,
    facts: Seq<FactsView>,
    steps: Seq<StepView>,
    unattributed: Option<int>,
    day: int,
    name: Seq<char>,
)
    requires
        are_categories(categories, facts, steps, unattributed, day, false),
    ensures
        (exists|i: int|
            0 <= i < facts.len() && (#[trigger] facts[i]).day == day && facts[i].category == name)
            ==> names_category(categories, name),
        names_category(categories, name) && name != UNATTRIBUTED@ ==> exists|i: int|
            0 <= i < facts.len() && (#[trigger] facts[i]).day == day && facts[i].category == name,
        unattributed is Some ==> names_category(categories, UNATTRIBUTED@),
        forall|i: int, j: int|
            0 <= i < j < categories.len() ==> (#[trigger] categories[i]).name@ != (
            #[trigger] categories[j]).name@,
{
    let n = facts.len() as int;
    if exists|i: int|
        0 <= i < facts.len() && (#[trigger] facts[i]).day == day && facts[i].category == name {
        let i = choose|i: int|
            0 <= i < facts.len() && (#[trigger] facts[i]).day == day && facts[i].category == name;
        assert(part_of(facts[i], false, name) is Some);
        assert(is_shown(facts, steps, unattributed, day, name, false));
    }
    if names_category(categories, name) && name != UNATTRIBUTED@ {
        assert(is_shown(facts, steps, unattributed, day, name, false));
        if some_part(facts, n, day, name, false) {
            let i = choose|i: int|
                0 <= i < n && (#[trigger] facts[i]).day == day && part_of(facts[i], false, name)
                    is Some;
            assert(facts[i].category == name);
        } else {
            let k = choose|k: int|
                0 <= k < steps.len() && step_touches(facts, #[trigger] steps[k], day, name);
            let i = choose|i: int|
                0 <= i < facts.len() && in_step(#[trigger] facts[i], steps[k]) && facts[i].day
                    == day && facts[i].category == name;
            assert(facts[i].category == name);
        }
    }
    if unattributed is Some {
        assert(is_shown(facts, steps, unattributed, day, UNATTRIBUTED@, false));
    }
    assert forall|i: int, j: int| 0 <= i < j < categories.len() implies (
    #[trigger] categories[i]).name@ != (#[trigger] categories[j]).name@ by {
        lemma_precedes_is_order(
            categories[i].name@,
            categories[j].name@,
            categories[i].name@,
        );
    }
}

/// Every share of the steps goes to a turn of the step's account that began within the step.
pub proof fn lemma_every_share_is_within_its_step(
    facts: Seq<FactsView>,
    steps: Seq<StepView>,
    n: int,
)
    requires
        0 <= n <= steps.len() <= usize::MAX,
        facts.len() <= usize::MAX,
        forall|i: int|
            0 <= i < facts.len() ==> ((#[trigger] facts[i]).units matches Some(units) ==> 0 <= units
                <= i128::MAX),
    ensures
        ({
            let shares = shares_of_steps(facts, steps, n);
            forall|k: int|
                0 <= k < shares.len() ==> {
                    let step = steps[(#[trigger] shares[k]).step as int];
                    let turn = facts[shares[k].turn as int];
                    &&& shares[k].step < n
                    &&& shares[k].turn < facts.len()
                    &&& turn.account_key == step.account_key
                    &&& step.start_at < turn.started_at
                    &&& turn.started_at <= step.end_at
                    &&& shares[k].credits.units == its_price()(turn)
                    &&& shares[k].whole.units == step_units(facts, facts.len() as int, step)
                }
        }),
    decreases n,
{
    if n > 0 {
        lemma_every_share_is_within_its_step(facts, steps, n - 1);
        let before = shares_of_steps(facts, steps, n - 1);
        let last = shares_of_step(facts, facts.len() as int, steps[n - 1], (n - 1) as usize);
        lemma_shares_go_to_turns_of_the_step(
            facts,
            facts.len() as int,
            steps[n - 1],
            (n - 1) as usize,
        );
        let shares = shares_of_steps(facts, steps, n);
        assert forall|k: int| 0 <= k < shares.len() implies #[trigger] shares[k] == if k
            < before.len() {
            before[k]
        } else {
            last[k - before.len()]
        } by {}
        assert forall|k: int| 0 <= k < shares.len() implies {
            let step = steps[(#[trigger] shares[k]).step as int];
            let turn = facts[shares[k].turn as int];
            &&& shares[k].step < n
            &&& shares[k].turn < facts.len()
            &&& turn.account_key == step.account_key
            &&& step.start_at < turn.started_at
            &&& turn.started_at <= step.end_at
            &&& shares[k].credits.units == its_price()(turn)
            &&& shares[k].whole.units == step_units(facts, facts.len() as int, step)
        } by {
            if k < before.len() {
                assert(shares[k] == before[k]);
            } else {
                assert(shares[k] == last[k - before.len()]);
            }
        }
    }
}

/// An account that is asked for is taken in, unless it is not identified or was never verified.
/// All that are known are, under the same conditions, where all are asked for.
pub proof fn lemma_scope_takes_in_what_may_be_shown(
    tables: UsageTables,
    key: Seq<char>,
    account: String,
)
    requires
        forall|i: int|
            0 <= i < tables.health@.len() && (#[trigger] tables.health@[i]).account_key@ == key
                ==> tables.health@[i].status != crate::health::DataHealth::LegacyUnverified,
    ensures
        account@ == key && !unresolved_key(key) ==> in_scope(
            tables,
            (AccountScope::Single { account_key: account }),
            key,
        ),
        !unresolved_key(ascii_lower(key)) && (exists|i: int|
            0 <= i < tables.accounts@.len() && (#[trigger] tables.accounts@[i]).account_key@
                == key) ==> in_scope(tables, AccountScope::All, key),
        !unresolved_key(ascii_lower(key)) && (exists|i: int|
            0 <= i < tables.turns@.len() && (#[trigger] tables.turns@[i]).account_key@ == key)
            ==> in_scope(tables, AccountScope::All, key),
        !unresolved_key(ascii_lower(key)) && (exists|i: int|
            0 <= i < tables.daily@.len() && (#[trigger] tables.daily@[i]).account_key@ == key)
            ==> in_scope(tables, AccountScope::All, key),
{
}

/// A day says what was used on it: as many turns as began on it, their tokens, what they cost,
/// and the official count of its date.
pub proof fn lemma_day_says_what_was_used(
    usage: DayUsage,
    facts: Seq<FactsView>,
    steps: Seq<StepView>,
    rows: Seq<DailyUsageRow>,
    keys: Seq<String>,
    from: Seq<char>,
    to: Seq<char>,
    by_kind: bool,
)
    requires
        is_day(usage, facts, steps, rows, keys, from, to, by_kind),
        forall|i: int|
            0 <= i < facts.len() ==> ((#[trigger] facts[i]).units matches Some(units) ==> units
                >= 0),
    ensures
        ({
            let pick = turn_of_day(usage.day as int);
            let official = official_of(rows, rows.len() as int, keys, from, to, usage.date@);
            &&& usage.turn_count == count_where(facts, pick)
            &&& usage.local_tokens == min_int(
                sum_where(facts, pick, all_its_tokens()),
                i64::MAX as int,
            )
            &&& usage.credits matches Some(credits) ==> credits.units == min_int(
                sum_where(facts, pick, its_price()),
                i128::MAX as int,
            )
            &&& usage.credits is Some <==> exists|i: int|
                0 <= i < facts.len() && (#[trigger] facts[i]).day == usage.day && facts[i].units
                    is Some
            &&& usage.official_tokens is Some <==> official is Some
            &&& usage.official_tokens matches Some(found) ==> found == official->0
        }),
{
    lemma_day_adds_up(facts, facts.len() as int, usage.day as int);
    assert(facts.take(facts.len() as int) =~= facts);
}

/// What belongs to no turn of a day is shown where the official count exceeds what was read,
/// and where a step of the day has no turn that it could be shared out to; not for the steps
/// of other days.
pub proof fn lemma_unattributed_is_shown_on_its_day(
    categories: Seq<DayCategory>,
    facts: Seq<FactsView>,
    steps: Seq<StepView>,
    unattributed: Option<int>,
    day: int,
)
    requires
        are_categories(categories, facts, steps, unattributed, day, false),
    ensures
        (exists|k: int|
            0 <= k < steps.len() && (#[trigger] steps[k]).day == day && step_units(
                facts,
                facts.len() as int,
                steps[k],
            ) <= 0) ==> names_category(categories, UNATTRIBUTED@),
        names_category(categories, UNATTRIBUTED@) ==> {
            ||| unattributed is Some
            ||| exists|i: int|
                0 <= i < facts.len() && (#[trigger] facts[i]).day == day && facts[i].category
                    == UNATTRIBUTED@
            ||| exists|k: int|
                0 <= k < steps.len() && (#[trigger] steps[k]).day == day && step_units(
                    facts,
                    facts.len() as int,
                    steps[k],
                ) <= 0
        },
{
    let n = facts.len() as int;
    if exists|k: int|
        0 <= k < steps.len() && (#[trigger] steps[k]).day == day && step_units(facts, n, steps[k])
            <= 0 {
        let k = choose|k: int|
            0 <= k < steps.len() && (#[trigger] steps[k]).day == day && step_units(
                facts,
                n,
                steps[k],
            ) <= 0;
        assert(step_touches(facts, steps[k], day, UNATTRIBUTED@));
        assert(is_shown(facts, steps, unattributed, day, UNATTRIBUTED@, false));
    }
    if names_category(categories, UNATTRIBUTED@) {
        assert(is_shown(facts, steps, unattributed, day, UNATTRIBUTED@, false));
        if some_part(facts, n, day, UNATTRIBUTED@, false) {
            let i = choose|i: int|
                0 <= i < n && (#[trigger] facts[i]).day == day && part_of(
                    facts[i],
                    false,
                    UNATTRIBUTED@,
                ) is Some;
            assert(facts[i].category == UNATTRIBUTED@);
        } else if unattributed is None {
            let k = choose|k: int|
                0 <= k < steps.len() && step_touches(
                    facts,
                    #[trigger] steps[k],
                    day,
                    UNATTRIBUTED@,
                );
            if is_shared_out(facts, steps[k]) {
                let i = choose|i: int|
                    0 <= i < facts.len() && in_step(#[trigger] facts[i], steps[k]) && facts[i].day
                        == day && facts[i].category == UNATTRIBUTED@;
                assert(facts[i].category == UNATTRIBUTED@);
            } else {
                assert(steps[k].day == day);
            }
        }
    }
}

} // verus!
