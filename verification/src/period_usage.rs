//! What an account used in a period, from its ledger: the categories of the period, and for
//! a week of its quota what is estimated of each.
//!
//! The rates between are ratios, and are handed in as findings: a period is tallied first,
//! and shown once the findings on its tallies are there.
use crate::category_usage::{
    account_capability, account_events, account_timeline, all_tokens, category_usage, countable,
    event_views, items_of, lists_categories, local_category_usage, occurs, row_listed,
    strictly_by_key, turns_shown,
    CategoryUsage, EventView, LocalUsage, Period, PeriodKind, QuotaWindow, ServerSample,
    ThreadCapability, TimelineEvent, TokenOverflow,
};
use crate::estimator::{
    all_reasons, counts_nonnegative, deltas_of, empty_tally, estimate_weekly_categories,
    estimate_without_window, health_blocker, is_estimate, is_tally, quota_steps, same_counts,
    steps_within, tally_categories, CategoryEstimate, CategoryTally, QuotaStep, RateFindings,
    Reason, StepTally,
};
use crate::health::DataHealth;
use crate::ledger::TurnLedger;
use crate::models::Confidence;
use crate::quota::{BucketIntervals, QuotaInterval};
use crate::sorting::{lemma_sorted, lemma_sorted_keeps, sorted};
use crate::table::{
    first_where, lemma_first_where, lemma_first_where_at, lemma_first_where_none,
};
use crate::text::{same_text, str_opt};
use vstd::prelude::*;

verus! {

/// A period's local usage, and what the steps of its quota say of each category.
#[derive(Debug)]
pub struct PeriodTallies {
    pub period: Period,
    pub local: LocalUsage,
    pub steps: Vec<QuotaStep>,
    pub tallies: Vec<CategoryTally>,
}

/// The increases of the account's turns; of no account there are none.
pub open spec fn events_of(ledger: TurnLedger, account_key: Option<Seq<char>>) -> Seq<EventView> {
    match account_key {
        Some(key) => account_events(ledger.samples@, ledger.turns@, key),
        None => Seq::empty(),
    }
}

/// The categories that were used in the period, and their tokens.
pub open spec fn is_local_usage(
    local: LocalUsage,
    events: Seq<EventView>,
    start: int,
    end: int,
) -> bool {
    &&& lists_categories(local.rows@, events, events.len() as int, start, end)
    &&& strictly_by_key(local.rows@)
    &&& local.total == all_tokens(local.rows@)
}

/// The bucket is that of the account's quota window.
pub open spec fn is_window_bucket(account_key: Seq<char>, window: QuotaWindow) -> spec_fn(
    BucketIntervals,
) -> bool {
    |bucket: BucketIntervals|
        bucket.account_key@ == account_key && bucket.limit_id@ == window.limit_id@
            && bucket.window@ == window.window@
}

/// The steps that were found of the account's quota window.
pub open spec fn window_intervals(
    buckets: Seq<BucketIntervals>,
    account_key: Option<Seq<char>>,
    window: QuotaWindow,
) -> Seq<QuotaInterval> {
    match account_key {
        Some(key) => match first_where(buckets, is_window_bucket(key, window)) {
            Some(at) => buckets[at].intervals@,
            None => Seq::empty(),
        },
        None => Seq::empty(),
    }
}

/// The quota window that a weekly period is of.
pub open spec fn weekly_window(period: Period) -> Option<QuotaWindow> {
    match period.kind {
        PeriodKind::QuotaWeek => period.quota_window,
        PeriodKind::Day => None,
    }
}

/// The tallies are those of the period's categories, in their order.
pub open spec fn are_tallies(
    tallies: Seq<CategoryTally>,
    local: LocalUsage,
    events: Seq<EventView>,
    steps: Seq<QuotaStep>,
    start: i64,
    end: i64,
) -> bool {
    let deltas = deltas_of(events, events.len() as int, start as int, end as int);
    &&& tallies.len() == local.rows@.len()
    &&& forall|k: int|
        0 <= k < tallies.len() ==> {
            &&& (#[trigger] tallies[k]).key == local.rows@[k].key
            &&& tallies[k].current_tokens == local.rows@[k].tokens
            &&& is_tally(tallies[k], deltas, steps, start, end)
            &&& counts_nonnegative(tallies[k])
        }
}

/// The period's usage and tallies are those of the account's ledger.
pub open spec fn tallied(
    found: PeriodTallies,
    ledger: TurnLedger,
    buckets: Seq<BucketIntervals>,
    account_key: Option<Seq<char>>,
    period: Period,
) -> bool {
    let events = events_of(ledger, account_key);
    &&& found.period == period
    &&& is_local_usage(found.local, events, period.start as int, period.end as int)
    &&& match weekly_window(period) {
        Some(window) => {
            &&& found.steps@ == sorted(
                steps_within(
                    window_intervals(buckets, account_key, window),
                    period.start as int,
                    period.end as int,
                ),
            )
            &&& are_tallies(
                found.tallies@,
                found.local,
                events,
                found.steps@,
                period.start,
                period.end,
            )
        },
        None => found.steps@.len() == 0 && found.tallies@.len() == 0,
    }
}

fn window_place(
    buckets: &Vec<BucketIntervals>,
    account_key: &str,
    window: &QuotaWindow,
) -> (r: Option<usize>)
    ensures
        match r {
            Some(at) => {
                &&& at < buckets.len()
                &&& first_where(buckets@, is_window_bucket(account_key@, *window)) == Some(
                    at as int,
                )
            },
            None => first_where(buckets@, is_window_bucket(account_key@, *window)) is None,
        },
{
    let ghost pick = is_window_bucket(account_key@, *window);
    let mut i: usize = 0;
    while i < buckets.len()
        invariant
            i <= buckets.len(),
            pick == is_window_bucket(account_key@, *window),
            forall|k: int| 0 <= k < i ==> !pick(#[trigger] buckets@[k]),
        decreases buckets.len() - i,
    {
        if same_text(buckets[i].account_key.as_str(), account_key) && same_text(
            buckets[i].limit_id.as_str(),
            window.limit_id.as_str(),
        ) && same_text(buckets[i].window.as_str(), window.window.as_str()) {
            proof {
                lemma_first_where_at(buckets@, pick, i as int);
            }
            return Some(i);
        }
        i += 1;
    }
    proof {
        lemma_first_where_none(buckets@, pick);
    }
    None
}

fn window_steps(
    buckets: &Vec<BucketIntervals>,
    account_key: Option<&str>,
    window: &QuotaWindow,
    start: i64,
    end: i64,
) -> (r: Vec<QuotaStep>)
    ensures
        r@ == sorted(
            steps_within(
                window_intervals(buckets@, str_opt(account_key), *window),
                start as int,
                end as int,
            ),
        ),
{
    let place = match account_key {
        Some(key) => window_place(buckets, key, window),
        None => None,
    };
    match place {
        Some(at) => quota_steps(&buckets[at].intervals, start, end),
        None => {
            let none: Vec<QuotaInterval> = Vec::new();
            assert(none@ =~= window_intervals(buckets@, str_opt(account_key), *window));
            quota_steps(&none, start, end)
        },
    }
}

/// Tallies a period: what the account used in it by category, and for a week of its quota
/// what the steps of the quota say of each.
pub fn tally_period(
    ledger: &TurnLedger,
    buckets: &Vec<BucketIntervals>,
    account_key: Option<&str>,
    period: Period,
) -> (r: Result<PeriodTallies, TokenOverflow>)
    ensures
        ({
            let events = events_of(*ledger, str_opt(account_key));
            let counted = countable(
                events,
                events.len() as int,
                period.start as int,
                period.end as int,
            );
            match r {
                Ok(found) => counted && tallied(
                    found,
                    *ledger,
                    buckets@,
                    str_opt(account_key),
                    period,
                ),
                Err(_) => !counted,
            }
        }),
{
    let events: Vec<TimelineEvent> = match account_key {
        Some(key) => account_timeline(ledger, key),
        None => Vec::new(),
    };
    assert(event_views(events@) =~= events_of(*ledger, str_opt(account_key)));
    let local = match local_category_usage(&events, period.start, period.end) {
        Ok(local) => local,
        Err(overflow) => return Err(overflow),
    };
    let weekly = match period.kind {
        PeriodKind::QuotaWeek => true,
        PeriodKind::Day => false,
    };
    let mut steps: Vec<QuotaStep> = Vec::new();
    let mut tallies: Vec<CategoryTally> = Vec::new();
    if weekly {
        if let Some(window) = &period.quota_window {
            steps = window_steps(buckets, account_key, window, period.start, period.end);
            tallies = tally_categories(&events, &steps, &local.rows, period.start, period.end);
        }
    }
    Ok(PeriodTallies { period, local, steps, tallies })
}

/// The estimates of a period's categories. A day has none; a week without a quota window has
/// only the reason why there is nothing to go by.
pub open spec fn are_estimates(
    estimates: Seq<CategoryEstimate>,
    found: PeriodTallies,
    findings: Seq<RateFindings>,
    health: Option<DataHealth>,
) -> bool {
    match found.period.kind {
        PeriodKind::Day => estimates.len() == 0,
        PeriodKind::QuotaWeek => match found.period.quota_window {
            Some(_) => {
                &&& estimates.len() == found.tallies@.len()
                &&& forall|k: int|
                    0 <= k < estimates.len() ==> {
                        &&& same_counts(found.tallies@[k], (#[trigger] estimates[k]).tally)
                        &&& is_estimate(
                            estimates[k],
                            all_reasons(found.tallies@[k], health_blocker(health), findings[k]),
                            Some(findings[k]),
                        )
                    }
            },
            None => {
                &&& estimates.len() == found.local.rows@.len()
                &&& forall|k: int|
                    0 <= k < estimates.len() ==> {
                        &&& (#[trigger] estimates[k]).tally.key == found.local.rows@[k].key
                        &&& estimates[k].tally.current_tokens == found.local.rows@[k].tokens
                        &&& estimates[k].tally.steps_seen() == (StepTally {
                            reasons: seq![Reason::QuotaWindowMissing],
                            ..empty_tally()
                        })
                        &&& is_estimate(estimates[k], seq![Reason::QuotaWindowMissing], None)
                    }
            },
        },
    }
}

/// What is shown of the period is what was tallied and estimated of it.
pub open spec fn shows_period(
    shown: CategoryUsage,
    found: PeriodTallies,
    estimates: Seq<CategoryEstimate>,
    account_key: Option<Seq<char>>,
    server: Seq<ServerSample>,
    capabilities: Seq<ThreadCapability>,
    official: Option<i64>,
) -> bool {
    &&& shown.period == found.period
    &&& shown.official_tokens == official
    &&& shown.local_tokens == found.local.total
    &&& shown.turn_count == turns_shown(found.local.rows@)
    &&& shown.token_confidence == if found.local.total > 0 {
        Confidence::High
    } else {
        Confidence::Unknown
    }
    &&& shown.server_usage_capability == account_capability(capabilities, account_key)
    &&& shown.categories@ == sorted(
        items_of(
            found.local.rows@,
            estimates,
            server,
            account_key,
            found.period.start as int,
            found.period.end as int,
        ),
    )
}

fn estimates_without_window(local: &LocalUsage) -> (r: Vec<CategoryEstimate>)
    ensures
        r@.len() == local.rows@.len(),
        forall|k: int|
            0 <= k < r@.len() ==> {
                &&& (#[trigger] r@[k]).tally.key == local.rows@[k].key
                &&& r@[k].tally.current_tokens == local.rows@[k].tokens
                &&& r@[k].tally.steps_seen() == (StepTally {
                    reasons: seq![Reason::QuotaWindowMissing],
                    ..empty_tally()
                })
                &&& is_estimate(r@[k], seq![Reason::QuotaWindowMissing], None)
            },
{
    let mut r: Vec<CategoryEstimate> = Vec::new();
    let mut i: usize = 0;
    while i < local.rows.len()
        invariant
            i <= local.rows.len(),
            r@.len() == i,
            forall|k: int|
                0 <= k < r@.len() ==> {
                    &&& (#[trigger] r@[k]).tally.key == local.rows@[k].key
                    &&& r@[k].tally.current_tokens == local.rows@[k].tokens
                    &&& r@[k].tally.steps_seen() == (StepTally {
                        reasons: seq![Reason::QuotaWindowMissing],
                        ..empty_tally()
                    })
                    &&& is_estimate(r@[k], seq![Reason::QuotaWindowMissing], None)
                },
        decreases local.rows.len() - i,
    {
        r.push(estimate_without_window(&local.rows[i].key, local.rows[i].tokens));
        i += 1;
    }
    r
}

/// Shows a period that was tallied, given the findings on its tallies, in their order.
pub fn show_period(
    found: PeriodTallies,
    findings: &Vec<RateFindings>,
    health: Option<DataHealth>,
    account_key: Option<&str>,
    server: &Vec<ServerSample>,
    capabilities: &Vec<ThreadCapability>,
    official: Option<i64>,
) -> (r: CategoryUsage)
    requires
        findings@.len() == found.tallies@.len(),
        forall|k: int|
            0 <= k < found.tallies@.len() ==> counts_nonnegative(#[trigger] found.tallies@[k]),
    ensures
        exists|estimates: Seq<CategoryEstimate>|
            #[trigger] are_estimates(estimates, found, findings@, health) && shows_period(
                r,
                found,
                estimates,
                str_opt(account_key),
                server@,
                capabilities@,
                official,
            ),
{
    let ghost given = found;
    let PeriodTallies { period, local, steps: _, tallies } = found;
    let weekly = match period.kind {
        PeriodKind::QuotaWeek => true,
        PeriodKind::Day => false,
    };
    let estimates: Vec<CategoryEstimate> = if !weekly {
        Vec::new()
    } else if period.quota_window.is_some() {
        estimate_weekly_categories(tallies, findings, health)
    } else {
        estimates_without_window(&local)
    };
    assert(are_estimates(estimates@, given, findings@, health));
    category_usage(period, local, estimates, account_key, server, capabilities, official)
}

/// The steps of a period are those that were found in the bucket of the account, limit and
/// window that it is of; of no account, and of one without such a bucket, there are none.
pub proof fn lemma_steps_are_of_the_accounts_window(
    buckets: Seq<BucketIntervals>,
    account_key: Seq<char>,
    window: QuotaWindow,
)
    ensures
        window_intervals(buckets, None, window).len() == 0,
        (exists|k: int|
            0 <= k < buckets.len() && (#[trigger] buckets[k]).account_key@ == account_key
                && buckets[k].limit_id@ == window.limit_id@ && buckets[k].window@
                == window.window@) ==> exists|k: int|
            {
                &&& 0 <= k < buckets.len()
                &&& (#[trigger] buckets[k]).account_key@ == account_key
                &&& buckets[k].limit_id@ == window.limit_id@
                &&& buckets[k].window@ == window.window@
                &&& window_intervals(buckets, Some(account_key), window) == buckets[k].intervals@
            },
        (forall|k: int|
            0 <= k < buckets.len() ==> !((#[trigger] buckets[k]).account_key@ == account_key
                && buckets[k].limit_id@ == window.limit_id@ && buckets[k].window@
                == window.window@)) ==> window_intervals(buckets, Some(account_key), window).len()
            == 0,
{
    let pick = is_window_bucket(account_key, window);
    lemma_first_where(buckets, pick);
    match first_where(buckets, pick) {
        Some(at) => {
            assert(pick(buckets[at]));
        },
        None => {
            assert forall|k: int| 0 <= k < buckets.len() implies !((
            #[trigger] buckets[k]).account_key@ == account_key && buckets[k].limit_id@
                == window.limit_id@ && buckets[k].window@ == window.window@) by {
                assert(!pick(buckets[k]));
            }
        },
    }
}

/// Another account's buckets, and those of other limits and windows, make no difference to the
/// steps of a period.
pub proof fn lemma_other_windows_make_no_difference(
    buckets: Seq<BucketIntervals>,
    other: BucketIntervals,
    account_key: Seq<char>,
    window: QuotaWindow,
)
    requires
        other.account_key@ != account_key || other.limit_id@ != window.limit_id@ || other.window@
            != window.window@,
    ensures
        window_intervals(buckets.push(other), Some(account_key), window) == window_intervals(
            buckets,
            Some(account_key),
            window,
        ),
{
    let pick = is_window_bucket(account_key, window);
    let all = buckets.push(other);
    lemma_first_where(buckets, pick);
    match first_where(buckets, pick) {
        Some(at) => {
            assert forall|k: int| 0 <= k < at implies !pick(#[trigger] all[k]) by {
                assert(all[k] == buckets[k]);
            }
            lemma_first_where_at(all, pick, at);
        },
        None => {
            assert forall|k: int| 0 <= k < all.len() implies !pick(#[trigger] all[k]) by {
                if k < buckets.len() {
                    assert(all[k] == buckets[k]);
                }
            }
            lemma_first_where_none(all, pick);
        },
    }
}

/// What is tallied of a period is the account's own: each category that its increases within
/// the period are of, once. A week of its quota has a tally of each of these, with its tokens;
/// a day has none.
pub proof fn lemma_tallies_are_of_the_period(
    found: PeriodTallies,
    ledger: TurnLedger,
    buckets: Seq<BucketIntervals>,
    account_key: Seq<char>,
    period: Period,
)
    requires
        tallied(found, ledger, buckets, Some(account_key), period),
    ensures
        found.period == period,
        ({
            let events = account_events(ledger.samples@, ledger.turns@, account_key);
            let rows = found.local.rows@;
            &&& forall|i: int|
                0 <= i < events.len() && period.start <= (#[trigger] events[i]).sampled_at
                    < period.end ==> exists|k: int|
                    0 <= k < rows.len() && (#[trigger] rows[k]).key@ == events[i].key
            &&& forall|k: int|
                0 <= k < rows.len() ==> exists|i: int|
                    {
                        &&& 0 <= i < events.len()
                        &&& (#[trigger] events[i]).key == (#[trigger] rows[k]).key@
                        &&& period.start <= events[i].sampled_at < period.end
                    }
        }),
        period.kind == PeriodKind::QuotaWeek && period.quota_window is Some ==> {
            &&& found.tallies@.len() == found.local.rows@.len()
            &&& forall|k: int|
                0 <= k < found.tallies@.len() ==> (#[trigger] found.tallies@[k]).key
                    == found.local.rows@[k].key && found.tallies@[k].current_tokens
                    == found.local.rows@[k].tokens
        },
        period.kind == PeriodKind::Day || period.quota_window is None ==> found.tallies@.len() == 0
            && found.steps@.len() == 0,
{
    let events = account_events(ledger.samples@, ledger.turns@, account_key);
    let rows = found.local.rows@;
    let (start, end) = (period.start as int, period.end as int);
    assert forall|i: int|
        0 <= i < events.len() && period.start <= (#[trigger] events[i]).sampled_at
            < period.end implies exists|k: int|
        0 <= k < rows.len() && (#[trigger] rows[k]).key@ == events[i].key by {
        assert(row_listed(rows, events[i].key));
    }
    assert forall|k: int| 0 <= k < rows.len() implies exists|i: int|
        {
            &&& 0 <= i < events.len()
            &&& (#[trigger] events[i]).key == (#[trigger] rows[k]).key@
            &&& period.start <= events[i].sampled_at < period.end
        } by {
        assert(occurs(events, events.len() as int, rows[k].key@, start, end));
    }
}

/// What is shown of a period: its own totals, and of each of its categories one item with the
/// category's tokens and turns. Its tokens are sure where there are any.
pub proof fn lemma_period_is_shown_as_tallied(
    shown: CategoryUsage,
    found: PeriodTallies,
    estimates: Seq<CategoryEstimate>,
    account_key: Option<Seq<char>>,
    server: Seq<ServerSample>,
    capabilities: Seq<ThreadCapability>,
    official: Option<i64>,
)
    requires
        shows_period(shown, found, estimates, account_key, server, capabilities, official),
    ensures
        shown.period == found.period,
        shown.official_tokens == official,
        shown.local_tokens == found.local.total,
        shown.local_tokens > 0 <==> shown.token_confidence == Confidence::High,
        shown.local_tokens <= 0 <==> shown.token_confidence == Confidence::Unknown,
        shown.categories@.len() == found.local.rows@.len(),
        forall|k: int|
            0 <= k < found.local.rows@.len() ==> exists|m: int|
                {
                    &&& 0 <= m < shown.categories@.len()
                    &&& (#[trigger] shown.categories@[m]).key == (
                    #[trigger] found.local.rows@[k]).key
                    &&& shown.categories@[m].tokens == found.local.rows@[k].tokens
                    &&& shown.categories@[m].turn_count == found.local.rows@[k].turn_count
                    &&& shown.categories@[m].fast <==> found.local.rows@[k].key.speed_mode@
                        == "fast_requested"@
                    &&& k < estimates.len() ==> shown.categories@[m].weekly_estimate == Some(
                        estimates[k],
                    )
                    &&& k >= estimates.len() ==> shown.categories@[m].weekly_estimate is None
                },
{
    let rows = found.local.rows@;
    let items = items_of(
        rows,
        estimates,
        server,
        account_key,
        found.period.start as int,
        found.period.end as int,
    );
    lemma_sorted(items);
    assert forall|k: int| 0 <= k < rows.len() implies exists|m: int|
        {
            &&& 0 <= m < shown.categories@.len()
            &&& (#[trigger] shown.categories@[m]).key == (#[trigger] rows[k]).key
            &&& shown.categories@[m].tokens == rows[k].tokens
            &&& shown.categories@[m].turn_count == rows[k].turn_count
            &&& shown.categories@[m].fast <==> rows[k].key.speed_mode@ == "fast_requested"@
            &&& k < estimates.len() ==> shown.categories@[m].weekly_estimate == Some(estimates[k])
            &&& k >= estimates.len() ==> shown.categories@[m].weekly_estimate is None
        } by {
        let m = lemma_sorted_keeps(items, k);
        assert(shown.categories@[m] == items[k]);
    }
}

/// A week's category is estimated from its own tally and its own findings: the estimate has
/// the tally's key and counts. A week without a quota window has no estimate, and says so.
pub proof fn lemma_estimates_are_of_their_tallies(
    estimates: Seq<CategoryEstimate>,
    found: PeriodTallies,
    findings: Seq<RateFindings>,
    health: Option<DataHealth>,
)
    requires
        are_estimates(estimates, found, findings, health),
    ensures
        found.period.kind == PeriodKind::Day ==> estimates.len() == 0,
        found.period.kind == PeriodKind::QuotaWeek && found.period.quota_window is Some ==> {
            &&& estimates.len() == found.tallies@.len()
            &&& forall|k: int|
                0 <= k < estimates.len() ==> {
                    let tally = found.tallies@[k];
                    let made = #[trigger] estimates[k];
                    &&& made.tally.key == tally.key
                    &&& made.tally.current_tokens == tally.current_tokens
                    &&& made.tally.observed_tokens == tally.observed_tokens
                    &&& made.tally.pending_tokens == tally.pending_tokens
                    &&& made.tally.pre_observation_tokens == tally.pre_observation_tokens
                    &&& made.estimate matches Some((full, remaining)) ==> full
                        == findings[k].full_week_tokens && remaining
                        == findings[k].remaining_tokens
                }
        },
        found.period.kind == PeriodKind::QuotaWeek && found.period.quota_window is None ==> {
            &&& estimates.len() == found.local.rows@.len()
            &&& forall|k: int|
                0 <= k < estimates.len() ==> {
                    let made = #[trigger] estimates[k];
                    &&& made.tally.key == found.local.rows@[k].key
                    &&& made.tally.current_tokens == found.local.rows@[k].tokens
                    &&& made.estimate is None
                    &&& made.confidence == Confidence::Low
                    &&& made.tally.reasons@ == seq![Reason::QuotaWindowMissing]
                    &&& made.tally.observed_tokens == 0
                }
        },
{
    if found.period.kind == PeriodKind::QuotaWeek {
        assert forall|k: int| 0 <= k < estimates.len() implies (
        #[trigger] estimates[k]).tally.observed_tokens
            == estimates[k].tally.steps_seen().observed_tokens by {}
        if found.period.quota_window is Some {
            assert forall|k: int| 0 <= k < estimates.len() implies (
            #[trigger] estimates[k]).tally.observed_tokens == found.tallies@[k].observed_tokens by {
                assert(same_counts(found.tallies@[k], estimates[k].tally));
                assert(estimates[k].tally.steps_seen().observed_tokens
                    == found.tallies@[k].steps_seen().observed_tokens);
            }
        }
    }
}

} // verus!
