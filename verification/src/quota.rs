//! Quota steps: what lies between two observed increases of a rate limit's used share.
use crate::arith::{floor_div, max_int, min_int, saturating_add, saturating_millis, saturating_sub};
use crate::models::{is_unresolved_account_key, unresolved_key, Confidence, Credits};
use crate::percent::Percent;
use crate::rollout::TurnTokenSample;
use crate::sorting::{sort_rows, sorted, Ranked};
use crate::table::AccountRow;
use crate::text::{decimal, decimal_text, joined, lemma_decimal_digits, same_text};
use vstd::prelude::*;

verus! {

/// The server can move the second at which a window resets by a few seconds between
/// snapshots that are otherwise the same. A difference of no more than this is the same cycle.
pub const RESET_AT_TOLERANCE_SECS: i64 = 5;

/// One observation of a rate limit window.
#[derive(Clone, Copy, Debug, PartialEq, Eq, Structural)]
pub struct RateSample {
    pub id: i64,
    pub sampled_at: i64,
    pub window_duration_mins: i64,
    pub used_percent: Percent,
    pub resets_at: Option<i64>,
}

/// An observation with the bucket that it was made in.
#[derive(Debug)]
pub struct RateLimitRow {
    pub account_key: String,
    pub limit_id: String,
    pub window: String,
    pub sample: RateSample,
    /// The generation that the snapshot named, where it named one.
    pub generation: Option<i64>,
}

impl Ranked for RateSample {
    open spec fn behind(self, other: RateSample) -> bool {
        self.sampled_at > other.sampled_at || (self.sampled_at == other.sampled_at && self.id
            > other.id)
    }

    fn goes_behind(&self, other: &RateSample) -> (r: bool) {
        self.sampled_at > other.sampled_at || (self.sampled_at == other.sampled_at && self.id
            > other.id)
    }

    proof fn behind_is_order(a: RateSample, b: RateSample, c: RateSample) {
    }
}

pub open spec fn resets_agree(previous: Option<i64>, current: Option<i64>) -> bool {
    match (previous, current) {
        (Some(previous), Some(current)) => -RESET_AT_TOLERANCE_SECS <= current - previous
            <= RESET_AT_TOLERANCE_SECS,
        (None, None) => true,
        _ => false,
    }
}

/// Whether two observations are of the same cycle.
pub fn same_reset_at(previous: Option<i64>, current: Option<i64>) -> (r: bool)
    ensures
        r == resets_agree(previous, current),
{
    match (previous, current) {
        (Some(previous), Some(current)) => {
            let apart: i128 = current as i128 - previous as i128;
            -(RESET_AT_TOLERANCE_SECS as i128) <= apart && apart
                <= RESET_AT_TOLERANCE_SECS as i128
        },
        (None, None) => true,
        _ => false,
    }
}

pub open spec fn cycle_name(resets_at: Option<i64>) -> Seq<char> {
    match resets_at {
        Some(at) => "reset:"@ + decimal(at as int / 5),
        None => "reset:unknown"@,
    }
}

pub fn cycle_id(resets_at: Option<i64>) -> (r: String)
    ensures
        r@ == cycle_name(resets_at),
{
    match resets_at {
        Some(at) => joined(
            "reset:",
            decimal_text(floor_div(at, RESET_AT_TOLERANCE_SECS)).as_str(),
        ),
        None => "reset:unknown".to_owned(),
    }
}

pub open spec fn confidence_name(confidence: Confidence) -> Seq<char> {
    match confidence {
        Confidence::High => "high"@,
        Confidence::Medium => "medium"@,
        Confidence::Low => "low"@,
        Confidence::Unknown => "unknown"@,
    }
}

pub open spec fn named_confidence(name: Seq<char>) -> Confidence {
    if name == "high"@ {
        Confidence::High
    } else if name == "medium"@ {
        Confidence::Medium
    } else if name == "low"@ {
        Confidence::Low
    } else {
        Confidence::Unknown
    }
}

pub fn confidence_string(confidence: &Confidence) -> (r: &'static str)
    ensures
        r@ == confidence_name(*confidence),
{
    match confidence {
        Confidence::High => "high",
        Confidence::Medium => "medium",
        Confidence::Low => "low",
        Confidence::Unknown => "unknown",
    }
}

pub fn confidence_from_str(value: &str) -> (r: Confidence)
    ensures
        r == named_confidence(value@),
{
    if same_text(value, "high") {
        Confidence::High
    } else if same_text(value, "medium") {
        Confidence::Medium
    } else if same_text(value, "low") {
        Confidence::Low
    } else {
        Confidence::Unknown
    }
}

/// The name of a confidence is read back as that confidence.
pub proof fn lemma_confidence_round_trip(confidence: Confidence)
    ensures
        named_confidence(confidence_name(confidence)) == confidence,
{
    reveal_strlit("high");
    reveal_strlit("medium");
    reveal_strlit("low");
    reveal_strlit("unknown");
    assert("high"@[0] == 'h');
    assert("medium"@[0] == 'm');
    assert("low"@[0] == 'l');
    assert("unknown"@[0] == 'u');
}

// ---------------------------------------------------------------------------
// Steps
// ---------------------------------------------------------------------------

/// The observation at `k` does not continue the one before it: it is not later, or is of
/// another window, of another cycle, or lower.
pub open spec fn breaks_at(samples: Seq<RateSample>, k: int) -> bool {
    let before = samples[k - 1];
    let here = samples[k];
    ||| here.sampled_at <= before.sampled_at
    ||| here.window_duration_mins != before.window_duration_mins
    ||| !resets_agree(before.resets_at, here.resets_at)
    ||| here.used_percent.code < before.used_percent.code
}

/// The observation at `k` continues the one before it and is higher.
pub open spec fn rises_at(samples: Seq<RateSample>, k: int) -> bool {
    1 <= k < samples.len() && !breaks_at(samples, k) && samples[k].used_percent.code
        > samples[k - 1].used_percent.code
}

/// A closed step from `i` to `j`: the share rises at both and nowhere between, and nothing
/// breaks off between them. The whole plateau between the two rises belongs to it.
pub open spec fn is_step(samples: Seq<RateSample>, i: int, j: int) -> bool {
    &&& i < j
    &&& rises_at(samples, i)
    &&& rises_at(samples, j)
    &&& forall|k: int| i < k <= j ==> !#[trigger] breaks_at(samples, k)
    &&& forall|k: int| i < k < j ==> !#[trigger] rises_at(samples, k)
}

/// The steps, in their order: each of them is one, and each one is among them.
pub open spec fn are_steps(samples: Seq<RateSample>, steps: Seq<(usize, usize)>) -> bool {
    &&& forall|n: int|
        0 <= n < steps.len() ==> is_step(
            samples,
            (#[trigger] steps[n]).0 as int,
            steps[n].1 as int,
        )
    &&& forall|i: int, j: int| #[trigger]
        is_step(samples, i, j) ==> exists|n: int|
            0 <= n < steps.len() && (#[trigger] steps[n]).0 == i && steps[n].1 == j
    &&& forall|m: int, n: int|
        0 <= m < n < steps.len() ==> (#[trigger] steps[m]).1 < (#[trigger] steps[n]).1
}

/// `open` is where the share last rose before `at`, with no break since.
spec fn is_open(samples: Seq<RateSample>, at: int, open: Option<usize>) -> bool {
    match open {
        Some(i) => {
            &&& i < at
            &&& rises_at(samples, i as int)
            &&& forall|k: int| i < k < at ==> !#[trigger] breaks_at(samples, k)
            &&& forall|k: int| i < k < at ==> !#[trigger] rises_at(samples, k)
        },
        None => forall|i: int|
            #[trigger]
            rises_at(samples, i) && i < at ==> exists|k: int|
                i < k < at && #[trigger] breaks_at(samples, k),
    }
}

fn continues(before: &RateSample, here: &RateSample) -> (r: bool)
    ensures
        r == !(here.sampled_at <= before.sampled_at || here.window_duration_mins
            != before.window_duration_mins || !resets_agree(before.resets_at, here.resets_at)
            || here.used_percent.code < before.used_percent.code),
{
    here.sampled_at > before.sampled_at && here.window_duration_mins == before.window_duration_mins
        && same_reset_at(before.resets_at, here.resets_at) && here.used_percent.code
        >= before.used_percent.code
}

/// Finds the closed steps of one bucket. The first plateau and the current one are open
/// and are no steps.
pub fn find_steps(samples: &Vec<RateSample>) -> (r: Vec<(usize, usize)>)
    ensures
        are_steps(samples@, r@),
{
    let mut steps: Vec<(usize, usize)> = Vec::new();
    let mut open: Option<usize> = None;
    let mut at: usize = 1;
    while at < samples.len()
        invariant
            1 <= at,
            samples.len() == 0 || at <= samples.len(),
            is_open(samples@, at as int, open),
            forall|n: int|
                0 <= n < steps.len() ==> is_step(
                    samples@,
                    (#[trigger] steps@[n]).0 as int,
                    steps@[n].1 as int,
                ) && steps@[n].1 < at,
            forall|i: int, j: int|
                #[trigger]
                is_step(samples@, i, j) && j < at ==> exists|n: int|
                    0 <= n < steps.len() && (#[trigger] steps@[n]).0 == i && steps@[n].1 == j,
            forall|m: int, n: int|
                0 <= m < n < steps.len() ==> (#[trigger] steps@[m]).1 < (#[trigger] steps@[n]).1,
        decreases samples.len() - at,
    {
        let ghost before = steps@;
        let ghost was_open = open;
        if !continues(&samples[at - 1], &samples[at]) {
            assert(breaks_at(samples@, at as int));
            open = None;
        } else {
            assert(!breaks_at(samples@, at as int));
            if samples[at].used_percent.code > samples[at - 1].used_percent.code {
                assert(rises_at(samples@, at as int));
                if let Some(start) = open {
                    assert(is_step(samples@, start as int, at as int));
                    steps.push((start, at));
                    assert(steps@[before.len() as int] == (start, at));
                }
                open = Some(at);
            }
        }
        proof {
            assert forall|i: int, j: int|
                #[trigger] is_step(samples@, i, j) && j < at + 1 implies exists|n: int|
                0 <= n < steps.len() && (#[trigger] steps@[n]).0 == i && steps@[n].1 == j by {
                if j < at {
                    let n = choose|n: int|
                        0 <= n < before.len() && (#[trigger] before[n]).0 == i && before[n].1 == j;
                    assert(steps@[n] == before[n]);
                } else {
                    assert(rises_at(samples@, at as int));
                    match was_open {
                        Some(start) => {
                            if i < start {
                                assert(rises_at(samples@, start as int));
                            }
                            if start < i {
                                assert(rises_at(samples@, i));
                            }
                            assert(steps@[before.len() as int].0 == i);
                        },
                        None => {
                            let k = choose|k: int| i < k < at && #[trigger] breaks_at(samples@, k);
                            assert(!breaks_at(samples@, k));
                        },
                    }
                }
            }
            match open {
                Some(_) => {},
                None => {
                    assert forall|i: int| #[trigger]
                        rises_at(samples@, i) && i < at + 1 implies exists|k: int|
                        i < k < at + 1 && #[trigger] breaks_at(samples@, k) by {
                        if breaks_at(samples@, at as int) {
                            if i == at {
                                assert(!breaks_at(samples@, i));
                            }
                        } else if i < at {
                            let k = choose|k: int| i < k < at && #[trigger] breaks_at(samples@, k);
                            assert(breaks_at(samples@, k));
                        }
                    }
                },
            }
        }
        at += 1;
    }
    proof {
        assert forall|i: int, j: int| #[trigger] is_step(samples@, i, j) implies j < at by {
            assert(rises_at(samples@, j));
        }
    }
    steps
}

proof fn lemma_unbroken_is_monotone(samples: Seq<RateSample>, i: int, j: int)
    requires
        0 <= i <= j < samples.len(),
        forall|k: int| i < k <= j ==> !#[trigger] breaks_at(samples, k),
    ensures
        samples[i].used_percent.code <= samples[j].used_percent.code,
        samples[i].window_duration_mins == samples[j].window_duration_mins,
        samples[j].sampled_at - samples[i].sampled_at >= j - i,
    decreases j - i,
{
    if i < j {
        lemma_unbroken_is_monotone(samples, i, j - 1);
        assert(!breaks_at(samples, j));
    }
}

/// A step ends higher and later than it begins, in the same window: a reset never makes a
/// step, and never a negative one.
pub proof fn lemma_step_rises(samples: Seq<RateSample>, i: int, j: int)
    requires
        is_step(samples, i, j),
    ensures
        samples[i].used_percent.code < samples[j].used_percent.code,
        samples[i].sampled_at < samples[j].sampled_at,
        samples[i].window_duration_mins == samples[j].window_duration_mins,
{
    lemma_unbroken_is_monotone(samples, i, j - 1);
    assert(!breaks_at(samples, j));
}

/// The observations between the two rises of a step stay where the first one left the share.
pub proof fn lemma_step_holds_its_plateau(samples: Seq<RateSample>, i: int, j: int, k: int)
    requires
        is_step(samples, i, j),
        i <= k < j,
    ensures
        samples[k].used_percent.code == samples[i].used_percent.code,
    decreases k - i,
{
    if i < k {
        lemma_step_holds_its_plateau(samples, i, j, k - 1);
        assert(!breaks_at(samples, k));
        assert(!rises_at(samples, k));
    }
}

/// Steps do not overlap: each begins no earlier than the one before it ends.
pub proof fn lemma_steps_do_not_overlap(
    samples: Seq<RateSample>,
    steps: Seq<(usize, usize)>,
    m: int,
    n: int,
)
    requires
        are_steps(samples, steps),
        0 <= m < n < steps.len(),
    ensures
        steps[m].1 <= steps[n].0,
{
    assert(steps[m].1 < steps[n].1);
    assert(is_step(samples, steps[m].0 as int, steps[m].1 as int));
    assert(is_step(samples, steps[n].0 as int, steps[n].1 as int));
    if steps[n].0 < steps[m].1 {
        assert(rises_at(samples, steps[m].1 as int));
    }
}

/// Whether two observations are of one cycle does not depend on their order, and an
/// observation is of its own cycle.
pub proof fn lemma_resets_agree(a: Option<i64>, b: Option<i64>)
    ensures
        resets_agree(a, b) == resets_agree(b, a),
        resets_agree(a, a),
{
}

// ---------------------------------------------------------------------------
// What was not observed of a step
// ---------------------------------------------------------------------------

/// A stretch of time in which the collector did not run.
#[derive(Clone, Copy, Debug, PartialEq, Eq, Structural)]
pub struct Gap {
    pub start_at: i64,
    pub end_at: i64,
}

/// When a source whose account is not known was active.
#[derive(Clone, Copy, Debug, PartialEq, Eq, Structural)]
pub struct UnresolvedActivity {
    pub first_seen_at: i64,
    pub first_activity_at: Option<i64>,
    pub last_activity_at: Option<i64>,
}

/// How well a step was observed.
#[derive(Clone, Copy, Debug, PartialEq, Eq, Structural)]
pub enum SampleQuality {
    Exact,
    BoundedGap,
    LongGap,
    Unresolved,
}

#[derive(Clone, Copy, Debug, PartialEq, Eq, Structural)]
pub struct GapObservation {
    pub duration_ms: i64,
    pub token_count: i128,
    pub quality: SampleQuality,
}

pub open spec fn quality_name(quality: SampleQuality) -> Seq<char> {
    match quality {
        SampleQuality::Exact => "exact"@,
        SampleQuality::BoundedGap => "bounded_gap"@,
        SampleQuality::LongGap => "long_gap"@,
        SampleQuality::Unresolved => "unresolved"@,
    }
}

impl SampleQuality {
    pub fn as_str(self) -> (r: &'static str)
        ensures
            r@ == quality_name(self),
    {
        match self {
            SampleQuality::Exact => "exact",
            SampleQuality::BoundedGap => "bounded_gap",
            SampleQuality::LongGap => "long_gap",
            SampleQuality::Unresolved => "unresolved",
        }
    }
}

/// The seconds of a gap between `start` and `end`.
pub open spec fn gap_overlap(gap: Gap, start: int, end: int) -> int {
    max_int(min_int(gap.end_at as int, end) - max_int(gap.start_at as int, start), 0)
}

/// The milliseconds of the gaps between `start` and `end`.
pub open spec fn gap_millis(gaps: Seq<Gap>, start: int, end: int) -> int
    decreases gaps.len(),
{
    if gaps.len() == 0 {
        0
    } else {
        gap_millis(gaps.drop_last(), start, end) + gap_overlap(gaps.last(), start, end) * 1000
    }
}

/// The sample was taken in a gap that reaches into the time from `start` to `end`.
pub open spec fn sampled_in_gap(gaps: Seq<Gap>, at: int, start: int, end: int) -> bool {
    exists|i: int|
        {
            &&& 0 <= i < gaps.len()
            &&& (#[trigger] gaps[i]).end_at > start
            &&& gaps[i].start_at < end
            &&& gaps[i].start_at < at <= gaps[i].end_at
        }
}

pub open spec fn gap_sample(
    sample: TurnTokenSample,
    gaps: Seq<Gap>,
    account_key: Seq<char>,
    start: int,
    end: int,
) -> bool {
    sample.account_key@ == account_key && start < sample.sampled_at <= end && sampled_in_gap(
        gaps,
        sample.sampled_at as int,
        start,
        end,
    )
}

/// The account's tokens between `start` and `end` that were sampled in gaps.
pub open spec fn gap_tokens(
    samples: Seq<TurnTokenSample>,
    gaps: Seq<Gap>,
    account_key: Seq<char>,
    start: int,
    end: int,
) -> int
    decreases samples.len(),
{
    if samples.len() == 0 {
        0
    } else {
        gap_tokens(samples.drop_last(), gaps, account_key, start, end) + if gap_sample(
            samples.last(),
            gaps,
            account_key,
            start,
            end,
        ) {
            samples.last().delta_tokens as int
        } else {
            0
        }
    }
}

pub open spec fn active_between(activity: UnresolvedActivity, start: int, end: int) -> bool {
    let first = match activity.first_activity_at {
        Some(at) => at,
        None => activity.first_seen_at,
    };
    let last = match activity.last_activity_at {
        Some(at) => at,
        None => activity.first_seen_at,
    };
    first < end && last >= start
}

pub open spec fn step_quality(unresolved: bool, duration_ms: int) -> SampleQuality {
    if unresolved {
        SampleQuality::Unresolved
    } else if duration_ms > 300_000 {
        SampleQuality::LongGap
    } else if duration_ms > 0 {
        SampleQuality::BoundedGap
    } else {
        SampleQuality::Exact
    }
}

/// What is known beside the observations: the gaps, the timeline, and the sources whose
/// account is not known.
pub struct Evidence<'a> {
    pub gaps: &'a Vec<Gap>,
    pub samples: &'a Vec<TurnTokenSample>,
    pub unresolved: &'a Vec<UnresolvedActivity>,
}

pub open spec fn any_active(unresolved: Seq<UnresolvedActivity>, start: int, end: int) -> bool {
    exists|i: int| 0 <= i < unresolved.len() && active_between(#[trigger] unresolved[i], start, end)
}

fn gap_duration(gaps: &Vec<Gap>, start: i64, end: i64) -> (r: i64)
    ensures
        r == min_int(gap_millis(gaps@, start as int, end as int), i64::MAX as int),
        gap_millis(gaps@, start as int, end as int) >= 0,
{
    let mut duration_ms: i64 = 0;
    let mut i: usize = 0;
    while i < gaps.len()
        invariant
            i <= gaps.len(),
            duration_ms == min_int(
                gap_millis(gaps@.take(i as int), start as int, end as int),
                i64::MAX as int,
            ),
            gap_millis(gaps@.take(i as int), start as int, end as int) >= 0,
        decreases gaps.len() - i,
    {
        proof {
            assert(gaps@.take(i + 1).drop_last() =~= gaps@.take(i as int));
            assert(gaps@.take(i + 1).last() == gaps@[i as int]);
        }
        let from: i64 = gaps[i].start_at.max(start);
        let to: i64 = gaps[i].end_at.min(end);
        if to > from {
            duration_ms = saturating_add(duration_ms, saturating_millis(saturating_sub(to, from)));
        }
        i += 1;
    }
    assert(gaps@.take(gaps.len() as int) =~= gaps@);
    duration_ms
}

fn in_gap(gaps: &Vec<Gap>, at: i64, start: i64, end: i64) -> (r: bool)
    ensures
        r == sampled_in_gap(gaps@, at as int, start as int, end as int),
{
    let mut i: usize = 0;
    while i < gaps.len()
        invariant
            i <= gaps.len(),
            forall|k: int|
                0 <= k < i ==> !((#[trigger] gaps@[k]).end_at > start && gaps@[k].start_at < end
                    && gaps@[k].start_at < at <= gaps@[k].end_at),
        decreases gaps.len() - i,
    {
        if gaps[i].end_at > start && gaps[i].start_at < end && gaps[i].start_at < at && at
            <= gaps[i].end_at {
            assert(sampled_in_gap(gaps@, at as int, start as int, end as int));
            return true;
        }
        i += 1;
    }
    false
}

fn tokens_in_gaps(
    samples: &Vec<TurnTokenSample>,
    gaps: &Vec<Gap>,
    account_key: &str,
    start: i64,
    end: i64,
) -> (r: i128)
    ensures
        r == gap_tokens(samples@, gaps@, account_key@, start as int, end as int),
{
    let mut total: i128 = 0;
    let mut i: usize = 0;
    while i < samples.len()
        invariant
            i <= samples.len(),
            total == gap_tokens(
                samples@.take(i as int),
                gaps@,
                account_key@,
                start as int,
                end as int,
            ),
            -0x8000_0000_0000_0000 * i <= total <= 0x8000_0000_0000_0000 * i,
        decreases samples.len() - i,
    {
        proof {
            assert(samples@.take(i + 1).drop_last() =~= samples@.take(i as int));
            assert(samples@.take(i + 1).last() == samples@[i as int]);
        }
        if start < samples[i].sampled_at && samples[i].sampled_at <= end && same_text(
            samples[i].account_key.as_str(),
            account_key,
        ) && in_gap(gaps, samples[i].sampled_at, start, end) {
            total = total + samples[i].delta_tokens as i128;
        }
        i += 1;
    }
    assert(samples@.take(samples.len() as int) =~= samples@);
    total
}

fn unresolved_active(unresolved: &Vec<UnresolvedActivity>, start: i64, end: i64) -> (r: bool)
    ensures
        r == any_active(unresolved@, start as int, end as int),
{
    let mut i: usize = 0;
    while i < unresolved.len()
        invariant
            i <= unresolved.len(),
            forall|k: int|
                0 <= k < i ==> !active_between(#[trigger] unresolved@[k], start as int, end as int),
        decreases unresolved.len() - i,
    {
        let activity = unresolved[i];
        let first: i64 = match activity.first_activity_at {
            Some(at) => at,
            None => activity.first_seen_at,
        };
        let last: i64 = match activity.last_activity_at {
            Some(at) => at,
            None => activity.first_seen_at,
        };
        if first < end && last >= start {
            assert(active_between(unresolved@[i as int], start as int, end as int));
            return true;
        }
        i += 1;
    }
    false
}

/// What was not observed between `start_at` and `end_at`.
pub fn observation_gap(evidence: &Evidence, account_key: &str, start_at: i64, end_at: i64) -> (r:
    GapObservation)
    ensures
        r.duration_ms == min_int(
            gap_millis(evidence.gaps@, start_at as int, end_at as int),
            i64::MAX as int,
        ),
        r.token_count == gap_tokens(
            evidence.samples@,
            evidence.gaps@,
            account_key@,
            start_at as int,
            end_at as int,
        ),
        r.quality == step_quality(
            any_active(evidence.unresolved@, start_at as int, end_at as int),
            gap_millis(evidence.gaps@, start_at as int, end_at as int),
        ),
{
    let duration_ms: i64 = gap_duration(evidence.gaps, start_at, end_at);
    let token_count: i128 = tokens_in_gaps(
        evidence.samples,
        evidence.gaps,
        account_key,
        start_at,
        end_at,
    );
    let quality = if unresolved_active(evidence.unresolved, start_at, end_at) {
        SampleQuality::Unresolved
    } else if duration_ms > 5 * 60 * 1000 {
        SampleQuality::LongGap
    } else if duration_ms > 0 {
        SampleQuality::BoundedGap
    } else {
        SampleQuality::Exact
    };
    GapObservation { duration_ms, token_count, quality }
}

// ---------------------------------------------------------------------------
// Intervals
// ---------------------------------------------------------------------------

/// A closed step as it is stored. The share that it adds is known of the account's window
/// as a whole: it stays unattributed and is given no local price.
#[derive(Debug)]
pub struct QuotaInterval {
    pub window_duration_mins: i64,
    pub cycle_id: String,
    pub start_sample_id: i64,
    pub end_sample_id: i64,
    pub start_at: i64,
    pub end_at: i64,
    pub start_percent: Percent,
    pub end_percent: Percent,
    pub local_weighted_credits: Option<Credits>,
    pub gap: GapObservation,
    pub confidence: Confidence,
}

pub open spec fn step_confidence(quality: SampleQuality) -> Confidence {
    match quality {
        SampleQuality::Exact => Confidence::Low,
        SampleQuality::BoundedGap => Confidence::Low,
        _ => Confidence::Unknown,
    }
}

/// The interval says of the step from `start` to `end` what was observed of it.
pub open spec fn interval_of(
    interval: QuotaInterval,
    start: RateSample,
    end: RateSample,
    evidence: Evidence,
    account_key: Seq<char>,
) -> bool {
    let from = start.sampled_at as int;
    let to = end.sampled_at as int;
    let millis = gap_millis(evidence.gaps@, from, to);
    let quality = step_quality(any_active(evidence.unresolved@, from, to), millis);
    &&& interval.window_duration_mins == end.window_duration_mins
    &&& interval.cycle_id@ == cycle_name(end.resets_at)
    &&& interval.start_sample_id == start.id
    &&& interval.end_sample_id == end.id
    &&& interval.start_at == start.sampled_at
    &&& interval.end_at == end.sampled_at
    &&& interval.start_percent == start.used_percent
    &&& interval.end_percent == end.used_percent
    &&& interval.local_weighted_credits is None
    &&& interval.gap.duration_ms == min_int(millis, i64::MAX as int)
    &&& interval.gap.token_count == gap_tokens(
        evidence.samples@,
        evidence.gaps@,
        account_key,
        from,
        to,
    )
    &&& interval.gap.quality == quality
    &&& interval.confidence == step_confidence(quality)
}

/// The intervals are those of the steps of the samples, in their order.
pub open spec fn are_intervals(
    intervals: Seq<QuotaInterval>,
    samples: Seq<RateSample>,
    evidence: Evidence,
    account_key: Seq<char>,
) -> bool {
    exists|steps: Seq<(usize, usize)>|
        {
            &&& #[trigger] are_steps(samples, steps)
            &&& intervals.len() == steps.len()
            &&& forall|n: int|
                0 <= n < steps.len() ==> interval_of(
                    #[trigger] intervals[n],
                    samples[steps[n].0 as int],
                    samples[steps[n].1 as int],
                    evidence,
                    account_key,
                )
        }
}

/// The row is of the bucket.
pub open spec fn in_bucket(
    row: RateLimitRow,
    account_key: Seq<char>,
    limit_id: Seq<char>,
    window: Seq<char>,
) -> bool {
    row.account_key@ == account_key && row.limit_id@ == limit_id && row.window@ == window
}

/// The observations of a bucket as they stand in the table.
pub open spec fn bucket_rows(
    rows: Seq<RateLimitRow>,
    account_key: Seq<char>,
    limit_id: Seq<char>,
    window: Seq<char>,
) -> Seq<RateSample>
    decreases rows.len(),
{
    if rows.len() == 0 {
        Seq::empty()
    } else {
        let before = bucket_rows(rows.drop_last(), account_key, limit_id, window);
        if in_bucket(rows.last(), account_key, limit_id, window) {
            before.push(rows.last().sample)
        } else {
            before
        }
    }
}

/// The observations of a bucket in the order of their time.
pub fn bucket_samples(
    rows: &Vec<RateLimitRow>,
    account_key: &str,
    limit_id: &str,
    window: &str,
) -> (r: Vec<RateSample>)
    ensures
        r@ == sorted(bucket_rows(rows@, account_key@, limit_id@, window@)),
{
    let mut found: Vec<RateSample> = Vec::new();
    let mut i: usize = 0;
    while i < rows.len()
        invariant
            i <= rows.len(),
            found@ == bucket_rows(rows@.take(i as int), account_key@, limit_id@, window@),
        decreases rows.len() - i,
    {
        proof {
            assert(rows@.take(i + 1).drop_last() =~= rows@.take(i as int));
            assert(rows@.take(i + 1).last() == rows@[i as int]);
        }
        if same_text(rows[i].account_key.as_str(), account_key) && same_text(
            rows[i].limit_id.as_str(),
            limit_id,
        ) && same_text(rows[i].window.as_str(), window) {
            found.push(rows[i].sample);
        }
        i += 1;
    }
    assert(rows@.take(rows.len() as int) =~= rows@);
    sort_rows(found)
}

fn interval_for(start: &RateSample, end: &RateSample, evidence: &Evidence, account_key: &str) -> (r:
    QuotaInterval)
    ensures
        interval_of(r, *start, *end, *evidence, account_key@),
{
    let gap = observation_gap(evidence, account_key, start.sampled_at, end.sampled_at);
    QuotaInterval {
        window_duration_mins: end.window_duration_mins,
        cycle_id: cycle_id(end.resets_at),
        start_sample_id: start.id,
        end_sample_id: end.id,
        start_at: start.sampled_at,
        end_at: end.sampled_at,
        start_percent: start.used_percent,
        end_percent: end.used_percent,
        local_weighted_credits: None,
        gap,
        confidence: match gap.quality {
            SampleQuality::Exact => Confidence::Low,
            SampleQuality::BoundedGap => Confidence::Low,
            SampleQuality::LongGap => Confidence::Unknown,
            SampleQuality::Unresolved => Confidence::Unknown,
        },
    }
}

/// The intervals of one bucket, from its observations. Of an account that is not known
/// nothing is derived: there is no result, and what is stored stays.
pub fn refresh_intervals(
    rows: &Vec<RateLimitRow>,
    account_key: &str,
    limit_id: &str,
    window: &str,
    evidence: &Evidence,
) -> (r: Option<Vec<QuotaInterval>>)
    ensures
        match r {
            Some(intervals) => !unresolved_key(account_key@) && are_intervals(
                intervals@,
                sorted(bucket_rows(rows@, account_key@, limit_id@, window@)),
                *evidence,
                account_key@,
            ),
            None => unresolved_key(account_key@),
        },
{
    if is_unresolved_account_key(account_key) {
        return None;
    }
    let samples = bucket_samples(rows, account_key, limit_id, window);
    let steps = find_steps(&samples);
    let mut intervals: Vec<QuotaInterval> = Vec::new();
    let mut n: usize = 0;
    while n < steps.len()
        invariant
            n <= steps.len(),
            intervals.len() == n,
            are_steps(samples@, steps@),
            forall|k: int|
                0 <= k < n ==> interval_of(
                    #[trigger] intervals@[k],
                    samples@[steps@[k].0 as int],
                    samples@[steps@[k].1 as int],
                    *evidence,
                    account_key@,
                ),
        decreases steps.len() - n,
    {
        let (start, end) = steps[n];
        proof {
            assert(is_step(samples@, steps@[n as int].0 as int, steps@[n as int].1 as int));
        }
        let interval = interval_for(&samples[start], &samples[end], evidence, account_key);
        intervals.push(interval);
        n += 1;
    }
    Some(intervals)
}

/// A bucket and the intervals that its observations give.
#[derive(Debug)]
pub struct BucketIntervals {
    pub account_key: String,
    pub limit_id: String,
    pub window: String,
    pub intervals: Vec<QuotaInterval>,
}

/// The row's account is known, and is the one named where one is.
pub open spec fn rebuilds(row: RateLimitRow, scope: Option<Seq<char>>) -> bool {
    !unresolved_key(row.account_key@) && (scope matches Some(key) ==> row.account_key@ == key)
}

/// The row's bucket is among the first `n` of the results.
pub open spec fn bucket_listed(results: Seq<BucketIntervals>, row: RateLimitRow) -> bool {
    exists|k: int|
        0 <= k < results.len() && in_bucket(
            row,
            (#[trigger] results[k]).account_key@,
            results[k].limit_id@,
            results[k].window@,
        )
}

/// A result is of a bucket with an observation that is rebuilt, and holds the bucket's steps.
pub open spec fn is_bucket_result(
    result: BucketIntervals,
    rows: Seq<RateLimitRow>,
    evidence: Evidence,
    scope: Option<Seq<char>>,
) -> bool {
    &&& exists|i: int|
        0 <= i < rows.len() && rebuilds(#[trigger] rows[i], scope) && in_bucket(
            rows[i],
            result.account_key@,
            result.limit_id@,
            result.window@,
        )
    &&& are_intervals(
        result.intervals@,
        sorted(bucket_rows(rows, result.account_key@, result.limit_id@, result.window@)),
        evidence,
        result.account_key@,
    )
}

/// One result for every bucket with an observation that is rebuilt, and for no other.
pub open spec fn rebuilt(
    results: Seq<BucketIntervals>,
    rows: Seq<RateLimitRow>,
    evidence: Evidence,
    scope: Option<Seq<char>>,
) -> bool {
    &&& forall|i: int|
        0 <= i < rows.len() && rebuilds(#[trigger] rows[i], scope) ==> bucket_listed(
            results,
            rows[i],
        )
    &&& forall|k: int|
        0 <= k < results.len() ==> is_bucket_result(#[trigger] results[k], rows, evidence, scope)
    &&& forall|k: int, m: int|
        0 <= k < m < results.len() ==> !((#[trigger] results[k]).account_key@ == (
        #[trigger] results[m]).account_key@ && results[k].limit_id@ == results[m].limit_id@
            && results[k].window@ == results[m].window@)
}

fn find_bucket(results: &Vec<BucketIntervals>, row: &RateLimitRow) -> (r: bool)
    ensures
        r == bucket_listed(results@, *row),
{
    let mut k: usize = 0;
    while k < results.len()
        invariant
            k <= results.len(),
            forall|m: int|
                0 <= m < k ==> !in_bucket(
                    *row,
                    (#[trigger] results@[m]).account_key@,
                    results@[m].limit_id@,
                    results@[m].window@,
                ),
        decreases results.len() - k,
    {
        if same_text(row.account_key.as_str(), results[k].account_key.as_str()) && same_text(
            row.limit_id.as_str(),
            results[k].limit_id.as_str(),
        ) && same_text(row.window.as_str(), results[k].window.as_str()) {
            assert(in_bucket(
                *row,
                results@[k as int].account_key@,
                results@[k as int].limit_id@,
                results@[k as int].window@,
            ));
            return true;
        }
        k += 1;
    }
    false
}

fn rebuild_scope(rows: &Vec<RateLimitRow>, evidence: &Evidence, scope: Option<&str>) -> (r: Vec<
    BucketIntervals,
>)
    ensures
        rebuilt(r@, rows@, *evidence, crate::text::str_opt(scope)),
{
    let ghost wanted = crate::text::str_opt(scope);
    let mut results: Vec<BucketIntervals> = Vec::new();
    let mut i: usize = 0;
    while i < rows.len()
        invariant
            i <= rows.len(),
            wanted == crate::text::str_opt(scope),
            forall|k: int|
                0 <= k < i && rebuilds(#[trigger] rows@[k], wanted) ==> bucket_listed(
                    results@,
                    rows@[k],
                ),
            forall|k: int|
                0 <= k < results.len() ==> is_bucket_result(
                    #[trigger] results@[k],
                    rows@,
                    *evidence,
                    wanted,
                ),
            forall|k: int, m: int|
                0 <= k < m < results.len() ==> !((#[trigger] results@[k]).account_key@ == (
                #[trigger] results@[m]).account_key@ && results@[k].limit_id@
                    == results@[m].limit_id@ && results@[k].window@ == results@[m].window@),
        decreases rows.len() - i,
    {
        let in_scope = match scope {
            Some(key) => same_text(rows[i].account_key.as_str(), key),
            None => true,
        };
        if in_scope && !find_bucket(&results, &rows[i]) {
            match refresh_intervals(
                rows,
                rows[i].account_key.as_str(),
                rows[i].limit_id.as_str(),
                rows[i].window.as_str(),
                evidence,
            ) {
                Some(intervals) => {
                    let ghost before = results@;
                    results.push(
                        BucketIntervals {
                            account_key: rows[i].account_key.clone(),
                            limit_id: rows[i].limit_id.clone(),
                            window: rows[i].window.clone(),
                            intervals,
                        },
                    );
                    proof {
                        let last = before.len() as int;
                        assert(rebuilds(rows@[i as int], wanted));
                        assert(in_bucket(
                            rows@[i as int],
                            results@[last].account_key@,
                            results@[last].limit_id@,
                            results@[last].window@,
                        ));
                        assert(is_bucket_result(results@[last], rows@, *evidence, wanted));
                        assert forall|k: int|
                            0 <= k < i && rebuilds(
                                #[trigger] rows@[k],
                                wanted,
                            ) implies bucket_listed(results@, rows@[k]) by {
                            let m = choose|m: int|
                                0 <= m < before.len() && in_bucket(
                                    rows@[k],
                                    (#[trigger] before[m]).account_key@,
                                    before[m].limit_id@,
                                    before[m].window@,
                                );
                            assert(results@[m] == before[m]);
                        }
                        assert forall|k: int| 0 <= k < last implies results@[k]
                            == #[trigger] before[k] by {}
                    }
                },
                None => {},
            }
        }
        i += 1;
    }
    results
}

/// The intervals of every bucket whose account is known.
pub fn rebuild_all_intervals(rows: &Vec<RateLimitRow>, evidence: &Evidence) -> (r: Vec<
    BucketIntervals,
>)
    ensures
        rebuilt(r@, rows@, *evidence, None),
{
    rebuild_scope(rows, evidence, None)
}

/// The intervals of every bucket of one account. Of an account that is not known nothing is
/// derived: there is no result, and what is stored stays.
pub fn rebuild_account_intervals(
    rows: &Vec<RateLimitRow>,
    account_key: &str,
    evidence: &Evidence,
) -> (r: Option<Vec<BucketIntervals>>)
    ensures
        match r {
            Some(found) => !unresolved_key(account_key@) && rebuilt(
                found@,
                rows@,
                *evidence,
                Some(account_key@),
            ),
            None => unresolved_key(account_key@),
        },
{
    if is_unresolved_account_key(account_key) {
        return None;
    }
    Some(rebuild_scope(rows, evidence, Some(account_key)))
}

pub open spec fn same_bucket(left: BucketIntervals, right: BucketIntervals) -> bool {
    left.account_key@ == right.account_key@ && left.limit_id@ == right.limit_id@ && left.window@
        == right.window@
}

/// The bucket is not among those found.
pub open spec fn not_found_in(found: Seq<BucketIntervals>) -> spec_fn(BucketIntervals) -> bool {
    |bucket: BucketIntervals|
        forall|m: int| 0 <= m < found.len() ==> !same_bucket(#[trigger] found[m], bucket)
}

/// What is stored once the found intervals are: each bucket that was found has these, and
/// every other bucket stays as it is.
pub open spec fn intervals_stored(
    stored: Seq<BucketIntervals>,
    found: Seq<BucketIntervals>,
) -> Seq<BucketIntervals> {
    stored.filter(not_found_in(found)) + found
}

fn is_found_in(found: &Vec<BucketIntervals>, bucket: &BucketIntervals) -> (r: bool)
    ensures
        r == !not_found_in(found@)(*bucket),
{
    let mut m: usize = 0;
    while m < found.len()
        invariant
            m <= found.len(),
            forall|k: int| 0 <= k < m ==> !same_bucket(#[trigger] found@[k], *bucket),
        decreases found.len() - m,
    {
        if same_text(found[m].account_key.as_str(), bucket.account_key.as_str()) && same_text(
            found[m].limit_id.as_str(),
            bucket.limit_id.as_str(),
        ) && same_text(found[m].window.as_str(), bucket.window.as_str()) {
            assert(same_bucket(found@[m as int], *bucket));
            return true;
        }
        m += 1;
    }
    false
}

/// Puts the intervals that were found in the place of those stored of the same buckets.
pub fn store_intervals(stored: &mut Vec<BucketIntervals>, found: Vec<BucketIntervals>)
    ensures
        final(stored)@ == intervals_stored(old(stored)@, found@),
{
    let mut all: Vec<BucketIntervals> = Vec::new();
    std::mem::swap(stored, &mut all);
    let ghost before = all@;
    let ghost keep = not_found_in(found@);
    assert(before.take(0).filter(keep) =~= Seq::empty());
    for bucket in iter: all
        invariant
            iter.seq() == before,
            keep == not_found_in(found@),
            stored@ == before.take(iter.index()).filter(keep),
    {
        proof {
            let i = iter.index();
            assert(before.take(i + 1).drop_last() =~= before.take(i));
            assert(before.take(i + 1).last() == bucket);
            reveal(Seq::filter);
        }
        if !is_found_in(&found, &bucket) {
            stored.push(bucket);
        }
    }
    assert(before.take(before.len() as int) =~= before);
    let mut found = found;
    stored.append(&mut found);
}

pub open spec fn same_interval(left: QuotaInterval, right: QuotaInterval) -> bool {
    &&& left.window_duration_mins == right.window_duration_mins
    &&& left.cycle_id@ == right.cycle_id@
    &&& left.start_sample_id == right.start_sample_id
    &&& left.end_sample_id == right.end_sample_id
    &&& left.start_at == right.start_at
    &&& left.end_at == right.end_at
    &&& left.start_percent == right.start_percent
    &&& left.end_percent == right.end_percent
    &&& left.local_weighted_credits == right.local_weighted_credits
    &&& left.gap == right.gap
    &&& left.confidence == right.confidence
}

/// The two have the same intervals in the same order.
pub open spec fn same_intervals(left: Seq<QuotaInterval>, right: Seq<QuotaInterval>) -> bool {
    &&& left.len() == right.len()
    &&& forall|n: int| 0 <= n < left.len() ==> same_interval(#[trigger] left[n], right[n])
}

/// The bucket is among the results, with the same intervals.
pub open spec fn recurs_in(bucket: BucketIntervals, results: Seq<BucketIntervals>) -> bool {
    exists|m: int|
        0 <= m < results.len() && same_bucket(bucket, #[trigger] results[m]) && same_intervals(
            bucket.intervals@,
            results[m].intervals@,
        )
}

/// Every bucket of the first is in the second, with the same intervals.
pub open spec fn buckets_recur(first: Seq<BucketIntervals>, second: Seq<BucketIntervals>) -> bool {
    forall|k: int| 0 <= k < first.len() ==> recurs_in(#[trigger] first[k], second)
}

/// A step ends where no other step ends.
proof fn lemma_step_by_its_end(samples: Seq<RateSample>, i: int, k: int, j: int)
    requires
        is_step(samples, i, j),
        is_step(samples, k, j),
    ensures
        i == k,
{
    if i < k {
        assert(rises_at(samples, k));
    } else if k < i {
        assert(rises_at(samples, i));
    }
}

proof fn lemma_step_at(
    samples: Seq<RateSample>,
    first: Seq<(usize, usize)>,
    second: Seq<(usize, usize)>,
    n: int,
)
    requires
        are_steps(samples, first),
        are_steps(samples, second),
        0 <= n < first.len(),
        n <= second.len(),
        forall|k: int| 0 <= k < n ==> (#[trigger] first[k]) == second[k],
    ensures
        n < second.len(),
        first[n] == second[n],
{
    assert(is_step(samples, first[n].0 as int, first[n].1 as int));
    let p = choose|p: int|
        0 <= p < second.len() && (#[trigger] second[p]).0 == first[n].0 && second[p].1
            == first[n].1;
    assert(second[p] == first[n]);
    if p < n {
        assert(first[p] == second[p]);
        assert(first[p].1 < first[n].1);
    }
    assert(is_step(samples, second[n].0 as int, second[n].1 as int));
    let q = choose|q: int|
        0 <= q < first.len() && (#[trigger] first[q]).0 == second[n].0 && first[q].1
            == second[n].1;
    assert(first[q] == second[n]);
    if q < n {
        assert(first[q] == second[q]);
        assert(second[q].1 < second[n].1);
    }
    if n < p {
        assert(second[n].1 < second[p].1);
    }
    if n < q {
        assert(first[n].1 < first[q].1);
    }
    lemma_step_by_its_end(
        samples,
        first[n].0 as int,
        second[n].0 as int,
        first[n].1 as int,
    );
}

proof fn lemma_steps_agree_up_to(
    samples: Seq<RateSample>,
    first: Seq<(usize, usize)>,
    second: Seq<(usize, usize)>,
    n: nat,
)
    requires
        are_steps(samples, first),
        are_steps(samples, second),
        n <= first.len(),
    ensures
        n <= second.len(),
        forall|k: int| 0 <= k < n ==> (#[trigger] first[k]) == second[k],
    decreases n,
{
    if n > 0 {
        let m = (n - 1) as nat;
        lemma_steps_agree_up_to(samples, first, second, m);
        lemma_step_at(samples, first, second, m as int);
    }
}

/// A bucket has its steps in one way only.
pub proof fn lemma_steps_are_determined(
    samples: Seq<RateSample>,
    first: Seq<(usize, usize)>,
    second: Seq<(usize, usize)>,
)
    requires
        are_steps(samples, first),
        are_steps(samples, second),
    ensures
        first == second,
{
    lemma_steps_agree_up_to(samples, first, second, first.len());
    lemma_steps_agree_up_to(samples, second, first, second.len());
    assert(first =~= second);
}

proof fn lemma_intervals_are_determined(
    first: Seq<QuotaInterval>,
    second: Seq<QuotaInterval>,
    samples: Seq<RateSample>,
    evidence: Evidence,
    account_key: Seq<char>,
)
    requires
        are_intervals(first, samples, evidence, account_key),
        are_intervals(second, samples, evidence, account_key),
    ensures
        same_intervals(first, second),
{
    let one = choose|steps: Seq<(usize, usize)>|
        {
            &&& #[trigger] are_steps(samples, steps)
            &&& first.len() == steps.len()
            &&& forall|n: int|
                0 <= n < steps.len() ==> interval_of(
                    #[trigger] first[n],
                    samples[steps[n].0 as int],
                    samples[steps[n].1 as int],
                    evidence,
                    account_key,
                )
        };
    let other = choose|steps: Seq<(usize, usize)>|
        {
            &&& #[trigger] are_steps(samples, steps)
            &&& second.len() == steps.len()
            &&& forall|n: int|
                0 <= n < steps.len() ==> interval_of(
                    #[trigger] second[n],
                    samples[steps[n].0 as int],
                    samples[steps[n].1 as int],
                    evidence,
                    account_key,
                )
        };
    lemma_steps_are_determined(samples, one, other);
    assert forall|n: int| 0 <= n < first.len() implies same_interval(
        #[trigger] first[n],
        second[n],
    ) by {
        assert(interval_of(
            first[n],
            samples[one[n].0 as int],
            samples[one[n].1 as int],
            evidence,
            account_key,
        ));
        assert(interval_of(
            second[n],
            samples[one[n].0 as int],
            samples[one[n].1 as int],
            evidence,
            account_key,
        ));
    }
}

proof fn lemma_rebuilt_recurs(
    first: Seq<BucketIntervals>,
    second: Seq<BucketIntervals>,
    rows: Seq<RateLimitRow>,
    evidence: Evidence,
    scope: Option<Seq<char>>,
)
    requires
        rebuilt(first, rows, evidence, scope),
        rebuilt(second, rows, evidence, scope),
    ensures
        buckets_recur(first, second),
{
    assert forall|k: int| 0 <= k < first.len() implies recurs_in(#[trigger] first[k], second) by {
        let bucket = first[k];
        assert(is_bucket_result(bucket, rows, evidence, scope));
        let i = choose|i: int|
            0 <= i < rows.len() && rebuilds(#[trigger] rows[i], scope) && in_bucket(
                rows[i],
                bucket.account_key@,
                bucket.limit_id@,
                bucket.window@,
            );
        assert(bucket_listed(second, rows[i]));
        let m = choose|m: int|
            0 <= m < second.len() && in_bucket(
                rows[i],
                (#[trigger] second[m]).account_key@,
                second[m].limit_id@,
                second[m].window@,
            );
        assert(is_bucket_result(second[m], rows, evidence, scope));
        lemma_intervals_are_determined(
            bucket.intervals@,
            second[m].intervals@,
            sorted(bucket_rows(rows, bucket.account_key@, bucket.limit_id@, bucket.window@)),
            evidence,
            bucket.account_key@,
        );
        assert(same_bucket(first[k], second[m]));
    }
}

/// Rebuilding is repeatable: two runs on the same observations find the same buckets, each
/// with the same intervals in the same order.
pub proof fn lemma_rebuilding_is_repeatable(
    first: Seq<BucketIntervals>,
    second: Seq<BucketIntervals>,
    rows: Seq<RateLimitRow>,
    evidence: Evidence,
    scope: Option<Seq<char>>,
)
    requires
        rebuilt(first, rows, evidence, scope),
        rebuilt(second, rows, evidence, scope),
    ensures
        buckets_recur(first, second),
        buckets_recur(second, first),
{
    lemma_rebuilt_recurs(first, second, rows, evidence, scope);
    lemma_rebuilt_recurs(second, first, rows, evidence, scope);
}

impl AccountRow for RateLimitRow {
    open spec fn account(&self) -> Seq<char> {
        self.account_key@
    }

    fn account_is(&self, key: &str) -> (r: bool) {
        same_text(self.account_key.as_str(), key)
    }
}

impl AccountRow for BucketIntervals {
    open spec fn account(&self) -> Seq<char> {
        self.account_key@
    }

    fn account_is(&self, key: &str) -> (r: bool) {
        same_text(self.account_key.as_str(), key)
    }
}

impl SampleQuality {
    /// What a stored name stands for.
    pub open spec fn named(name: Seq<char>) -> SampleQuality {
        if name == "exact"@ {
            SampleQuality::Exact
        } else if name == "bounded_gap"@ {
            SampleQuality::BoundedGap
        } else if name == "long_gap"@ {
            SampleQuality::LongGap
        } else {
            SampleQuality::Unresolved
        }
    }

    pub fn parse(name: &str) -> (r: SampleQuality)
        ensures
            r == SampleQuality::named(name@),
    {
        if same_text(name, "exact") {
            SampleQuality::Exact
        } else if same_text(name, "bounded_gap") {
            SampleQuality::BoundedGap
        } else if same_text(name, "long_gap") {
            SampleQuality::LongGap
        } else {
            SampleQuality::Unresolved
        }
    }
}

/// A quality that is stored is read back.
pub proof fn lemma_quality_round_trip(value: SampleQuality)
    ensures
        SampleQuality::named(quality_name(value)) == value,
{
    reveal_strlit("exact");
    reveal_strlit("bounded_gap");
    reveal_strlit("long_gap");
    reveal_strlit("unresolved");
    assert("exact"@.len() == 5);
    assert("bounded_gap"@.len() == 11);
    assert("long_gap"@.len() == 8);
    assert("unresolved"@.len() == 10);
}

// ---------------------------------------------------------------------------
// What belongs to a bucket
// ---------------------------------------------------------------------------

/// The row was observed of the account, the limit and the window.
pub open spec fn observed_of(
    account_key: Seq<char>,
    limit_id: Seq<char>,
    window: Seq<char>,
) -> spec_fn(RateLimitRow) -> bool {
    |row: RateLimitRow|
        {
            &&& row.account_key@ == account_key
            &&& row.limit_id@ == limit_id
            &&& row.window@ == window
        }
}

/// The observations that rows hold.
pub open spec fn samples_of(rows: Seq<RateLimitRow>) -> Seq<RateSample> {
    Seq::new(rows.len(), |i: int| rows[i].sample)
}

/// The observations of a bucket are those of the rows with its account, its limit and its
/// window, and of no other row.
proof fn lemma_bucket_rows_are_filtered(
    rows: Seq<RateLimitRow>,
    account_key: Seq<char>,
    limit_id: Seq<char>,
    window: Seq<char>,
)
    ensures
        bucket_rows(rows, account_key, limit_id, window) == samples_of(
            rows.filter(observed_of(account_key, limit_id, window)),
        ),
    decreases rows.len(),
{
    reveal(Seq::filter);
    let pick = observed_of(account_key, limit_id, window);
    if rows.len() > 0 {
        lemma_bucket_rows_are_filtered(rows.drop_last(), account_key, limit_id, window);
    }
    assert(bucket_rows(rows, account_key, limit_id, window) =~= samples_of(rows.filter(pick)));
}

/// An observation is among those of a bucket only where a row with the account, the limit and
/// the window of the bucket holds it, and the observation of every such row is among them.
/// They stand by their time, and those of one time by their number.
pub proof fn lemma_bucket_holds_its_own(
    rows: Seq<RateLimitRow>,
    account_key: Seq<char>,
    limit_id: Seq<char>,
    window: Seq<char>,
)
    ensures
        ({
            let samples = sorted(bucket_rows(rows, account_key, limit_id, window));
            &&& samples.len() == rows.filter(observed_of(account_key, limit_id, window)).len()
            &&& forall|k: int|
                0 <= k < samples.len() ==> exists|i: int|
                    {
                        &&& 0 <= i < rows.len()
                        &&& (#[trigger] rows[i]).account_key@ == account_key
                        &&& rows[i].limit_id@ == limit_id
                        &&& rows[i].window@ == window
                        &&& rows[i].sample == #[trigger] samples[k]
                    }
            &&& forall|i: int|
                {
                    &&& 0 <= i < rows.len()
                    &&& (#[trigger] rows[i]).account_key@ == account_key
                    &&& rows[i].limit_id@ == limit_id
                    &&& rows[i].window@ == window
                } ==> samples.contains(rows[i].sample)
            &&& forall|k: int, m: int|
                0 <= k < m < samples.len() ==> {
                    ||| (#[trigger] samples[k]).sampled_at < (#[trigger] samples[m]).sampled_at
                    ||| samples[k].sampled_at == samples[m].sampled_at && samples[k].id
                        <= samples[m].id
                }
        }),
{
    let pick = observed_of(account_key, limit_id, window);
    let own = rows.filter(pick);
    let found = bucket_rows(rows, account_key, limit_id, window);
    let samples = sorted(found);
    lemma_bucket_rows_are_filtered(rows, account_key, limit_id, window);
    crate::sorting::lemma_sorted(found);
    assert forall|k: int| 0 <= k < samples.len() implies exists|i: int|
        {
            &&& 0 <= i < rows.len()
            &&& (#[trigger] rows[i]).account_key@ == account_key
            &&& rows[i].limit_id@ == limit_id
            &&& rows[i].window@ == window
            &&& rows[i].sample == #[trigger] samples[k]
        } by {
        let at = crate::sorting::lemma_sorted_member(found, k);
        let i = crate::table::lemma_filter_member(rows, pick, at);
        assert(rows[i].account_key@ == account_key);
        assert(rows[i].sample == samples[k]);
    }
    assert forall|i: int|
        {
            &&& 0 <= i < rows.len()
            &&& (#[trigger] rows[i]).account_key@ == account_key
            &&& rows[i].limit_id@ == limit_id
            &&& rows[i].window@ == window
        } implies samples.contains(rows[i].sample) by {
        let at = crate::table::lemma_filter_keeps(rows, pick, i);
        assert(found[at] == rows[i].sample);
        let to = crate::sorting::lemma_sorted_keeps(found, at);
        assert(samples[to] == rows[i].sample);
    }
    assert forall|k: int, m: int| 0 <= k < m < samples.len() implies {
        ||| (#[trigger] samples[k]).sampled_at < (#[trigger] samples[m]).sampled_at
        ||| samples[k].sampled_at == samples[m].sampled_at && samples[k].id <= samples[m].id
    } by {
        assert(!samples[k].behind(samples[m]));
    }
}

/// Rows of another window, limit or account leave a bucket's observations as they are.
pub proof fn lemma_other_buckets_make_no_difference(
    rows: Seq<RateLimitRow>,
    at: int,
    other: RateLimitRow,
    account_key: Seq<char>,
    limit_id: Seq<char>,
    window: Seq<char>,
)
    requires
        0 <= at <= rows.len(),
        other.account_key@ != account_key || other.limit_id@ != limit_id || other.window@ != window,
    ensures
        bucket_rows(rows.insert(at, other), account_key, limit_id, window) == bucket_rows(
            rows,
            account_key,
            limit_id,
            window,
        ),
    decreases rows.len() - at,
{
    let more = rows.insert(at, other);
    if at == rows.len() {
        assert(more.drop_last() =~= rows);
        assert(more.last() == other);
    } else {
        lemma_other_buckets_make_no_difference(
            rows.drop_last(),
            at,
            other,
            account_key,
            limit_id,
            window,
        );
        assert(more.drop_last() =~= rows.drop_last().insert(at, other));
        assert(more.last() == rows.last());
    }
}

/// The steps that a bucket has are the same whatever other buckets hold: a row of another
/// window, limit or account changes no interval.
pub proof fn lemma_intervals_are_of_one_bucket(
    before: Seq<QuotaInterval>,
    after: Seq<QuotaInterval>,
    rows: Seq<RateLimitRow>,
    at: int,
    other: RateLimitRow,
    evidence: Evidence,
    account_key: Seq<char>,
    limit_id: Seq<char>,
    window: Seq<char>,
)
    requires
        0 <= at <= rows.len(),
        other.account_key@ != account_key || other.limit_id@ != limit_id || other.window@ != window,
        are_intervals(
            before,
            sorted(bucket_rows(rows, account_key, limit_id, window)),
            evidence,
            account_key,
        ),
        are_intervals(
            after,
            sorted(bucket_rows(rows.insert(at, other), account_key, limit_id, window)),
            evidence,
            account_key,
        ),
    ensures
        same_intervals(before, after),
{
    lemma_other_buckets_make_no_difference(rows, at, other, account_key, limit_id, window);
    lemma_intervals_are_determined(
        before,
        after,
        sorted(bucket_rows(rows, account_key, limit_id, window)),
        evidence,
        account_key,
    );
}

/// The row holds an observation of the bucket, with this number, time and share.
pub open spec fn observes(
    row: RateLimitRow,
    account_key: Seq<char>,
    limit_id: Seq<char>,
    window: Seq<char>,
    id: i64,
    at: i64,
    share: Percent,
) -> bool {
    &&& row.account_key@ == account_key
    &&& row.limit_id@ == limit_id
    &&& row.window@ == window
    &&& row.sample.id == id
    &&& row.sample.sampled_at == at
    &&& row.sample.used_percent == share
}

/// Every interval of a bucket lies between two observations of that bucket, at a later time
/// and a higher share than it began, and none begins before the one before it ends. It has no
/// local price.
pub proof fn lemma_intervals_lie_between_observations(
    intervals: Seq<QuotaInterval>,
    rows: Seq<RateLimitRow>,
    evidence: Evidence,
    account_key: Seq<char>,
    limit_id: Seq<char>,
    window: Seq<char>,
)
    requires
        are_intervals(
            intervals,
            sorted(bucket_rows(rows, account_key, limit_id, window)),
            evidence,
            account_key,
        ),
    ensures
        forall|n: int|
            0 <= n < intervals.len() ==> {
                let interval = #[trigger] intervals[n];
                &&& interval.start_at < interval.end_at
                &&& interval.start_percent.code < interval.end_percent.code
                &&& interval.local_weighted_credits is None
                &&& exists|i: int|
                    0 <= i < rows.len() && observes(
                        #[trigger] rows[i],
                        account_key,
                        limit_id,
                        window,
                        interval.start_sample_id,
                        interval.start_at,
                        interval.start_percent,
                    ) && rows[i].sample.window_duration_mins == interval.window_duration_mins
                &&& exists|i: int|
                    0 <= i < rows.len() && observes(
                        #[trigger] rows[i],
                        account_key,
                        limit_id,
                        window,
                        interval.end_sample_id,
                        interval.end_at,
                        interval.end_percent,
                    ) && rows[i].sample.window_duration_mins == interval.window_duration_mins
            },
        forall|m: int, n: int|
            0 <= m < n < intervals.len() ==> (#[trigger] intervals[m]).end_at <= (
            #[trigger] intervals[n]).start_at,
{
    let samples = sorted(bucket_rows(rows, account_key, limit_id, window));
    let steps = choose|steps: Seq<(usize, usize)>|
        {
            &&& #[trigger] are_steps(samples, steps)
            &&& intervals.len() == steps.len()
            &&& forall|n: int|
                0 <= n < steps.len() ==> interval_of(
                    #[trigger] intervals[n],
                    samples[steps[n].0 as int],
                    samples[steps[n].1 as int],
                    evidence,
                    account_key,
                )
        };
    lemma_bucket_holds_its_own(rows, account_key, limit_id, window);
    assert forall|n: int| 0 <= n < intervals.len() implies {
        let interval = #[trigger] intervals[n];
        &&& interval.start_at < interval.end_at
        &&& interval.start_percent.code < interval.end_percent.code
        &&& interval.local_weighted_credits is None
        &&& exists|i: int|
            0 <= i < rows.len() && observes(
                #[trigger] rows[i],
                account_key,
                limit_id,
                window,
                interval.start_sample_id,
                interval.start_at,
                interval.start_percent,
            ) && rows[i].sample.window_duration_mins == interval.window_duration_mins
        &&& exists|i: int|
            0 <= i < rows.len() && observes(
                #[trigger] rows[i],
                account_key,
                limit_id,
                window,
                interval.end_sample_id,
                interval.end_at,
                interval.end_percent,
            ) && rows[i].sample.window_duration_mins == interval.window_duration_mins
    } by {
        let a = steps[n].0 as int;
        let b = steps[n].1 as int;
        assert(is_step(samples, a, b));
        assert(interval_of(intervals[n], samples[a], samples[b], evidence, account_key));
        lemma_step_rises(samples, a, b);
        let i = choose|i: int|
            {
                &&& 0 <= i < rows.len()
                &&& (#[trigger] rows[i]).account_key@ == account_key
                &&& rows[i].limit_id@ == limit_id
                &&& rows[i].window@ == window
                &&& rows[i].sample == samples[a]
            };
        assert(observes(
            rows[i],
            account_key,
            limit_id,
            window,
            intervals[n].start_sample_id,
            intervals[n].start_at,
            intervals[n].start_percent,
        ));
        let j = choose|i: int|
            {
                &&& 0 <= i < rows.len()
                &&& (#[trigger] rows[i]).account_key@ == account_key
                &&& rows[i].limit_id@ == limit_id
                &&& rows[i].window@ == window
                &&& rows[i].sample == samples[b]
            };
        assert(observes(
            rows[j],
            account_key,
            limit_id,
            window,
            intervals[n].end_sample_id,
            intervals[n].end_at,
            intervals[n].end_percent,
        ));
    }
    assert forall|m: int, n: int| 0 <= m < n < intervals.len() implies (
    #[trigger] intervals[m]).end_at <= (#[trigger] intervals[n]).start_at by {
        lemma_steps_do_not_overlap(samples, steps, m, n);
        assert(interval_of(
            intervals[m],
            samples[steps[m].0 as int],
            samples[steps[m].1 as int],
            evidence,
            account_key,
        ));
        assert(interval_of(
            intervals[n],
            samples[steps[n].0 as int],
            samples[steps[n].1 as int],
            evidence,
            account_key,
        ));
        assert(is_step(samples, steps[n].0 as int, steps[n].1 as int));
        assert(is_step(samples, steps[m].0 as int, steps[m].1 as int));
        if steps[m].1 < steps[n].0 {
            assert(samples[steps[m].1 as int].sampled_at <= samples[steps[n].0 as int].sampled_at);
        }
    }
}

/// Two observations in a row are of one rise or plateau: the later one is later, of the same
/// window length and no lower, and both name a reset within a few seconds of each other or
/// none at all.
pub open spec fn goes_on(before: RateSample, here: RateSample) -> bool {
    &&& before.sampled_at < here.sampled_at
    &&& before.window_duration_mins == here.window_duration_mins
    &&& before.used_percent.code <= here.used_percent.code
    &&& match (before.resets_at, here.resets_at) {
        (Some(a), Some(b)) => a - b <= 5 && b - a <= 5,
        (None, None) => true,
        _ => false,
    }
}

/// Between its two rises a step goes on from each observation to the next, also into its
/// first one: the share stays where it rose to and rises again at the end.
pub proof fn lemma_step_goes_on(samples: Seq<RateSample>, i: int, j: int)
    requires
        is_step(samples, i, j),
    ensures
        1 <= i < j < samples.len(),
        forall|k: int| i <= k <= j ==> goes_on(#[trigger] samples[k - 1], samples[k]),
        samples[i - 1].used_percent.code < samples[i].used_percent.code,
        forall|k: int|
            i <= k < j ==> (#[trigger] samples[k]).used_percent.code
                == samples[i].used_percent.code,
        samples[j].used_percent.code > samples[j - 1].used_percent.code,
{
    assert forall|k: int| i <= k <= j implies goes_on(#[trigger] samples[k - 1], samples[k]) by {
        assert(!breaks_at(samples, k));
    }
    assert forall|k: int| i <= k < j implies (#[trigger] samples[k]).used_percent.code
        == samples[i].used_percent.code by {
        lemma_step_holds_its_plateau(samples, i, j, k);
    }
}

/// Wherever the share rises, stays and rises again without a break, there is a step, and it
/// is among those that are found.
pub proof fn lemma_every_closed_rise_is_a_step(
    samples: Seq<RateSample>,
    steps: Seq<(usize, usize)>,
    i: int,
    j: int,
)
    requires
        are_steps(samples, steps),
        1 <= i < j < samples.len(),
        forall|k: int| i <= k <= j ==> goes_on(#[trigger] samples[k - 1], samples[k]),
        samples[i - 1].used_percent.code < samples[i].used_percent.code,
        forall|k: int|
            i <= k < j ==> (#[trigger] samples[k]).used_percent.code
                == samples[i].used_percent.code,
        samples[j].used_percent.code > samples[j - 1].used_percent.code,
    ensures
        exists|n: int| 0 <= n < steps.len() && (#[trigger] steps[n]).0 == i && steps[n].1 == j,
{
    assert forall|k: int| i <= k <= j implies !#[trigger] breaks_at(samples, k) by {
        assert(goes_on(samples[k - 1], samples[k]));
    }
    assert forall|k: int| i < k < j implies !#[trigger] rises_at(samples, k) by {
        assert(samples[k].used_percent.code == samples[i].used_percent.code);
        let before = k - 1;
        assert(samples[before].used_percent.code == samples[i].used_percent.code);
    }
    assert(is_step(samples, i, j));
}

// ---------------------------------------------------------------------------
// What a gap hides
// ---------------------------------------------------------------------------

/// What gaps hide of two stretches in a row they hide of both together.
pub proof fn lemma_gaps_add_up(gaps: Seq<Gap>, start: int, middle: int, end: int)
    requires
        start <= middle <= end,
    ensures
        gap_millis(gaps, start, middle) + gap_millis(gaps, middle, end) == gap_millis(
            gaps,
            start,
            end,
        ),
    decreases gaps.len(),
{
    if gaps.len() > 0 {
        lemma_gaps_add_up(gaps.drop_last(), start, middle, end);
    }
}

/// A gap that lies within a stretch hides all of its seconds, one that lies outside hides
/// none, and one that covers the stretch hides the whole of it.
pub proof fn lemma_gap_hides_its_seconds(gap: Gap, start: int, end: int)
    requires
        start <= end,
        gap.start_at <= gap.end_at,
    ensures
        start <= gap.start_at && gap.end_at <= end ==> gap_millis(seq![gap], start, end) == 1000 * (
        gap.end_at - gap.start_at),
        gap.end_at <= start || end <= gap.start_at ==> gap_millis(seq![gap], start, end) == 0,
        gap.start_at <= start && end <= gap.end_at ==> gap_millis(seq![gap], start, end) == 1000 * (
        end - start),
{
    let gaps = seq![gap];
    assert(gaps.drop_last() =~= Seq::empty());
    assert(gaps.last() == gap);
    reveal_with_fuel(gap_millis, 2);
}

/// What was not observed of a step: where no gap reaches into it, nothing is hidden, and it
/// is exact unless a source of an unknown account was active.
pub proof fn lemma_step_without_gap_is_exact(
    gaps: Seq<Gap>,
    samples: Seq<TurnTokenSample>,
    account_key: Seq<char>,
    start: int,
    end: int,
)
    requires
        forall|i: int|
            0 <= i < gaps.len() ==> (#[trigger] gaps[i]).end_at <= start || gaps[i].start_at >= end,
    ensures
        gap_millis(gaps, start, end) == 0,
        gap_tokens(samples, gaps, account_key, start, end) == 0,
        step_quality(false, gap_millis(gaps, start, end)) == SampleQuality::Exact,
{
    lemma_no_gap_no_millis(gaps, start, end);
    lemma_no_gap_no_tokens(samples, gaps, account_key, start, end);
}

proof fn lemma_no_gap_no_millis(gaps: Seq<Gap>, start: int, end: int)
    requires
        forall|i: int|
            0 <= i < gaps.len() ==> (#[trigger] gaps[i]).end_at <= start || gaps[i].start_at >= end,
    ensures
        gap_millis(gaps, start, end) == 0,
    decreases gaps.len(),
{
    if gaps.len() > 0 {
        let front = gaps.drop_last();
        assert forall|i: int| 0 <= i < front.len() implies (#[trigger] front[i]).end_at <= start
            || front[i].start_at >= end by {
            assert(front[i] == gaps[i]);
        }
        lemma_no_gap_no_millis(front, start, end);
        let last = gaps[gaps.len() - 1];
        assert(last.end_at <= start || last.start_at >= end);
    }
}

proof fn lemma_no_gap_no_tokens(
    samples: Seq<TurnTokenSample>,
    gaps: Seq<Gap>,
    account_key: Seq<char>,
    start: int,
    end: int,
)
    requires
        forall|i: int|
            0 <= i < gaps.len() ==> (#[trigger] gaps[i]).end_at <= start || gaps[i].start_at >= end,
    ensures
        gap_tokens(samples, gaps, account_key, start, end) == 0,
    decreases samples.len(),
{
    if samples.len() > 0 {
        lemma_no_gap_no_tokens(samples.drop_last(), gaps, account_key, start, end);
    }
}

/// Where one gap covers a step, all the tokens that the account is known to have used in it
/// were used in the gap; those of other accounts never count.
pub proof fn lemma_gap_hides_the_accounts_tokens(
    samples: Seq<TurnTokenSample>,
    gaps: Seq<Gap>,
    at: int,
    account_key: Seq<char>,
    start: int,
    end: int,
)
    requires
        0 <= at < gaps.len(),
        gaps[at].start_at <= start < end <= gaps[at].end_at,
    ensures
        gap_tokens(samples, gaps, account_key, start, end) == tokens_between(
            samples,
            account_key,
            start,
            end,
        ),
    decreases samples.len(),
{
    if samples.len() > 0 {
        lemma_gap_hides_the_accounts_tokens(
            samples.drop_last(),
            gaps,
            at,
            account_key,
            start,
            end,
        );
        let last = samples.last();
        if start < last.sampled_at <= end {
            assert(gaps[at].end_at > start && gaps[at].start_at < last.sampled_at);
            assert(sampled_in_gap(gaps, last.sampled_at as int, start, end));
        }
    }
}

/// The tokens that an account is known to have used after `start`, up to `end`.
pub open spec fn tokens_between(
    samples: Seq<TurnTokenSample>,
    account_key: Seq<char>,
    start: int,
    end: int,
) -> int
    decreases samples.len(),
{
    if samples.len() == 0 {
        0
    } else {
        let last = samples.last();
        tokens_between(samples.drop_last(), account_key, start, end) + if last.account_key@
            == account_key && start < last.sampled_at && last.sampled_at <= end {
            last.delta_tokens as int
        } else {
            0
        }
    }
}

/// Two resets in the same five seconds are of one cycle by name, two in others are not, and no
/// reset has the name of one.
pub proof fn lemma_cycle_is_named_by_its_five_seconds(first: i64, second: i64)
    requires
        first >= 0,
        second >= 0,
    ensures
        first as int / 5 == second as int / 5 <==> cycle_name(Some(first)) == cycle_name(
            Some(second),
        ),
        cycle_name(None) == "reset:unknown"@,
{
    let (a, b) = ((first as int / 5) as nat, (second as int / 5) as nat);
    lemma_decimal_digits(a);
    lemma_decimal_digits(b);
    let (c, d) = (cycle_name(Some(first)), cycle_name(Some(second)));
    if c == d {
        let head = "reset:"@.len() as int;
        assert(decimal(a as int) =~= c.subrange(head, c.len() as int));
        assert(decimal(b as int) =~= d.subrange(head, d.len() as int));
    }
}

/// A source was at work within a step where it began to be before the step ended and last was
/// no earlier than it began; what is not known of either is taken from when it was first seen.
pub proof fn lemma_activity_meets_the_step(activity: UnresolvedActivity, start: int, end: int)
    ensures
        ({
            let met = active_between(activity, start, end);
            &&& activity.first_activity_at matches Some(first) ==> (activity.last_activity_at
                matches Some(last) ==> (met <==> first < end && start <= last))
            &&& activity.first_activity_at is None && activity.last_activity_at is None ==> (met
                <==> start <= activity.first_seen_at < end)
        }),
{
}

/// A step with a source at work that nobody is known to own is not resolved; else one with more
/// than five minutes unwatched has a long gap, one with any a bounded one, and one with none
/// is exact. Only the latter two are relied on at all.
pub proof fn lemma_quality_follows_what_was_unwatched(unresolved: bool, duration_ms: int)
    requires
        duration_ms >= 0,
    ensures
        ({
            let quality = step_quality(unresolved, duration_ms);
            &&& quality == SampleQuality::Unresolved <==> unresolved
            &&& quality == SampleQuality::LongGap <==> !unresolved && duration_ms > 300 * 1000
            &&& quality == SampleQuality::BoundedGap <==> !unresolved && 0 < duration_ms <= 300
                * 1000
            &&& quality == SampleQuality::Exact <==> !unresolved && duration_ms == 0
            &&& step_confidence(quality) == Confidence::Low <==> !unresolved && duration_ms <= 300
                * 1000
            &&& step_confidence(quality) != Confidence::Low ==> step_confidence(quality)
                == Confidence::Unknown
        }),
{
}

/// An increase falls into a gap where the gap meets the step and the increase was observed
/// after the gap began and no later than it ended.
pub proof fn lemma_increase_falls_into_a_gap(gaps: Seq<Gap>, at: int, start: int, end: int, k: int)
    requires
        0 <= k < gaps.len(),
    ensures
        gaps[k].start_at < at <= gaps[k].end_at && start < gaps[k].end_at && gaps[k].start_at < end
            ==> sampled_in_gap(gaps, at, start, end),
        (forall|i: int|
            0 <= i < gaps.len() ==> at <= (#[trigger] gaps[i]).start_at || gaps[i].end_at < at)
            ==> !sampled_in_gap(gaps, at, start, end),
{
}

/// A step says what was observed at its two ends and what was unwatched between them.
pub proof fn lemma_step_says_what_was_observed(
    interval: QuotaInterval,
    start: RateSample,
    end: RateSample,
    evidence: Evidence,
    account_key: Seq<char>,
)
    requires
        interval_of(interval, start, end, evidence, account_key),
    ensures
        interval.start_sample_id == start.id,
        interval.end_sample_id == end.id,
        interval.start_at == start.sampled_at,
        interval.end_at == end.sampled_at,
        interval.start_percent == start.used_percent,
        interval.end_percent == end.used_percent,
        interval.window_duration_mins == end.window_duration_mins,
        interval.local_weighted_credits is None,
        ({
            let unwatched = gap_millis(
                evidence.gaps@,
                start.sampled_at as int,
                end.sampled_at as int,
            );
            &&& unwatched <= i64::MAX ==> interval.gap.duration_ms == unwatched
            &&& unwatched > i64::MAX ==> interval.gap.duration_ms == i64::MAX
        }),
        (exists|i: int|
            0 <= i < evidence.unresolved@.len() && active_between(
                #[trigger] evidence.unresolved@[i],
                start.sampled_at as int,
                end.sampled_at as int,
            )) <==> interval.gap.quality == SampleQuality::Unresolved,
        interval.gap.quality == SampleQuality::Unresolved || interval.gap.quality
            == SampleQuality::LongGap ==> interval.confidence == Confidence::Unknown,
{
}

} // verus!
