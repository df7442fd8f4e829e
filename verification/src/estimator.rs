//! Estimating from observed quota steps what a whole week of one category would use.
//!
//! A step of the weekly quota is evidence for a category only where every token of the step
//! was of that category. What is counted here is exact; the rates that follow from the
//! evidence are ratios, and are handed in as findings.
use crate::arith::{clamp_i64, max_int, min_int, saturating_add};
use crate::category_usage::{
    event_views, CategoryKey, EventView, KeyView, LocalCategory, TimelineEvent,
};
use crate::health::DataHealth;
use crate::models::Confidence;
use crate::percent::Percent;
use crate::quota::QuotaInterval;
use crate::sorting::{sort_rows, sorted, Ranked};
use crate::text::same_text;
use vstd::prelude::*;

verus! {

// ---------------------------------------------------------------------------
// Increases of a window
// ---------------------------------------------------------------------------

/// An increase within the window, with when its turn was last seen before it.
#[derive(Debug)]
pub struct TokenDelta {
    pub key: CategoryKey,
    pub sampled_at: i64,
    pub delta_tokens: i64,
    pub previous_sampled_at: Option<i64>,
}

/// The mathematical value of a [`TokenDelta`].
#[verifier::ext_equal]
pub struct DeltaView {
    pub key: KeyView,
    pub sampled_at: int,
    pub delta_tokens: int,
    pub previous_sampled_at: Option<i64>,
}

impl View for TokenDelta {
    type V = DeltaView;

    open spec fn view(&self) -> DeltaView {
        DeltaView {
            key: self.key@,
            sampled_at: self.sampled_at as int,
            delta_tokens: self.delta_tokens as int,
            previous_sampled_at: self.previous_sampled_at,
        }
    }
}

pub open spec fn delta_views(deltas: Seq<TokenDelta>) -> Seq<DeltaView> {
    Seq::new(deltas.len(), |i: int| deltas[i]@)
}

/// The event `j` comes before the event `i` of the same turn.
pub open spec fn comes_earlier(events: Seq<EventView>, j: int, i: int) -> bool {
    &&& events[j].thread_id == events[i].thread_id
    &&& events[j].turn_id == events[i].turn_id
    &&& events[j].sampled_at < events[i].sampled_at || (events[j].sampled_at
        == events[i].sampled_at && j < i)
}

/// When the turn of the event `i` was last seen before it, among the first `n` events.
pub open spec fn last_seen_before(events: Seq<EventView>, i: int, n: int) -> Option<i64>
    decreases n,
{
    if n <= 0 {
        None
    } else {
        let seen = last_seen_before(events, i, n - 1);
        if comes_earlier(events, n - 1, i) {
            match seen {
                Some(at) => if at >= events[n - 1].sampled_at {
                    Some(at)
                } else {
                    Some(events[n - 1].sampled_at as i64)
                },
                None => Some(events[n - 1].sampled_at as i64),
            }
        } else {
            seen
        }
    }
}

/// The increases in the window among the first `n` events.
pub open spec fn deltas_of(events: Seq<EventView>, n: int, start: int, end: int) -> Seq<DeltaView>
    decreases n,
{
    if n <= 0 {
        Seq::empty()
    } else {
        let before = deltas_of(events, n - 1, start, end);
        let event = events[n - 1];
        if start < event.sampled_at <= end && event.delta_tokens > 0 {
            before.push(
                DeltaView {
                    key: event.key,
                    sampled_at: event.sampled_at,
                    delta_tokens: event.delta_tokens,
                    previous_sampled_at: last_seen_before(events, n - 1, events.len() as int),
                },
            )
        } else {
            before
        }
    }
}

fn find_last_seen(events: &Vec<TimelineEvent>, i: usize) -> (r: Option<i64>)
    requires
        i < events@.len(),
    ensures
        r == last_seen_before(event_views(events@), i as int, events@.len() as int),
{
    let ghost views = event_views(events@);
    let mut seen: Option<i64> = None;
    let mut j: usize = 0;
    while j < events.len()
        invariant
            j <= events.len(),
            i < events@.len(),
            views == event_views(events@),
            seen == last_seen_before(views, i as int, j as int),
        decreases events.len() - j,
    {
        assert(views[j as int] == events@[j as int]@);
        assert(views[i as int] == events@[i as int]@);
        let earlier = events[j].sampled_at < events[i].sampled_at || (events[j].sampled_at
            == events[i].sampled_at && j < i);
        if earlier && same_text(events[j].thread_id.as_str(), events[i].thread_id.as_str())
            && same_text(events[j].turn_id.as_str(), events[i].turn_id.as_str()) {
            seen = match seen {
                Some(at) => if at >= events[j].sampled_at {
                    Some(at)
                } else {
                    Some(events[j].sampled_at)
                },
                None => Some(events[j].sampled_at),
            };
        }
        j += 1;
    }
    seen
}

/// The increases in a window, in the order in which they were recorded.
pub fn timeline_token_samples(
    events: &Vec<TimelineEvent>,
    start: i64,
    end: i64,
) -> (r: Vec<TokenDelta>)
    ensures
        delta_views(r@) == deltas_of(
            event_views(events@),
            events@.len() as int,
            start as int,
            end as int,
        ),
{
    let ghost views = event_views(events@);
    let mut r: Vec<TokenDelta> = Vec::new();
    let mut i: usize = 0;
    assert(delta_views(r@) =~= Seq::empty());
    while i < events.len()
        invariant
            i <= events.len(),
            views == event_views(events@),
            delta_views(r@) == deltas_of(views, i as int, start as int, end as int),
        decreases events.len() - i,
    {
        assert(views[i as int] == events@[i as int]@);
        let event = &events[i];
        if event.sampled_at > start && event.sampled_at <= end && event.delta_tokens > 0 {
            let delta = TokenDelta {
                key: event.key.copy_key(),
                sampled_at: event.sampled_at,
                delta_tokens: event.delta_tokens,
                previous_sampled_at: find_last_seen(events, i),
            };
            let ghost before = delta_views(r@);
            let ghost view = delta@;
            r.push(delta);
            assert(delta_views(r@) =~= before.push(view));
        }
        i += 1;
    }
    r
}

// ---------------------------------------------------------------------------
// Evidence of the steps
// ---------------------------------------------------------------------------

/// A step of the weekly quota, from one level of use to the next.
#[derive(Clone, Copy, Debug, PartialEq, Eq, Structural)]
pub struct QuotaStep {
    pub start_at: i64,
    pub end_at: i64,
    pub start_percent: Percent,
    pub end_percent: Percent,
}

/// Why an estimate is held back, or to be taken with care.
#[derive(Clone, Copy, Debug, PartialEq, Eq, Structural)]
pub enum Reason {
    QuotaWindowMissing,
    AccountDataRebuilding,
    AccountingInconsistent,
    SourceIncomplete,
    LegacyUnverified,
    SourceGap,
    BoundaryOverlap,
    BoundaryAmbiguity,
    MixedCategoryUnresolved,
    InsufficientSamples,
    InsufficientObservedTokens,
    InsufficientQuotaSpan,
    InsufficientCoverage,
    InsufficientEligibleTokens,
    SanityCheckFailed,
    ExcessiveDispersion,
    PendingTokens,
    ExternalUsageRisk,
}

impl Reason {
    pub open spec fn name(self) -> Seq<char> {
        match self {
            Reason::QuotaWindowMissing => "quota_window_missing"@,
            Reason::AccountDataRebuilding => "account_data_rebuilding"@,
            Reason::AccountingInconsistent => "accounting_inconsistent"@,
            Reason::SourceIncomplete => "source_incomplete"@,
            Reason::LegacyUnverified => "legacy_unverified"@,
            Reason::SourceGap => "source_gap"@,
            Reason::BoundaryOverlap => "boundary_overlap"@,
            Reason::BoundaryAmbiguity => "boundary_ambiguity"@,
            Reason::MixedCategoryUnresolved => "mixed_category_unresolved"@,
            Reason::InsufficientSamples => "insufficient_samples"@,
            Reason::InsufficientObservedTokens => "insufficient_observed_tokens"@,
            Reason::InsufficientQuotaSpan => "insufficient_quota_span"@,
            Reason::InsufficientCoverage => "insufficient_coverage"@,
            Reason::InsufficientEligibleTokens => "insufficient_eligible_tokens"@,
            Reason::SanityCheckFailed => "sanity_check_failed"@,
            Reason::ExcessiveDispersion => "excessive_dispersion"@,
            Reason::PendingTokens => "pending_tokens"@,
            Reason::ExternalUsageRisk => "external_usage_risk"@,
        }
    }

    pub fn as_str(self) -> (r: &'static str)
        ensures
            r@ == self.name(),
    {
        match self {
            Reason::QuotaWindowMissing => "quota_window_missing",
            Reason::AccountDataRebuilding => "account_data_rebuilding",
            Reason::AccountingInconsistent => "accounting_inconsistent",
            Reason::SourceIncomplete => "source_incomplete",
            Reason::LegacyUnverified => "legacy_unverified",
            Reason::SourceGap => "source_gap",
            Reason::BoundaryOverlap => "boundary_overlap",
            Reason::BoundaryAmbiguity => "boundary_ambiguity",
            Reason::MixedCategoryUnresolved => "mixed_category_unresolved",
            Reason::InsufficientSamples => "insufficient_samples",
            Reason::InsufficientObservedTokens => "insufficient_observed_tokens",
            Reason::InsufficientQuotaSpan => "insufficient_quota_span",
            Reason::InsufficientCoverage => "insufficient_coverage",
            Reason::InsufficientEligibleTokens => "insufficient_eligible_tokens",
            Reason::SanityCheckFailed => "sanity_check_failed",
            Reason::ExcessiveDispersion => "excessive_dispersion",
            Reason::PendingTokens => "pending_tokens",
            Reason::ExternalUsageRisk => "external_usage_risk",
        }
    }

    /// The reason only calls for care; any other holds the estimate back.
    pub open spec fn warns(self) -> bool {
        match self {
            Reason::BoundaryOverlap => true,
            Reason::BoundaryAmbiguity => true,
            Reason::PendingTokens => true,
            Reason::ExternalUsageRisk => true,
            Reason::SourceGap => true,
            Reason::MixedCategoryUnresolved => true,
            _ => false,
        }
    }

    pub fn is_warning(self) -> (r: bool)
        ensures
            r == self.warns(),
    {
        match self {
            Reason::BoundaryOverlap => true,
            Reason::BoundaryAmbiguity => true,
            Reason::PendingTokens => true,
            Reason::ExternalUsageRisk => true,
            Reason::SourceGap => true,
            Reason::MixedCategoryUnresolved => true,
            _ => false,
        }
    }
}

/// The reasons with one more, which stands where it was first given.
pub open spec fn with_reason(reasons: Seq<Reason>, reason: Reason) -> Seq<Reason> {
    if reasons.contains(reason) {
        reasons
    } else {
        reasons.push(reason)
    }
}

/// The reasons with one more where the condition holds.
pub open spec fn with_reason_if(reasons: Seq<Reason>, holds: bool, reason: Reason) -> Seq<Reason> {
    if holds {
        with_reason(reasons, reason)
    } else {
        reasons
    }
}

/// The reasons of one kind, in their order.
pub open spec fn reasons_that(reasons: Seq<Reason>, warn: bool) -> Seq<Reason>
    decreases reasons.len(),
{
    if reasons.len() == 0 {
        Seq::empty()
    } else {
        let before = reasons_that(reasons.drop_last(), warn);
        if reasons.last().warns() == warn {
            before.push(reasons.last())
        } else {
            before
        }
    }
}

pub fn add_rejection_reason(reasons: &mut Vec<Reason>, reason: Reason)
    ensures
        final(reasons)@ == with_reason(old(reasons)@, reason),
{
    let mut i: usize = 0;
    while i < reasons.len()
        invariant
            i <= reasons.len(),
            reasons@ == old(reasons)@,
            forall|k: int| 0 <= k < i ==> #[trigger] reasons@[k] != reason,
        decreases reasons.len() - i,
    {
        if reasons[i] == reason {
            assert(reasons@[i as int] == reason);
            return;
        }
        i += 1;
    }
    reasons.push(reason);
}

fn add_reason_if(reasons: &mut Vec<Reason>, holds: bool, reason: Reason)
    ensures
        final(reasons)@ == with_reason_if(old(reasons)@, holds, reason),
{
    if holds {
        add_rejection_reason(reasons, reason);
    }
}

fn select_reasons(reasons: &Vec<Reason>, warn: bool) -> (r: Vec<Reason>)
    ensures
        r@ == reasons_that(reasons@, warn),
{
    let mut r: Vec<Reason> = Vec::new();
    let mut i: usize = 0;
    assert(reasons@.take(0) =~= Seq::empty());
    while i < reasons.len()
        invariant
            i <= reasons.len(),
            r@ == reasons_that(reasons@.take(i as int), warn),
        decreases reasons.len() - i,
    {
        proof {
            assert(reasons@.take(i + 1).drop_last() =~= reasons@.take(i as int));
            assert(reasons@.take(i + 1).last() == reasons@[i as int]);
        }
        if reasons[i].is_warning() == warn {
            r.push(reasons[i]);
        }
        i += 1;
    }
    assert(reasons@.take(reasons@.len() as int) =~= reasons@);
    r
}

/// What holds the estimate back comes first, and what calls for care after it.
pub fn diagnostic_reasons(reasons: &Vec<Reason>) -> (r: Vec<Reason>)
    ensures
        r@ == reasons_that(reasons@, false) + reasons_that(reasons@, true),
{
    let mut r = select_reasons(reasons, false);
    let mut warnings = select_reasons(reasons, true);
    r.append(&mut warnings);
    r
}

/// Which increases of a step are meant.
#[derive(Clone, Copy, Debug, PartialEq, Eq, Structural)]
pub enum Share {
    /// All of the category.
    Own,
    /// Those of the category whose turn was last seen before the step: a part of them may
    /// belong to the time before.
    Crossing,
    /// Those of the category that lie wholly within the step.
    Clear,
}

pub open spec fn in_step(delta: DeltaView, step: QuotaStep) -> bool {
    step.start_at < delta.sampled_at <= step.end_at
}

pub open spec fn crosses_start(delta: DeltaView, step: QuotaStep) -> bool {
    delta.previous_sampled_at matches Some(previous) && previous < step.start_at
}

pub open spec fn shares(delta: DeltaView, step: QuotaStep, key: KeyView, share: Share) -> bool {
    &&& in_step(delta, step)
    &&& delta.key == key
    &&& match share {
        Share::Own => true,
        Share::Crossing => crosses_start(delta, step),
        Share::Clear => !crosses_start(delta, step),
    }
}

/// The tokens of a share of a step, as far as they can be counted.
pub open spec fn share_tokens(
    deltas: Seq<DeltaView>,
    step: QuotaStep,
    key: KeyView,
    share: Share,
) -> int
    decreases deltas.len(),
{
    if deltas.len() == 0 {
        0
    } else {
        let before = share_tokens(deltas.drop_last(), step, key, share);
        if shares(deltas.last(), step, key, share) {
            clamp_i64(before + max_int(deltas.last().delta_tokens, 0))
        } else {
            before
        }
    }
}

/// Some increase of the step belongs to the share.
pub open spec fn share_occurs(
    deltas: Seq<DeltaView>,
    step: QuotaStep,
    key: KeyView,
    share: Share,
) -> bool {
    exists|i: int| 0 <= i < deltas.len() && shares(#[trigger] deltas[i], step, key, share)
}

/// The step holds an increase.
pub open spec fn step_occurs(deltas: Seq<DeltaView>, step: QuotaStep) -> bool {
    exists|i: int| 0 <= i < deltas.len() && in_step(#[trigger] deltas[i], step)
}

/// The step holds an increase of another category.
pub open spec fn other_occurs(deltas: Seq<DeltaView>, step: QuotaStep, key: KeyView) -> bool {
    exists|i: int|
        0 <= i < deltas.len() && in_step(#[trigger] deltas[i], step) && deltas[i].key != key
}

/// What a step says of a category.
#[derive(Clone, Copy, Debug, PartialEq, Eq, Structural)]
pub struct StepLook {
    pub any: bool,
    pub own: bool,
    pub other: bool,
    pub crossing: bool,
    pub own_tokens: i64,
    pub crossing_tokens: i64,
    pub clear_tokens: i64,
}

pub open spec fn step_look(deltas: Seq<DeltaView>, step: QuotaStep, key: KeyView) -> StepLook {
    StepLook {
        any: step_occurs(deltas, step),
        own: share_occurs(deltas, step, key, Share::Own),
        other: other_occurs(deltas, step, key),
        crossing: share_occurs(deltas, step, key, Share::Crossing),
        own_tokens: share_tokens(deltas, step, key, Share::Own) as i64,
        crossing_tokens: share_tokens(deltas, step, key, Share::Crossing) as i64,
        clear_tokens: share_tokens(deltas, step, key, Share::Clear) as i64,
    }
}

pub fn look_at_step(deltas: &Vec<TokenDelta>, step: QuotaStep, key: &CategoryKey) -> (r: StepLook)
    ensures
        r == step_look(delta_views(deltas@), step, key@),
        r.own_tokens == share_tokens(delta_views(deltas@), step, key@, Share::Own),
        r.crossing_tokens == share_tokens(delta_views(deltas@), step, key@, Share::Crossing),
        r.clear_tokens == share_tokens(delta_views(deltas@), step, key@, Share::Clear),
{
    let ghost views = delta_views(deltas@);
    let mut look = StepLook {
        any: false,
        own: false,
        other: false,
        crossing: false,
        own_tokens: 0,
        crossing_tokens: 0,
        clear_tokens: 0,
    };
    let mut i: usize = 0;
    assert(views.take(0) =~= Seq::empty());
    while i < deltas.len()
        invariant
            i <= deltas.len(),
            views == delta_views(deltas@),
            look.any == step_occurs(views.take(i as int), step),
            look.own == share_occurs(views.take(i as int), step, key@, Share::Own),
            look.other == other_occurs(views.take(i as int), step, key@),
            look.crossing == share_occurs(views.take(i as int), step, key@, Share::Crossing),
            look.own_tokens == share_tokens(views.take(i as int), step, key@, Share::Own),
            look.crossing_tokens == share_tokens(
                views.take(i as int),
                step,
                key@,
                Share::Crossing,
            ),
            look.clear_tokens == share_tokens(views.take(i as int), step, key@, Share::Clear),
        decreases deltas.len() - i,
    {
        let delta = &deltas[i];
        let ghost front = views.take(i as int);
        let ghost grown = views.take(i + 1);
        proof {
            assert(grown.drop_last() =~= front);
            assert(grown.last() == delta@);
            assert(grown[i as int] == delta@);
            assert forall|k: int| 0 <= k < i implies grown[k] == #[trigger] front[k] by {}
            assert forall|share: Share| share_occurs(grown, step, key@, share) == (share_occurs(
                front,
                step,
                key@,
                share,
            ) || shares(delta@, step, key@, share)) by {
                lemma_share_occurs_grows(front, delta@, step, key@, share);
                assert(grown =~= front.push(delta@));
            }
            lemma_step_occurs_grows(front, delta@, step, key@);
            assert(grown =~= front.push(delta@));
        }
        if delta.sampled_at > step.start_at && delta.sampled_at <= step.end_at {
            look.any = true;
            if delta.key.same(key) {
                look.own = true;
                let tokens: i64 = delta.delta_tokens.max(0);
                look.own_tokens = saturating_add(look.own_tokens, tokens);
                let crosses = match delta.previous_sampled_at {
                    Some(previous) => previous < step.start_at,
                    None => false,
                };
                if crosses {
                    look.crossing = true;
                    look.crossing_tokens = saturating_add(look.crossing_tokens, tokens);
                } else {
                    look.clear_tokens = saturating_add(look.clear_tokens, tokens);
                }
            } else {
                look.other = true;
            }
        }
        i += 1;
    }
    assert(views.take(views.len() as int) =~= views);
    look
}

proof fn lemma_share_occurs_grows(
    front: Seq<DeltaView>,
    delta: DeltaView,
    step: QuotaStep,
    key: KeyView,
    share: Share,
)
    ensures
        share_occurs(front.push(delta), step, key, share) == (share_occurs(front, step, key, share)
            || shares(delta, step, key, share)),
{
    let grown = front.push(delta);
    if share_occurs(front, step, key, share) {
        let k = choose|k: int| 0 <= k < front.len() && shares(#[trigger] front[k], step, key, share);
        assert(shares(grown[k], step, key, share));
    }
    if shares(delta, step, key, share) {
        assert(shares(grown[front.len() as int], step, key, share));
    }
    if share_occurs(grown, step, key, share) {
        let k = choose|k: int| 0 <= k < grown.len() && shares(#[trigger] grown[k], step, key, share);
        if k < front.len() {
            assert(shares(front[k], step, key, share));
        }
    }
}

proof fn lemma_step_occurs_grows(
    front: Seq<DeltaView>,
    delta: DeltaView,
    step: QuotaStep,
    key: KeyView,
)
    ensures
        step_occurs(front.push(delta), step) == (step_occurs(front, step) || in_step(delta, step)),
        other_occurs(front.push(delta), step, key) == (other_occurs(front, step, key) || (in_step(
            delta,
            step,
        ) && delta.key != key)),
{
    let grown = front.push(delta);
    if step_occurs(front, step) {
        let k = choose|k: int| 0 <= k < front.len() && in_step(#[trigger] front[k], step);
        assert(in_step(grown[k], step));
    }
    if in_step(delta, step) {
        assert(in_step(grown[front.len() as int], step));
    }
    if other_occurs(front, step, key) {
        let k = choose|k: int|
            0 <= k < front.len() && in_step(#[trigger] front[k], step) && front[k].key != key;
        assert(in_step(grown[k], step) && grown[k].key != key);
    }
    if step_occurs(grown, step) {
        let k = choose|k: int| 0 <= k < grown.len() && in_step(#[trigger] grown[k], step);
        if k < front.len() {
            assert(in_step(front[k], step));
        }
    }
    if other_occurs(grown, step, key) {
        let k = choose|k: int|
            0 <= k < grown.len() && in_step(#[trigger] grown[k], step) && grown[k].key != key;
        if k < front.len() {
            assert(in_step(front[k], step) && front[k].key != key);
        }
    }
}

// ---------------------------------------------------------------------------
// The tally of a category
// ---------------------------------------------------------------------------

/// A step that is evidence for a category, and the category's tokens in it.
#[derive(Clone, Copy, Debug, PartialEq, Eq, Structural)]
pub struct StepEvidence {
    pub step: usize,
    pub tokens: i64,
}

/// What the steps of a window say of a category.
#[derive(Debug)]
pub struct CategoryTally {
    pub key: CategoryKey,
    pub current_tokens: i64,
    pub observed_sample_count: usize,
    pub valid_sample_count: usize,
    pub rejected_sample_count: usize,
    pub boundary_overlap_count: usize,
    pub candidate_tokens: i64,
    pub observed_tokens: i64,
    pub excluded_tokens: i64,
    pub ambiguous_boundary_tokens: i64,
    pub pre_observation_tokens: i64,
    pub pending_tokens: i64,
    pub evidence: Vec<StepEvidence>,
    pub reasons: Vec<Reason>,
}

/// What some steps say of a category.
#[verifier::ext_equal]
pub struct StepTally {
    pub observed_sample_count: int,
    pub valid_sample_count: int,
    pub rejected_sample_count: int,
    pub boundary_overlap_count: int,
    pub candidate_tokens: int,
    pub observed_tokens: int,
    pub excluded_tokens: int,
    pub ambiguous_boundary_tokens: int,
    pub evidence: Seq<StepEvidence>,
    pub reasons: Seq<Reason>,
}

pub open spec fn empty_tally() -> StepTally {
    StepTally {
        observed_sample_count: 0,
        valid_sample_count: 0,
        rejected_sample_count: 0,
        boundary_overlap_count: 0,
        candidate_tokens: 0,
        observed_tokens: 0,
        excluded_tokens: 0,
        ambiguous_boundary_tokens: 0,
        evidence: Seq::empty(),
        reasons: Seq::empty(),
    }
}

/// The tally with one more step. A step without any increase is a gap of the sources; one
/// that several categories share says nothing exact of any of them; and one that a single
/// category has is evidence as far as its tokens lie wholly within it.
pub open spec fn tally_with(tally: StepTally, look: StepLook, step: usize) -> StepTally {
    if !look.any {
        StepTally { reasons: with_reason(tally.reasons, Reason::SourceGap), ..tally }
    } else if !look.own {
        tally
    } else {
        let seen = StepTally {
            observed_sample_count: tally.observed_sample_count + 1,
            boundary_overlap_count: tally.boundary_overlap_count + if look.crossing {
                1int
            } else {
                0int
            },
            candidate_tokens: clamp_i64(tally.candidate_tokens + look.own_tokens),
            ambiguous_boundary_tokens: clamp_i64(
                tally.ambiguous_boundary_tokens + look.crossing_tokens,
            ),
            reasons: with_reason_if(
                with_reason_if(tally.reasons, look.crossing, Reason::BoundaryOverlap),
                look.crossing,
                Reason::BoundaryAmbiguity,
            ),
            ..tally
        };
        if look.other {
            StepTally {
                rejected_sample_count: seen.rejected_sample_count + 1,
                excluded_tokens: clamp_i64(seen.excluded_tokens + look.clear_tokens),
                reasons: with_reason(seen.reasons, Reason::MixedCategoryUnresolved),
                ..seen
            }
        } else if look.clear_tokens <= 0 {
            StepTally {
                rejected_sample_count: seen.rejected_sample_count + 1,
                reasons: with_reason_if(
                    seen.reasons,
                    !look.crossing,
                    Reason::InsufficientObservedTokens,
                ),
                ..seen
            }
        } else {
            StepTally {
                valid_sample_count: seen.valid_sample_count + 1,
                observed_tokens: clamp_i64(seen.observed_tokens + look.clear_tokens),
                evidence: seen.evidence.push(StepEvidence { step, tokens: look.clear_tokens }),
                ..seen
            }
        }
    }
}

/// The tally of the first `n` steps.
pub open spec fn tally_of(
    deltas: Seq<DeltaView>,
    steps: Seq<QuotaStep>,
    n: int,
    key: KeyView,
) -> StepTally
    decreases n,
{
    if n <= 0 {
        empty_tally()
    } else {
        tally_with(
            tally_of(deltas, steps, n - 1, key),
            step_look(deltas, steps[n - 1], key),
            (n - 1) as usize,
        )
    }
}

/// Which increases of a category lie outside what the steps observe.
pub open spec fn lies_outside(delta: DeltaView, key: KeyView, from: Option<i64>, to: Option<i64>) -> bool {
    &&& delta.key == key
    &&& from matches Some(from) ==> delta.sampled_at > from
    &&& to matches Some(to) ==> delta.sampled_at <= to
}

pub open spec fn outside_tokens(
    deltas: Seq<DeltaView>,
    key: KeyView,
    from: Option<i64>,
    to: Option<i64>,
) -> int
    decreases deltas.len(),
{
    if deltas.len() == 0 {
        0
    } else {
        let before = outside_tokens(deltas.drop_last(), key, from, to);
        if lies_outside(deltas.last(), key, from, to) {
            clamp_i64(before + max_int(deltas.last().delta_tokens, 0))
        } else {
            before
        }
    }
}

/// The quota was not observed before this.
pub open spec fn observation_horizon(steps: Seq<QuotaStep>, end: i64) -> i64 {
    if steps.len() == 0 {
        end
    } else {
        steps.first().start_at
    }
}

/// What was used after this has not moved the quota yet.
pub open spec fn pending_start(steps: Seq<QuotaStep>, start: i64) -> i64 {
    if steps.len() == 0 {
        start
    } else {
        steps.last().end_at
    }
}

/// A tally holds what the steps, and the time before and after them, say of its category.
pub open spec fn is_tally(
    tally: CategoryTally,
    deltas: Seq<DeltaView>,
    steps: Seq<QuotaStep>,
    start: i64,
    end: i64,
) -> bool {
    let key = tally.key@;
    let seen = tally_of(deltas, steps, steps.len() as int, key);
    &&& tally.steps_seen() == seen
    &&& tally.pre_observation_tokens == outside_tokens(
        deltas,
        key,
        None,
        Some(observation_horizon(steps, end)),
    )
    &&& tally.pending_tokens == outside_tokens(
        deltas,
        key,
        Some(pending_start(steps, start)),
        None,
    )
}

impl CategoryTally {
    pub open spec fn steps_seen(self) -> StepTally {
        StepTally {
            observed_sample_count: self.observed_sample_count as int,
            valid_sample_count: self.valid_sample_count as int,
            rejected_sample_count: self.rejected_sample_count as int,
            boundary_overlap_count: self.boundary_overlap_count as int,
            candidate_tokens: self.candidate_tokens as int,
            observed_tokens: self.observed_tokens as int,
            excluded_tokens: self.excluded_tokens as int,
            ambiguous_boundary_tokens: self.ambiguous_boundary_tokens as int,
            evidence: self.evidence@,
            reasons: self.reasons@,
        }
    }

    fn empty(key: &CategoryKey, current_tokens: i64) -> (r: CategoryTally)
        ensures
            r.key == *key,
            r.current_tokens == current_tokens,
            r.steps_seen() == empty_tally(),
            r.pre_observation_tokens == 0,
            r.pending_tokens == 0,
    {
        let r = CategoryTally {
            key: key.copy_key(),
            current_tokens,
            observed_sample_count: 0,
            valid_sample_count: 0,
            rejected_sample_count: 0,
            boundary_overlap_count: 0,
            candidate_tokens: 0,
            observed_tokens: 0,
            excluded_tokens: 0,
            ambiguous_boundary_tokens: 0,
            pre_observation_tokens: 0,
            pending_tokens: 0,
            evidence: Vec::new(),
            reasons: Vec::new(),
        };
        assert(r.steps_seen() =~= empty_tally());
        r
    }

    fn take_step(&mut self, look: StepLook, step: usize)
        requires
            old(self).observed_sample_count <= step,
            old(self).valid_sample_count <= step,
            old(self).rejected_sample_count <= step,
            old(self).boundary_overlap_count <= step,
            step < usize::MAX,
        ensures
            final(self).steps_seen() == tally_with(old(self).steps_seen(), look, step),
            final(self).key == old(self).key,
            final(self).current_tokens == old(self).current_tokens,
            final(self).pre_observation_tokens == old(self).pre_observation_tokens,
            final(self).pending_tokens == old(self).pending_tokens,
            final(self).observed_sample_count <= step + 1,
            final(self).valid_sample_count <= step + 1,
            final(self).rejected_sample_count <= step + 1,
            final(self).boundary_overlap_count <= step + 1,
    {
        if !look.any {
            add_rejection_reason(&mut self.reasons, Reason::SourceGap);
        } else if look.own {
            self.observed_sample_count += 1;
            self.candidate_tokens = saturating_add(self.candidate_tokens, look.own_tokens);
            self.ambiguous_boundary_tokens = saturating_add(
                self.ambiguous_boundary_tokens,
                look.crossing_tokens,
            );
            if look.crossing {
                self.boundary_overlap_count += 1;
                add_rejection_reason(&mut self.reasons, Reason::BoundaryOverlap);
                add_rejection_reason(&mut self.reasons, Reason::BoundaryAmbiguity);
            }
            if look.other {
                self.rejected_sample_count += 1;
                self.excluded_tokens = saturating_add(self.excluded_tokens, look.clear_tokens);
                add_rejection_reason(&mut self.reasons, Reason::MixedCategoryUnresolved);
            } else if look.clear_tokens <= 0 {
                self.rejected_sample_count += 1;
                if !look.crossing {
                    add_rejection_reason(&mut self.reasons, Reason::InsufficientObservedTokens);
                }
            } else {
                self.valid_sample_count += 1;
                self.observed_tokens = saturating_add(self.observed_tokens, look.clear_tokens);
                self.evidence.push(StepEvidence { step, tokens: look.clear_tokens });
            }
        }
        assert(self.steps_seen() =~= tally_with(old(self).steps_seen(), look, step));
    }
}

fn sum_outside(
    deltas: &Vec<TokenDelta>,
    key: &CategoryKey,
    from: Option<i64>,
    to: Option<i64>,
) -> (r: i64)
    ensures
        r == outside_tokens(delta_views(deltas@), key@, from, to),
{
    let ghost views = delta_views(deltas@);
    let mut sum: i64 = 0;
    let mut i: usize = 0;
    assert(views.take(0) =~= Seq::empty());
    while i < deltas.len()
        invariant
            i <= deltas.len(),
            views == delta_views(deltas@),
            sum == outside_tokens(views.take(i as int), key@, from, to),
        decreases deltas.len() - i,
    {
        proof {
            assert(views.take(i + 1).drop_last() =~= views.take(i as int));
            assert(views.take(i + 1).last() == deltas@[i as int]@);
        }
        let delta = &deltas[i];
        let after = match from {
            Some(from) => delta.sampled_at > from,
            None => true,
        };
        let before = match to {
            Some(to) => delta.sampled_at <= to,
            None => true,
        };
        if after && before && delta.key.same(key) {
            sum = saturating_add(sum, delta.delta_tokens.max(0));
        }
        i += 1;
    }
    assert(views.take(views.len() as int) =~= views);
    sum
}

/// Tallies what the steps of a window say of a category.
pub fn tally_category(
    deltas: &Vec<TokenDelta>,
    steps: &Vec<QuotaStep>,
    key: &CategoryKey,
    current_tokens: i64,
    start: i64,
    end: i64,
) -> (r: CategoryTally)
    ensures
        r.key == *key,
        r.current_tokens == current_tokens,
        is_tally(r, delta_views(deltas@), steps@, start, end),
{
    let mut tally = CategoryTally::empty(key, current_tokens);
    let mut i: usize = 0;
    while i < steps.len()
        invariant
            i <= steps.len(),
            tally.key == *key,
            tally.current_tokens == current_tokens,
            tally.steps_seen() == tally_of(delta_views(deltas@), steps@, i as int, key@),
            tally.observed_sample_count <= i,
            tally.valid_sample_count <= i,
            tally.rejected_sample_count <= i,
            tally.boundary_overlap_count <= i,
        decreases steps.len() - i,
    {
        let look = look_at_step(deltas, steps[i], key);
        tally.take_step(look, i);
        i += 1;
    }
    let horizon: i64 = if steps.len() == 0 {
        end
    } else {
        steps[0].start_at
    };
    let pending: i64 = if steps.len() == 0 {
        start
    } else {
        steps[steps.len() - 1].end_at
    };
    let ghost seen = tally.steps_seen();
    tally.pre_observation_tokens = sum_outside(deltas, key, None, Some(horizon));
    tally.pending_tokens = sum_outside(deltas, key, Some(pending), None);
    assert(tally.steps_seen() =~= seen);
    tally
}

// ---------------------------------------------------------------------------
// The estimate
// ---------------------------------------------------------------------------

pub const MIN_VALID_SAMPLES: usize = 5;

pub const MIN_OBSERVED_TOKENS: i64 = 1_000;

/// Why an account's data holds every estimate back.
pub open spec fn health_blocker(status: Option<DataHealth>) -> Option<Reason> {
    match status {
        Some(DataHealth::Verified) => None,
        Some(DataHealth::Rebuilding) => Some(Reason::AccountDataRebuilding),
        Some(DataHealth::AccountingInconsistent) => Some(Reason::AccountingInconsistent),
        Some(DataHealth::SourceIncomplete) => Some(Reason::SourceIncomplete),
        _ => Some(Reason::LegacyUnverified),
    }
}

pub fn account_health_blocker(status: Option<DataHealth>) -> (r: Option<Reason>)
    ensures
        r == health_blocker(status),
{
    match status {
        Some(DataHealth::Verified) => None,
        Some(DataHealth::Rebuilding) => Some(Reason::AccountDataRebuilding),
        Some(DataHealth::AccountingInconsistent) => Some(Reason::AccountingInconsistent),
        Some(DataHealth::SourceIncomplete) => Some(Reason::SourceIncomplete),
        _ => Some(Reason::LegacyUnverified),
    }
}

/// What the rates of a category's evidence were found to say.
#[derive(Clone, Copy, Debug, PartialEq, Eq, Structural)]
pub struct RateFindings {
    /// What a whole week would use at the weighted median rate.
    pub full_week_tokens: i64,
    /// What of that the rest of the quota stands for.
    pub remaining_tokens: i64,
    /// The evidence spans less of the quota than is asked for.
    pub quota_span_short: bool,
    /// More was used than the share of the quota that is gone stands for.
    pub exceeds_used_share: bool,
    /// The rates lie further apart than is allowed.
    pub dispersed: bool,
    /// The rates lie close together.
    pub tight: bool,
}

/// The tokens that the steps had a chance to observe, before what they could not use.
pub open spec fn raw_eligible(tally: CategoryTally) -> int {
    max_int(tally.current_tokens as int, 0) - tally.pre_observation_tokens - tally.pending_tokens
}

pub open spec fn eligible(tally: CategoryTally) -> int {
    max_int(
        raw_eligible(tally) - tally.excluded_tokens - tally.ambiguous_boundary_tokens,
        0,
    )
}

/// What was observed is less than three fifths of what could have been.
pub open spec fn coverage_is_low(observed: int, eligible: int) -> bool {
    if eligible > 0 {
        5 * observed < 3 * eligible
    } else {
        observed <= 0
    }
}

/// Not all that could have been was observed.
pub open spec fn coverage_is_partial(observed: int, eligible: int) -> bool {
    if eligible > 0 {
        observed < eligible
    } else {
        observed <= 0
    }
}

/// What was observed is at least seventeen twentieths of what could have been.
pub open spec fn coverage_is_strong(observed: int, eligible: int) -> bool {
    if eligible > 0 {
        20 * observed >= 17 * eligible
    } else {
        observed > 0
    }
}

/// The counts contradict each other.
pub open spec fn inconsistent(tally: CategoryTally) -> bool {
    let total = max_int(tally.current_tokens as int, 0);
    let accounted = clamp_i64(
        clamp_i64(tally.observed_tokens + tally.ambiguous_boundary_tokens) + tally.excluded_tokens,
    );
    ||| raw_eligible(tally) < 0
    ||| tally.observed_tokens > eligible(tally)
    ||| eligible(tally) > total
    ||| tally.candidate_tokens > raw_eligible(tally)
    ||| accounted != tally.candidate_tokens
}

/// All the reasons that stand against an estimate, in the order in which they were found.
pub open spec fn all_reasons(
    tally: CategoryTally,
    blocker: Option<Reason>,
    findings: RateFindings,
) -> Seq<Reason> {
    let current = max_int(tally.current_tokens as int, 0);
    let observed = tally.observed_tokens as int;
    let left = eligible(tally);
    let r = tally.reasons@;
    let r = match blocker {
        Some(reason) => with_reason(r, reason),
        None => r,
    };
    let r = with_reason_if(r, inconsistent(tally), Reason::AccountingInconsistent);
    let r = with_reason_if(
        r,
        tally.valid_sample_count < MIN_VALID_SAMPLES,
        Reason::InsufficientSamples,
    );
    let r = with_reason_if(
        r,
        observed < MIN_OBSERVED_TOKENS,
        Reason::InsufficientObservedTokens,
    );
    let r = with_reason_if(r, findings.quota_span_short, Reason::InsufficientQuotaSpan);
    let r = with_reason_if(r, coverage_is_low(observed, left), Reason::InsufficientCoverage);
    let r = with_reason_if(r, current > 0 && left <= 0, Reason::InsufficientEligibleTokens);
    let r = with_reason_if(
        r,
        findings.full_week_tokens < current || findings.exceeds_used_share,
        Reason::SanityCheckFailed,
    );
    let r = with_reason_if(r, findings.dispersed, Reason::ExcessiveDispersion);
    let r = with_reason_if(r, tally.pending_tokens > 0, Reason::PendingTokens);
    with_reason_if(
        r,
        tally.pre_observation_tokens > 0 || coverage_is_partial(observed, left),
        Reason::ExternalUsageRisk,
    )
}

/// What is said of a category's week.
#[derive(Debug)]
pub struct CategoryEstimate {
    pub tally: CategoryTally,
    /// What a whole week would use, and what of it is left, where both can be told.
    pub estimate: Option<(i64, i64)>,
    pub total_category_tokens: i64,
    pub eligible_tokens: i64,
    pub hard_blockers: Vec<Reason>,
    pub warnings: Vec<Reason>,
    pub rejection_reasons: Vec<Reason>,
    pub external_usage_risk: bool,
    pub confidence: Confidence,
}

/// The estimate is what the reasons allow.
pub open spec fn is_estimate(
    r: CategoryEstimate,
    reasons: Seq<Reason>,
    findings: Option<RateFindings>,
) -> bool {
    let hard = reasons_that(reasons, false);
    &&& r.tally.reasons@ == reasons
    &&& r.hard_blockers@ == hard
    &&& r.warnings@ == reasons_that(reasons, true)
    &&& r.rejection_reasons@ == hard + reasons_that(reasons, true)
    &&& r.total_category_tokens == max_int(r.tally.current_tokens as int, 0)
    &&& r.eligible_tokens == eligible(r.tally)
    &&& r.external_usage_risk == (r.tally.pre_observation_tokens > 0 || r.tally.pending_tokens > 0)
    &&& match findings {
        Some(findings) => if hard.len() == 0 {
            &&& r.estimate == Some((findings.full_week_tokens, findings.remaining_tokens))
            &&& r.confidence == if coverage_is_strong(
                r.tally.observed_tokens as int,
                eligible(r.tally),
            ) && findings.tight {
                Confidence::High
            } else {
                Confidence::Medium
            }
        } else {
            r.estimate is None && r.confidence == Confidence::Low
        },
        None => r.estimate is None && r.confidence == Confidence::Low,
    }
}

/// The tally is the same apart from its reasons.
pub open spec fn same_counts(a: CategoryTally, b: CategoryTally) -> bool {
    &&& a.key == b.key
    &&& a.current_tokens == b.current_tokens
    &&& a.pre_observation_tokens == b.pre_observation_tokens
    &&& a.pending_tokens == b.pending_tokens
    &&& (StepTally { reasons: b.reasons@, ..a.steps_seen() }) == b.steps_seen()
}

/// No count of a tally is negative.
pub open spec fn counts_nonnegative(tally: CategoryTally) -> bool {
    &&& tally.candidate_tokens >= 0
    &&& tally.observed_tokens >= 0
    &&& tally.excluded_tokens >= 0
    &&& tally.ambiguous_boundary_tokens >= 0
    &&& tally.pre_observation_tokens >= 0
    &&& tally.pending_tokens >= 0
}

/// The estimate of a category without a quota window to hold it against.
pub fn estimate_without_window(key: &CategoryKey, current_tokens: i64) -> (r: CategoryEstimate)
    ensures
        r.tally.key == *key,
        r.tally.current_tokens == current_tokens,
        r.tally.steps_seen() == (StepTally {
            reasons: seq![Reason::QuotaWindowMissing],
            ..empty_tally()
        }),
        is_estimate(r, seq![Reason::QuotaWindowMissing], None),
{
    let mut tally = CategoryTally::empty(key, current_tokens);
    add_rejection_reason(&mut tally.reasons, Reason::QuotaWindowMissing);
    assert(tally.reasons@ =~= seq![Reason::QuotaWindowMissing]);
    let hard_blockers = select_reasons(&tally.reasons, false);
    let warnings = select_reasons(&tally.reasons, true);
    let rejection_reasons = diagnostic_reasons(&tally.reasons);
    CategoryEstimate {
        total_category_tokens: tally.current_tokens.max(0),
        eligible_tokens: tally.current_tokens.max(0),
        tally,
        estimate: None,
        hard_blockers,
        warnings,
        rejection_reasons,
        external_usage_risk: false,
        confidence: Confidence::Low,
    }
}

/// What the counts of a tally come to.
struct CountLook {
    current: i64,
    eligible: i64,
    inconsistent: bool,
    low: bool,
    partial: bool,
    strong: bool,
}

fn look_at_counts(tally: &CategoryTally) -> (r: CountLook)
    requires
        counts_nonnegative(*tally),
    ensures
        r.current == max_int(tally.current_tokens as int, 0),
        r.eligible == eligible(*tally),
        r.inconsistent == inconsistent(*tally),
        r.low == coverage_is_low(tally.observed_tokens as int, eligible(*tally)),
        r.partial == coverage_is_partial(tally.observed_tokens as int, eligible(*tally)),
        r.strong == coverage_is_strong(tally.observed_tokens as int, eligible(*tally)),
{
    let current: i64 = tally.current_tokens.max(0);
    let observed: i64 = tally.observed_tokens;
    let raw: i128 = current as i128 - tally.pre_observation_tokens as i128
        - tally.pending_tokens as i128;
    let left: i128 = raw - tally.excluded_tokens as i128 - tally.ambiguous_boundary_tokens as i128;
    let left: i64 = if left > 0 {
        left as i64
    } else {
        0
    };
    let accounted: i64 = saturating_add(
        saturating_add(tally.observed_tokens, tally.ambiguous_boundary_tokens),
        tally.excluded_tokens,
    );
    CountLook {
        current,
        eligible: left,
        inconsistent: raw < 0 || observed > left || left > current || tally.candidate_tokens as i128
            > raw || accounted != tally.candidate_tokens,
        low: if left > 0 {
            5 * (observed as i128) < 3 * (left as i128)
        } else {
            observed <= 0
        },
        partial: if left > 0 {
            observed < left
        } else {
            observed <= 0
        },
        strong: if left > 0 {
            20 * (observed as i128) >= 17 * (left as i128)
        } else {
            observed > 0
        },
    }
}

/// The estimate of a category, where nothing holds it back.
pub fn assess_category(
    tally: CategoryTally,
    blocker: Option<Reason>,
    findings: RateFindings,
) -> (r: CategoryEstimate)
    requires
        counts_nonnegative(tally),
    ensures
        same_counts(tally, r.tally),
        is_estimate(r, all_reasons(tally, blocker, findings), Some(findings)),
{
    let ghost start = tally;
    let mut tally = tally;
    let look = look_at_counts(&tally);
    let over = findings.full_week_tokens < look.current || findings.exceeds_used_share;
    let few = tally.valid_sample_count < MIN_VALID_SAMPLES;
    let small = tally.observed_tokens < MIN_OBSERVED_TOKENS;
    let pending = tally.pending_tokens > 0;
    let risk = tally.pre_observation_tokens > 0 || look.partial;
    if let Some(reason) = blocker {
        add_rejection_reason(&mut tally.reasons, reason);
    }
    let reasons = &mut tally.reasons;
    add_reason_if(reasons, look.inconsistent, Reason::AccountingInconsistent);
    add_reason_if(reasons, few, Reason::InsufficientSamples);
    add_reason_if(reasons, small, Reason::InsufficientObservedTokens);
    add_reason_if(reasons, findings.quota_span_short, Reason::InsufficientQuotaSpan);
    add_reason_if(reasons, look.low, Reason::InsufficientCoverage);
    add_reason_if(
        reasons,
        look.current > 0 && look.eligible <= 0,
        Reason::InsufficientEligibleTokens,
    );
    add_reason_if(reasons, over, Reason::SanityCheckFailed);
    add_reason_if(reasons, findings.dispersed, Reason::ExcessiveDispersion);
    add_reason_if(reasons, pending, Reason::PendingTokens);
    add_reason_if(reasons, risk, Reason::ExternalUsageRisk);
    assert(tally.reasons@ == all_reasons(start, blocker, findings));
    assert((StepTally { reasons: tally.reasons@, ..start.steps_seen() }) =~= tally.steps_seen());
    let hard_blockers = select_reasons(&tally.reasons, false);
    let warnings = select_reasons(&tally.reasons, true);
    let rejection_reasons = diagnostic_reasons(&tally.reasons);
    let clear = hard_blockers.len() == 0;
    let external_usage_risk = tally.pre_observation_tokens > 0 || tally.pending_tokens > 0;
    CategoryEstimate {
        tally,
        estimate: if clear {
            Some((findings.full_week_tokens, findings.remaining_tokens))
        } else {
            None
        },
        total_category_tokens: look.current,
        eligible_tokens: look.eligible,
        hard_blockers,
        warnings,
        rejection_reasons,
        external_usage_risk,
        confidence: if !clear {
            Confidence::Low
        } else if look.strong && findings.tight {
            Confidence::High
        } else {
            Confidence::Medium
        },
    }
}

proof fn lemma_share_nonnegative(
    deltas: Seq<DeltaView>,
    step: QuotaStep,
    key: KeyView,
    share: Share,
)
    ensures
        0 <= share_tokens(deltas, step, key, share) <= i64::MAX,
    decreases deltas.len(),
{
    if deltas.len() > 0 {
        lemma_share_nonnegative(deltas.drop_last(), step, key, share);
    }
}

/// The category's tokens of a step either lie wholly within it or cross its start.
proof fn lemma_shares_add_up(deltas: Seq<DeltaView>, step: QuotaStep, key: KeyView)
    requires
        share_tokens(deltas, step, key, Share::Own) < i64::MAX,
    ensures
        share_tokens(deltas, step, key, Share::Own) == share_tokens(
            deltas,
            step,
            key,
            Share::Crossing,
        ) + share_tokens(deltas, step, key, Share::Clear),
    decreases deltas.len(),
{
    if deltas.len() > 0 {
        lemma_share_nonnegative(deltas.drop_last(), step, key, Share::Own);
        lemma_share_nonnegative(deltas.drop_last(), step, key, Share::Crossing);
        lemma_share_nonnegative(deltas.drop_last(), step, key, Share::Clear);
        lemma_shares_add_up(deltas.drop_last(), step, key);
    }
}

pub open spec fn tally_nonnegative(tally: StepTally) -> bool {
    &&& 0 <= tally.candidate_tokens <= i64::MAX
    &&& 0 <= tally.observed_tokens <= i64::MAX
    &&& 0 <= tally.excluded_tokens <= i64::MAX
    &&& 0 <= tally.ambiguous_boundary_tokens <= i64::MAX
}

/// No count of a tally is negative.
pub proof fn lemma_tally_nonnegative(
    deltas: Seq<DeltaView>,
    steps: Seq<QuotaStep>,
    n: int,
    key: KeyView,
)
    ensures
        tally_nonnegative(tally_of(deltas, steps, n, key)),
    decreases n,
{
    if n > 0 {
        lemma_tally_nonnegative(deltas, steps, n - 1, key);
        lemma_share_nonnegative(deltas, steps[n - 1], key, Share::Own);
        lemma_share_nonnegative(deltas, steps[n - 1], key, Share::Crossing);
        lemma_share_nonnegative(deltas, steps[n - 1], key, Share::Clear);
    }
}

/// Every token of a category that falls into a step is accounted for once: as observed, as
/// ambiguous at the step's start, or as excluded because the step was shared.
pub proof fn lemma_step_tokens_are_accounted(
    deltas: Seq<DeltaView>,
    steps: Seq<QuotaStep>,
    n: int,
    key: KeyView,
)
    requires
        tally_of(deltas, steps, n, key).candidate_tokens < i64::MAX,
    ensures
        ({
            let tally = tally_of(deltas, steps, n, key);
            tally.observed_tokens + tally.ambiguous_boundary_tokens + tally.excluded_tokens
                == tally.candidate_tokens
        }),
    decreases n,
{
    if n > 0 {
        let step = steps[n - 1];
        lemma_tally_nonnegative(deltas, steps, n - 1, key);
        lemma_share_nonnegative(deltas, step, key, Share::Own);
        lemma_share_nonnegative(deltas, step, key, Share::Crossing);
        lemma_share_nonnegative(deltas, step, key, Share::Clear);
        let before = tally_of(deltas, steps, n - 1, key);
        let look = step_look(deltas, step, key);
        if look.any && look.own {
            lemma_shares_add_up(deltas, step, key);
        }
        lemma_step_tokens_are_accounted(deltas, steps, n - 1, key);
    }
}

/// A category's evidence never reaches across categories: a step that another category
/// shares adds nothing to what was observed.
pub proof fn lemma_shared_step_is_no_evidence(tally: StepTally, look: StepLook, step: usize)
    requires
        look.any,
        look.own,
        look.other,
    ensures
        tally_with(tally, look, step).observed_tokens == tally.observed_tokens,
        tally_with(tally, look, step).valid_sample_count == tally.valid_sample_count,
        tally_with(tally, look, step).evidence == tally.evidence,
        tally_with(tally, look, step).reasons.contains(Reason::MixedCategoryUnresolved),
{
    let seen = with_reason_if(
        with_reason_if(tally.reasons, look.crossing, Reason::BoundaryOverlap),
        look.crossing,
        Reason::BoundaryAmbiguity,
    );
    lemma_with_reason(seen, Reason::MixedCategoryUnresolved, Reason::MixedCategoryUnresolved);
}

proof fn lemma_with_reason(reasons: Seq<Reason>, reason: Reason, other: Reason)
    ensures
        with_reason(reasons, reason).contains(reason),
        reasons.contains(other) ==> with_reason(reasons, reason).contains(other),
{
    let grown = with_reason(reasons, reason);
    if !reasons.contains(reason) {
        assert(grown[reasons.len() as int] == reason);
        if reasons.contains(other) {
            let k = choose|k: int| 0 <= k < reasons.len() && reasons[k] == other;
            assert(grown[k] == other);
        }
    }
}

proof fn lemma_with_reason_if(reasons: Seq<Reason>, holds: bool, reason: Reason)
    ensures
        holds ==> with_reason_if(reasons, holds, reason).contains(reason),
        forall|other: Reason|
            reasons.contains(other) ==> #[trigger] with_reason_if(
                reasons,
                holds,
                reason,
            ).contains(other),
{
    if holds {
        lemma_with_reason(reasons, reason, reason);
        assert forall|other: Reason| reasons.contains(other) implies #[trigger] with_reason_if(
            reasons,
            holds,
            reason,
        ).contains(other) by {
            lemma_with_reason(reasons, reason, other);
        }
    }
}

/// Where nothing holds back, every reason only calls for care.
proof fn lemma_no_blockers(reasons: Seq<Reason>)
    requires
        reasons_that(reasons, false).len() == 0,
    ensures
        forall|reason: Reason| #[trigger] reasons.contains(reason) ==> reason.warns(),
    decreases reasons.len(),
{
    if reasons.len() > 0 {
        let before = reasons_that(reasons.drop_last(), false);
        assert(before.len() == 0 && reasons.last().warns());
        lemma_no_blockers(reasons.drop_last());
        assert forall|reason: Reason| #[trigger] reasons.contains(reason) implies reason.warns() by {
            let k = choose|k: int| 0 <= k < reasons.len() && reasons[k] == reason;
            if k < reasons.len() - 1 {
                assert(reasons.drop_last()[k] == reason);
                assert(reasons.drop_last().contains(reason));
            } else {
                assert(reasons.last() == reason);
            }
        }
    }
}

/// An estimate is given only of an account whose data was verified, from at least five steps
/// and a thousand tokens of the category alone, whose counts agree, that cover at least three
/// fifths of what could have been observed.
pub proof fn lemma_estimate_is_backed(
    tally: CategoryTally,
    status: Option<DataHealth>,
    findings: RateFindings,
    r: CategoryEstimate,
)
    requires
        is_estimate(r, all_reasons(tally, health_blocker(status), findings), Some(findings)),
        r.estimate is Some,
    ensures
        status == Some(DataHealth::Verified),
        !inconsistent(tally),
        tally.valid_sample_count >= MIN_VALID_SAMPLES,
        tally.observed_tokens >= MIN_OBSERVED_TOKENS,
        !coverage_is_low(tally.observed_tokens as int, eligible(tally)),
        !findings.quota_span_short,
        !findings.dispersed,
        findings.full_week_tokens >= max_int(tally.current_tokens as int, 0),
        !findings.exceeds_used_share,
{
    let blocker = health_blocker(status);
    let current = max_int(tally.current_tokens as int, 0);
    let observed = tally.observed_tokens as int;
    let left = eligible(tally);
    let r0 = tally.reasons@;
    let r1 = match blocker {
        Some(reason) => with_reason(r0, reason),
        None => r0,
    };
    match blocker {
        Some(reason) => lemma_with_reason(r0, reason, reason),
        None => {},
    }
    let c2 = inconsistent(tally);
    let r2 = with_reason_if(r1, c2, Reason::AccountingInconsistent);
    lemma_with_reason_if(r1, c2, Reason::AccountingInconsistent);
    let c3 = tally.valid_sample_count < MIN_VALID_SAMPLES;
    let r3 = with_reason_if(r2, c3, Reason::InsufficientSamples);
    lemma_with_reason_if(r2, c3, Reason::InsufficientSamples);
    let c4 = observed < MIN_OBSERVED_TOKENS;
    let r4 = with_reason_if(r3, c4, Reason::InsufficientObservedTokens);
    lemma_with_reason_if(r3, c4, Reason::InsufficientObservedTokens);
    let c5 = findings.quota_span_short;
    let r5 = with_reason_if(r4, c5, Reason::InsufficientQuotaSpan);
    lemma_with_reason_if(r4, c5, Reason::InsufficientQuotaSpan);
    let c6 = coverage_is_low(observed, left);
    let r6 = with_reason_if(r5, c6, Reason::InsufficientCoverage);
    lemma_with_reason_if(r5, c6, Reason::InsufficientCoverage);
    let c7 = current > 0 && left <= 0;
    let r7 = with_reason_if(r6, c7, Reason::InsufficientEligibleTokens);
    lemma_with_reason_if(r6, c7, Reason::InsufficientEligibleTokens);
    let c8 = findings.full_week_tokens < current || findings.exceeds_used_share;
    let r8 = with_reason_if(r7, c8, Reason::SanityCheckFailed);
    lemma_with_reason_if(r7, c8, Reason::SanityCheckFailed);
    let c9 = findings.dispersed;
    let r9 = with_reason_if(r8, c9, Reason::ExcessiveDispersion);
    lemma_with_reason_if(r8, c9, Reason::ExcessiveDispersion);
    let c10 = tally.pending_tokens > 0;
    let r10 = with_reason_if(r9, c10, Reason::PendingTokens);
    lemma_with_reason_if(r9, c10, Reason::PendingTokens);
    let c11 = tally.pre_observation_tokens > 0 || coverage_is_partial(observed, left);
    let r11 = with_reason_if(r10, c11, Reason::ExternalUsageRisk);
    lemma_with_reason_if(r10, c11, Reason::ExternalUsageRisk);
    assert(r11 == all_reasons(tally, blocker, findings));
    lemma_no_blockers(r11);
    assert(!r11.contains(Reason::AccountingInconsistent));
    assert(!r11.contains(Reason::InsufficientSamples));
    assert(!r11.contains(Reason::InsufficientObservedTokens));
    assert(!r11.contains(Reason::InsufficientQuotaSpan));
    assert(!r11.contains(Reason::InsufficientCoverage));
    assert(!r11.contains(Reason::SanityCheckFailed));
    assert(!r11.contains(Reason::ExcessiveDispersion));
    match blocker {
        Some(reason) => {
            assert(r11.contains(reason));
            assert(!reason.warns());
        },
        None => {},
    }
}

// ---------------------------------------------------------------------------
// All categories of a window
// ---------------------------------------------------------------------------

/// Tallies what the steps of the window say of each category.
pub fn tally_categories(
    events: &Vec<TimelineEvent>,
    steps: &Vec<QuotaStep>,
    categories: &Vec<LocalCategory>,
    start: i64,
    end: i64,
) -> (r: Vec<CategoryTally>)
    ensures
        r@.len() == categories@.len(),
        forall|k: int|
            0 <= k < r@.len() ==> {
                &&& (#[trigger] r@[k]).key == categories@[k].key
                &&& r@[k].current_tokens == categories@[k].tokens
                &&& is_tally(
                    r@[k],
                    deltas_of(
                        event_views(events@),
                        events@.len() as int,
                        start as int,
                        end as int,
                    ),
                    steps@,
                    start,
                    end,
                )
                &&& counts_nonnegative(r@[k])
            },
{
    let deltas = timeline_token_samples(events, start, end);
    let ghost views = delta_views(deltas@);
    let mut r: Vec<CategoryTally> = Vec::new();
    let mut k: usize = 0;
    while k < categories.len()
        invariant
            k <= categories.len(),
            r@.len() == k,
            views == delta_views(deltas@),
            forall|j: int|
                0 <= j < k ==> {
                    &&& (#[trigger] r@[j]).key == categories@[j].key
                    &&& r@[j].current_tokens == categories@[j].tokens
                    &&& is_tally(r@[j], views, steps@, start, end)
                    &&& counts_nonnegative(r@[j])
                },
        decreases categories.len() - k,
    {
        let tally = tally_category(
            &deltas,
            steps,
            &categories[k].key,
            categories[k].tokens,
            start,
            end,
        );
        proof {
            lemma_tally_is_nonnegative(tally, views, steps@, start, end);
        }
        r.push(tally);
        k += 1;
    }
    r
}

proof fn lemma_outside_nonnegative(
    deltas: Seq<DeltaView>,
    key: KeyView,
    from: Option<i64>,
    to: Option<i64>,
)
    ensures
        0 <= outside_tokens(deltas, key, from, to) <= i64::MAX,
    decreases deltas.len(),
{
    if deltas.len() > 0 {
        lemma_outside_nonnegative(deltas.drop_last(), key, from, to);
    }
}

proof fn lemma_tally_is_nonnegative(
    tally: CategoryTally,
    deltas: Seq<DeltaView>,
    steps: Seq<QuotaStep>,
    start: i64,
    end: i64,
)
    requires
        is_tally(tally, deltas, steps, start, end),
    ensures
        counts_nonnegative(tally),
{
    let key = tally.key@;
    lemma_tally_nonnegative(deltas, steps, steps.len() as int, key);
    lemma_outside_nonnegative(deltas, key, None, Some(observation_horizon(steps, end)));
    lemma_outside_nonnegative(deltas, key, Some(pending_start(steps, start)), None);
    assert(tally.steps_seen().candidate_tokens == tally.candidate_tokens);
    assert(tally.steps_seen().observed_tokens == tally.observed_tokens);
    assert(tally.steps_seen().excluded_tokens == tally.excluded_tokens);
    assert(tally.steps_seen().ambiguous_boundary_tokens == tally.ambiguous_boundary_tokens);
}

/// The estimates of the categories of a week. Without a quota window there are none, and
/// each category says so; with one, each tally is held to its findings.
pub fn estimate_weekly_categories(
    tallies: Vec<CategoryTally>,
    findings: &Vec<RateFindings>,
    health: Option<DataHealth>,
) -> (r: Vec<CategoryEstimate>)
    requires
        tallies@.len() == findings@.len(),
        forall|k: int| 0 <= k < tallies@.len() ==> counts_nonnegative(#[trigger] tallies@[k]),
    ensures
        r@.len() == tallies@.len(),
        forall|k: int|
            0 <= k < r@.len() ==> {
                &&& same_counts(tallies@[k], (#[trigger] r@[k]).tally)
                &&& is_estimate(
                    r@[k],
                    all_reasons(tallies@[k], health_blocker(health), findings@[k]),
                    Some(findings@[k]),
                )
            },
{
    let blocker = account_health_blocker(health);
    let ghost all = tallies@;
    let count: usize = findings.len();
    let mut r: Vec<CategoryEstimate> = Vec::new();
    let mut i: usize = 0;
    for tally in iter: tallies
        invariant
            iter.seq() == all,
            i == iter.index(),
            count == findings@.len(),
            all.len() == findings@.len(),
            blocker == health_blocker(health),
            r@.len() == i,
            forall|k: int| 0 <= k < all.len() ==> counts_nonnegative(#[trigger] all[k]),
            forall|k: int|
                0 <= k < i ==> {
                    &&& same_counts(all[k], (#[trigger] r@[k]).tally)
                    &&& is_estimate(
                        r@[k],
                        all_reasons(all[k], health_blocker(health), findings@[k]),
                        Some(findings@[k]),
                    )
                },
    {
        assert(counts_nonnegative(all[i as int]));
        r.push(assess_category(tally, blocker, findings[i]));
        i += 1;
    }
    r
}

impl Ranked for QuotaStep {
    open spec fn behind(self, other: QuotaStep) -> bool {
        self.end_at > other.end_at
    }

    fn goes_behind(&self, other: &QuotaStep) -> (r: bool) {
        self.end_at > other.end_at
    }

    proof fn behind_is_order(a: QuotaStep, b: QuotaStep, c: QuotaStep) {
    }
}

/// How many minutes a week's quota lasts.
pub const WEEK_MINS: i64 = 10_080;

/// The steps of a weekly bucket that lie wholly within a window, in the order in which they
/// were recorded.
pub open spec fn steps_within(
    intervals: Seq<QuotaInterval>,
    start: int,
    end: int,
) -> Seq<QuotaStep>
    decreases intervals.len(),
{
    if intervals.len() == 0 {
        Seq::empty()
    } else {
        let before = steps_within(intervals.drop_last(), start, end);
        let last = intervals.last();
        if last.window_duration_mins == WEEK_MINS && last.start_at >= start && last.end_at <= end {
            before.push(
                QuotaStep {
                    start_at: last.start_at,
                    end_at: last.end_at,
                    start_percent: last.start_percent,
                    end_percent: last.end_percent,
                },
            )
        } else {
            before
        }
    }
}

/// The steps of a weekly bucket that lie wholly within a window, by when they ended.
pub fn quota_steps(intervals: &Vec<QuotaInterval>, start: i64, end: i64) -> (r: Vec<QuotaStep>)
    ensures
        r@ == sorted(steps_within(intervals@, start as int, end as int)),
{
    let mut steps: Vec<QuotaStep> = Vec::new();
    let mut i: usize = 0;
    assert(intervals@.take(0) =~= Seq::empty());
    while i < intervals.len()
        invariant
            i <= intervals.len(),
            steps@ == steps_within(intervals@.take(i as int), start as int, end as int),
        decreases intervals.len() - i,
    {
        proof {
            assert(intervals@.take(i + 1).drop_last() =~= intervals@.take(i as int));
            assert(intervals@.take(i + 1).last() == intervals@[i as int]);
        }
        let row = &intervals[i];
        if row.window_duration_mins == WEEK_MINS && row.start_at >= start && row.end_at <= end {
            steps.push(
                QuotaStep {
                    start_at: row.start_at,
                    end_at: row.end_at,
                    start_percent: row.start_percent,
                    end_percent: row.end_percent,
                },
            );
        }
        i += 1;
    }
    assert(intervals@.take(intervals@.len() as int) =~= intervals@);
    sort_rows(steps)
}

// ---------------------------------------------------------------------------
// What the tally holds
// ---------------------------------------------------------------------------

/// The tokens of the increases that are picked, however many they are.
pub open spec fn tokens_where(deltas: Seq<DeltaView>, pick: spec_fn(DeltaView) -> bool) -> int
    decreases deltas.len(),
{
    if deltas.len() == 0 {
        0
    } else {
        let last = deltas.last();
        tokens_where(deltas.drop_last(), pick) + if pick(last) && last.delta_tokens > 0 {
            last.delta_tokens
        } else {
            0
        }
    }
}

/// The increases of a category in a step whose turn was not last seen before the step began.
pub open spec fn lies_within(step: QuotaStep, key: KeyView) -> spec_fn(DeltaView) -> bool {
    |delta: DeltaView|
        {
            &&& delta.key == key
            &&& step.start_at < delta.sampled_at
            &&& delta.sampled_at <= step.end_at
            &&& match delta.previous_sampled_at {
                Some(seen_at) => seen_at >= step.start_at,
                None => true,
            }
        }
}

/// The increases of a category in a step.
pub open spec fn falls_into(step: QuotaStep, key: KeyView) -> spec_fn(DeltaView) -> bool {
    |delta: DeltaView|
        delta.key == key && step.start_at < delta.sampled_at && delta.sampled_at <= step.end_at
}

/// The increases of a category in a stretch of time, each end of which may be open.
pub open spec fn falls_between(
    key: KeyView,
    from: Option<i64>,
    to: Option<i64>,
) -> spec_fn(DeltaView) -> bool {
    |delta: DeltaView|
        {
            &&& delta.key == key
            &&& match from {
                Some(from) => from < delta.sampled_at,
                None => true,
            }
            &&& match to {
                Some(to) => delta.sampled_at <= to,
                None => true,
            }
        }
}

/// Some increase of another category lies in the step.
pub open spec fn is_shared(deltas: Seq<DeltaView>, step: QuotaStep, key: KeyView) -> bool {
    exists|i: int|
        {
            &&& 0 <= i < deltas.len()
            &&& (#[trigger] deltas[i]).key != key
            &&& step.start_at < deltas[i].sampled_at
            &&& deltas[i].sampled_at <= step.end_at
        }
}

proof fn lemma_tokens_where_nonnegative(deltas: Seq<DeltaView>, pick: spec_fn(DeltaView) -> bool)
    ensures
        tokens_where(deltas, pick) >= 0,
    decreases deltas.len(),
{
    if deltas.len() > 0 {
        lemma_tokens_where_nonnegative(deltas.drop_last(), pick);
    }
}

/// What a step is found to hold of a category is the sum of the category's increases in it,
/// as far as it can be counted; clear is what lies within, and what is not clear crosses.
pub proof fn lemma_step_look_adds_up(deltas: Seq<DeltaView>, step: QuotaStep, key: KeyView)
    ensures
        ({
            let look = step_look(deltas, step, key);
            let own = tokens_where(deltas, falls_into(step, key));
            let clear = tokens_where(deltas, lies_within(step, key));
            &&& look.own_tokens == min_int(own, i64::MAX as int)
            &&& look.clear_tokens == min_int(clear, i64::MAX as int)
            &&& look.crossing_tokens == min_int(own - clear, i64::MAX as int)
            &&& 0 <= clear <= own
            &&& look.other == is_shared(deltas, step, key)
            &&& clear > 0 ==> look.any && look.own
        }),
{
    lemma_shares_are_sums(deltas, step, key);
    lemma_other_is_shared(deltas, step, key);
    if tokens_where(deltas, lies_within(step, key)) > 0 {
        let i = lemma_tokens_come_from_one(deltas, lies_within(step, key));
        assert(shares(deltas[i], step, key, Share::Own));
        assert(in_step(deltas[i], step));
    }
}

proof fn lemma_tokens_come_from_one(
    deltas: Seq<DeltaView>,
    pick: spec_fn(DeltaView) -> bool,
) -> (at: int)
    requires
        tokens_where(deltas, pick) > 0,
    ensures
        0 <= at < deltas.len(),
        pick(deltas[at]),
        deltas[at].delta_tokens > 0,
    decreases deltas.len(),
{
    let last = deltas.last();
    if pick(last) && last.delta_tokens > 0 {
        deltas.len() - 1
    } else {
        lemma_tokens_come_from_one(deltas.drop_last(), pick)
    }
}

proof fn lemma_other_is_shared(deltas: Seq<DeltaView>, step: QuotaStep, key: KeyView)
    ensures
        other_occurs(deltas, step, key) == is_shared(deltas, step, key),
{
    if other_occurs(deltas, step, key) {
        let i = choose|i: int|
            0 <= i < deltas.len() && in_step(#[trigger] deltas[i], step) && deltas[i].key != key;
        assert(deltas[i].key != key && step.start_at < deltas[i].sampled_at);
    }
    if is_shared(deltas, step, key) {
        let i = choose|i: int|
            {
                &&& 0 <= i < deltas.len()
                &&& (#[trigger] deltas[i]).key != key
                &&& step.start_at < deltas[i].sampled_at
                &&& deltas[i].sampled_at <= step.end_at
            };
        assert(in_step(deltas[i], step));
    }
}

proof fn lemma_shares_are_sums(deltas: Seq<DeltaView>, step: QuotaStep, key: KeyView)
    ensures
        ({
            let own = tokens_where(deltas, falls_into(step, key));
            let clear = tokens_where(deltas, lies_within(step, key));
            let most = i64::MAX as int;
            &&& 0 <= clear <= own
            &&& share_tokens(deltas, step, key, Share::Own) == min_int(own, most)
            &&& share_tokens(deltas, step, key, Share::Clear) == min_int(clear, most)
            &&& share_tokens(deltas, step, key, Share::Crossing) == min_int(own - clear, most)
        }),
    decreases deltas.len(),
{
    if deltas.len() > 0 {
        lemma_shares_are_sums(deltas.drop_last(), step, key);
    }
}

/// What some pieces of evidence add up to.
pub open spec fn evidence_tokens(evidence: Seq<StepEvidence>) -> int
    decreases evidence.len(),
{
    if evidence.len() == 0 {
        0
    } else {
        evidence_tokens(evidence.drop_last()) + evidence.last().tokens
    }
}

/// There are as many pieces of evidence as valid samples, their tokens add up to the observed
/// tokens, and each stands for a step of its own, in the order of the steps, with exactly the
/// sum of the category's increases of that step whose turn was not last seen before the
/// step's start. A step is evidence where that is something and no other category shares it.
pub proof fn lemma_evidence_is_observed(
    deltas: Seq<DeltaView>,
    steps: Seq<QuotaStep>,
    n: int,
    key: KeyView,
)
    requires
        0 <= n <= steps.len() <= usize::MAX,
    ensures
        ({
            let tally = tally_of(deltas, steps, n, key);
            let evidence = tally.evidence;
            &&& evidence.len() == tally.valid_sample_count
            &&& tally.observed_tokens == min_int(evidence_tokens(evidence), i64::MAX as int)
            &&& evidence_tokens(evidence) >= 0
            &&& forall|e: int|
                0 <= e < evidence.len() ==> {
                    let step = steps[(#[trigger] evidence[e]).step as int];
                    &&& evidence[e].step < n
                    &&& evidence[e].tokens == min_int(
                        tokens_where(deltas, lies_within(step, key)),
                        i64::MAX as int,
                    )
                    &&& evidence[e].tokens > 0
                    &&& !is_shared(deltas, step, key)
                }
            &&& forall|d: int, e: int|
                0 <= d < e < evidence.len() ==> (#[trigger] evidence[d]).step < (
                #[trigger] evidence[e]).step
            &&& forall|k: int|
                0 <= k < n && tokens_where(deltas, lies_within(#[trigger] steps[k], key)) > 0
                    && !is_shared(deltas, steps[k], key) ==> has_evidence(evidence, k)
        }),
    decreases n,
{
    if n > 0 {
        lemma_evidence_is_observed(deltas, steps, n - 1, key);
        let step = steps[n - 1];
        let look = step_look(deltas, step, key);
        lemma_step_look_adds_up(deltas, step, key);
        let before = tally_of(deltas, steps, n - 1, key);
        let after = tally_of(deltas, steps, n, key);
        lemma_tally_nonnegative(deltas, steps, n - 1, key);
        assert forall|k: int|
            0 <= k < n && tokens_where(deltas, lies_within(#[trigger] steps[k], key)) > 0
                && !is_shared(deltas, steps[k], key) implies has_evidence(after.evidence, k) by {
            if k < n - 1 {
                assert(has_evidence(before.evidence, k));
                let e = choose|e: int|
                    0 <= e < before.evidence.len() && (#[trigger] before.evidence[e]).step == k;
                assert(after.evidence[e].step == k);
            } else {
                assert(after.evidence.last().step == k);
                assert(after.evidence[before.evidence.len() as int].step == k);
            }
        }
        if after.evidence.len() > before.evidence.len() {
            assert(after.evidence.drop_last() =~= before.evidence);
            assert(after.evidence.last().tokens == look.clear_tokens);
        } else {
            assert(after.evidence == before.evidence);
        }
    }
}

/// The step is among the evidence.
pub open spec fn has_evidence(evidence: Seq<StepEvidence>, step: int) -> bool {
    exists|e: int| 0 <= e < evidence.len() && (#[trigger] evidence[e]).step == step
}

/// A finished tally: the observed tokens are what its evidence adds up to, and each piece of
/// evidence is the sum of the category's increases that lie wholly within its step.
pub proof fn lemma_tally_is_its_evidence(
    tally: CategoryTally,
    deltas: Seq<DeltaView>,
    steps: Seq<QuotaStep>,
    start: i64,
    end: i64,
)
    requires
        steps.len() <= usize::MAX,
        is_tally(tally, deltas, steps, start, end),
    ensures
        tally.evidence@.len() == tally.valid_sample_count,
        tally.observed_tokens == min_int(evidence_tokens(tally.evidence@), i64::MAX as int),
        forall|e: int|
            0 <= e < tally.evidence@.len() ==> {
                let step = steps[(#[trigger] tally.evidence@[e]).step as int];
                &&& tally.evidence@[e].step < steps.len()
                &&& !is_shared(deltas, step, tally.key@)
                &&& tally.evidence@[e].tokens == min_int(
                    tokens_where(deltas, lies_within(step, tally.key@)),
                    i64::MAX as int,
                )
            },
        tally.observed_sample_count == tally.valid_sample_count + tally.rejected_sample_count,
        tally.boundary_overlap_count <= tally.observed_sample_count,
{
    lemma_evidence_is_observed(deltas, steps, steps.len() as int, tally.key@);
    lemma_samples_are_valid_or_rejected(deltas, steps, steps.len() as int, tally.key@);
    assert(tally.steps_seen() == tally_of(deltas, steps, steps.len() as int, tally.key@));
    assert(tally.steps_seen().evidence == tally.evidence@);
    assert(tally.steps_seen().observed_tokens == tally.observed_tokens);
    assert(tally.steps_seen().valid_sample_count == tally.valid_sample_count);
}

/// Every step that holds something of the category is either valid or rejected, and every
/// step whose start an increase crosses is counted as an overlap.
pub proof fn lemma_samples_are_valid_or_rejected(
    deltas: Seq<DeltaView>,
    steps: Seq<QuotaStep>,
    n: int,
    key: KeyView,
)
    ensures
        ({
            let tally = tally_of(deltas, steps, n, key);
            &&& tally.observed_sample_count == tally.valid_sample_count
                + tally.rejected_sample_count
            &&& 0 <= tally.boundary_overlap_count <= tally.observed_sample_count
            &&& tally.valid_sample_count >= 0
            &&& tally.rejected_sample_count >= 0
        }),
    decreases n,
{
    if n > 0 {
        lemma_samples_are_valid_or_rejected(deltas, steps, n - 1, key);
    }
}

/// What was used before the first step began and what was used after the last one ended are
/// the sums of the category's increases there, as far as they can be counted. Without a step
/// all of the window is before.
pub proof fn lemma_outside_is_before_and_after(
    tally: CategoryTally,
    deltas: Seq<DeltaView>,
    steps: Seq<QuotaStep>,
    start: i64,
    end: i64,
)
    requires
        is_tally(tally, deltas, steps, start, end),
    ensures
        ({
            let first: i64 = if steps.len() > 0 {
                steps[0].start_at
            } else {
                end
            };
            let last: i64 = if steps.len() > 0 {
                steps[steps.len() - 1].end_at
            } else {
                start
            };
            &&& tally.pre_observation_tokens == min_int(
                tokens_where(deltas, falls_between(tally.key@, None, Some(first))),
                i64::MAX as int,
            )
            &&& tally.pending_tokens == min_int(
                tokens_where(deltas, falls_between(tally.key@, Some(last), None)),
                i64::MAX as int,
            )
        }),
{
    let first = observation_horizon(steps, end);
    let last = pending_start(steps, start);
    lemma_outside_is_sum(deltas, tally.key@, None, Some(first));
    lemma_outside_is_sum(deltas, tally.key@, Some(last), None);
}

proof fn lemma_outside_is_sum(
    deltas: Seq<DeltaView>,
    key: KeyView,
    from: Option<i64>,
    to: Option<i64>,
)
    ensures
        ({
            let sum = tokens_where(deltas, falls_between(key, from, to));
            sum >= 0 && outside_tokens(deltas, key, from, to) == min_int(sum, i64::MAX as int)
        }),
    decreases deltas.len(),
{
    if deltas.len() > 0 {
        lemma_outside_is_sum(deltas.drop_last(), key, from, to);
    }
}

/// When the turn of an event was last seen before it is the latest time of the turn's events
/// that come before it; an event at the same time comes before where it was recorded first.
pub proof fn lemma_last_seen_is_latest(events: Seq<EventView>, i: int)
    requires
        0 <= i < events.len(),
        forall|j: int|
            0 <= j < events.len() ==> i64::MIN <= (#[trigger] events[j]).sampled_at <= i64::MAX,
    ensures
        match last_seen_before(events, i, events.len() as int) {
            Some(at) => {
                &&& exists|j: int|
                    {
                        &&& 0 <= j < events.len()
                        &&& j != i
                        &&& (#[trigger] events[j]).thread_id == events[i].thread_id
                        &&& events[j].turn_id == events[i].turn_id
                        &&& events[j].sampled_at == at
                        &&& at <= events[i].sampled_at
                        &&& at == events[i].sampled_at ==> j < i
                    }
                &&& forall|j: int|
                    {
                        &&& 0 <= j < events.len()
                        &&& (#[trigger] events[j]).thread_id == events[i].thread_id
                        &&& events[j].turn_id == events[i].turn_id
                        &&& events[j].sampled_at < events[i].sampled_at || (j < i
                            && events[j].sampled_at == events[i].sampled_at)
                    } ==> events[j].sampled_at <= at
            },
            None => forall|j: int|
                {
                    &&& 0 <= j < events.len()
                    &&& (#[trigger] events[j]).thread_id == events[i].thread_id
                    &&& events[j].turn_id == events[i].turn_id
                } ==> events[i].sampled_at < events[j].sampled_at || (i <= j
                    && events[i].sampled_at == events[j].sampled_at),
        },
{
    lemma_last_seen_among(events, i, events.len() as int);
}

proof fn lemma_last_seen_among(events: Seq<EventView>, i: int, n: int)
    requires
        0 <= i < events.len(),
        0 <= n <= events.len(),
        forall|j: int|
            0 <= j < events.len() ==> i64::MIN <= (#[trigger] events[j]).sampled_at <= i64::MAX,
    ensures
        match last_seen_before(events, i, n) {
            Some(at) => {
                &&& exists|j: int|
                    {
                        &&& 0 <= j < n
                        &&& j != i
                        &&& (#[trigger] events[j]).thread_id == events[i].thread_id
                        &&& events[j].turn_id == events[i].turn_id
                        &&& events[j].sampled_at == at
                        &&& at <= events[i].sampled_at
                        &&& at == events[i].sampled_at ==> j < i
                    }
                &&& forall|j: int|
                    {
                        &&& 0 <= j < n
                        &&& (#[trigger] events[j]).thread_id == events[i].thread_id
                        &&& events[j].turn_id == events[i].turn_id
                        &&& events[j].sampled_at < events[i].sampled_at || (j < i
                            && events[j].sampled_at == events[i].sampled_at)
                    } ==> events[j].sampled_at <= at
            },
            None => forall|j: int|
                {
                    &&& 0 <= j < n
                    &&& (#[trigger] events[j]).thread_id == events[i].thread_id
                    &&& events[j].turn_id == events[i].turn_id
                } ==> events[i].sampled_at < events[j].sampled_at || (i <= j
                    && events[i].sampled_at == events[j].sampled_at),
        },
    decreases n,
{
    if n > 0 {
        lemma_last_seen_among(events, i, n - 1);
        let last = events[n - 1];
        match last_seen_before(events, i, n - 1) {
            Some(at) => {
                let j = choose|j: int|
                    {
                        &&& 0 <= j < n - 1
                        &&& j != i
                        &&& (#[trigger] events[j]).thread_id == events[i].thread_id
                        &&& events[j].turn_id == events[i].turn_id
                        &&& events[j].sampled_at == at
                        &&& at <= events[i].sampled_at
                    };
                assert(events[j].sampled_at == at);
            },
            None => {},
        }
        assert(last == events[n - 1]);
    }
}

/// The increases of a window are its events that rose, one for one and in their order: each
/// keeps its category, time and tokens, and says when its turn was last seen.
pub proof fn lemma_increases_are_events(events: Seq<EventView>, n: int, start: int, end: int) -> (
    from: Seq<int>)
    requires
        0 <= n <= events.len(),
    ensures
        ({
            let deltas = deltas_of(events, n, start, end);
            &&& from.len() == deltas.len()
            &&& forall|d: int|
                0 <= d < from.len() ==> {
                    let i = #[trigger] from[d];
                    &&& 0 <= i < n
                    &&& deltas[d].key == events[i].key
                    &&& deltas[d].sampled_at == events[i].sampled_at
                    &&& deltas[d].delta_tokens == events[i].delta_tokens
                    &&& deltas[d].previous_sampled_at == last_seen_before(
                        events,
                        i,
                        events.len() as int,
                    )
                    &&& start < events[i].sampled_at
                    &&& events[i].sampled_at <= end
                    &&& events[i].delta_tokens > 0
                }
            &&& forall|d: int, e: int| 0 <= d < e < from.len() ==> from[d] < from[e]
            &&& forall|i: int|
                0 <= i < n && start < (#[trigger] events[i]).sampled_at && events[i].sampled_at
                    <= end && events[i].delta_tokens > 0 ==> from.contains(i)
        }),
    decreases n,
{
    if n <= 0 {
        Seq::empty()
    } else {
        let before = lemma_increases_are_events(events, n - 1, start, end);
        let event = events[n - 1];
        if start < event.sampled_at && event.sampled_at <= end && event.delta_tokens > 0 {
            let from = before.push(n - 1);
            let deltas = deltas_of(events, n, start, end);
            assert(from[before.len() as int] == n - 1);
            assert forall|d: int| 0 <= d < before.len() implies from[d] == #[trigger] before[d] by {}
            assert forall|i: int|
                0 <= i < n && start < (#[trigger] events[i]).sampled_at && events[i].sampled_at
                    <= end && events[i].delta_tokens > 0 implies from.contains(i) by {
                if i < n - 1 {
                    assert(before.contains(i));
                    let d = choose|d: int| 0 <= d < before.len() && before[d] == i;
                    assert(from[d] == i);
                }
            }
            from
        } else {
            before
        }
    }
}

/// The steps that a window's evidence is looked for in are the weekly ones that lie wholly
/// within it: each stands for such an interval, each such interval has its step, and they
/// stand by when they ended.
pub proof fn lemma_steps_are_weekly_intervals(
    intervals: Seq<QuotaInterval>,
    start: int,
    end: int,
)
    ensures
        ({
            let steps = sorted(steps_within(intervals, start, end));
            &&& forall|k: int|
                0 <= k < steps.len() ==> stands_for_one(#[trigger] steps[k], intervals, start, end)
            &&& forall|i: int|
                0 <= i < intervals.len() && (#[trigger] intervals[i]).window_duration_mins
                    == 10_080 && intervals[i].start_at >= start && intervals[i].end_at <= end
                    ==> has_step(steps, intervals[i])
            &&& forall|k: int, m: int|
                0 <= k < m < steps.len() ==> (#[trigger] steps[k]).end_at <= (
                #[trigger] steps[m]).end_at
        }),
{
    let rows = steps_within(intervals, start, end);
    let steps = sorted(rows);
    lemma_steps_within(intervals, start, end);
    crate::sorting::lemma_sorted(rows);
    assert forall|k: int| 0 <= k < steps.len() implies stands_for_one(
        #[trigger] steps[k],
        intervals,
        start,
        end,
    ) by {
        let from = crate::sorting::lemma_sorted_member(rows, k);
        assert(stands_for_one(rows[from], intervals, start, end));
    }
    assert forall|i: int|
        0 <= i < intervals.len() && (#[trigger] intervals[i]).window_duration_mins == 10_080
            && intervals[i].start_at >= start && intervals[i].end_at <= end implies has_step(
        steps,
        intervals[i],
    ) by {
        assert(has_step(rows, intervals[i]));
        let k = choose|k: int| 0 <= k < rows.len() && is_its_step(#[trigger] rows[k], intervals[i]);
        let to = crate::sorting::lemma_sorted_keeps(rows, k);
        assert(is_its_step(steps[to], intervals[i]));
    }
    assert forall|k: int, m: int| 0 <= k < m < steps.len() implies (#[trigger] steps[k]).end_at <= (
    #[trigger] steps[m]).end_at by {
        assert(!steps[k].behind(steps[m]));
    }
}

/// The step says of the interval when it began and ended, and at which shares.
pub open spec fn is_its_step(step: QuotaStep, interval: QuotaInterval) -> bool {
    &&& step.start_at == interval.start_at
    &&& step.end_at == interval.end_at
    &&& step.start_percent == interval.start_percent
    &&& step.end_percent == interval.end_percent
}

pub open spec fn has_step(steps: Seq<QuotaStep>, interval: QuotaInterval) -> bool {
    exists|k: int| 0 <= k < steps.len() && is_its_step(#[trigger] steps[k], interval)
}

/// The step stands for a weekly interval that lies wholly within the window.
pub open spec fn stands_for_one(
    step: QuotaStep,
    intervals: Seq<QuotaInterval>,
    start: int,
    end: int,
) -> bool {
    exists|i: int|
        {
            &&& 0 <= i < intervals.len()
            &&& is_its_step(step, #[trigger] intervals[i])
            &&& intervals[i].window_duration_mins == 10_080
            &&& intervals[i].start_at >= start
            &&& intervals[i].end_at <= end
        }
}

proof fn lemma_steps_within(intervals: Seq<QuotaInterval>, start: int, end: int)
    ensures
        ({
            let rows = steps_within(intervals, start, end);
            &&& forall|k: int|
                0 <= k < rows.len() ==> stands_for_one(#[trigger] rows[k], intervals, start, end)
            &&& forall|i: int|
                0 <= i < intervals.len() && (#[trigger] intervals[i]).window_duration_mins
                    == 10_080 && intervals[i].start_at >= start && intervals[i].end_at <= end
                    ==> has_step(rows, intervals[i])
        }),
    decreases intervals.len(),
{
    if intervals.len() > 0 {
        let front = intervals.drop_last();
        let last = intervals.last();
        lemma_steps_within(front, start, end);
        let before = steps_within(front, start, end);
        let rows = steps_within(intervals, start, end);
        assert forall|k: int| 0 <= k < rows.len() implies stands_for_one(
            #[trigger] rows[k],
            intervals,
            start,
            end,
        ) by {
            if k < before.len() {
                assert(rows[k] == before[k]);
                assert(stands_for_one(before[k], front, start, end));
                let i = choose|i: int|
                    {
                        &&& 0 <= i < front.len()
                        &&& is_its_step(before[k], #[trigger] front[i])
                        &&& front[i].window_duration_mins == 10_080
                        &&& front[i].start_at >= start
                        &&& front[i].end_at <= end
                    };
                assert(intervals[i] == front[i]);
            } else {
                assert(is_its_step(rows[k], intervals[intervals.len() - 1]));
            }
        }
        assert forall|i: int|
            0 <= i < intervals.len() && (#[trigger] intervals[i]).window_duration_mins == 10_080
                && intervals[i].start_at >= start && intervals[i].end_at <= end implies has_step(
            rows,
            intervals[i],
        ) by {
            if i < front.len() {
                assert(front[i] == intervals[i]);
                assert(has_step(before, front[i]));
                let k = choose|k: int|
                    0 <= k < before.len() && is_its_step(#[trigger] before[k], front[i]);
                assert(rows[k] == before[k]);
            } else {
                assert(is_its_step(rows[before.len() as int], last));
            }
        }
    }
}

/// What an estimate rests on, in numbers: five steps, a thousand tokens that were observed,
/// and at least three in five of what remains of the category's tokens once those before the
/// first step, those after the last, and those that could not be told apart are left out.
pub proof fn lemma_estimate_rests_on_enough(
    tally: CategoryTally,
    status: Option<DataHealth>,
    findings: RateFindings,
    r: CategoryEstimate,
)
    requires
        counts_nonnegative(tally),
        same_counts(tally, r.tally),
        is_estimate(r, all_reasons(tally, health_blocker(status), findings), Some(findings)),
        r.estimate is Some,
    ensures
        r.estimate == Some((findings.full_week_tokens, findings.remaining_tokens)),
        status == Some(DataHealth::Verified),
        tally.valid_sample_count >= 5,
        tally.observed_tokens >= 1_000,
        tally.observed_tokens + tally.ambiguous_boundary_tokens + tally.excluded_tokens
            <= i64::MAX ==> tally.candidate_tokens == tally.observed_tokens
            + tally.ambiguous_boundary_tokens + tally.excluded_tokens,
        5 * tally.observed_tokens >= 3 * (tally.current_tokens - tally.pre_observation_tokens
            - tally.pending_tokens - tally.excluded_tokens - tally.ambiguous_boundary_tokens),
        tally.observed_tokens <= tally.current_tokens,
        findings.full_week_tokens >= tally.current_tokens,
        !findings.quota_span_short && !findings.exceeds_used_share && !findings.dispersed,
        r.total_category_tokens == tally.current_tokens,
        r.eligible_tokens == tally.current_tokens - tally.pre_observation_tokens
            - tally.pending_tokens - tally.excluded_tokens - tally.ambiguous_boundary_tokens,
        r.confidence == Confidence::High <==> findings.tight && 20 * tally.observed_tokens >= 17
            * r.eligible_tokens,
        r.confidence != Confidence::High ==> r.confidence == Confidence::Medium,
        r.external_usage_risk == (tally.pre_observation_tokens > 0 || tally.pending_tokens > 0),
{
    lemma_estimate_is_backed(tally, status, findings, r);
    assert(r.tally.steps_seen().observed_tokens == tally.steps_seen().observed_tokens);
    assert(r.tally.steps_seen().excluded_tokens == tally.steps_seen().excluded_tokens);
    assert(r.tally.steps_seen().ambiguous_boundary_tokens
        == tally.steps_seen().ambiguous_boundary_tokens);
    assert(eligible(r.tally) == eligible(tally));
}

/// The reason holds nothing back.
pub open spec fn calls_for_care(reason: Reason) -> bool {
    ||| reason == Reason::BoundaryOverlap
    ||| reason == Reason::BoundaryAmbiguity
    ||| reason == Reason::PendingTokens
    ||| reason == Reason::ExternalUsageRisk
    ||| reason == Reason::SourceGap
    ||| reason == Reason::MixedCategoryUnresolved
}

/// An estimate is given wherever the account's data was verified, the counts agree, there is
/// enough to go by, and the findings speak against nothing.
pub proof fn lemma_enough_gives_an_estimate(
    tally: CategoryTally,
    findings: RateFindings,
    r: CategoryEstimate,
)
    requires
        counts_nonnegative(tally),
        is_estimate(
            r,
            all_reasons(tally, health_blocker(Some(DataHealth::Verified)), findings),
            Some(findings),
        ),
        forall|k: int|
            0 <= k < tally.reasons@.len() ==> calls_for_care(#[trigger] tally.reasons@[k]),
        tally.valid_sample_count >= 5,
        tally.observed_tokens >= 1_000,
        ({
            let left = tally.current_tokens - tally.pre_observation_tokens - tally.pending_tokens
                - tally.excluded_tokens - tally.ambiguous_boundary_tokens;
            &&& tally.observed_tokens <= left
            &&& 5 * tally.observed_tokens >= 3 * left
        }),
        tally.candidate_tokens == tally.observed_tokens + tally.ambiguous_boundary_tokens
            + tally.excluded_tokens,
        findings.full_week_tokens >= tally.current_tokens,
        !findings.quota_span_short,
        !findings.exceeds_used_share,
        !findings.dispersed,
    ensures
        r.estimate == Some((findings.full_week_tokens, findings.remaining_tokens)),
        r.hard_blockers@.len() == 0,
{
    let reasons = tally.reasons@;
    let risk = tally.pre_observation_tokens > 0 || coverage_is_partial(
        tally.observed_tokens as int,
        eligible(tally),
    );
    let pending = with_reason_if(reasons, tally.pending_tokens > 0, Reason::PendingTokens);
    let all = with_reason_if(pending, risk, Reason::ExternalUsageRisk);
    assert(!inconsistent(tally));
    assert(all_reasons(tally, None, findings) == all);
    assert forall|k: int| 0 <= k < all.len() implies (#[trigger] all[k]).warns() by {
        if k < reasons.len() {
            assert(all[k] == reasons[k]);
            assert(calls_for_care(reasons[k]));
        }
    }
    lemma_all_warn(all);
}

proof fn lemma_all_warn(reasons: Seq<Reason>)
    requires
        forall|k: int| 0 <= k < reasons.len() ==> (#[trigger] reasons[k]).warns(),
    ensures
        reasons_that(reasons, false).len() == 0,
    decreases reasons.len(),
{
    if reasons.len() > 0 {
        let front = reasons.drop_last();
        assert forall|k: int| 0 <= k < front.len() implies (#[trigger] front[k]).warns() by {
            assert(front[k] == reasons[k]);
        }
        lemma_all_warn(front);
        assert(reasons[reasons.len() - 1].warns());
    }
}

/// The reasons that are told first hold back and the others call for care; both together are
/// the reasons, none of which is told twice or left out.
pub proof fn lemma_reasons_are_told_apart(reasons: Seq<Reason>, reason: Reason)
    ensures
        reasons_that(reasons, true).contains(reason) <==> reasons.contains(reason)
            && calls_for_care(reason),
        reasons_that(reasons, false).contains(reason) <==> reasons.contains(reason)
            && !calls_for_care(reason),
        reasons_that(reasons, true).len() + reasons_that(reasons, false).len() == reasons.len(),
    decreases reasons.len(),
{
    if reasons.len() > 0 {
        let front = reasons.drop_last();
        let last = reasons.last();
        lemma_reasons_are_told_apart(front, reason);
        lemma_push_contains(reasons_that(front, true), last, reason);
        lemma_push_contains(reasons_that(front, false), last, reason);
        lemma_push_contains(front, last, reason);
        assert(front.push(last) =~= reasons);
    }
}

proof fn lemma_push_contains(reasons: Seq<Reason>, last: Reason, reason: Reason)
    ensures
        reasons.push(last).contains(reason) <==> reasons.contains(reason) || last == reason,
{
    let grown = reasons.push(last);
    if reasons.contains(reason) {
        let k = choose|k: int| 0 <= k < reasons.len() && reasons[k] == reason;
        assert(grown[k] == reason);
    }
    if last == reason {
        assert(grown[reasons.len() as int] == reason);
    }
    if grown.contains(reason) && last != reason {
        let k = choose|k: int| 0 <= k < grown.len() && grown[k] == reason;
        assert(reasons[k] == reason);
    }
}

/// A step without any increase leaves a source gap among the reasons, one that is shared the
/// mixture, and one that an increase crosses the overlap; no step takes a reason away.
pub proof fn lemma_steps_give_their_reasons(
    deltas: Seq<DeltaView>,
    steps: Seq<QuotaStep>,
    n: int,
    key: KeyView,
    k: int,
)
    requires
        0 <= k < n <= steps.len(),
    ensures
        ({
            let reasons = tally_of(deltas, steps, n, key).reasons;
            let look = step_look(deltas, steps[k], key);
            &&& !look.any ==> reasons.contains(Reason::SourceGap)
            &&& look.any && look.own && look.other ==> reasons.contains(
                Reason::MixedCategoryUnresolved,
            )
            &&& look.any && look.own && look.crossing ==> reasons.contains(
                Reason::BoundaryOverlap,
            ) && reasons.contains(Reason::BoundaryAmbiguity)
        }),
    decreases n,
{
    let before = tally_of(deltas, steps, n - 1, key).reasons;
    let look = step_look(deltas, steps[n - 1], key);
    let r1 = with_reason_if(before, look.crossing, Reason::BoundaryOverlap);
    let r2 = with_reason_if(r1, look.crossing, Reason::BoundaryAmbiguity);
    lemma_with_reason(before, Reason::SourceGap, Reason::SourceGap);
    lemma_with_reason(r2, Reason::MixedCategoryUnresolved, Reason::MixedCategoryUnresolved);
    lemma_with_reason_if(before, look.crossing, Reason::BoundaryOverlap);
    lemma_with_reason_if(r1, look.crossing, Reason::BoundaryAmbiguity);
    let after = tally_of(deltas, steps, n, key).reasons;
    assert forall|other: Reason| before.contains(other) implies #[trigger] after.contains(
        other,
    ) by {
        lemma_with_reason(before, Reason::SourceGap, other);
        lemma_with_reason(r2, Reason::MixedCategoryUnresolved, other);
        lemma_with_reason(r2, Reason::InsufficientObservedTokens, other);
        assert(r1.contains(other));
        assert(r2.contains(other));
    }
    assert forall|other: Reason| look.any && look.own && r2.contains(other) implies
        #[trigger] after.contains(other) by {
        lemma_with_reason(r2, Reason::MixedCategoryUnresolved, other);
        lemma_with_reason(r2, Reason::InsufficientObservedTokens, other);
    }
    if k < n - 1 {
        lemma_steps_give_their_reasons(deltas, steps, n - 1, key, k);
    }
}

/// How much of what counts was observed: less than three fifths is little, less than all is a
/// part, and seventeen twentieths or more is strong. Where nothing counts, anything observed
/// is enough.
pub proof fn lemma_coverage_is_a_share(observed: int, eligible: int)
    requires
        observed >= 0,
    ensures
        eligible > 0 ==> {
            &&& coverage_is_low(observed, eligible) <==> observed * 100 < eligible * 60
            &&& coverage_is_partial(observed, eligible) <==> observed * 100 < eligible * 100
            &&& coverage_is_strong(observed, eligible) <==> observed * 100 >= eligible * 85
        },
        eligible <= 0 ==> {
            &&& coverage_is_low(observed, eligible) <==> observed == 0
            &&& coverage_is_partial(observed, eligible) <==> observed == 0
            &&& coverage_is_strong(observed, eligible) <==> observed > 0
        },
{
}

/// A reason that is given is on the list, once, behind those that were there.
pub proof fn lemma_reason_is_listed_once(reasons: Seq<Reason>, reason: Reason, holds: bool)
    ensures
        with_reason(reasons, reason).contains(reason),
        forall|other: Reason|
            other != reason ==> (#[trigger] with_reason(reasons, reason).contains(other)
                <==> reasons.contains(other)),
        reasons.no_duplicates() ==> with_reason(reasons, reason).no_duplicates(),
        forall|i: int| 0 <= i < reasons.len() ==> #[trigger] with_reason(reasons, reason)[i]
            == reasons[i],
        !holds ==> with_reason_if(reasons, holds, reason) == reasons,
        holds ==> with_reason_if(reasons, holds, reason) == with_reason(reasons, reason),
{
    let after = with_reason(reasons, reason);
    if !reasons.contains(reason) {
        assert(after[reasons.len() as int] == reason);
    }
    assert forall|other: Reason| other != reason implies (#[trigger] after.contains(other)
        <==> reasons.contains(other)) by {
        if reasons.contains(other) {
            let i = choose|i: int| 0 <= i < reasons.len() && reasons[i] == other;
            assert(after[i] == other);
        }
        if after.contains(other) {
            let i = choose|i: int| 0 <= i < after.len() && after[i] == other;
            assert(reasons[i] == other);
        }
    }
    if reasons.no_duplicates() {
        assert forall|i: int, j: int| 0 <= i < j < after.len() implies after[i] != after[j] by {
            if j == reasons.len() {
                assert(reasons.contains(reasons[i]));
            }
        }
    }
}

/// Only verified data is not in the way of an estimate; each other status is, for its own
/// reason, and what is not known counts as never verified.
pub proof fn lemma_unverified_data_is_in_the_way(status: Option<DataHealth>)
    ensures
        health_blocker(status) is None <==> status == Some(DataHealth::Verified),
        status == Some(DataHealth::Rebuilding) ==> health_blocker(status) == Some(
            Reason::AccountDataRebuilding,
        ),
        status == Some(DataHealth::AccountingInconsistent) ==> health_blocker(status) == Some(
            Reason::AccountingInconsistent,
        ),
        status == Some(DataHealth::SourceIncomplete) ==> health_blocker(status) == Some(
            Reason::SourceIncomplete,
        ),
        status is None || status == Some(DataHealth::LegacyUnverified) || status == Some(
            DataHealth::Other,
        ) ==> health_blocker(status) == Some(Reason::LegacyUnverified),
{
}

/// A tally is consistent exactly where nothing of it is more than the category has: what is
/// outside the steps leaves something of the tokens, what the steps hold is no more than that,
/// what was observed no more than what counts, and the parts of what they hold make it up.
pub proof fn lemma_consistent_tally_adds_up(tally: CategoryTally)
    requires
        counts_nonnegative(tally),
        tally.observed_tokens + tally.ambiguous_boundary_tokens + tally.excluded_tokens <= i64::MAX,
    ensures
        ({
            let total = if tally.current_tokens > 0 {
                tally.current_tokens as int
            } else {
                0
            };
            let within = total - tally.pre_observation_tokens - tally.pending_tokens;
            let clear = within - tally.excluded_tokens - tally.ambiguous_boundary_tokens;
            !inconsistent(tally) <==> {
                &&& within >= 0
                &&& tally.candidate_tokens <= within
                &&& tally.observed_tokens <= clear || (clear < 0 && tally.observed_tokens == 0)
                &&& tally.observed_tokens + tally.ambiguous_boundary_tokens + tally.excluded_tokens
                    == tally.candidate_tokens
            }
        }),
{
}

} // verus!
