//! The rollout log of a session: how its lines become turns and token samples.
//!
//! A line carries either the session's identity, the context of a turn, or the cumulative
//! token counter. The counter is the source of truth: what a turn used is the sum of the
//! counter's increases while the turn was current, over all the segments that resets of the
//! counter cut it into.
use crate::arith::{clamp_i64, max_int, min_int, saturating_add};
use crate::calendar::{parse_timestamp, timestamp_of};
use crate::json::{
    either_field_of, field, field_of, get_either_of, get_of, integer_of, is_text, number_i64,
    parse_json, parsed_json, string_value, text_of, whole_value, Json, JsonView,
};
use crate::models::{
    is_normal, normalized_usage, zero_usage, Confidence, TokenUsage, TurnUsageRecord,
    SOURCE_ROLLOUT,
};
use crate::names::lists;
use crate::paths::{extension, extension_of, join_path, path_joined, paths_ascend, sort_paths};
use crate::rate_card::{estimated_units, units_of, RateCard, CURRENT_RATE_CARD_VERSION};
use crate::text::{
    ascii_lower, ascii_lowercase, decimal, decimal_text, joined, same_text, same_text_opt, str_opt,
    text_opt,
};
use vstd::prelude::*;

verus! {

pub const ROLLOUT_PARSER_VERSION: i64 = 9;

/// What is known of a session after the lines read so far.
#[derive(Debug)]
pub struct CursorState {
    pub parser_version: i64,
    pub session_id: Option<String>,
    pub thread_id: Option<String>,
    pub turn_id: Option<String>,
    pub model: Option<String>,
    pub reasoning_effort: Option<String>,
    pub speed_mode: Option<String>,
    pub turn_started_at: Option<i64>,
    pub turn_start_totals: TokenUsage,
    pub segment_no: i64,
    pub segment_base_usage: TokenUsage,
    pub turn_segment_start_usage: TokenUsage,
    pub turn_accumulated_usage: TokenUsage,
    pub last_totals: TokenUsage,
}

/// The mathematical value of a [`CursorState`].
#[verifier::ext_equal]
pub struct CursorView {
    pub parser_version: i64,
    pub session_id: Option<Seq<char>>,
    pub thread_id: Option<Seq<char>>,
    pub turn_id: Option<Seq<char>>,
    pub model: Option<Seq<char>>,
    pub reasoning_effort: Option<Seq<char>>,
    pub speed_mode: Option<Seq<char>>,
    pub turn_started_at: Option<i64>,
    pub turn_start_totals: TokenUsage,
    pub segment_no: i64,
    pub segment_base_usage: TokenUsage,
    pub turn_segment_start_usage: TokenUsage,
    pub turn_accumulated_usage: TokenUsage,
    pub last_totals: TokenUsage,
}

impl View for CursorState {
    type V = CursorView;

    open spec fn view(&self) -> CursorView {
        CursorView {
            parser_version: self.parser_version,
            session_id: text_opt(self.session_id),
            thread_id: text_opt(self.thread_id),
            turn_id: text_opt(self.turn_id),
            model: text_opt(self.model),
            reasoning_effort: text_opt(self.reasoning_effort),
            speed_mode: text_opt(self.speed_mode),
            turn_started_at: self.turn_started_at,
            turn_start_totals: self.turn_start_totals,
            segment_no: self.segment_no,
            segment_base_usage: self.segment_base_usage,
            turn_segment_start_usage: self.turn_segment_start_usage,
            turn_accumulated_usage: self.turn_accumulated_usage,
            last_totals: self.last_totals,
        }
    }
}

impl CursorView {
    /// The counters are normal, and the segment's part of the turn does not begin above the
    /// last counter. Every state that lines lead to from a fresh one is so.
    pub open spec fn wf(self) -> bool {
        &&& is_normal(self.last_totals)
        &&& is_normal(self.turn_segment_start_usage)
        &&& is_normal(self.turn_accumulated_usage)
        &&& self.turn_segment_start_usage.raw_total_tokens <= self.last_totals.raw_total_tokens
    }
}

/// The state before any line.
pub open spec fn fresh_state() -> CursorView {
    CursorView {
        parser_version: ROLLOUT_PARSER_VERSION,
        session_id: None,
        thread_id: None,
        turn_id: None,
        model: None,
        reasoning_effort: None,
        speed_mode: None,
        turn_started_at: None,
        turn_start_totals: zero_usage(),
        segment_no: 0,
        segment_base_usage: zero_usage(),
        turn_segment_start_usage: zero_usage(),
        turn_accumulated_usage: zero_usage(),
        last_totals: zero_usage(),
    }
}

/// One increase of the cumulative counter, of the turn that was current.
#[derive(Debug)]
pub struct TurnTokenSample {
    pub account_key: String,
    pub thread_id: String,
    pub turn_id: String,
    pub segment_no: i64,
    pub model: Option<String>,
    pub reasoning_effort: String,
    pub speed_mode: String,
    pub sampled_at: i64,
    pub cumulative_tokens: i64,
    pub delta_tokens: i64,
    pub source: String,
    pub confidence: Confidence,
}

/// The mathematical value of a [`TurnUsageRecord`].
pub struct TurnView {
    pub account_key: Seq<char>,
    pub thread_id: Seq<char>,
    pub turn_id: Seq<char>,
    pub started_at: int,
    pub completed_at: Option<i64>,
    pub model: Option<Seq<char>>,
    pub reasoning_effort: Seq<char>,
    pub speed_mode: Seq<char>,
    pub usage: TokenUsage,
    pub estimated_units: Option<int>,
    pub rate_card_version: Option<Seq<char>>,
    pub source: Seq<char>,
    pub confidence: Confidence,
}

/// The mathematical value of a [`TurnTokenSample`].
pub struct SampleView {
    pub account_key: Seq<char>,
    pub thread_id: Seq<char>,
    pub turn_id: Seq<char>,
    pub segment_no: int,
    pub model: Option<Seq<char>>,
    pub reasoning_effort: Seq<char>,
    pub speed_mode: Seq<char>,
    pub sampled_at: int,
    pub cumulative_tokens: int,
    pub delta_tokens: int,
    pub source: Seq<char>,
    pub confidence: Confidence,
}

impl View for TurnUsageRecord {
    type V = TurnView;

    open spec fn view(&self) -> TurnView {
        TurnView {
            account_key: self.account_key@,
            thread_id: self.thread_id@,
            turn_id: self.turn_id@,
            started_at: self.started_at as int,
            completed_at: self.completed_at,
            model: text_opt(self.model),
            reasoning_effort: self.reasoning_effort@,
            speed_mode: self.speed_mode@,
            usage: self.usage,
            estimated_units: units_of(self.estimated_credits),
            rate_card_version: text_opt(self.rate_card_version),
            source: self.source@,
            confidence: self.confidence,
        }
    }
}

impl View for TurnTokenSample {
    type V = SampleView;

    open spec fn view(&self) -> SampleView {
        SampleView {
            account_key: self.account_key@,
            thread_id: self.thread_id@,
            turn_id: self.turn_id@,
            segment_no: self.segment_no as int,
            model: text_opt(self.model),
            reasoning_effort: self.reasoning_effort@,
            speed_mode: self.speed_mode@,
            sampled_at: self.sampled_at as int,
            cumulative_tokens: self.cumulative_tokens as int,
            delta_tokens: self.delta_tokens as int,
            source: self.source@,
            confidence: self.confidence,
        }
    }
}

/// What a line with the counter has to be recorded as: the turn as it now stands, and the
/// increase of the counter where there is one.
#[derive(Debug)]
pub struct TurnUpdate {
    pub turn: TurnUsageRecord,
    pub sample: Option<TurnTokenSample>,
    pub seen_at: i64,
}

pub struct UpdateView {
    pub turn: TurnView,
    pub sample: Option<SampleView>,
    pub seen_at: int,
}

impl View for TurnUpdate {
    type V = UpdateView;

    open spec fn view(&self) -> UpdateView {
        UpdateView {
            turn: self.turn@,
            sample: match self.sample {
                Some(sample) => Some(sample@),
                None => None,
            },
            seen_at: self.seen_at as int,
        }
    }
}

pub open spec fn update_opt(update: Option<TurnUpdate>) -> Option<UpdateView> {
    match update {
        Some(update) => Some(update@),
        None => None,
    }
}

// ---------------------------------------------------------------------------
// Token arithmetic
// ---------------------------------------------------------------------------

/// How far `current` lies above `start`, count by count.
pub open spec fn usage_above(current: TokenUsage, start: TokenUsage) -> TokenUsage {
    normalized_usage(
        TokenUsage {
            input_tokens: max_int(current.input_tokens - start.input_tokens, 0) as i64,
            cached_input_tokens: max_int(
                current.cached_input_tokens - start.cached_input_tokens,
                0,
            ) as i64,
            output_tokens: max_int(current.output_tokens - start.output_tokens, 0) as i64,
            reasoning_output_tokens: max_int(
                current.reasoning_output_tokens - start.reasoning_output_tokens,
                0,
            ) as i64,
            raw_total_tokens: max_int(current.raw_total_tokens - start.raw_total_tokens, 0) as i64,
        },
    )
}

/// The sum of two usages, count by count.
pub open spec fn usage_sum(left: TokenUsage, right: TokenUsage) -> TokenUsage {
    normalized_usage(
        TokenUsage {
            input_tokens: clamp_i64(left.input_tokens + right.input_tokens) as i64,
            cached_input_tokens: clamp_i64(
                left.cached_input_tokens + right.cached_input_tokens,
            ) as i64,
            output_tokens: clamp_i64(left.output_tokens + right.output_tokens) as i64,
            reasoning_output_tokens: clamp_i64(
                left.reasoning_output_tokens + right.reasoning_output_tokens,
            ) as i64,
            raw_total_tokens: clamp_i64(left.raw_total_tokens + right.raw_total_tokens) as i64,
        },
    )
}

/// No count is negative.
pub open spec fn nonnegative(usage: TokenUsage) -> bool {
    &&& usage.input_tokens >= 0
    &&& usage.cached_input_tokens >= 0
    &&& usage.output_tokens >= 0
    &&& usage.reasoning_output_tokens >= 0
    &&& usage.raw_total_tokens >= 0
}

pub fn subtract(current: &TokenUsage, start: &TokenUsage) -> (r: TokenUsage)
    requires
        nonnegative(*current),
        nonnegative(*start),
    ensures
        r == usage_above(*current, *start),
        is_normal(r),
{
    TokenUsage {
        input_tokens: (current.input_tokens - start.input_tokens).max(0),
        cached_input_tokens: (current.cached_input_tokens - start.cached_input_tokens).max(0),
        output_tokens: (current.output_tokens - start.output_tokens).max(0),
        reasoning_output_tokens: (current.reasoning_output_tokens
            - start.reasoning_output_tokens).max(0),
        raw_total_tokens: (current.raw_total_tokens - start.raw_total_tokens).max(0),
    }.normalized()
}

pub fn add(left: &TokenUsage, right: &TokenUsage) -> (r: TokenUsage)
    ensures
        r == usage_sum(*left, *right),
        is_normal(r),
{
    TokenUsage {
        input_tokens: saturating_add(left.input_tokens, right.input_tokens),
        cached_input_tokens: saturating_add(left.cached_input_tokens, right.cached_input_tokens),
        output_tokens: saturating_add(left.output_tokens, right.output_tokens),
        reasoning_output_tokens: saturating_add(
            left.reasoning_output_tokens,
            right.reasoning_output_tokens,
        ),
        raw_total_tokens: saturating_add(left.raw_total_tokens, right.raw_total_tokens),
    }.normalized()
}

/// A count of a usage: the number under the key, or zero.
pub open spec fn count_of(value: JsonView, key: Seq<char>) -> i64 {
    match integer_of(field(value, key)) {
        Some(n) => n as i64,
        None => 0,
    }
}

pub open spec fn parsed_usage(value: JsonView) -> TokenUsage {
    normalized_usage(
        TokenUsage {
            input_tokens: count_of(value, "input_tokens"@),
            cached_input_tokens: count_of(value, "cached_input_tokens"@),
            output_tokens: count_of(value, "output_tokens"@),
            reasoning_output_tokens: count_of(value, "reasoning_output_tokens"@),
            raw_total_tokens: count_of(value, "total_tokens"@),
        },
    )
}

fn count(value: &Json, key: &str) -> (r: i64)
    ensures
        r == count_of(value@, key@),
{
    match number_i64(value.get(key)) {
        Some(n) => n,
        None => 0,
    }
}

/// The number that stands under a key of an object; where none does, zero.
pub open spec fn told(value: JsonView, key: Seq<char>) -> int {
    match field(value, key) {
        Some(JsonView::Number(n)) => whole_value(n.whole),
        _ => 0,
    }
}

pub open spec fn not_below_zero(n: int) -> int {
    if n < 0 {
        0
    } else {
        n
    }
}

proof fn lemma_whole_fits(value: Option<JsonView>)
    ensures
        integer_of(value) matches Some(n) ==> i64::MIN <= n <= i64::MAX,
{
}

/// Reads a usage: each count is the number under the key of its own name.
pub fn parse_usage(value: &Json) -> (r: TokenUsage)
    ensures
        r == parsed_usage(value@),
        is_normal(r),
        r.input_tokens == not_below_zero(told(value@, "input_tokens"@)),
        r.cached_input_tokens == not_below_zero(told(value@, "cached_input_tokens"@)),
        r.output_tokens == not_below_zero(told(value@, "output_tokens"@)),
        r.reasoning_output_tokens == min_int(
            not_below_zero(told(value@, "reasoning_output_tokens"@)),
            r.output_tokens as int,
        ),
        told(value@, "total_tokens"@) > 0 ==> r.raw_total_tokens == told(value@, "total_tokens"@),
{
    proof {
        lemma_usage_is_read_by_name(value@);
    }
    TokenUsage {
        input_tokens: count(value, "input_tokens"),
        cached_input_tokens: count(value, "cached_input_tokens"),
        output_tokens: count(value, "output_tokens"),
        reasoning_output_tokens: count(value, "reasoning_output_tokens"),
        raw_total_tokens: count(value, "total_tokens"),
    }.normalized()
}

// ---------------------------------------------------------------------------
// Names of effort and speed
// ---------------------------------------------------------------------------

pub open spec fn effort_name(value: Option<Seq<char>>) -> Seq<char> {
    match value {
        Some(value) => {
            let lower = ascii_lower(value);
            if lower == "low"@ || lower == "medium"@ || lower == "high"@ || lower == "xhigh"@
                || lower == "ultra"@ {
                lower
            } else {
                "unknown"@
            }
        },
        None => "unknown"@,
    }
}

pub open spec fn speed_name(value: Option<Seq<char>>) -> Seq<char> {
    match value {
        Some(value) => {
            let lower = ascii_lower(value);
            if lower == "standard"@ || lower == "default"@ {
                "standard"@
            } else if lower == "fast"@ || lower == "priority"@ || lower == "fast_requested"@ {
                "fast_requested"@
            } else {
                "unknown"@
            }
        },
        None => "unknown"@,
    }
}

pub fn normalize_effort(value: Option<String>) -> (r: String)
    ensures
        r@ == effort_name(text_opt(value)),
{
    match value {
        Some(value) => {
            let lower = ascii_lowercase(value.as_str());
            let name = lower.as_str();
            if same_text(name, "low") || same_text(name, "medium") || same_text(name, "high")
                || same_text(name, "xhigh") || same_text(name, "ultra") {
                lower
            } else {
                "unknown".to_owned()
            }
        },
        None => "unknown".to_owned(),
    }
}

pub fn normalize_speed(value: Option<String>) -> (r: String)
    ensures
        r@ == speed_name(text_opt(value)),
{
    match value {
        Some(value) => {
            let lower = ascii_lowercase(value.as_str());
            let name = lower.as_str();
            if same_text(name, "standard") || same_text(name, "default") {
                "standard".to_owned()
            } else if same_text(name, "fast") || same_text(name, "priority") || same_text(
                name,
                "fast_requested",
            ) {
                "fast_requested".to_owned()
            } else {
                "unknown".to_owned()
            }
        },
        None => "unknown".to_owned(),
    }
}

pub open spec fn sample_confidence(
    model: Option<Seq<char>>,
    effort: Seq<char>,
    speed: Seq<char>,
) -> Confidence {
    if model is None {
        Confidence::Low
    } else if effort != "unknown"@ && speed != "unknown"@ {
        Confidence::High
    } else {
        Confidence::Medium
    }
}

pub fn confidence(model: Option<&str>, effort: &str, speed: &str) -> (r: Confidence)
    ensures
        r == sample_confidence(crate::text::str_opt(model), effort@, speed@),
{
    if model.is_some() && !same_text(effort, "unknown") && !same_text(speed, "unknown") {
        Confidence::High
    } else if model.is_some() {
        Confidence::Medium
    } else {
        Confidence::Low
    }
}

// ---------------------------------------------------------------------------
// The state machine
// ---------------------------------------------------------------------------

/// What a line carries.
#[derive(Clone, Copy, Debug, PartialEq, Eq, Structural)]
pub enum LineKind {
    SessionMeta,
    TurnContext,
    TokenCount,
    Other,
}

pub open spec fn kind_of(value: JsonView) -> LineKind {
    match text_of(field(value, "type"@)) {
        Some(name) => if name == "session_meta"@ {
            LineKind::SessionMeta
        } else if name == "turn_context"@ {
            LineKind::TurnContext
        } else if name == "event_msg"@ && text_of(field_of(field(value, "payload"@), "type"@))
            == Some("token_count"@) {
            LineKind::TokenCount
        } else {
            LineKind::Other
        },
        None => LineKind::Other,
    }
}

/// When a line was written: its own timestamp, or else the time at which it is read.
pub open spec fn line_time(value: JsonView, now: i64) -> i64 {
    match timestamp_of(field(value, "timestamp"@)) {
        Some(seconds) => seconds as i64,
        None => now,
    }
}

pub open spec fn or_else_text(first: Option<Seq<char>>, second: Option<Seq<char>>) -> Option<
    Seq<char>,
> {
    match first {
        Some(text) => Some(text),
        None => second,
    }
}

/// The thread of the current turn. A session's identity can come after its first turn, so
/// the session stands in wherever no thread is named.
pub open spec fn resolved_thread(state: CursorView) -> Option<Seq<char>> {
    or_else_text(state.thread_id, state.session_id)
}

pub open spec fn context_turn(value: JsonView) -> Option<Seq<char>> {
    text_of(either_field_of(field(value, "payload"@), "turn_id"@, "turnId"@))
}

pub open spec fn context_thread(state: CursorView, value: JsonView) -> Option<Seq<char>> {
    or_else_text(
        text_of(either_field_of(field(value, "payload"@), "thread_id"@, "threadId"@)),
        state.session_id,
    )
}

/// The context repeats that of the turn that is current already.
pub open spec fn repeats_turn(state: CursorView, value: JsonView) -> bool {
    state.turn_id == context_turn(value) && resolved_thread(state) == context_thread(state, value)
}

pub open spec fn context_effort(value: JsonView) -> Option<Seq<char>> {
    let payload = field(value, "payload"@);
    match or_else_text(
        text_of(field_of(payload, "effort"@)),
        text_of(field_of(payload, "reasoning_effort"@)),
    ) {
        Some(effort) => Some(effort_name(Some(effort))),
        None => None,
    }
}

pub open spec fn context_speed(value: JsonView) -> Option<Seq<char>> {
    let payload = field(value, "payload"@);
    match or_else_text(
        text_of(field_of(payload, "service_tier"@)),
        text_of(field_of(payload, "serviceTier"@)),
    ) {
        Some(speed) => Some(speed_name(Some(speed))),
        None => None,
    }
}

/// After a session's identity.
pub open spec fn after_session(state: CursorView, value: JsonView) -> CursorView {
    CursorView {
        session_id: text_of(either_field_of(field(value, "payload"@), "session_id"@, "id"@)),
        ..state
    }
}

/// After a turn's context. A repeated context renews what is known of the turn and keeps
/// its counters; any other begins a turn of no tokens.
pub open spec fn after_context(state: CursorView, value: JsonView, now: i64) -> CursorView {
    let named = CursorView {
        turn_id: context_turn(value),
        thread_id: context_thread(state, value),
        model: text_of(field_of(field(value, "payload"@), "model"@)),
        reasoning_effort: context_effort(value),
        speed_mode: context_speed(value),
        ..state
    };
    if repeats_turn(state, value) {
        named
    } else {
        CursorView {
            turn_start_totals: state.last_totals,
            turn_started_at: Some(line_time(value, now)),
            turn_accumulated_usage: zero_usage(),
            turn_segment_start_usage: state.last_totals,
            ..named
        }
    }
}

/// The counter that a line carries.
pub open spec fn counter_of(value: JsonView) -> TokenUsage {
    match field_of(field_of(field(value, "payload"@), "info"@), "total_token_usage"@) {
        Some(total) => parsed_usage(total),
        None => zero_usage(),
    }
}

/// A counter below the last one has been reset: a new segment begins, the turn goes on.
pub open spec fn after_reset(state: CursorView, counter: TokenUsage) -> CursorView {
    if counter.raw_total_tokens < state.last_totals.raw_total_tokens {
        CursorView {
            segment_no: clamp_i64(state.segment_no + 1) as i64,
            segment_base_usage: zero_usage(),
            turn_segment_start_usage: zero_usage(),
            last_totals: zero_usage(),
            ..state
        }
    } else {
        state
    }
}

/// The counter that counts: one whose total did not grow repeats the last one.
pub open spec fn effective_counter(state: CursorView, counter: TokenUsage) -> TokenUsage {
    if counter.raw_total_tokens > state.last_totals.raw_total_tokens {
        counter
    } else {
        state.last_totals
    }
}

/// The increase that a counter is.
pub open spec fn counter_increase(state: CursorView, counter: TokenUsage) -> TokenUsage {
    let segment = after_reset(state, counter);
    usage_above(effective_counter(segment, counter), segment.last_totals)
}

/// The counter since the current turn began in the current segment.
pub open spec fn counter_in_segment(state: CursorView, counter: TokenUsage) -> TokenUsage {
    let segment = after_reset(state, counter);
    usage_above(effective_counter(segment, counter), segment.turn_segment_start_usage)
}

/// After a counter.
pub open spec fn after_counter(state: CursorView, counter: TokenUsage) -> CursorView {
    let segment = after_reset(state, counter);
    CursorView {
        turn_accumulated_usage: usage_sum(
            state.turn_accumulated_usage,
            counter_increase(state, counter),
        ),
        last_totals: effective_counter(segment, counter),
        ..segment
    }
}

/// The state after a line.
pub open spec fn after_line(state: CursorView, value: JsonView, now: i64) -> CursorView {
    match kind_of(value) {
        LineKind::SessionMeta => after_session(state, value),
        LineKind::TurnContext => after_context(state, value, now),
        LineKind::TokenCount => after_counter(state, counter_of(value)),
        LineKind::Other => state,
    }
}

/// By how many tokens the counter of a line exceeds the one before it.
pub open spec fn line_delta(state: CursorView, value: JsonView) -> int {
    if kind_of(value) == LineKind::TokenCount {
        counter_increase(state, counter_of(value)).raw_total_tokens as int
    } else {
        0
    }
}

pub open spec fn or_unknown(name: Option<Seq<char>>) -> Seq<char> {
    match name {
        Some(name) => name,
        None => "unknown"@,
    }
}

pub open spec fn thread_name(state: CursorView) -> Seq<char> {
    match resolved_thread(state) {
        Some(thread) => thread,
        None => "unknown-thread"@,
    }
}

pub open spec fn turn_name(state: CursorView, time: i64) -> Seq<char> {
    match state.turn_id {
        Some(turn) => turn,
        None => "unknown:"@ + decimal(time as int),
    }
}

/// The turn as a line with the counter leaves it.
pub open spec fn turn_after(state: CursorView, account_key: Seq<char>, time: i64) -> TurnView {
    let effort = or_unknown(state.reasoning_effort);
    let speed = or_unknown(state.speed_mode);
    let units = estimated_units(state.model, speed, state.turn_accumulated_usage);
    TurnView {
        account_key,
        thread_id: thread_name(state),
        turn_id: turn_name(state, time),
        started_at: match state.turn_started_at {
            Some(started_at) => started_at as int,
            None => time as int,
        },
        completed_at: Some(time),
        model: state.model,
        reasoning_effort: effort,
        speed_mode: speed,
        usage: state.turn_accumulated_usage,
        estimated_units: units,
        rate_card_version: if units is Some {
            Some(CURRENT_RATE_CARD_VERSION@)
        } else {
            None
        },
        source: SOURCE_ROLLOUT@,
        confidence: sample_confidence(state.model, effort, speed),
    }
}

/// What a line has to be recorded as.
pub open spec fn line_update(
    state: CursorView,
    value: JsonView,
    account_key: Seq<char>,
    now: i64,
) -> Option<UpdateView> {
    if kind_of(value) == LineKind::TokenCount {
        let counter = counter_of(value);
        let next = after_counter(state, counter);
        let time = line_time(value, now);
        let turn = turn_after(next, account_key, time);
        let delta = counter_increase(state, counter).raw_total_tokens;
        Some(
            UpdateView {
                turn,
                sample: if delta > 0 {
                    Some(
                        SampleView {
                            account_key,
                            thread_id: turn.thread_id,
                            turn_id: turn.turn_id,
                            segment_no: next.segment_no as int,
                            model: turn.model,
                            reasoning_effort: turn.reasoning_effort,
                            speed_mode: turn.speed_mode,
                            sampled_at: time as int,
                            cumulative_tokens: counter_in_segment(state, counter).raw_total_tokens
                                as int,
                            delta_tokens: delta as int,
                            source: SOURCE_ROLLOUT@,
                            confidence: turn.confidence,
                        },
                    )
                } else {
                    None
                },
                seen_at: time as int,
            },
        )
    } else {
        None
    }
}

fn clone_text_opt(value: &Option<String>) -> (r: Option<String>)
    ensures
        r == *value,
{
    match value {
        Some(text) => Some(text.clone()),
        None => None,
    }
}

fn first_text(first: Option<String>, second: Option<String>) -> (r: Option<String>)
    ensures
        text_opt(r) == or_else_text(text_opt(first), text_opt(second)),
{
    match first {
        Some(text) => Some(text),
        None => second,
    }
}

fn name_or_unknown(name: &Option<String>) -> (r: String)
    ensures
        r@ == or_unknown(text_opt(*name)),
{
    match name {
        Some(name) => name.clone(),
        None => "unknown".to_owned(),
    }
}

pub fn line_kind(value: &Json) -> (r: LineKind)
    ensures
        r == kind_of(value@),
{
    let kind = value.get("type");
    if is_text(kind, "session_meta") {
        LineKind::SessionMeta
    } else if is_text(kind, "turn_context") {
        LineKind::TurnContext
    } else if is_text(kind, "event_msg") && is_text(
        get_of(value.get("payload"), "type"),
        "token_count",
    ) {
        LineKind::TokenCount
    } else {
        LineKind::Other
    }
}

impl CursorState {
    pub fn fresh() -> (r: CursorState)
        ensures
            r@ == fresh_state(),
            r@.wf(),
    {
        CursorState {
            parser_version: ROLLOUT_PARSER_VERSION,
            session_id: None,
            thread_id: None,
            turn_id: None,
            model: None,
            reasoning_effort: None,
            speed_mode: None,
            turn_started_at: None,
            turn_start_totals: TokenUsage::default(),
            segment_no: 0,
            segment_base_usage: TokenUsage::default(),
            turn_segment_start_usage: TokenUsage::default(),
            turn_accumulated_usage: TokenUsage::default(),
            last_totals: TokenUsage::default(),
        }
    }

    /// Whether the counters stand as those of every stored state do.
    pub fn is_well_formed(&self) -> (r: bool)
        ensures
            r == self@.wf(),
    {
        normal(&self.last_totals) && normal(&self.turn_segment_start_usage) && normal(
            &self.turn_accumulated_usage,
        ) && self.turn_segment_start_usage.raw_total_tokens <= self.last_totals.raw_total_tokens
    }

    fn enter_context(&mut self, value: &Json, now: i64)
        requires
            old(self)@.wf(),
        ensures
            final(self)@ == after_context(old(self)@, value@, now),
            final(self)@.wf(),
    {
        let payload = value.get("payload");
        let next_turn_id = string_value(get_either_of(payload, "turn_id", "turnId"));
        let next_thread_id = first_text(
            string_value(get_either_of(payload, "thread_id", "threadId")),
            clone_text_opt(&self.session_id),
        );
        let current_thread_id = first_text(
            clone_text_opt(&self.thread_id),
            clone_text_opt(&self.session_id),
        );
        let same_turn = same_text_opt(&self.turn_id, &next_turn_id) && same_text_opt(
            &current_thread_id,
            &next_thread_id,
        );
        let effort = first_text(
            string_value(get_of(payload, "effort")),
            string_value(get_of(payload, "reasoning_effort")),
        );
        let speed = first_text(
            string_value(get_of(payload, "service_tier")),
            string_value(get_of(payload, "serviceTier")),
        );
        self.turn_id = next_turn_id;
        self.thread_id = next_thread_id;
        self.model = string_value(get_of(payload, "model"));
        self.reasoning_effort = match effort {
            Some(effort) => Some(normalize_effort(Some(effort))),
            None => None,
        };
        self.speed_mode = match speed {
            Some(speed) => Some(normalize_speed(Some(speed))),
            None => None,
        };
        if !same_turn {
            self.turn_start_totals = self.last_totals;
            self.turn_started_at = Some(time_of(value, now));
            self.turn_accumulated_usage = TokenUsage::default();
            self.turn_segment_start_usage = self.last_totals;
        }
    }

    /// Takes the counter over; the result is the increase and the counter since the turn
    /// began in this segment.
    fn count(&mut self, counter: TokenUsage) -> (r: (TokenUsage, TokenUsage))
        requires
            old(self)@.wf(),
            is_normal(counter),
        ensures
            final(self)@ == after_counter(old(self)@, counter),
            final(self)@.wf(),
            r.0 == counter_increase(old(self)@, counter),
            r.1 == counter_in_segment(old(self)@, counter),
    {
        if counter.raw_total_tokens < self.last_totals.raw_total_tokens {
            self.segment_no = saturating_add(self.segment_no, 1);
            self.segment_base_usage = TokenUsage::default();
            self.turn_segment_start_usage = TokenUsage::default();
            self.last_totals = TokenUsage::default();
        }
        let effective = if counter.raw_total_tokens > self.last_totals.raw_total_tokens {
            counter
        } else {
            self.last_totals
        };
        let delta = subtract(&effective, &self.last_totals);
        let cumulative = subtract(&effective, &self.turn_segment_start_usage);
        self.turn_accumulated_usage = self::add(&self.turn_accumulated_usage, &delta);
        self.last_totals = effective;
        (delta, cumulative)
    }

    fn turn_record(&self, account_key: &str, time: i64) -> (r: TurnUsageRecord)
        ensures
            r@ == turn_after(self@, account_key@, time),
    {
        let thread_id = match first_text(
            clone_text_opt(&self.thread_id),
            clone_text_opt(&self.session_id),
        ) {
            Some(thread) => thread,
            None => "unknown-thread".to_owned(),
        };
        let turn_id = match &self.turn_id {
            Some(turn) => turn.clone(),
            None => joined("unknown:", decimal_text(time).as_str()),
        };
        let speed = name_or_unknown(&self.speed_mode);
        let effort = name_or_unknown(&self.reasoning_effort);
        let model = match &self.model {
            Some(model) => Some(model.as_str()),
            None => None,
        };
        let credits = RateCard::current().calculate(
            model,
            speed.as_str(),
            &self.turn_accumulated_usage,
        );
        let confidence = confidence(model, effort.as_str(), speed.as_str());
        TurnUsageRecord {
            account_key: account_key.to_owned(),
            thread_id,
            turn_id,
            started_at: match self.turn_started_at {
                Some(started_at) => started_at,
                None => time,
            },
            completed_at: Some(time),
            model: clone_text_opt(&self.model),
            reasoning_effort: effort,
            speed_mode: speed,
            usage: self.turn_accumulated_usage,
            estimated_credits: credits,
            rate_card_version: if credits.is_some() {
                Some(CURRENT_RATE_CARD_VERSION.to_owned())
            } else {
                None
            },
            source: SOURCE_ROLLOUT.to_owned(),
            confidence,
        }
    }
}

fn normal(usage: &TokenUsage) -> (r: bool)
    ensures
        r == is_normal(*usage),
{
    usage.input_tokens >= 0 && usage.cached_input_tokens >= 0 && usage.reasoning_output_tokens >= 0
        && usage.reasoning_output_tokens <= usage.output_tokens && usage.raw_total_tokens >= 0 && (
    usage.raw_total_tokens != 0 || (usage.input_tokens == 0 && usage.output_tokens == 0))
}

fn time_of(value: &Json, now: i64) -> (r: i64)
    ensures
        r == line_time(value@, now),
{
    match parse_timestamp(value.get("timestamp")) {
        Some(seconds) => seconds,
        None => now,
    }
}

fn counter_in(value: &Json) -> (r: TokenUsage)
    ensures
        r == counter_of(value@),
        is_normal(r),
{
    match get_of(get_of(value.get("payload"), "info"), "total_token_usage") {
        Some(total) => parse_usage(total),
        None => TokenUsage::default(),
    }
}

/// Takes one line over, already parsed. The result is what has to be recorded of it.
pub fn process_value(value: &Json, state: &mut CursorState, account_key: &str, now: i64) -> (r:
    Option<TurnUpdate>)
    requires
        old(state)@.wf(),
    ensures
        final(state)@ == after_line(old(state)@, value@, now),
        final(state)@.wf(),
        update_opt(r) == line_update(old(state)@, value@, account_key@, now),
{
    match line_kind(value) {
        LineKind::SessionMeta => {
            state.session_id = string_value(get_either_of(value.get("payload"), "session_id", "id"));
            None
        },
        LineKind::TurnContext => {
            state.enter_context(value, now);
            None
        },
        LineKind::TokenCount => {
            let (delta, cumulative) = state.count(counter_in(value));
            let time: i64 = time_of(value, now);
            let turn = state.turn_record(account_key, time);
            let sample = if delta.raw_total_tokens > 0 {
                Some(
                    TurnTokenSample {
                        account_key: account_key.to_owned(),
                        thread_id: turn.thread_id.clone(),
                        turn_id: turn.turn_id.clone(),
                        segment_no: state.segment_no,
                        model: clone_text_opt(&turn.model),
                        reasoning_effort: turn.reasoning_effort.clone(),
                        speed_mode: turn.speed_mode.clone(),
                        sampled_at: time,
                        cumulative_tokens: cumulative.raw_total_tokens,
                        delta_tokens: delta.raw_total_tokens,
                        source: SOURCE_ROLLOUT.to_owned(),
                        confidence: turn.confidence,
                    },
                )
            } else {
                None
            };
            Some(TurnUpdate { turn, sample, seen_at: time })
        },
        LineKind::Other => None,
    }
}

/// The state after a line of text: a line that is not JSON leaves it as it is.
#[verifier::opaque]
pub open spec fn after_text(state: CursorView, line: Seq<char>, now: i64) -> CursorView {
    match parsed_json(line) {
        Ok(value) => after_line(state, value, now),
        Err(_) => state,
    }
}

/// What a line of text has to be recorded as, or why it is not JSON.
#[verifier::opaque]
pub open spec fn text_update(
    state: CursorView,
    line: Seq<char>,
    account_key: Seq<char>,
    now: i64,
) -> Result<Option<UpdateView>, Seq<char>> {
    match parsed_json(line) {
        Ok(value) => Ok(line_update(state, value, account_key, now)),
        Err(message) => Err(message),
    }
}

pub open spec fn update_result(r: Result<Option<TurnUpdate>, String>) -> Result<
    Option<UpdateView>,
    Seq<char>,
> {
    match r {
        Ok(update) => Ok(update_opt(update)),
        Err(message) => Err(message@),
    }
}

/// Takes one line over. The error is the message of the JSON parser.
pub fn process_line(line: &str, state: &mut CursorState, account_key: &str, now: i64) -> (r: Result<
    Option<TurnUpdate>,
    String,
>)
    requires
        old(state)@.wf(),
    ensures
        final(state)@ == after_text(old(state)@, line@, now),
        final(state)@.wf(),
        update_result(r) == text_update(old(state)@, line@, account_key@, now),
{
    proof {
        reveal(after_text);
        reveal(text_update);
    }
    match parse_json(line) {
        Ok(value) => Ok(process_value(&value, state, account_key, now)),
        Err(message) => Err(message),
    }
}

// ---------------------------------------------------------------------------
// Laws
// ---------------------------------------------------------------------------

/// The state after a run of lines.
pub open spec fn after_lines(state: CursorView, lines: Seq<JsonView>, now: i64) -> CursorView
    decreases lines.len(),
{
    if lines.len() == 0 {
        state
    } else {
        after_line(after_lines(state, lines.drop_last(), now), lines.last(), now)
    }
}

/// The line begins a turn.
pub open spec fn begins_turn(state: CursorView, value: JsonView) -> bool {
    kind_of(value) == LineKind::TurnContext && !repeats_turn(state, value)
}

/// The tokens of the turn that is current after a run of lines: what it had before them,
/// or nothing from the line on that began it, and every increase of the counter since.
pub open spec fn turn_tokens(state: CursorView, lines: Seq<JsonView>, now: i64) -> int
    decreases lines.len(),
{
    if lines.len() == 0 {
        state.turn_accumulated_usage.raw_total_tokens as int
    } else {
        let before = after_lines(state, lines.drop_last(), now);
        if begins_turn(before, lines.last()) {
            0
        } else {
            turn_tokens(state, lines.drop_last(), now) + line_delta(before, lines.last())
        }
    }
}

/// Every line leads from a well-formed state to a well-formed one.
pub proof fn lemma_line_keeps_wf(state: CursorView, value: JsonView, now: i64)
    requires
        state.wf(),
    ensures
        after_line(state, value, now).wf(),
{
}

/// The increase of a counter is never negative. It is what the counter has above the last
/// one of its segment, where it has anything above it.
pub proof fn lemma_increase_is_counter_growth(state: CursorView, counter: TokenUsage)
    requires
        state.wf(),
        is_normal(counter),
    ensures
        ({
            let delta = counter_increase(state, counter).raw_total_tokens;
            let last = state.last_totals.raw_total_tokens;
            if counter.raw_total_tokens < last {
                delta == counter.raw_total_tokens
            } else {
                delta == counter.raw_total_tokens - last
            }
        }),
{
}

/// The canonical total of a turn is the sum of the increases that its timeline holds: over
/// any run of lines, whatever resets and repetitions it has, the accumulated total is the
/// sum of the increases since the turn began (cut to the greatest `i64`).
pub proof fn lemma_turn_total_is_sum_of_deltas(state: CursorView, lines: Seq<JsonView>, now: i64)
    requires
        state.wf(),
    ensures
        after_lines(state, lines, now).wf(),
        turn_tokens(state, lines, now) >= 0,
        after_lines(state, lines, now).turn_accumulated_usage.raw_total_tokens == min_int(
            turn_tokens(state, lines, now),
            i64::MAX as int,
        ),
    decreases lines.len(),
{
    if lines.len() > 0 {
        lemma_turn_total_is_sum_of_deltas(state, lines.drop_last(), now);
        let before = after_lines(state, lines.drop_last(), now);
        lemma_line_keeps_wf(before, lines.last(), now);
        if kind_of(lines.last()) == LineKind::TokenCount {
            lemma_increase_is_counter_growth(before, counter_of(lines.last()));
        }
    }
}

/// A counter that repeats the last total changes nothing and yields no sample.
pub proof fn lemma_repeated_counter_is_no_observation(
    state: CursorView,
    value: JsonView,
    account_key: Seq<char>,
    now: i64,
)
    requires
        state.wf(),
        kind_of(value) == LineKind::TokenCount,
        counter_of(value).raw_total_tokens == state.last_totals.raw_total_tokens,
    ensures
        after_line(state, value, now) == state,
        line_delta(state, value) == 0,
        line_update(state, value, account_key, now)->0.sample is None,
{
    let counter = counter_of(value);
    assert(usage_sum(state.turn_accumulated_usage, zero_usage()) == state.turn_accumulated_usage);
    assert(counter_increase(state, counter) == zero_usage());
    assert(after_line(state, value, now) =~= state);
}

/// A reset of the counter begins a segment and keeps the turn with all its tokens: the
/// counter's new total is added to them.
pub proof fn lemma_reset_keeps_turn_tokens(state: CursorView, value: JsonView, now: i64)
    requires
        state.wf(),
        kind_of(value) == LineKind::TokenCount,
        counter_of(value).raw_total_tokens < state.last_totals.raw_total_tokens,
    ensures
        ({
            let next = after_line(state, value, now);
            &&& next.segment_no == clamp_i64(state.segment_no + 1)
            &&& next.turn_id == state.turn_id
            &&& resolved_thread(next) == resolved_thread(state)
            &&& next.turn_started_at == state.turn_started_at
            &&& next.turn_accumulated_usage.raw_total_tokens == clamp_i64(
                state.turn_accumulated_usage.raw_total_tokens
                    + counter_of(value).raw_total_tokens,
            )
        }),
{
}

/// A repeated context keeps every counter of the turn.
pub proof fn lemma_repeated_context_keeps_counters(state: CursorView, value: JsonView, now: i64)
    requires
        kind_of(value) == LineKind::TurnContext,
        repeats_turn(state, value),
    ensures
        ({
            let next = after_line(state, value, now);
            &&& next.turn_accumulated_usage == state.turn_accumulated_usage
            &&& next.turn_segment_start_usage == state.turn_segment_start_usage
            &&& next.last_totals == state.last_totals
            &&& next.segment_no == state.segment_no
            &&& next.turn_started_at == state.turn_started_at
        }),
{
}

/// A context that is read twice, with a session's identity between, is a repetition the
/// second time: the session that comes late does not reset the turn.
pub proof fn lemma_late_session_does_not_reset_turn(
    state: CursorView,
    context: JsonView,
    session: JsonView,
    now: i64,
)
    requires
        kind_of(context) == LineKind::TurnContext,
        kind_of(session) == LineKind::SessionMeta,
        state.session_id is None,
    ensures
        ({
            let entered = after_line(state, context, now);
            let named = after_line(entered, session, now);
            &&& repeats_turn(named, context)
            &&& after_line(named, context, now).turn_accumulated_usage
                == entered.turn_accumulated_usage
        }),
{
}

/// The samples of one turn are told apart by segment and cumulative total: of two in a row
/// the later one has a greater cumulative total or a greater segment.
pub proof fn lemma_samples_advance(
    state: CursorView,
    value: JsonView,
    account_key: Seq<char>,
    now: i64,
)
    requires
        state.wf(),
        line_delta(state, value) > 0,
    ensures
        ({
            let next = after_line(state, value, now);
            let sample = line_update(state, value, account_key, now)->0.sample->0;
            let reached = state.last_totals.raw_total_tokens
                - state.turn_segment_start_usage.raw_total_tokens;
            &&& sample.delta_tokens == line_delta(state, value)
            &&& sample.cumulative_tokens == next.last_totals.raw_total_tokens
                - next.turn_segment_start_usage.raw_total_tokens
            &&& sample.cumulative_tokens >= sample.delta_tokens
            &&& sample.segment_no == next.segment_no
            &&& if counter_of(value).raw_total_tokens < state.last_totals.raw_total_tokens {
                next.segment_no == clamp_i64(state.segment_no + 1)
            } else {
                next.segment_no == state.segment_no && sample.cumulative_tokens == reached
                    + sample.delta_tokens
            }
        }),
{
    lemma_increase_is_counter_growth(state, counter_of(value));
}

/// Each count of a usage is the number under the key of its own name, not below zero. The
/// reasoning is at most the output, and where no total is told, the input and the output are
/// the total.
pub proof fn lemma_usage_is_read_by_name(value: JsonView)
    ensures
        ({
            let usage = parsed_usage(value);
            let input = told(value, "input_tokens"@);
            let output = told(value, "output_tokens"@);
            let total = told(value, "total_tokens"@);
            &&& usage.input_tokens == not_below_zero(input)
            &&& usage.cached_input_tokens == not_below_zero(told(value, "cached_input_tokens"@))
            &&& usage.output_tokens == not_below_zero(output)
            &&& usage.reasoning_output_tokens == min_int(
                not_below_zero(told(value, "reasoning_output_tokens"@)),
                not_below_zero(output),
            )
            &&& total > 0 ==> usage.raw_total_tokens == total
            &&& total <= 0 ==> usage.raw_total_tokens == min_int(
                not_below_zero(input) + not_below_zero(output),
                i64::MAX as int,
            )
        }),
{
    lemma_whole_fits(field(value, "input_tokens"@));
    lemma_whole_fits(field(value, "cached_input_tokens"@));
    lemma_whole_fits(field(value, "output_tokens"@));
    lemma_whole_fits(field(value, "reasoning_output_tokens"@));
    lemma_whole_fits(field(value, "total_tokens"@));
}

/// A line that carries the counter: an event of a token count.
pub open spec fn tells_counter(value: JsonView) -> bool {
    &&& text_of(field(value, "type"@)) == Some("event_msg"@)
    &&& text_of(field_of(field(value, "payload"@), "type"@)) == Some("token_count"@)
}

/// What a line says under the given key of its counter.
pub open spec fn counter_told(value: JsonView, key: Seq<char>) -> int {
    match field_of(field_of(field(value, "payload"@), "info"@), "total_token_usage"@) {
        Some(total) => told(total, key),
        None => 0,
    }
}

/// No count of the line's counter lies below the last one, its total lies above it, and no
/// more of its growth is reasoning than is output.
pub open spec fn counter_grows(last: TokenUsage, value: JsonView) -> bool {
    &&& counter_told(value, "input_tokens"@) >= last.input_tokens
    &&& counter_told(value, "cached_input_tokens"@) >= last.cached_input_tokens
    &&& counter_told(value, "output_tokens"@) >= last.output_tokens
    &&& counter_told(value, "reasoning_output_tokens"@) >= last.reasoning_output_tokens
    &&& counter_told(value, "total_tokens"@) > last.raw_total_tokens
    &&& counter_told(value, "reasoning_output_tokens"@) - last.reasoning_output_tokens
        <= counter_told(value, "output_tokens"@) - last.output_tokens
    &&& counter_told(value, "reasoning_output_tokens"@) <= counter_told(value, "output_tokens"@)
}

/// The usage by which `after` lies above `before`, count by count.
pub open spec fn is_growth(growth: TokenUsage, before: TokenUsage, after: TokenUsage) -> bool {
    &&& growth.input_tokens == after.input_tokens - before.input_tokens
    &&& growth.cached_input_tokens == after.cached_input_tokens - before.cached_input_tokens
    &&& growth.output_tokens == after.output_tokens - before.output_tokens
    &&& growth.reasoning_output_tokens == after.reasoning_output_tokens
        - before.reasoning_output_tokens
    &&& growth.raw_total_tokens == after.raw_total_tokens - before.raw_total_tokens
}

/// A counter that grew is the last one from then on, count by count.
pub proof fn lemma_growing_counter_is_kept(state: CursorView, value: JsonView, now: i64)
    requires
        state.wf(),
        tells_counter(value),
        counter_grows(state.last_totals, value),
    ensures
        ({
            let last = after_line(state, value, now).last_totals;
            &&& last.input_tokens == counter_told(value, "input_tokens"@)
            &&& last.cached_input_tokens == counter_told(value, "cached_input_tokens"@)
            &&& last.output_tokens == counter_told(value, "output_tokens"@)
            &&& last.reasoning_output_tokens == counter_told(value, "reasoning_output_tokens"@)
            &&& last.raw_total_tokens == counter_told(value, "total_tokens"@)
        }),
{
    lemma_counter_line(value);
    match field_of(field_of(field(value, "payload"@), "info"@), "total_token_usage"@) {
        Some(total) => lemma_usage_is_read_by_name(total),
        None => {},
    }
}

/// A line that tells a counter is of that kind, and of no other.
proof fn lemma_counter_line(value: JsonView)
    requires
        tells_counter(value),
    ensures
        kind_of(value) == LineKind::TokenCount,
{
    reveal_strlit("event_msg");
    reveal_strlit("session_meta");
    reveal_strlit("turn_context");
    assert("event_msg"@.len() == 9);
    assert("session_meta"@.len() == 12);
    assert("turn_context"@.len() == 12);
}

/// Over the lines, every counter grows and no turn begins: each line is a counter that lies
/// above the last one, or says nothing of turns and counters.
pub open spec fn counters_grow(state: CursorView, lines: Seq<JsonView>, now: i64) -> bool
    decreases lines.len(),
{
    lines.len() > 0 ==> {
        let before = after_lines(state, lines.drop_last(), now);
        let line = lines.last();
        &&& counters_grow(state, lines.drop_last(), now)
        &&& tells_counter(line) ==> counter_grows(before.last_totals, line)
        &&& text_of(field(line, "type"@)) != Some("turn_context"@)
    }
}

/// Over a run of counters without a reset, a turn that had no tokens when the run began has
/// in each count what the last counter has above the first: the cached input is the last
/// cached counter less the one at the turn's beginning, and so are the others.
pub proof fn lemma_turn_is_counter_growth(state: CursorView, lines: Seq<JsonView>, now: i64)
    requires
        state.wf(),
        state.turn_accumulated_usage == zero_usage(),
        counters_grow(state, lines, now),
    ensures
        after_lines(state, lines, now).wf(),
        is_growth(
            after_lines(state, lines, now).turn_accumulated_usage,
            state.last_totals,
            after_lines(state, lines, now).last_totals,
        ),
    decreases lines.len(),
{
    if lines.len() > 0 {
        let line = lines.last();
        let before = after_lines(state, lines.drop_last(), now);
        lemma_turn_is_counter_growth(state, lines.drop_last(), now);
        lemma_line_keeps_wf(before, line, now);
        if tells_counter(line) {
            lemma_counter_line(line);
            lemma_growing_counter_is_kept(before, line, now);
        }
    }
}

/// What is recorded of a line with the counter is the turn with what it accumulated, priced
/// by the card, and the growth of the total. A line without a counter records nothing.
pub proof fn lemma_counter_line_is_recorded(
    state: CursorView,
    value: JsonView,
    account_key: Seq<char>,
    now: i64,
)
    requires
        state.wf(),
    ensures
        line_update(state, value, account_key, now) is Some <==> tells_counter(value),
        line_update(state, value, account_key, now) matches Some(update) ==> {
            let next = after_line(state, value, now);
            let time = match timestamp_of(field(value, "timestamp"@)) {
                Some(seconds) => seconds as i64,
                None => now,
            };
            &&& update.seen_at == time
            &&& update.turn.account_key == account_key
            &&& update.turn.usage == next.turn_accumulated_usage
            &&& update.turn.completed_at == Some(time)
            &&& update.turn.model == state.model
            &&& state.turn_started_at matches Some(at) ==> update.turn.started_at == at
            &&& state.turn_started_at is None ==> update.turn.started_at == time
            &&& state.turn_id matches Some(turn) ==> update.turn.turn_id == turn
            &&& state.thread_id matches Some(thread) ==> update.turn.thread_id == thread
            &&& state.thread_id is None ==> (state.session_id matches Some(session)
                ==> update.turn.thread_id == session)
            &&& state.reasoning_effort matches Some(effort) ==> update.turn.reasoning_effort
                == effort
            &&& state.speed_mode matches Some(speed) ==> update.turn.speed_mode == speed
            &&& update.turn.estimated_units == estimated_units(
                state.model,
                update.turn.speed_mode,
                next.turn_accumulated_usage,
            )
            &&& update.turn.rate_card_version is Some <==> update.turn.estimated_units is Some
            &&& update.turn.source == SOURCE_ROLLOUT@
            &&& update.sample matches Some(sample) ==> {
                &&& sample.account_key == account_key
                &&& sample.thread_id == update.turn.thread_id
                &&& sample.turn_id == update.turn.turn_id
                &&& sample.model == update.turn.model
                &&& sample.reasoning_effort == update.turn.reasoning_effort
                &&& sample.speed_mode == update.turn.speed_mode
                &&& sample.sampled_at == time
                &&& sample.segment_no == next.segment_no
                &&& sample.confidence == update.turn.confidence
                &&& sample.source == SOURCE_ROLLOUT@
                &&& sample.delta_tokens > 0
            }
            &&& counter_grows(state.last_totals, value) ==> {
                &&& update.sample is Some
                &&& update.sample->0.delta_tokens == counter_told(value, "total_tokens"@)
                    - state.last_totals.raw_total_tokens
                &&& update.sample->0.cumulative_tokens == counter_told(value, "total_tokens"@)
                    - state.turn_segment_start_usage.raw_total_tokens
            }
        },
{
    reveal_strlit("event_msg");
    reveal_strlit("session_meta");
    reveal_strlit("turn_context");
    assert("event_msg"@.len() == 9);
    assert("session_meta"@.len() == 12);
    assert("turn_context"@.len() == 12);
    if tells_counter(value) && counter_grows(state.last_totals, value) {
        lemma_growing_counter_is_kept(state, value, now);
        lemma_increase_is_counter_growth(state, counter_of(value));
    }
}

/// A session's identity is named by its line and changes nothing else.
pub proof fn lemma_session_is_read(state: CursorView, value: JsonView, now: i64)
    requires
        text_of(field(value, "type"@)) == Some("session_meta"@),
    ensures
        ({
            let next = after_line(state, value, now);
            let payload = field(value, "payload"@);
            let named = field_of(payload, "session_id"@);
            &&& named is Some ==> next.session_id == text_of(named)
            &&& named is None ==> next.session_id == text_of(field_of(payload, "id"@))
            &&& next == (CursorView { session_id: next.session_id, ..state })
        }),
{
}

/// A turn's context names the turn, its thread, model, effort and speed, each under its own
/// key. One that names another turn begins a turn of no tokens at the counter's last stand.
pub proof fn lemma_context_is_read(state: CursorView, value: JsonView, now: i64)
    requires
        text_of(field(value, "type"@)) == Some("turn_context"@),
    ensures
        ({
            let next = after_line(state, value, now);
            let payload = field(value, "payload"@);
            let turn = field_of(payload, "turn_id"@);
            let thread = field_of(payload, "thread_id"@);
            let effort = text_of(field_of(payload, "effort"@));
            let tier = text_of(field_of(payload, "service_tier"@));
            &&& next.model == text_of(field_of(payload, "model"@))
            &&& turn is Some ==> next.turn_id == text_of(turn)
            &&& turn is None ==> next.turn_id == text_of(field_of(payload, "turnId"@))
            &&& text_of(thread) is Some ==> next.thread_id == text_of(thread)
            &&& thread is None && text_of(field_of(payload, "threadId"@)) is Some
                ==> next.thread_id == text_of(field_of(payload, "threadId"@))
            &&& thread is None && text_of(field_of(payload, "threadId"@)) is None
                ==> next.thread_id == state.session_id
            &&& effort matches Some(name) ==> next.reasoning_effort == Some(
                effort_name(Some(name)),
            )
            &&& effort is None ==> (text_of(
                field_of(payload, "reasoning_effort"@),
            ) matches Some(name) ==> next.reasoning_effort == Some(effort_name(Some(name))))
            &&& tier matches Some(name) ==> next.speed_mode == Some(speed_name(Some(name)))
            &&& tier is None ==> (text_of(field_of(payload, "serviceTier"@)) matches Some(name)
                ==> next.speed_mode == Some(speed_name(Some(name))))
            &&& next.session_id == state.session_id
            &&& next.last_totals == state.last_totals
            &&& next.segment_no == state.segment_no
            &&& next.turn_id != state.turn_id ==> {
                &&& next.turn_accumulated_usage == zero_usage()
                &&& next.turn_segment_start_usage == state.last_totals
                &&& next.turn_start_totals == state.last_totals
                &&& next.turn_started_at == Some(
                    match timestamp_of(field(value, "timestamp"@)) {
                        Some(seconds) => seconds as i64,
                        None => now,
                    },
                )
            }
            &&& next.turn_id == state.turn_id && state.thread_id is Some && next.thread_id
                == state.thread_id ==> {
                &&& next.turn_accumulated_usage == state.turn_accumulated_usage
                &&& next.turn_started_at == state.turn_started_at
            }
        }),
{
    reveal_strlit("session_meta");
    reveal_strlit("turn_context");
    assert("session_meta"@[0] == 's');
    assert("turn_context"@[0] == 't');
}

/// A line of any other kind changes nothing.
pub proof fn lemma_other_line_is_skipped(state: CursorView, value: JsonView, now: i64)
    requires
        text_of(field(value, "type"@)) != Some("session_meta"@),
        text_of(field(value, "type"@)) != Some("turn_context"@),
        !tells_counter(value),
    ensures
        after_line(state, value, now) == state,
{
}

/// The name of an effort or a speed is one of those that are known: whatever is told is kept
/// where it is known, whatever its case, and is unknown otherwise.
pub proof fn lemma_effort_is_kept(name: Seq<char>)
    ensures
        ({
            let lower = ascii_lower(name);
            let known = lower == "low"@ || lower == "medium"@ || lower == "high"@ || lower
                == "xhigh"@ || lower == "ultra"@;
            &&& known ==> effort_name(Some(name)) == lower
            &&& !known ==> effort_name(Some(name)) == "unknown"@
        }),
        effort_name(None) == "unknown"@,
{
}

// ---------------------------------------------------------------------------
// Finding the logs
// ---------------------------------------------------------------------------

/// The directories under a home that hold session logs, of those that exist.
pub open spec fn root_paths(home: Option<Seq<char>>, sessions: bool, archived: bool) -> Seq<
    Seq<char>,
> {
    match home {
        Some(home) => {
            let first = if sessions {
                seq![path_joined(home, ".codex/sessions"@)]
            } else {
                Seq::empty()
            };
            if archived {
                first.push(path_joined(home, ".codex/archived_sessions"@))
            } else {
                first
            }
        },
        None => Seq::empty(),
    }
}

pub open spec fn string_views(rows: Seq<String>) -> Seq<Seq<char>> {
    Seq::new(rows.len(), |i: int| rows[i]@)
}

pub fn roots(home: Option<&str>, sessions_exists: bool, archived_exists: bool) -> (r: Vec<String>)
    ensures
        string_views(r@) == root_paths(str_opt(home), sessions_exists, archived_exists),
{
    let mut r: Vec<String> = Vec::new();
    if let Some(home) = home {
        if sessions_exists {
            r.push(join_path(home, ".codex/sessions"));
        }
        if archived_exists {
            r.push(join_path(home, ".codex/archived_sessions"));
        }
    }
    assert(string_views(r@) =~= root_paths(str_opt(home), sessions_exists, archived_exists));
    r
}

/// The directory to watch, where it exists.
pub fn rollout_watch_roots(home: Option<&str>, exists: bool) -> (r: Vec<String>)
    ensures
        string_views(r@) == (match str_opt(home) {
            Some(home) => if exists {
                seq![path_joined(home, ".codex"@)]
            } else {
                Seq::empty()
            },
            None => Seq::empty(),
        }),
{
    let mut r: Vec<String> = Vec::new();
    if let Some(home) = home {
        if exists {
            r.push(join_path(home, ".codex"));
        }
    }
    assert(string_views(r@) =~= (match str_opt(home) {
        Some(home) => if exists {
            seq![path_joined(home, ".codex"@)]
        } else {
            Seq::empty()
        },
        None => Seq::empty(),
    }));
    r
}

/// A log is told by its extension.
pub open spec fn is_log_path(path: Seq<char>) -> bool {
    extension_of(path) == Some("jsonl"@)
}

pub fn is_rollout_path(path: &str) -> (r: bool)
    ensures
        r == is_log_path(path@),
{
    match extension(path) {
        Some(found) => same_text(found.as_str(), "jsonl"),
        None => false,
    }
}

/// The logs among the files that were found, and one more that is named, in order and each
/// once.
pub fn discover_rollout_files(found: &Vec<String>, extra: Option<&str>) -> (r: Vec<String>)
    ensures
        paths_ascend(r@),
        forall|path: Seq<char>| #[trigger]
            lists(r@, path) <==> (lists(found@, path) && is_log_path(path)) || str_opt(extra)
                == Some(path),
{
    let ghost all = found@;
    let mut kept: Vec<String> = Vec::new();
    let mut i: usize = 0;
    while i < found.len()
        invariant
            i <= found.len(),
            all == found@,
            forall|path: Seq<char>| #[trigger]
                lists(kept@, path) <==> lists(all.take(i as int), path) && is_log_path(path),
        decreases found.len() - i,
    {
        let ghost before = kept@;
        let ghost front = all.take(i as int);
        let ghost longer = all.take(i + 1);
        let ghost name = all[i as int]@;
        if is_rollout_path(found[i].as_str()) {
            kept.push(found[i].clone());
        }
        proof {
            assert forall|path: Seq<char>| #[trigger]
                lists(kept@, path) <==> lists(longer, path) && is_log_path(path) by {
                assert(lists(before, path) <==> lists(front, path) && is_log_path(path));
                if lists(front, path) {
                    let k = choose|k: int| 0 <= k < front.len() && (#[trigger] front[k])@ == path;
                    assert(longer[k]@ == path);
                }
                if lists(longer, path) {
                    let k = choose|k: int| 0 <= k < longer.len() && (#[trigger] longer[k])@ == path;
                    if k < i {
                        assert(front[k]@ == path);
                    } else {
                        assert(path == name);
                    }
                }
                if path == name {
                    assert(longer[i as int]@ == path);
                    if is_log_path(path) {
                        assert(kept@[before.len() as int]@ == path);
                    }
                }
                if lists(before, path) {
                    let k = choose|k: int| 0 <= k < before.len() && (#[trigger] before[k])@ == path;
                    assert(kept@[k]@ == path);
                }
                if lists(kept@, path) {
                    let k = choose|k: int| 0 <= k < kept@.len() && (#[trigger] kept@[k])@ == path;
                    if k < before.len() {
                        assert(before[k]@ == path);
                    } else {
                        assert(path == name);
                    }
                }
            }
        }
        i += 1;
    }
    assert(all.take(all.len() as int) =~= all);
    let ghost logs = kept@;
    if let Some(path) = extra {
        kept.push(path.to_owned());
    }
    proof {
        assert forall|path: Seq<char>| #[trigger]
            lists(kept@, path) <==> lists(logs, path) || str_opt(extra) == Some(path) by {
            if lists(logs, path) {
                let k = choose|k: int| 0 <= k < logs.len() && (#[trigger] logs[k])@ == path;
                assert(kept@[k]@ == path);
            }
            if str_opt(extra) == Some(path) {
                assert(kept@[logs.len() as int]@ == path);
            }
            if lists(kept@, path) {
                let k = choose|k: int| 0 <= k < kept@.len() && (#[trigger] kept@[k])@ == path;
                if k < logs.len() {
                    assert(logs[k]@ == path);
                }
            }
        }
    }
    sort_paths(&kept)
}

/// The logs that the standalone collector finds. No account is named here: who owns a log is
/// decided by what is read from it.
pub fn discover_rollout_files_for_collector(found: &Vec<String>) -> (r: Vec<String>)
    ensures
        paths_ascend(r@),
        forall|path: Seq<char>| #[trigger]
            lists(r@, path) <==> lists(found@, path) && is_log_path(path),
{
    discover_rollout_files(found, None)
}

/// The logs to catch up on at the start: those that were found, and those that are known and
/// still there.
pub fn startup_rollout_files(found: &Vec<String>, registered: &Vec<String>) -> (r: Vec<String>)
    ensures
        paths_ascend(r@),
        forall|path: Seq<char>| #[trigger]
            lists(r@, path) <==> (lists(found@, path) || lists(registered@, path)) && is_log_path(
                path,
            ),
{
    let mut all: Vec<String> = Vec::new();
    let mut i: usize = 0;
    while i < found.len()
        invariant
            i <= found.len(),
            all@ == found@.take(i as int),
        decreases found.len() - i,
    {
        all.push(found[i].clone());
        assert(found@.take(i + 1) =~= found@.take(i as int).push(found@[i as int]));
        i += 1;
    }
    assert(found@.take(found@.len() as int) =~= found@);
    let mut j: usize = 0;
    assert(found@ + registered@.take(0) =~= found@);
    while j < registered.len()
        invariant
            j <= registered.len(),
            all@ == found@ + registered@.take(j as int),
        decreases registered.len() - j,
    {
        all.push(registered[j].clone());
        assert(found@ + registered@.take(j + 1) =~= (found@ + registered@.take(j as int)).push(
            registered@[j as int],
        ));
        j += 1;
    }
    assert(registered@.take(registered@.len() as int) =~= registered@);
    proof {
        assert forall|path: Seq<char>| #[trigger]
            lists(all@, path) <==> lists(found@, path) || lists(registered@, path) by {
            if lists(all@, path) {
                let k = choose|k: int| 0 <= k < all@.len() && (#[trigger] all@[k])@ == path;
                if k < found@.len() {
                    assert(found@[k]@ == path);
                } else {
                    assert(registered@[k - found@.len()]@ == path);
                }
            }
            if lists(found@, path) {
                let k = choose|k: int| 0 <= k < found@.len() && (#[trigger] found@[k])@ == path;
                assert(all@[k]@ == path);
            }
            if lists(registered@, path) {
                let k = choose|k: int|
                    0 <= k < registered@.len() && (#[trigger] registered@[k])@ == path;
                assert(all@[found@.len() + k]@ == path);
            }
        }
    }
    discover_rollout_files(&all, None)
}

/// A turn is told with confidence where its model, its effort and its speed are all known, with
/// less where only the model is, and with little where that is not.
pub proof fn lemma_confidence_follows_what_is_known(
    model: Option<Seq<char>>,
    effort: Seq<char>,
    speed: Seq<char>,
)
    ensures
        sample_confidence(model, effort, speed) == Confidence::High <==> model is Some && effort
            != "unknown"@ && speed != "unknown"@,
        sample_confidence(model, effort, speed) == Confidence::Medium <==> model is Some && (effort
            == "unknown"@ || speed == "unknown"@),
        sample_confidence(model, effort, speed) == Confidence::Low <==> model is None,
{
}

/// A turn whose effort or speed was not told has them as unknown, and one without a name is
/// named by its time. It is as sure as what is known of it.
pub proof fn lemma_untold_is_unknown(state: CursorView, account_key: Seq<char>, time: i64)
    ensures
        ({
            let turn = turn_after(state, account_key, time);
            &&& state.reasoning_effort is None ==> turn.reasoning_effort == "unknown"@
            &&& state.speed_mode is None ==> turn.speed_mode == "unknown"@
            &&& state.turn_id is None ==> turn.turn_id == "unknown:"@ + decimal(time as int)
            &&& state.thread_id is None && state.session_id is None ==> turn.thread_id
                == "unknown-thread"@
            &&& turn.confidence == sample_confidence(
                state.model,
                turn.reasoning_effort,
                turn.speed_mode,
            )
            &&& turn.completed_at == Some(time)
            &&& turn.usage == state.turn_accumulated_usage
        }),
{
}

/// What a usage has above another is counted kind by kind, and never below nothing.
pub proof fn lemma_usage_above_is_the_difference(current: TokenUsage, start: TokenUsage)
    requires
        is_normal(current),
        is_normal(start),
        current.input_tokens >= start.input_tokens,
        current.cached_input_tokens >= start.cached_input_tokens,
        current.output_tokens >= start.output_tokens,
        current.reasoning_output_tokens >= start.reasoning_output_tokens,
        current.raw_total_tokens > start.raw_total_tokens,
        current.reasoning_output_tokens - start.reasoning_output_tokens <= current.output_tokens
            - start.output_tokens,
    ensures
        ({
            let above = usage_above(current, start);
            &&& above.input_tokens == current.input_tokens - start.input_tokens
            &&& above.cached_input_tokens == current.cached_input_tokens
                - start.cached_input_tokens
            &&& above.output_tokens == current.output_tokens - start.output_tokens
            &&& above.reasoning_output_tokens == current.reasoning_output_tokens
                - start.reasoning_output_tokens
            &&& above.raw_total_tokens == current.raw_total_tokens - start.raw_total_tokens
        }),
{
}

/// Two usages together have the tokens of both, kind by kind.
pub proof fn lemma_usage_sum_is_of_both(left: TokenUsage, right: TokenUsage)
    requires
        is_normal(left),
        is_normal(right),
        left.input_tokens + right.input_tokens <= i64::MAX,
        left.cached_input_tokens + right.cached_input_tokens <= i64::MAX,
        left.output_tokens + right.output_tokens <= i64::MAX,
        left.raw_total_tokens + right.raw_total_tokens <= i64::MAX,
    ensures
        ({
            let both = usage_sum(left, right);
            &&& both.input_tokens == left.input_tokens + right.input_tokens
            &&& both.cached_input_tokens == left.cached_input_tokens + right.cached_input_tokens
            &&& both.output_tokens == left.output_tokens + right.output_tokens
            &&& both.reasoning_output_tokens == left.reasoning_output_tokens
                + right.reasoning_output_tokens
            &&& both.raw_total_tokens == left.raw_total_tokens + right.raw_total_tokens
        }),
{
}

/// The logs lie under the user's home, in the sessions and the archived ones, where those are
/// there.
pub proof fn lemma_logs_lie_under_home(home: Seq<char>, sessions: bool, archived: bool)
    ensures
        ({
            let found = root_paths(Some(home), sessions, archived);
            &&& sessions ==> found.len() > 0 && found[0] == path_joined(home, ".codex/sessions"@)
            &&& archived ==> found.len() > 0 && found[found.len() - 1] == path_joined(
                home,
                ".codex/archived_sessions"@,
            )
            &&& found.len() == (if sessions {
                1int
            } else {
                0
            }) + if archived {
                1int
            } else {
                0
            }
        }),
        root_paths(None, sessions, archived).len() == 0,
{
}

/// A speed is standard where it is told as that or as the default, in capitals or not; fast
/// where it is told as fast, as priority or as requested to be fast; and not known otherwise.
pub proof fn lemma_speed_is_standard_or_fast(name: Seq<char>)
    ensures
        ({
            let lower = ascii_lower(name);
            let standard = lower == "standard"@ || lower == "default"@;
            let fast = lower == "fast"@ || lower == "priority"@ || lower == "fast_requested"@;
            &&& standard ==> speed_name(Some(name)) == "standard"@
            &&& fast ==> speed_name(Some(name)) == "fast_requested"@
            &&& !standard && !fast ==> speed_name(Some(name)) == "unknown"@
        }),
        speed_name(None) == "unknown"@,
{
    reveal_strlit("standard");
    reveal_strlit("default");
    reveal_strlit("fast");
    reveal_strlit("priority");
    reveal_strlit("fast_requested");
    assert("standard"@.len() == 8 && "priority"@.len() == 8);
    assert("standard"@[0] == 's' && "priority"@[0] == 'p');
    assert("default"@.len() == 7 && "fast"@.len() == 4 && "fast_requested"@.len() == 14);
}

/// A context that does not tell the effort or the speed leaves none of an earlier turn.
pub proof fn lemma_context_forgets_what_it_does_not_tell(
    state: CursorView,
    value: JsonView,
    now: i64,
)
    requires
        text_of(field(value, "type"@)) == Some("turn_context"@),
    ensures
        ({
            let next = after_line(state, value, now);
            let payload = field(value, "payload"@);
            &&& text_of(field_of(payload, "effort"@)) is None && text_of(
                field_of(payload, "reasoning_effort"@),
            ) is None ==> next.reasoning_effort is None
            &&& text_of(field_of(payload, "service_tier"@)) is None && text_of(
                field_of(payload, "serviceTier"@),
            ) is None ==> next.speed_mode is None
            &&& text_of(field_of(payload, "model"@)) is None ==> next.model is None
        }),
{
    reveal_strlit("session_meta");
    reveal_strlit("turn_context");
    assert("session_meta"@[0] == 's');
    assert("turn_context"@[0] == 't');
}

/// A counter below the last one began anew: all that it has is added, kind by kind, to what
/// the turn has, and the next one is measured against it.
pub proof fn lemma_counter_that_begins_anew_counts_whole(state: CursorView, counter: TokenUsage)
    requires
        state.wf(),
        is_normal(counter),
        0 < counter.raw_total_tokens < state.last_totals.raw_total_tokens,
        state.turn_accumulated_usage.input_tokens + counter.input_tokens <= i64::MAX,
        state.turn_accumulated_usage.cached_input_tokens + counter.cached_input_tokens <= i64::MAX,
        state.turn_accumulated_usage.output_tokens + counter.output_tokens <= i64::MAX,
        state.turn_accumulated_usage.raw_total_tokens + counter.raw_total_tokens <= i64::MAX,
    ensures
        ({
            let next = after_counter(state, counter);
            let (had, has) = (state.turn_accumulated_usage, next.turn_accumulated_usage);
            &&& has.input_tokens == had.input_tokens + counter.input_tokens
            &&& has.cached_input_tokens == had.cached_input_tokens + counter.cached_input_tokens
            &&& has.output_tokens == had.output_tokens + counter.output_tokens
            &&& has.reasoning_output_tokens == had.reasoning_output_tokens
                + counter.reasoning_output_tokens
            &&& has.raw_total_tokens == had.raw_total_tokens + counter.raw_total_tokens
            &&& next.last_totals == counter
            &&& state.segment_no < i64::MAX ==> next.segment_no == state.segment_no + 1
        }),
{
}

/// A context of the same turn name in another thread begins a turn of its own: nothing is
/// counted for it yet. Before a thread is named, the session stands for it.
pub proof fn lemma_other_thread_is_another_turn(state: CursorView, value: JsonView, now: i64)
    requires
        text_of(field(value, "type"@)) == Some("turn_context"@),
    ensures
        ({
            let next = after_line(state, value, now);
            let was = if state.thread_id is Some {
                state.thread_id
            } else {
                state.session_id
            };
            &&& next.thread_id != was || next.turn_id != state.turn_id ==> {
                &&& next.turn_accumulated_usage.raw_total_tokens == 0
                &&& next.turn_accumulated_usage.input_tokens == 0
                &&& next.turn_segment_start_usage == state.last_totals
                &&& next.turn_start_totals == state.last_totals
            }
            &&& next.thread_id == was && next.turn_id == state.turn_id ==> {
                &&& next.turn_accumulated_usage == state.turn_accumulated_usage
                &&& next.turn_segment_start_usage == state.turn_segment_start_usage
                &&& next.turn_started_at == state.turn_started_at
            }
        }),
{
    reveal_strlit("session_meta");
    reveal_strlit("turn_context");
    assert("session_meta"@[0] == 's');
    assert("turn_context"@[0] == 't');
}

} // verus!
