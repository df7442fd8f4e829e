//! The values that the collector, the ledger and the analytics exchange.
use crate::arith::{clamp_i64, max_int, min_int, saturating_add};
use crate::text::{is_prefix, starts_with};
use vstd::prelude::*;

verus! {

pub const SOURCE_OFFICIAL: &'static str = "official";

pub const SOURCE_ROLLOUT: &'static str = "rollout";

pub const SOURCE_APP_SERVER: &'static str = "app-server";

/// What stands at the front of the key of an account that no evidence has identified yet.
pub const UNRESOLVED_PREFIX: &'static str = "unresolved:";

#[derive(Clone, Copy, Debug, PartialEq, Eq, Structural)]
pub enum Confidence {
    High,
    Medium,
    Low,
    Unknown,
}

#[derive(Debug)]
pub enum AccountScope {
    Single { account_key: String },
    All,
}

#[derive(Debug)]
pub struct DailyModelUsageCategory {
    pub model: String,
    pub reasoning_effort: String,
    pub speed_mode: String,
    pub raw_tokens: i64,
    pub turn_count: i64,
}

#[derive(Debug)]
pub struct DailyModelUsage {
    pub date: String,
    pub account_key: Option<String>,
    pub official_tokens: Option<i64>,
    pub categories: Vec<DailyModelUsageCategory>,
    /// Weekly quota is only known of an account's window as a whole. This field says so;
    /// no share of the quota is ever allotted to a model by a local price.
    pub model_quota_attribution: String,
}

#[derive(Debug)]
pub struct UsageAnalyticsQuery {
    pub account_scope: AccountScope,
    pub from: String,
    pub to: String,
    pub timezone: String,
    pub breakdown: String,
}

#[derive(Debug)]
pub struct UsagePeriod {
    pub from: String,
    pub to: String,
    pub timezone: String,
}

/// A day of the analytics.
#[derive(Debug)]
pub struct UsageAnalyticsPoint {
    pub date: String,
    pub official_tokens: Option<i64>,
    pub local_tokens: i64,
    pub unattributed_tokens: i64,
    /// The tokens of each category, by name.
    pub category_values: Vec<(String, i64)>,
}

/// An amount of credits in ten-billionths of a credit, which is exact for every rate.
#[derive(Clone, Copy, Debug, PartialEq, Eq, Structural)]
pub struct Credits {
    pub units: i128,
}

#[derive(Clone, Copy, Debug, PartialEq, Eq, Structural)]
pub struct TokenUsage {
    pub input_tokens: i64,
    pub cached_input_tokens: i64,
    pub output_tokens: i64,
    pub reasoning_output_tokens: i64,
    pub raw_total_tokens: i64,
}

pub open spec fn zero_usage() -> TokenUsage {
    TokenUsage {
        input_tokens: 0,
        cached_input_tokens: 0,
        output_tokens: 0,
        reasoning_output_tokens: 0,
        raw_total_tokens: 0,
    }
}

/// No count is negative, no more output is reasoning than there is output, and there is no
/// total of zero beside tokens that were read or written.
pub open spec fn is_normal(usage: TokenUsage) -> bool {
    &&& usage.input_tokens >= 0
    &&& usage.cached_input_tokens >= 0
    &&& 0 <= usage.reasoning_output_tokens <= usage.output_tokens
    &&& usage.raw_total_tokens >= 0
    &&& usage.raw_total_tokens == 0 ==> usage.input_tokens == 0 && usage.output_tokens == 0
}

/// Negative counts as zero, reasoning cut to the output, and a missing total as the sum of
/// input and output.
pub open spec fn normalized_usage(usage: TokenUsage) -> TokenUsage {
    let input = max_int(usage.input_tokens as int, 0);
    let output = max_int(usage.output_tokens as int, 0);
    TokenUsage {
        input_tokens: input as i64,
        cached_input_tokens: max_int(usage.cached_input_tokens as int, 0) as i64,
        output_tokens: output as i64,
        reasoning_output_tokens: min_int(
            max_int(usage.reasoning_output_tokens as int, 0),
            output,
        ) as i64,
        raw_total_tokens: if usage.raw_total_tokens <= 0 {
            clamp_i64(input + output) as i64
        } else {
            usage.raw_total_tokens
        },
    }
}

impl Default for TokenUsage {
    fn default() -> (r: TokenUsage)
        ensures
            r == zero_usage(),
    {
        TokenUsage {
            input_tokens: 0,
            cached_input_tokens: 0,
            output_tokens: 0,
            reasoning_output_tokens: 0,
            raw_total_tokens: 0,
        }
    }
}

impl TokenUsage {
    pub fn normalized(self) -> (r: TokenUsage)
        ensures
            r == normalized_usage(self),
            is_normal(r),
    {
        let input: i64 = self.input_tokens.max(0);
        let output: i64 = self.output_tokens.max(0);
        let total: i64 = if self.raw_total_tokens <= 0 {
            saturating_add(input, output)
        } else {
            self.raw_total_tokens
        };
        TokenUsage {
            input_tokens: input,
            cached_input_tokens: self.cached_input_tokens.max(0),
            output_tokens: output,
            reasoning_output_tokens: self.reasoning_output_tokens.max(0).min(output),
            raw_total_tokens: total,
        }
    }
}

/// Normalizing a second time changes nothing.
pub proof fn lemma_normalized_idempotent(usage: TokenUsage)
    ensures
        normalized_usage(normalized_usage(usage)) == normalized_usage(usage),
{
}

/// Normalizing changes exactly the usages that are not normal.
pub proof fn lemma_normal_is_fixed_point(usage: TokenUsage)
    ensures
        is_normal(usage) <==> normalized_usage(usage) == usage,
{
}

#[derive(Debug)]
pub struct TurnUsageRecord {
    pub account_key: String,
    pub thread_id: String,
    pub turn_id: String,
    pub started_at: i64,
    pub completed_at: Option<i64>,
    pub model: Option<String>,
    pub reasoning_effort: String,
    pub speed_mode: String,
    pub usage: TokenUsage,
    pub estimated_credits: Option<Credits>,
    pub rate_card_version: Option<String>,
    pub source: String,
    pub confidence: Confidence,
}

/// The key names an account that no evidence has identified yet.
pub open spec fn unresolved_key(account_key: Seq<char>) -> bool {
    is_prefix(UNRESOLVED_PREFIX@, account_key)
}

pub fn is_unresolved_account_key(account_key: &str) -> (r: bool)
    ensures
        r == unresolved_key(account_key@),
{
    starts_with(account_key, UNRESOLVED_PREFIX)
}

/// What a normalized usage says: each count as it was, or zero where it was below; reasoning
/// no more than the output; and the total as it was, or input and output together where there
/// was none.
pub proof fn lemma_normalized_says_the_same(usage: TokenUsage)
    ensures
        ({
            let is = normalized_usage(usage);
            &&& usage.input_tokens >= 0 ==> is.input_tokens == usage.input_tokens
            &&& usage.input_tokens < 0 ==> is.input_tokens == 0
            &&& usage.cached_input_tokens >= 0 ==> is.cached_input_tokens
                == usage.cached_input_tokens
            &&& usage.cached_input_tokens < 0 ==> is.cached_input_tokens == 0
            &&& usage.output_tokens >= 0 ==> is.output_tokens == usage.output_tokens
            &&& usage.output_tokens < 0 ==> is.output_tokens == 0
            &&& 0 <= is.reasoning_output_tokens <= is.output_tokens
            &&& 0 <= usage.reasoning_output_tokens <= usage.output_tokens
                ==> is.reasoning_output_tokens == usage.reasoning_output_tokens
            &&& usage.reasoning_output_tokens > is.output_tokens ==> is.reasoning_output_tokens
                == is.output_tokens
            &&& usage.reasoning_output_tokens < 0 ==> is.reasoning_output_tokens == 0
            &&& usage.raw_total_tokens > 0 ==> is.raw_total_tokens == usage.raw_total_tokens
            &&& usage.raw_total_tokens <= 0 && is.input_tokens + is.output_tokens <= i64::MAX
                ==> is.raw_total_tokens == is.input_tokens + is.output_tokens
            &&& usage.raw_total_tokens <= 0 && is.input_tokens + is.output_tokens > i64::MAX
                ==> is.raw_total_tokens == i64::MAX
        }),
{
}

/// An unknown account's key is told by its beginning and by nothing else.
pub proof fn lemma_unresolved_key_is_told_by_its_beginning(name: Seq<char>)
    ensures
        unresolved_key(UNRESOLVED_PREFIX@ + name),
        unresolved_key(name) ==> name == UNRESOLVED_PREFIX@ + name.subrange(
            UNRESOLVED_PREFIX@.len() as int,
            name.len() as int,
        ),
{
    let prefix = UNRESOLVED_PREFIX@;
    let whole = prefix + name;
    assert(whole.subrange(0, prefix.len() as int) =~= prefix);
    if unresolved_key(name) {
        assert(name.subrange(0, prefix.len() as int) + name.subrange(
            prefix.len() as int,
            name.len() as int,
        ) =~= name);
    }
}

} // verus!
