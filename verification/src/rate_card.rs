//! Credits per million tokens of each model.
use crate::models::{Credits, TokenUsage};
use crate::text::{
    ascii_lower, ascii_lower_char, ascii_lowercase, char_replaced,
    lemma_lower_case_keeps_all_but_capitals, replace_char, same_text, str_opt, trim, trimmed,
};
use vstd::prelude::*;

verus! {

pub const CURRENT_RATE_CARD_VERSION: &'static str = "2026-04-token-v1";

/// The rates of one model, in thousandths of a credit per million tokens. A fast turn costs
/// `fast_multiplier_tenths` tenths of a standard one, where the model has fast turns.
#[derive(Debug)]
pub struct ModelRate {
    pub model: String,
    pub input_millicredits_per_million: i64,
    pub cached_input_millicredits_per_million: i64,
    pub output_millicredits_per_million: i64,
    pub fast_multiplier_tenths: Option<i64>,
}

/// A row of the card: input, cached input and output rate, and the fast multiplier.
pub struct RateRow {
    pub input: i64,
    pub cached_input: i64,
    pub output: i64,
    pub fast_multiplier_tenths: Option<i64>,
}

/// The name under which a model stands on the card.
pub open spec fn card_name(model: Seq<char>) -> Seq<char> {
    char_replaced(ascii_lower(trimmed(model)), '_', '-')
}

pub open spec fn row(input: i64, cached_input: i64, output: i64, fast: Option<i64>) -> Option<
    RateRow,
> {
    Some(RateRow { input, cached_input, output, fast_multiplier_tenths: fast })
}

/// The card.
pub open spec fn card_row(name: Seq<char>) -> Option<RateRow> {
    if name == "gpt-5.6-sol"@ || name == "gpt-5.6-sol-mini"@ || name == "gpt-5.5"@ {
        row(125_000, 12_500, 750_000, Some(25))
    } else if name == "gpt-5.6-terra"@ {
        row(50_000, 5_000, 300_000, Some(25))
    } else if name == "gpt-5.6-luna"@ {
        row(5_000, 500, 30_000, Some(25))
    } else if name == "gpt-5.5-cyber"@ {
        row(312_500, 31_250, 1_875_000, Some(25))
    } else if name == "gpt-5.4"@ {
        row(62_500, 6_250, 375_000, Some(20))
    } else if name == "gpt-5.4-mini"@ || name == "gpt-5.4-mini-codex"@ {
        row(18_750, 1_875, 113_000, None)
    } else if name == "gpt-5.3-codex"@ || name == "gpt-5.2"@ || name == "gpt-5.2-codex"@ {
        row(43_750, 4_375, 350_000, None)
    } else {
        None
    }
}

pub open spec fn rate_row(rate: ModelRate) -> RateRow {
    RateRow {
        input: rate.input_millicredits_per_million,
        cached_input: rate.cached_input_millicredits_per_million,
        output: rate.output_millicredits_per_million,
        fast_multiplier_tenths: rate.fast_multiplier_tenths,
    }
}

/// The tenths that a turn in the given speed costs of a standard one.
pub open spec fn speed_tenths(row: RateRow, speed_mode: Seq<char>) -> Option<int> {
    if speed_mode == "standard"@ {
        Some(10)
    } else if speed_mode == "fast_requested"@ {
        match row.fast_multiplier_tenths {
            Some(tenths) => Some(tenths as int),
            None => None,
        }
    } else {
        None
    }
}

/// The credits of a usage in ten-billionths: reasoning is part of the output and costs nothing
/// on top of it.
pub open spec fn credit_units(row: RateRow, speed_mode: Seq<char>, usage: TokenUsage) -> Option<
    int,
> {
    match speed_tenths(row, speed_mode) {
        Some(tenths) => Some(
            (usage.input_tokens * row.input + usage.cached_input_tokens * row.cached_input
                + usage.output_tokens * row.output) * tenths,
        ),
        None => None,
    }
}

/// The credits of a usage of the named model on the current card.
pub open spec fn estimated_units(
    model: Option<Seq<char>>,
    speed_mode: Seq<char>,
    usage: TokenUsage,
) -> Option<int> {
    match model {
        Some(model) => match card_row(card_name(model)) {
            Some(row) => credit_units(row, speed_mode, usage),
            None => None,
        },
        None => None,
    }
}

pub open spec fn units_of(credits: Option<Credits>) -> Option<int> {
    match credits {
        Some(credits) => Some(credits.units as int),
        None => None,
    }
}

/// Rates of at most a billion credits and a multiplier of at most a hundred thousand, so
/// that every usage has a price that fits.
pub open spec fn row_bounded(row: RateRow) -> bool {
    &&& -1_000_000_000_000 <= row.input <= 1_000_000_000_000
    &&& -1_000_000_000_000 <= row.cached_input <= 1_000_000_000_000
    &&& -1_000_000_000_000 <= row.output <= 1_000_000_000_000
    &&& row.fast_multiplier_tenths matches Some(tenths) ==> -1_000_000 <= tenths <= 1_000_000
}

#[derive(Debug)]
pub struct RateCard;

impl RateCard {
    pub fn current() -> (r: RateCard)
        ensures
            r == RateCard,
    {
        RateCard
    }

    pub fn rate_for(&self, model: &str) -> (r: Option<ModelRate>)
        ensures
            match r {
                Some(rate) => {
                    &&& rate.model@ == model@
                    &&& card_row(card_name(model@)) == Some(rate_row(rate))
                    &&& row_bounded(rate_row(rate))
                },
                None => card_row(card_name(model@)) is None,
            },
    {
        let name = replace_char(ascii_lowercase(trim(model).as_str()).as_str(), '_', '-');
        let name = name.as_str();
        let row = if same_text(name, "gpt-5.6-sol") || same_text(name, "gpt-5.6-sol-mini")
            || same_text(name, "gpt-5.5") {
            (125_000i64, 12_500i64, 750_000i64, Some(25i64))
        } else if same_text(name, "gpt-5.6-terra") {
            (50_000, 5_000, 300_000, Some(25))
        } else if same_text(name, "gpt-5.6-luna") {
            (5_000, 500, 30_000, Some(25))
        } else if same_text(name, "gpt-5.5-cyber") {
            (312_500, 31_250, 1_875_000, Some(25))
        } else if same_text(name, "gpt-5.4") {
            (62_500, 6_250, 375_000, Some(20))
        } else if same_text(name, "gpt-5.4-mini") || same_text(name, "gpt-5.4-mini-codex") {
            (18_750, 1_875, 113_000, None)
        } else if same_text(name, "gpt-5.3-codex") || same_text(name, "gpt-5.2") || same_text(
            name,
            "gpt-5.2-codex",
        ) {
            (43_750, 4_375, 350_000, None)
        } else {
            return None;
        };
        Some(
            ModelRate {
                model: model.to_owned(),
                input_millicredits_per_million: row.0,
                cached_input_millicredits_per_million: row.1,
                output_millicredits_per_million: row.2,
                fast_multiplier_tenths: row.3,
            },
        )
    }

    pub fn calculate(&self, model: Option<&str>, speed_mode: &str, usage: &TokenUsage) -> (r:
        Option<Credits>)
        ensures
            units_of(r) == estimated_units(str_opt(model), speed_mode@, *usage),
    {
        match model {
            Some(model) => match self.rate_for(model) {
                Some(rate) => weighted_credits(&rate, speed_mode, usage),
                None => None,
            },
            None => None,
        }
    }
}

pub fn weighted_credits(rate: &ModelRate, speed_mode: &str, usage: &TokenUsage) -> (r: Option<
    Credits,
>)
    requires
        row_bounded(rate_row(*rate)),
    ensures
        units_of(r) == credit_units(rate_row(*rate), speed_mode@, *usage),
{
    let tenths: i64 = if same_text(speed_mode, "standard") {
        10
    } else if same_text(speed_mode, "fast_requested") {
        match rate.fast_multiplier_tenths {
            Some(tenths) => tenths,
            None => {
                return None;
            },
        }
    } else {
        return None;
    };
    let input = weighted(usage.input_tokens, rate.input_millicredits_per_million);
    let cached = weighted(usage.cached_input_tokens, rate.cached_input_millicredits_per_million);
    let output = weighted(usage.output_tokens, rate.output_millicredits_per_million);
    let sum: i128 = input + cached + output;
    assert(-0x8000_0000_0000_0000 * 3_000_000_000_000_000_000 <= sum * tenths
        <= 0x8000_0000_0000_0000 * 3_000_000_000_000_000_000) by (nonlinear_arith)
        requires
            -0x8000_0000_0000_0000 * 3_000_000_000_000 <= sum <= 0x8000_0000_0000_0000
                * 3_000_000_000_000,
            -1_000_000 <= tenths <= 1_000_000,
    ;
    let units: i128 = sum * tenths as i128;
    assert(units == (usage.input_tokens * rate.input_millicredits_per_million
        + usage.cached_input_tokens * rate.cached_input_millicredits_per_million
        + usage.output_tokens * rate.output_millicredits_per_million) * tenths);
    Some(Credits { units })
}

/// Tokens times a rate.
fn weighted(tokens: i64, rate: i64) -> (r: i128)
    requires
        -1_000_000_000_000 <= rate <= 1_000_000_000_000,
    ensures
        r == tokens * rate,
        -0x8000_0000_0000_0000 * 1_000_000_000_000 <= r <= 0x8000_0000_0000_0000
            * 1_000_000_000_000,
{
    assert(-0x8000_0000_0000_0000 * 1_000_000_000_000 <= tokens * rate <= 0x8000_0000_0000_0000
        * 1_000_000_000_000) by (nonlinear_arith)
        requires
            -1_000_000_000_000 <= rate <= 1_000_000_000_000,
            -0x8000_0000_0000_0000 <= tokens <= 0x7fff_ffff_ffff_ffff,
    ;
    tokens as i128 * rate as i128
}

/// Reasoning tokens have no price of their own.
pub proof fn lemma_reasoning_is_not_priced(
    row: RateRow,
    speed_mode: Seq<char>,
    usage: TokenUsage,
    reasoning: i64,
)
    ensures
        credit_units(
            row,
            speed_mode,
            (TokenUsage { reasoning_output_tokens: reasoning, ..usage }),
        ) == credit_units(row, speed_mode, usage),
{
}

/// A speed that the card does not know has no price.
pub proof fn lemma_unknown_speed_has_no_price(row: RateRow, speed_mode: Seq<char>, usage: TokenUsage)
    requires
        speed_mode != "standard"@,
        speed_mode != "fast_requested"@,
    ensures
        credit_units(row, speed_mode, usage) is None,
{
}

/// A price adds up: the tokens of two usages together cost what the two cost.
pub proof fn lemma_price_adds_up(
    row: RateRow,
    speed_mode: Seq<char>,
    first: TokenUsage,
    second: TokenUsage,
    both: TokenUsage,
)
    requires
        both.input_tokens == first.input_tokens + second.input_tokens,
        both.cached_input_tokens == first.cached_input_tokens + second.cached_input_tokens,
        both.output_tokens == first.output_tokens + second.output_tokens,
    ensures
        match (
            credit_units(row, speed_mode, first),
            credit_units(row, speed_mode, second),
            credit_units(row, speed_mode, both),
        ) {
            (Some(a), Some(b), Some(c)) => c == a + b,
            (None, None, None) => true,
            _ => false,
        },
{
    if let Some(tenths) = speed_tenths(row, speed_mode) {
        let (a, b) = (first, second);
        let one = a.input_tokens * row.input + a.cached_input_tokens * row.cached_input
            + a.output_tokens * row.output;
        let two = b.input_tokens * row.input + b.cached_input_tokens * row.cached_input
            + b.output_tokens * row.output;
        assert(both.input_tokens * row.input + both.cached_input_tokens * row.cached_input
            + both.output_tokens * row.output == one + two) by (nonlinear_arith)
            requires
                both.input_tokens == a.input_tokens + b.input_tokens,
                both.cached_input_tokens == a.cached_input_tokens + b.cached_input_tokens,
                both.output_tokens == a.output_tokens + b.output_tokens,
                one == a.input_tokens * row.input + a.cached_input_tokens * row.cached_input
                    + a.output_tokens * row.output,
                two == b.input_tokens * row.input + b.cached_input_tokens * row.cached_input
                    + b.output_tokens * row.output,
        ;
        assert((one + two) * tenths == one * tenths + two * tenths) by (nonlinear_arith);
    }
}

/// Each kind of token has its own rate: tokens of one kind more cost that kind's rate each, ten
/// tenths of it in a standard turn. The total and the reasoning in it are not counted again.
pub proof fn lemma_each_kind_costs_its_rate(row: RateRow, usage: TokenUsage, more: TokenUsage)
    ensures
        ({
            let price = credit_units(row, "standard"@, usage);
            let dearer = credit_units(row, "standard"@, more);
            &&& price is Some
            &&& dearer is Some
            &&& more.cached_input_tokens == usage.cached_input_tokens && more.output_tokens
                == usage.output_tokens ==> dearer->0 - price->0 == (more.input_tokens
                - usage.input_tokens) * row.input * 10
            &&& more.input_tokens == usage.input_tokens && more.output_tokens
                == usage.output_tokens ==> dearer->0 - price->0 == (more.cached_input_tokens
                - usage.cached_input_tokens) * row.cached_input * 10
            &&& more.input_tokens == usage.input_tokens && more.cached_input_tokens
                == usage.cached_input_tokens ==> dearer->0 - price->0 == (more.output_tokens
                - usage.output_tokens) * row.output * 10
            &&& usage.input_tokens == 0 && usage.cached_input_tokens == 0 && usage.output_tokens
                == 0 ==> price->0 == 0
        }),
{
    let (a, b, c) = (row.input as int, row.cached_input as int, row.output as int);
    let (i, j) = (usage.input_tokens as int, more.input_tokens as int);
    let (k, l) = (usage.cached_input_tokens as int, more.cached_input_tokens as int);
    let (m, n) = (usage.output_tokens as int, more.output_tokens as int);
    assert(j * a - i * a == (j - i) * a) by (nonlinear_arith);
    assert(l * b - k * b == (l - k) * b) by (nonlinear_arith);
    assert(n * c - m * c == (n - m) * c) by (nonlinear_arith);
}

/// A fast turn costs the model's multiplier of what the same turn costs at standard speed, and
/// has no price where the model has no fast turns.
pub proof fn lemma_fast_costs_the_multiplier(row: RateRow, usage: TokenUsage)
    ensures
        match row.fast_multiplier_tenths {
            Some(tenths) => {
                &&& credit_units(row, "fast_requested"@, usage) is Some
                &&& credit_units(row, "fast_requested"@, usage)->0 * 10 == credit_units(
                    row,
                    "standard"@,
                    usage,
                )->0 * tenths
            },
            None => credit_units(row, "fast_requested"@, usage) is None,
        },
{
    reveal_strlit("standard");
    reveal_strlit("fast_requested");
    assert("standard"@.len() != "fast_requested"@.len());
    if let Some(tenths) = row.fast_multiplier_tenths {
        let base = usage.input_tokens * row.input + usage.cached_input_tokens * row.cached_input
            + usage.output_tokens * row.output;
        assert(base * tenths * 10 == base * 10 * tenths) by (nonlinear_arith);
    }
}

/// On every row of the card cached input costs a tenth of what input does, output costs more
/// than input, nothing is free, and a fast turn is dearer than a standard one.
pub proof fn lemma_card_is_consistent(name: Seq<char>)
    ensures
        card_row(name) matches Some(row) ==> {
            &&& row.cached_input * 10 == row.input
            &&& row.cached_input > 0
            &&& row.output >= 6 * row.input
            &&& row.fast_multiplier_tenths matches Some(tenths) ==> tenths > 10
        },
{
}

proof fn lemma_card_names_differ()
    ensures
        card_row("gpt-5.5"@) == row(125_000, 12_500, 750_000, Some(25)),
        card_row("gpt-5.6-sol"@) == row(125_000, 12_500, 750_000, Some(25)),
        card_row("gpt-5.6-sol-mini"@) == row(125_000, 12_500, 750_000, Some(25)),
        card_row("gpt-5.6-terra"@) == row(50_000, 5_000, 300_000, Some(25)),
        card_row("gpt-5.6-luna"@) == row(5_000, 500, 30_000, Some(25)),
        card_row("gpt-5.5-cyber"@) == row(312_500, 31_250, 1_875_000, Some(25)),
        card_row("gpt-5.4"@) == row(62_500, 6_250, 375_000, Some(20)),
        card_row("gpt-5.4-mini"@) == row(18_750, 1_875, 113_000, None),
        card_row("gpt-5.4-mini-codex"@) == row(18_750, 1_875, 113_000, None),
        card_row("gpt-5.3-codex"@) == row(43_750, 4_375, 350_000, None),
        card_row("gpt-5.2"@) == row(43_750, 4_375, 350_000, None),
        card_row("gpt-5.2-codex"@) == row(43_750, 4_375, 350_000, None),
{
    reveal_strlit("gpt-5.5");
    reveal_strlit("gpt-5.6-sol");
    reveal_strlit("gpt-5.6-sol-mini");
    reveal_strlit("gpt-5.6-terra");
    reveal_strlit("gpt-5.6-luna");
    reveal_strlit("gpt-5.5-cyber");
    reveal_strlit("gpt-5.4");
    reveal_strlit("gpt-5.4-mini");
    reveal_strlit("gpt-5.4-mini-codex");
    reveal_strlit("gpt-5.3-codex");
    reveal_strlit("gpt-5.2");
    reveal_strlit("gpt-5.2-codex");
    assert("gpt-5.5"@.len() == 7 && "gpt-5.4"@.len() == 7 && "gpt-5.2"@.len() == 7);
    assert("gpt-5.5"@[6] == '5' && "gpt-5.4"@[6] == '4' && "gpt-5.2"@[6] == '2');
    assert("gpt-5.6-sol"@.len() == 11 && "gpt-5.6-sol-mini"@.len() == 16);
    assert("gpt-5.6-luna"@.len() == 12 && "gpt-5.4-mini"@.len() == 12);
    assert("gpt-5.6-luna"@[6] == '6' && "gpt-5.4-mini"@[6] == '4');
    assert("gpt-5.4-mini-codex"@.len() == 18);
    assert("gpt-5.6-terra"@.len() == 13 && "gpt-5.5-cyber"@.len() == 13);
    assert("gpt-5.3-codex"@.len() == 13 && "gpt-5.2-codex"@.len() == 13);
    assert("gpt-5.6-terra"@[6] == '6' && "gpt-5.5-cyber"@[6] == '5');
    assert("gpt-5.3-codex"@[6] == '3' && "gpt-5.2-codex"@[6] == '2');
}

/// What a usage of the named model costs at standard speed.
pub open spec fn standard_price(name: Seq<char>, usage: TokenUsage) -> int {
    credit_units(card_row(name)->0, "standard"@, usage)->0
}

/// How the models of the card compare: a million tokens of the flagship cost 125 credits read
/// and 750 written, and of the others the same usage costs a fixed part or multiple of that.
/// The small and the older models have rates of their own.
pub proof fn lemma_models_compare(usage: TokenUsage)
    ensures
        ({
            let flagship = standard_price("gpt-5.5"@, usage);
            &&& flagship == usage.input_tokens * 1_250_000 + usage.output_tokens * 7_500_000
                + usage.cached_input_tokens * 125_000
            &&& standard_price("gpt-5.5-cyber"@, usage) * 2 == flagship * 5
            &&& standard_price("gpt-5.6-sol"@, usage) == flagship
            &&& standard_price("gpt-5.6-sol-mini"@, usage) == flagship
            &&& standard_price("gpt-5.6-terra"@, usage) * 5 == flagship * 2
            &&& standard_price("gpt-5.6-luna"@, usage) * 25 == flagship
            &&& standard_price("gpt-5.4"@, usage) * 2 == flagship
        }),
        ({
            let small = standard_price("gpt-5.4-mini"@, usage);
            &&& small == usage.input_tokens * 187_500 + usage.output_tokens * 1_130_000
                + usage.cached_input_tokens * 18_750
            &&& standard_price("gpt-5.4-mini-codex"@, usage) == small
        }),
        ({
            let older = standard_price("gpt-5.3-codex"@, usage);
            &&& older == usage.input_tokens * 437_500 + usage.output_tokens * 3_500_000
                + usage.cached_input_tokens * 43_750
            &&& standard_price("gpt-5.2"@, usage) == older
            &&& standard_price("gpt-5.2-codex"@, usage) == older
        }),
{
    lemma_card_names_differ();
}

/// Which models have fast turns, and at what multiple: two and a half times for the flagship
/// and its family, twice for the one before it, and none for the others.
pub proof fn lemma_fast_turns_by_model()
    ensures
        forall|name: Seq<char>|
            name == "gpt-5.5"@ || name == "gpt-5.6-sol"@ || name == "gpt-5.6-sol-mini"@ || name
                == "gpt-5.6-terra"@ || name == "gpt-5.6-luna"@ || name == "gpt-5.5-cyber"@ ==> (
            #[trigger] card_row(name))->0.fast_multiplier_tenths == Some(25i64),
        card_row("gpt-5.4"@)->0.fast_multiplier_tenths == Some(20i64),
        forall|name: Seq<char>|
            name == "gpt-5.4-mini"@ || name == "gpt-5.4-mini-codex"@ || name == "gpt-5.3-codex"@
                || name == "gpt-5.2"@ || name == "gpt-5.2-codex"@ ==> (#[trigger] card_row(
                name,
            ))->0.fast_multiplier_tenths is None,
{
    lemma_card_names_differ();
}

/// A model is found on the card whatever blanks stand around its name, whether it is written
/// in capitals, and whether with underscores or hyphens: two names that differ in nothing else
/// have the same price.
pub proof fn lemma_spelling_does_not_matter(
    first: Seq<char>,
    second: Seq<char>,
    speed_mode: Seq<char>,
    usage: TokenUsage,
)
    requires
        trimmed(first).len() == trimmed(second).len(),
        forall|i: int|
            0 <= i < trimmed(first).len() ==> {
                let (a, b) = (#[trigger] trimmed(first)[i], trimmed(second)[i]);
                ||| a == b
                ||| 65 <= a as u32 <= 90 && b as u32 == a as u32 + 32
                ||| a == '_' && b == '-'
            },
    ensures
        card_name(first) == card_name(second),
        estimated_units(Some(first), speed_mode, usage) == estimated_units(
            Some(second),
            speed_mode,
            usage,
        ),
{
    let (a, b) = (trimmed(first), trimmed(second));
    lemma_lower_case_keeps_all_but_capitals(a);
    lemma_lower_case_keeps_all_but_capitals(b);
    assert forall|i: int| 0 <= i < a.len() implies card_name(first)[i] == card_name(second)[i] by {
        assert(ascii_lower(a)[i] == ascii_lower_char(a[i]));
        assert(ascii_lower(b)[i] == ascii_lower_char(b[i]));
        assert(a[i] == trimmed(first)[i]);
    }
    assert(card_name(first) =~= card_name(second));
}

/// A model is priced as its row on the card says; one that is not named or not on the card has
/// no price.
pub proof fn lemma_model_is_priced_by_its_row(
    model: Seq<char>,
    speed_mode: Seq<char>,
    usage: TokenUsage,
)
    ensures
        match card_row(card_name(model)) {
            Some(row) => estimated_units(Some(model), speed_mode, usage) == credit_units(
                row,
                speed_mode,
                usage,
            ),
            None => estimated_units(Some(model), speed_mode, usage) is None,
        },
        estimated_units(None, speed_mode, usage) is None,
{
}

} // verus!
