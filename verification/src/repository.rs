//! Usage over a range of dates: per day, per category of a breakdown, and per account.
use crate::arith::floor_div;
use crate::calendar::{
    date_text, is_reached, parse_date, parsed_date, text_of_day, FIRST_DAY, LAST_DAY,
};
use crate::text::{
    ascii_lower, ascii_lowercase, chars_of, comes_before, is_prefix, joined, precedes, same_text,
    starts_with, text_opt, trim, trimmed,
};
use crate::health::{AccountDataHealth, DataHealth};
use crate::models::{
    is_unresolved_account_key, unresolved_key, AccountScope, TurnUsageRecord, UsageAnalyticsQuery,
    UNRESOLVED_PREFIX,
};
use crate::names::{add_name, ascending, lists};
use crate::recorder::{AccountRecord, DailyUsageRow};
use vstd::prelude::*;

verus! {

// ---------------------------------------------------------------------------
// Dates
// ---------------------------------------------------------------------------

/// Two characters that `i32` reads as a number.
pub open spec fn pair_value(a: char, b: char) -> Option<int> {
    if !('0' <= b <= '9') {
        None
    } else if '0' <= a <= '9' {
        Some((a as int - '0' as int) * 10 + (b as int - '0' as int))
    } else if a == '+' {
        Some(b as int - '0' as int)
    } else if a == '-' {
        Some('0' as int - b as int)
    } else {
        None
    }
}

/// The seconds that a signed time of the form `hh:mm` is ahead, where that is less than a
/// day; none otherwise.
pub open spec fn signed_offset(sign: char, hours: int, minutes: int) -> int {
    let seconds = (hours * 60 + minutes) * 60;
    let seconds = if sign == '+' {
        seconds
    } else {
        -seconds
    };
    if -86_400 < seconds < 86_400 {
        seconds
    } else {
        0
    }
}

/// The seconds that a time zone is ahead. What names no offset is the local zone.
pub open spec fn timezone_offset(value: Seq<char>, local: int) -> int {
    let name = trimmed(value);
    if ascii_lower(name) == "utc"@ || name == "z"@ {
        0
    } else if name.len() == 6 && (name[0] == '+' || name[0] == '-') && name[3] == ':' {
        match (pair_value(name[1], name[2]), pair_value(name[4], name[5])) {
            (Some(hours), Some(minutes)) => signed_offset(name[0], hours, minutes),
            _ => local,
        }
    } else {
        local
    }
}

fn read_pair(a: char, b: char) -> (r: Option<i32>)
    ensures
        match (r, pair_value(a, b)) {
            (Some(found), Some(value)) => found == value && -9 <= found <= 99,
            (None, None) => true,
            _ => false,
        },
{
    if !('0' <= b && b <= '9') {
        None
    } else if '0' <= a && a <= '9' {
        Some((a as i32 - '0' as i32) * 10 + (b as i32 - '0' as i32))
    } else if a == '+' {
        Some(b as i32 - '0' as i32)
    } else if a == '-' {
        Some('0' as i32 - b as i32)
    } else {
        None
    }
}

/// The seconds that a time zone is ahead, given those of the local one.
pub fn parse_timezone(value: &str, local: i32) -> (r: i32)
    ensures
        r == timezone_offset(value@, local as int),
{
    let name = trim(value);
    if same_text(ascii_lowercase(name.as_str()).as_str(), "utc") || same_text(name.as_str(), "z") {
        return 0;
    }
    let chars = chars_of(name.as_str());
    if chars.len() == 6 && (chars[0] == '+' || chars[0] == '-') && chars[3] == ':' {
        if let Some(hours) = read_pair(chars[1], chars[2]) {
            if let Some(minutes) = read_pair(chars[4], chars[5]) {
                let seconds: i32 = (hours * 60 + minutes) * 60;
                let seconds: i32 = if chars[0] == '+' {
                    seconds
                } else {
                    -seconds
                };
                return if -86_400 < seconds && seconds < 86_400 {
                    seconds
                } else {
                    0
                };
            }
        }
    }
    local
}

/// The range of dates that a query asks for, in a time zone.
#[derive(Clone, Copy, Debug, PartialEq, Eq, Structural)]
pub struct DateRange {
    pub first: i32,
    pub last: i32,
    pub offset: i32,
    /// The second at which the first date begins.
    pub start: i64,
    /// The second at which the date after the last begins.
    pub end: i64,
}

pub const DATE_FORMAT: &'static str = "%Y-%m-%d";

pub const RANGE_ORDER: &'static str = "Usage analytics 'to' must not precede 'from'";

pub const RANGE_END: &'static str = "Invalid analytics date";

/// The second at which a day begins, in a zone that is ahead by `offset`.
pub open spec fn day_start(day: int, offset: int) -> int {
    day * 86_400 - offset
}

/// The range that two dates name, or what is wrong with them.
pub open spec fn date_range(
    from: Seq<char>,
    to: Seq<char>,
    offset: int,
) -> Result<(int, int), Seq<char>> {
    match parsed_date(from, DATE_FORMAT@) {
        Err(message) => Err(message),
        Ok(first) => match parsed_date(to, DATE_FORMAT@) {
            Err(message) => Err(message),
            Ok(last) => if last < first {
                Err(RANGE_ORDER@)
            } else if last >= LAST_DAY {
                Err(RANGE_END@)
            } else {
                Ok((first, last))
            },
        },
    }
}

/// The range of a query whose dates were read.
pub fn range_of(first: i32, last: i32, has_next: bool, offset: i32) -> (r: Result<DateRange, String>)
    ensures
        match r {
            Ok(range) => {
                &&& first <= last
                &&& has_next
                &&& range.first == first
                &&& range.last == last
                &&& range.offset == offset
                &&& range.start == day_start(first as int, offset as int)
                &&& range.end == day_start(last + 1, offset as int)
            },
            Err(message) => if last < first {
                message@ == RANGE_ORDER@
            } else {
                !has_next && message@ == RANGE_END@
            },
        },
{
    if last < first {
        Err(RANGE_ORDER.to_owned())
    } else if !has_next {
        Err(RANGE_END.to_owned())
    } else {
        Ok(
            DateRange {
                first,
                last,
                offset,
                start: first as i64 * 86_400 - offset as i64,
                end: (last as i64 + 1) * 86_400 - offset as i64,
            },
        )
    }
}

/// The range of dates of a query.
pub fn bounds(query: &UsageAnalyticsQuery, local_offset: i32) -> (r: Result<DateRange, String>)
    ensures
        ({
            let offset = timezone_offset(query.timezone@, local_offset as int);
            match (r, date_range(query.from@, query.to@, offset)) {
                (Ok(range), Ok((first, last))) => {
                    &&& range.first == first
                    &&& range.last == last
                    &&& range.offset == offset
                    &&& range.start == day_start(first, offset)
                    &&& range.end == day_start(last + 1, offset)
                    &&& FIRST_DAY <= first <= last < LAST_DAY
                },
                (Err(error), Err(message)) => error@ == message,
                _ => false,
            }
        }),
{
    let first: i32 = match parse_date(query.from.as_str(), DATE_FORMAT) {
        Ok(day) => day,
        Err(error) => {
            return Err(error);
        },
    };
    let last: i32 = match parse_date(query.to.as_str(), DATE_FORMAT) {
        Ok(day) => day,
        Err(error) => {
            return Err(error);
        },
    };
    let offset: i32 = parse_timezone(query.timezone.as_str(), local_offset);
    let has_next = last < i32::MAX && text_of_day(last + 1).is_some();
    range_of(first, last, has_next, offset)
}

/// The dates from one day to another, as far as the calendar reaches.
pub open spec fn date_texts(first: int, last: int) -> Seq<Seq<char>>
    decreases last - first + 1,
{
    if first > last {
        Seq::empty()
    } else {
        match date_text(first) {
            Some(text) => seq![text] + date_texts(first + 1, last),
            None => Seq::empty(),
        }
    }
}

pub open spec fn text_views(texts: Seq<String>) -> Seq<Seq<char>> {
    Seq::new(texts.len(), |i: int| texts[i]@)
}

/// Each day from the first on has its date, in turn.
pub open spec fn dates_from(first: int, texts: Seq<String>) -> bool {
    forall|i: int| 0 <= i < texts.len() ==> date_text(first + i) == Some((#[trigger] texts[i])@)
}

/// The dates of a range, in their order. Between two days that the calendar reaches every day
/// has one.
pub fn dates(first: i32, last: i32) -> (r: Vec<String>)
    ensures
        text_views(r@) == date_texts(first as int, last as int),
        dates_from(first as int, r@),
        is_reached(first as int) && is_reached(last as int) && first <= last ==> r@.len() == last
            - first + 1,
{
    let mut r: Vec<String> = Vec::new();
    let mut day: i64 = first as i64;
    assert(text_views(r@) =~= Seq::empty());
    while day <= last as i64
        invariant
            first <= day,
            day <= last + 1 || r@.len() == 0,
            i32::MIN <= day <= i32::MAX + 1,
            r@.len() == day - first,
            dates_from(first as int, r@),
            text_views(r@) + date_texts(day as int, last as int) =~= date_texts(
                first as int,
                last as int,
            ),
        decreases last + 1 - day,
    {
        match text_of_day(day as i32) {
            Some(text) => {
                let ghost before = text_views(r@);
                let ghost view = text@;
                let ghost listed = r@;
                r.push(text);
                assert(text_views(r@) =~= before.push(view));
                assert forall|i: int| 0 <= i < r@.len() implies date_text(first + i) == Some(
                    (#[trigger] r@[i])@,
                ) by {
                    if i < listed.len() {
                        assert(r@[i] == listed[i]);
                    }
                }
                assert(date_texts(day as int, last as int) == seq![view] + date_texts(
                    day + 1,
                    last as int,
                ));
            },
            None => {
                assert(date_texts(day as int, last as int) =~= Seq::empty());
                return r;
            },
        }
        day += 1;
    }
    assert(date_texts(day as int, last as int) =~= Seq::empty());
    r
}

/// The day on which a second lies, in a zone that is ahead by `offset`. A second that the
/// calendar does not reach is taken for now.
pub open spec fn day_of(timestamp: int, offset: int, now: int) -> int {
    ((if is_reached(timestamp / 86_400) {
        timestamp
    } else {
        now
    }) + offset) / 86_400
}

pub fn date_for(timestamp: i64, offset: i32, now: i64) -> (r: i64)
    ensures
        r == day_of(timestamp as int, offset as int, now as int),
{
    let day: i64 = floor_div(timestamp, 86_400);
    let reached = i32::MIN as i64 <= day && day <= i32::MAX as i64 && text_of_day(
        day as i32,
    ).is_some();
    let second: i64 = if reached {
        timestamp
    } else {
        now
    };
    // A sum of the two parts, as the whole need not fit.
    let days: i64 = floor_div(second, 86_400);
    let rest: i64 = (second as i128 - days as i128 * 86_400) as i64;
    let r: i64 = days + floor_div(rest + offset as i64, 86_400);
    proof {
        assert(r == (second + offset) / 86_400) by (nonlinear_arith)
            requires
                rest == second - days * 86_400,
                r == days + (rest + offset) / 86_400,
        ;
    }
    r
}

// ---------------------------------------------------------------------------
// Accounts
// ---------------------------------------------------------------------------

/// The key stands for no account, in whatever case it is written.
pub open spec fn reads_unresolved(key: Seq<char>) -> bool {
    is_prefix(UNRESOLVED_PREFIX@, ascii_lower(key))
}

/// The account's data was never verified.
pub open spec fn is_legacy(health: Seq<AccountDataHealth>, key: Seq<char>) -> bool {
    exists|i: int|
        0 <= i < health.len() && (#[trigger] health[i]).account_key@ == key && health[i].status
            == DataHealth::LegacyUnverified
}

fn has_legacy(health: &Vec<AccountDataHealth>, key: &str) -> (r: bool)
    ensures
        r == is_legacy(health@, key@),
{
    let mut i: usize = 0;
    while i < health.len()
        invariant
            i <= health.len(),
            forall|k: int|
                0 <= k < i ==> !((#[trigger] health@[k]).account_key@ == key@ && health@[k].status
                    == DataHealth::LegacyUnverified),
        decreases health.len() - i,
    {
        if health[i].status == DataHealth::LegacyUnverified && same_text(
            health[i].account_key.as_str(),
            key,
        ) {
            return true;
        }
        i += 1;
    }
    false
}

/// Something is known of the account.
pub open spec fn is_known(
    accounts: Seq<AccountRecord>,
    turns: Seq<TurnUsageRecord>,
    daily: Seq<DailyUsageRow>,
    key: Seq<char>,
) -> bool {
    owns_account(accounts, key) || owns_turn(turns, key) || owns_day(daily, key)
}

pub open spec fn owns_account(accounts: Seq<AccountRecord>, key: Seq<char>) -> bool {
    exists|i: int| 0 <= i < accounts.len() && (#[trigger] accounts[i]).account_key@ == key
}

pub open spec fn owns_turn(turns: Seq<TurnUsageRecord>, key: Seq<char>) -> bool {
    exists|i: int| 0 <= i < turns.len() && (#[trigger] turns[i]).account_key@ == key
}

pub open spec fn owns_day(daily: Seq<DailyUsageRow>, key: Seq<char>) -> bool {
    exists|i: int| 0 <= i < daily.len() && (#[trigger] daily[i]).account_key@ == key
}

/// The account may be shown: its key stands for one, and its data was verified.
pub open spec fn may_show(health: Seq<AccountDataHealth>, key: Seq<char>) -> bool {
    !reads_unresolved(key) && !is_legacy(health, key)
}

/// A key that stands for no account reads so.
pub proof fn lemma_unresolved_reads_so(key: Seq<char>)
    requires
        unresolved_key(key),
    ensures
        reads_unresolved(key),
{
    reveal_strlit("unresolved:");
    let prefix = UNRESOLVED_PREFIX@;
    assert(ascii_lower(key).subrange(0, prefix.len() as int) =~= prefix) by {
        assert forall|i: int| 0 <= i < prefix.len() implies ascii_lower(key)[i] == prefix[i] by {
            assert(key.subrange(0, prefix.len() as int)[i] == prefix[i]);
        }
    }
}

fn can_show(health: &Vec<AccountDataHealth>, key: &str) -> (r: bool)
    ensures
        r == may_show(health@, key@),
{
    !starts_with(ascii_lowercase(key).as_str(), UNRESOLVED_PREFIX) && !has_legacy(health, key)
}

/// The accounts that a query speaks of: the one it names, or all that may be shown.
pub fn scope_keys(
    scope: &AccountScope,
    accounts: &Vec<AccountRecord>,
    turns: &Vec<TurnUsageRecord>,
    daily: &Vec<DailyUsageRow>,
    health: &Vec<AccountDataHealth>,
) -> (r: Vec<String>)
    ensures
        ascending(r@),
        forall|key: Seq<char>| #[trigger]
            lists(r@, key) <==> match scope {
                AccountScope::Single { account_key } => key == account_key@ && !unresolved_key(key)
                    && !is_legacy(health@, key),
                AccountScope::All => is_known(accounts@, turns@, daily@, key) && may_show(
                    health@,
                    key,
                ),
            },
{
    let mut keys: Vec<String> = Vec::new();
    match scope {
        AccountScope::Single { account_key } => {
            if !is_unresolved_account_key(account_key.as_str()) && !has_legacy(
                health,
                account_key.as_str(),
            ) {
                add_name(&mut keys, account_key.as_str());
            }
            keys
        },
        AccountScope::All => {
            let mut i: usize = 0;
            while i < accounts.len()
                invariant
                    i <= accounts.len(),
                    ascending(keys@),
                    forall|key: Seq<char>| #[trigger]
                        lists(keys@, key) <==> owns_account(accounts@.take(i as int), key)
                            && may_show(health@, key),
                decreases accounts.len() - i,
            {
                let key = accounts[i].account_key.as_str();
                proof {
                    lemma_owns_account(accounts@, i as int);
                }
                if can_show(health, key) {
                    add_name(&mut keys, key);
                }
                i += 1;
            }
            assert(accounts@.take(accounts@.len() as int) =~= accounts@);
            let mut i: usize = 0;
            while i < turns.len()
                invariant
                    i <= turns.len(),
                    ascending(keys@),
                    forall|key: Seq<char>| #[trigger]
                        lists(keys@, key) <==> (owns_account(accounts@, key) || owns_turn(
                            turns@.take(i as int),
                            key,
                        )) && may_show(health@, key),
                decreases turns.len() - i,
            {
                let key = turns[i].account_key.as_str();
                proof {
                    lemma_owns_turn(turns@, i as int);
                }
                if can_show(health, key) {
                    add_name(&mut keys, key);
                }
                i += 1;
            }
            assert(turns@.take(turns@.len() as int) =~= turns@);
            let mut i: usize = 0;
            while i < daily.len()
                invariant
                    i <= daily.len(),
                    ascending(keys@),
                    forall|key: Seq<char>| #[trigger]
                        lists(keys@, key) <==> (owns_account(accounts@, key) || owns_turn(
                            turns@,
                            key,
                        ) || owns_day(daily@.take(i as int), key)) && may_show(health@, key),
                decreases daily.len() - i,
            {
                let key = daily[i].account_key.as_str();
                proof {
                    lemma_owns_day(daily@, i as int);
                }
                if can_show(health, key) {
                    add_name(&mut keys, key);
                }
                i += 1;
            }
            assert(daily@.take(daily@.len() as int) =~= daily@);
            keys
        },
    }
}

pub proof fn lemma_owns_account(rows: Seq<AccountRecord>, i: int)
    requires
        0 <= i < rows.len(),
    ensures
        forall|key: Seq<char>| #[trigger]
            owns_account(rows.take(i + 1), key) <==> owns_account(rows.take(i), key)
                || rows[i].account_key@ == key,
{
    assert forall|key: Seq<char>| #[trigger]
        owns_account(rows.take(i + 1), key) <==> owns_account(rows.take(i), key)
            || rows[i].account_key@ == key by {
        if owns_account(rows.take(i), key) {
            let k = choose|k: int| 0 <= k < i && (#[trigger] rows.take(i)[k]).account_key@ == key;
            assert(rows.take(i + 1)[k].account_key@ == key);
        }
        if rows[i].account_key@ == key {
            assert(rows.take(i + 1)[i].account_key@ == key);
        }
        if owns_account(rows.take(i + 1), key) {
            let k = choose|k: int|
                0 <= k < i + 1 && (#[trigger] rows.take(i + 1)[k]).account_key@ == key;
            if k < i {
                assert(rows.take(i)[k].account_key@ == key);
            }
        }
    }
}

pub proof fn lemma_owns_turn(rows: Seq<TurnUsageRecord>, i: int)
    requires
        0 <= i < rows.len(),
    ensures
        forall|key: Seq<char>| #[trigger]
            owns_turn(rows.take(i + 1), key) <==> owns_turn(rows.take(i), key)
                || rows[i].account_key@ == key,
{
    assert forall|key: Seq<char>| #[trigger]
        owns_turn(rows.take(i + 1), key) <==> owns_turn(rows.take(i), key)
            || rows[i].account_key@ == key by {
        if owns_turn(rows.take(i), key) {
            let k = choose|k: int| 0 <= k < i && (#[trigger] rows.take(i)[k]).account_key@ == key;
            assert(rows.take(i + 1)[k].account_key@ == key);
        }
        if rows[i].account_key@ == key {
            assert(rows.take(i + 1)[i].account_key@ == key);
        }
        if owns_turn(rows.take(i + 1), key) {
            let k = choose|k: int|
                0 <= k < i + 1 && (#[trigger] rows.take(i + 1)[k]).account_key@ == key;
            if k < i {
                assert(rows.take(i)[k].account_key@ == key);
            }
        }
    }
}

proof fn lemma_owns_day(rows: Seq<DailyUsageRow>, i: int)
    requires
        0 <= i < rows.len(),
    ensures
        forall|key: Seq<char>| #[trigger]
            owns_day(rows.take(i + 1), key) <==> owns_day(rows.take(i), key)
                || rows[i].account_key@ == key,
{
    assert forall|key: Seq<char>| #[trigger]
        owns_day(rows.take(i + 1), key) <==> owns_day(rows.take(i), key)
            || rows[i].account_key@ == key by {
        if owns_day(rows.take(i), key) {
            let k = choose|k: int| 0 <= k < i && (#[trigger] rows.take(i)[k]).account_key@ == key;
            assert(rows.take(i + 1)[k].account_key@ == key);
        }
        if rows[i].account_key@ == key {
            assert(rows.take(i + 1)[i].account_key@ == key);
        }
        if owns_day(rows.take(i + 1), key) {
            let k = choose|k: int|
                0 <= k < i + 1 && (#[trigger] rows.take(i + 1)[k]).account_key@ == key;
            if k < i {
                assert(rows.take(i)[k].account_key@ == key);
            }
        }
    }
}

// ---------------------------------------------------------------------------
// Categories of a breakdown
// ---------------------------------------------------------------------------

/// The category of a turn under a breakdown. What is not one of the other breakdowns is by
/// model.
pub open spec fn category_name(
    breakdown: Seq<char>,
    account_key: Seq<char>,
    model: Option<Seq<char>>,
    effort: Seq<char>,
    speed: Seq<char>,
) -> Seq<char> {
    if breakdown == "reasoning"@ {
        if effort == "low"@ {
            "低"@
        } else if effort == "medium"@ {
            "中"@
        } else if effort == "high"@ {
            "高"@
        } else if effort == "xhigh"@ {
            "极高"@
        } else if effort == "ultra"@ {
            "超高"@
        } else {
            "未知"@
        }
    } else if breakdown == "speed"@ {
        if speed == "standard"@ {
            "标准"@
        } else if speed == "fast_requested"@ {
            "已请求快速模式"@
        } else {
            "未知"@
        }
    } else if breakdown == "account"@ {
        account_key
    } else if breakdown == "tokenType"@ {
        "全部 Token"@
    } else {
        match model {
            Some(model) => model,
            None => "未知"@,
        }
    }
}

pub fn category_for(breakdown: &str, turn: &TurnUsageRecord) -> (r: String)
    ensures
        r@ == category_name(
            breakdown@,
            turn.account_key@,
            text_opt(turn.model),
            turn.reasoning_effort@,
            turn.speed_mode@,
        ),
{
    if same_text(breakdown, "reasoning") {
        let effort = turn.reasoning_effort.as_str();
        let label = if same_text(effort, "low") {
            "低"
        } else if same_text(effort, "medium") {
            "中"
        } else if same_text(effort, "high") {
            "高"
        } else if same_text(effort, "xhigh") {
            "极高"
        } else if same_text(effort, "ultra") {
            "超高"
        } else {
            "未知"
        };
        label.to_owned()
    } else if same_text(breakdown, "speed") {
        let speed = turn.speed_mode.as_str();
        let label = if same_text(speed, "standard") {
            "标准"
        } else if same_text(speed, "fast_requested") {
            "已请求快速模式"
        } else {
            "未知"
        };
        label.to_owned()
    } else if same_text(breakdown, "account") {
        turn.account_key.clone()
    } else if same_text(breakdown, "tokenType") {
        "全部 Token".to_owned()
    } else {
        match &turn.model {
            Some(model) => model.clone(),
            None => "未知".to_owned(),
        }
    }
}

/// How a range is labelled.
pub open spec fn range_name(from: Seq<char>, to: Seq<char>) -> Seq<char> {
    if from == to {
        "1d"@
    } else {
        from + ":"@ + to
    }
}

pub fn range_label(from: &str, to: &str) -> (r: String)
    ensures
        r@ == range_name(from@, to@),
{
    if same_text(from, to) {
        "1d".to_owned()
    } else {
        let mut r = from.to_owned();
        r.append(":");
        r.append(to);
        r
    }
}

// ---------------------------------------------------------------------------
// Named ranges
// ---------------------------------------------------------------------------

/// The earliest date of an official count, among the first `n`.
pub open spec fn earliest_row(rows: Seq<DailyUsageRow>, n: int) -> Option<int>
    decreases n,
{
    if n <= 0 {
        None
    } else {
        let best = earliest_row(rows, n - 1);
        match best {
            Some(at) => if precedes(rows[n - 1].date@, rows[at].date@) {
                Some(n - 1)
            } else {
                best
            },
            None => Some(n - 1),
        }
    }
}

/// The first day of all that is officially counted; today, where nothing is.
pub open spec fn first_counted_day(rows: Seq<DailyUsageRow>, today: int) -> int {
    match earliest_row(rows, rows.len() as int) {
        Some(at) => match parsed_date(rows[at].date@, DATE_FORMAT@) {
            Ok(day) => day,
            Err(_) => today,
        },
        None => today,
    }
}

/// The first day of a named range that ends today.
pub open spec fn first_day(
    range: Seq<char>,
    rows: Seq<DailyUsageRow>,
    today: int,
) -> Option<int> {
    if range == "7d"@ {
        Some(today - 6)
    } else if range == "15d"@ {
        Some(today - 14)
    } else if range == "30d"@ {
        Some(today - 29)
    } else if range == "90d"@ {
        Some(today - 89)
    } else if range == "all"@ {
        Some(first_counted_day(rows, today))
    } else {
        None
    }
}

fn find_first_counted(rows: &Vec<DailyUsageRow>, today: i32) -> (r: i32)
    ensures
        r == first_counted_day(rows@, today as int),
{
    let mut best: Option<usize> = None;
    let mut i: usize = 0;
    while i < rows.len()
        invariant
            i <= rows.len(),
            match (best, earliest_row(rows@, i as int)) {
                (Some(found), Some(at)) => found == at && found < i,
                (None, None) => true,
                _ => false,
            },
        decreases rows.len() - i,
    {
        best = match best {
            Some(at) => if comes_before(rows[i].date.as_str(), rows[at].date.as_str()) {
                Some(i)
            } else {
                Some(at)
            },
            None => Some(i),
        };
        i += 1;
    }
    match best {
        Some(at) => match parse_date(rows[at].date.as_str(), DATE_FORMAT) {
            Ok(day) => day,
            Err(_) => today,
        },
        None => today,
    }
}

/// The query of a named range that ends today, in the local time zone: of the current account,
/// or of all where there is none.
pub fn legacy_query(
    range: &str,
    breakdown: &str,
    current: Option<String>,
    rows: &Vec<DailyUsageRow>,
    today: i32,
) -> (r: Result<UsageAnalyticsQuery, String>)
    requires
        i32::MIN + 89 <= today,
    ensures
        match (r, first_day(range@, rows@, today as int)) {
            (Ok(query), Some(first)) => {
                &&& date_text(first) == Some(query.from@)
                &&& date_text(today as int) == Some(query.to@)
                &&& query.timezone@ == "local"@
                &&& query.breakdown@ == breakdown@
                &&& query.account_scope == match current {
                    Some(account_key) => AccountScope::Single { account_key },
                    None => AccountScope::All,
                }
            },
            (Err(error), Some(first)) => {
                &&& date_text(first) is None || date_text(today as int) is None
                &&& error@ == RANGE_END@
            },
            (Err(error), None) => error@ == "Unknown analytics range: "@ + range@,
            _ => false,
        },
{
    let first: i32 = if same_text(range, "7d") {
        today - 6
    } else if same_text(range, "15d") {
        today - 14
    } else if same_text(range, "30d") {
        today - 29
    } else if same_text(range, "90d") {
        today - 89
    } else if same_text(range, "all") {
        find_first_counted(rows, today)
    } else {
        return Err(joined("Unknown analytics range: ", range));
    };
    match (text_of_day(first), text_of_day(today)) {
        (Some(from), Some(to)) => Ok(
            UsageAnalyticsQuery {
                account_scope: match current {
                    Some(account_key) => AccountScope::Single { account_key },
                    None => AccountScope::All,
                },
                from,
                to,
                timezone: "local".to_owned(),
                breakdown: breakdown.to_owned(),
            },
        ),
        _ => Err(RANGE_END.to_owned()),
    }
}

// ---------------------------------------------------------------------------
// Laws
// ---------------------------------------------------------------------------

pub open spec fn is_digit(c: char) -> bool {
    '0' <= c <= '9'
}

pub open spec fn digit(c: char) -> int {
    c as int - '0' as int
}

/// A zone that is named by a sign, hours and minutes is that much ahead, or behind where the
/// sign is a minus, as long as it is less than a day.
pub proof fn lemma_zone_is_hours_and_minutes(value: Seq<char>, local: int)
    requires
        ({
            let name = trimmed(value);
            &&& name.len() == 6
            &&& name[0] == '+' || name[0] == '-'
            &&& is_digit(name[1]) && is_digit(name[2])
            &&& name[3] == ':'
            &&& is_digit(name[4]) && is_digit(name[5])
            &&& digit(name[1]) * 10 + digit(name[2]) < 24
            &&& digit(name[4]) * 10 + digit(name[5]) < 60
        }),
    ensures
        ({
            let name = trimmed(value);
            let ahead = 36_000 * digit(name[1]) + 3_600 * digit(name[2]) + 600 * digit(name[4])
                + 60 * digit(name[5]);
            &&& name[0] == '+' ==> timezone_offset(value, local) == ahead
            &&& name[0] == '-' ==> timezone_offset(value, local) == -ahead
        }),
{
    let name = trimmed(value);
    reveal_strlit("utc");
    reveal_strlit("z");
    assert(ascii_lower(name).len() == 6);
    assert("utc"@.len() == 3);
    assert("z"@.len() == 1);
}

/// A zone is less than a day off, unless it is the local one.
pub proof fn lemma_zone_is_less_than_a_day_off(value: Seq<char>, local: int)
    ensures
        timezone_offset(value, local) == local || -86_400 < timezone_offset(value, local) < 86_400,
        ascii_lower(trimmed(value)) == "utc"@ ==> timezone_offset(value, local) == 0,
{
}

/// A second lies on the day whose beginning it does not precede and whose end it precedes.
pub proof fn lemma_second_lies_on_its_day(timestamp: int, offset: int, now: int)
    requires
        is_reached(timestamp / 86_400),
    ensures
        day_start(day_of(timestamp, offset, now), offset) <= timestamp,
        timestamp < day_start(day_of(timestamp, offset, now) + 1, offset),
{
}

/// A day has as many seconds as it should, and begins in every zone at the same hour there.
pub proof fn lemma_days_follow_each_other(day: int, offset: int)
    ensures
        day_start(day + 1, offset) == day_start(day, offset) + 24 * 60 * 60,
        day_start(day, offset) + offset == day * 24 * 60 * 60,
{
}

/// A range is told exactly of two dates that are read, the later no earlier than the other,
/// with a day after it; it is from the one to the other.
pub proof fn lemma_range_is_from_one_to_the_other(from: Seq<char>, to: Seq<char>, offset: int)
    ensures
        match date_range(from, to, offset) {
            Ok((first, last)) => {
                &&& parsed_date(from, DATE_FORMAT@) == Ok::<int, Seq<char>>(first)
                &&& parsed_date(to, DATE_FORMAT@) == Ok::<int, Seq<char>>(last)
                &&& first <= last < LAST_DAY
            },
            Err(_) => {
                ||| parsed_date(from, DATE_FORMAT@) is Err
                ||| parsed_date(to, DATE_FORMAT@) is Err
                ||| parsed_date(to, DATE_FORMAT@)->Ok_0 < parsed_date(from, DATE_FORMAT@)->Ok_0
                ||| parsed_date(to, DATE_FORMAT@)->Ok_0 >= LAST_DAY
            },
        },
{
}

/// By account a turn is named by its account, and by model by its model; by effort and by
/// speed two that are known are told apart.
pub proof fn lemma_categories_tell_apart(
    account_key: Seq<char>,
    model: Option<Seq<char>>,
    effort: Seq<char>,
    speed: Seq<char>,
    other_effort: Seq<char>,
    other_speed: Seq<char>,
)
    ensures
        category_name("account"@, account_key, model, effort, speed) == account_key,
        model matches Some(name) ==> category_name("model"@, account_key, model, effort, speed)
            == name,
        knows_effort(effort) && effort != other_effort ==> category_name(
            "reasoning"@,
            account_key,
            model,
            effort,
            speed,
        ) != category_name("reasoning"@, account_key, model, other_effort, speed),
        (speed == "standard"@ || speed == "fast_requested"@) && speed != other_speed
            ==> category_name("speed"@, account_key, model, effort, speed) != category_name(
            "speed"@,
            account_key,
            model,
            effort,
            other_speed,
        ),
{
    reveal_strlit("account");
    reveal_strlit("model");
    reveal_strlit("reasoning");
    reveal_strlit("speed");
    reveal_strlit("tokenType");
    assert("account"@.len() == 7);
    assert("model"@.len() == 5 && "model"@[0] == 'm');
    assert("reasoning"@.len() == 9 && "reasoning"@[0] == 'r');
    assert("speed"@.len() == 5 && "speed"@[0] == 's');
    assert("tokenType"@.len() == 9 && "tokenType"@[0] == 't');
    reveal_strlit("低");
    reveal_strlit("中");
    reveal_strlit("高");
    reveal_strlit("极高");
    reveal_strlit("超高");
    reveal_strlit("未知");
    reveal_strlit("标准");
    reveal_strlit("已请求快速模式");
    assert("低"@.len() == 1 && "低"@[0] == '低');
    assert("中"@.len() == 1 && "中"@[0] == '中');
    assert("高"@.len() == 1 && "高"@[0] == '高');
    assert("极高"@.len() == 2 && "极高"@[0] == '极');
    assert("超高"@.len() == 2 && "超高"@[0] == '超');
    assert("未知"@.len() == 2 && "未知"@[0] == '未');
    assert("标准"@.len() == 2 && "标准"@[0] == '标');
    assert("已请求快速模式"@.len() == 7);
}

pub open spec fn knows_effort(effort: Seq<char>) -> bool {
    effort == "low"@ || effort == "medium"@ || effort == "high"@ || effort == "xhigh"@ || effort
        == "ultra"@
}

/// A range that is named by a number of days has that many, the last of which is today.
pub proof fn lemma_named_range_has_its_days(rows: Seq<DailyUsageRow>, today: int)
    ensures
        first_day("7d"@, rows, today) matches Some(first) && today - first + 1 == 7,
        first_day("15d"@, rows, today) matches Some(first) && today - first + 1 == 15,
        first_day("30d"@, rows, today) matches Some(first) && today - first + 1 == 30,
        first_day("90d"@, rows, today) matches Some(first) && today - first + 1 == 90,
        first_day("all"@, rows, today) is Some,
{
    reveal_strlit("7d");
    reveal_strlit("15d");
    reveal_strlit("30d");
    reveal_strlit("90d");
    reveal_strlit("all");
    assert("7d"@.len() == 2);
    assert("15d"@.len() == 3 && "15d"@[0] == '1');
    assert("30d"@.len() == 3 && "30d"@[0] == '3');
    assert("90d"@.len() == 3 && "90d"@[0] == '9');
    assert("all"@.len() == 3 && "all"@[0] == 'a');
}

/// The range of all begins with the earliest date of an official count: it is that of one of
/// them, and none comes before it.
pub proof fn lemma_all_begins_with_the_earliest(rows: Seq<DailyUsageRow>, n: int)
    requires
        0 <= n <= rows.len(),
    ensures
        match earliest_row(rows, n) {
            Some(at) => {
                &&& 0 <= at < n
                &&& forall|k: int|
                    0 <= k < n ==> !precedes((#[trigger] rows[k]).date@, rows[at].date@)
            },
            None => n == 0,
        },
    decreases n,
{
    if n > 0 {
        lemma_all_begins_with_the_earliest(rows, n - 1);
        let last = rows[n - 1].date@;
        crate::text::lemma_precedes_is_order(last, last, last);
        match earliest_row(rows, n - 1) {
            Some(at) => {
                assert forall|k: int| 0 <= k < n implies !precedes(
                    (#[trigger] rows[k]).date@,
                    rows[earliest_row(rows, n)->0].date@,
                ) by {
                    crate::text::lemma_precedes_is_order(rows[k].date@, rows[at].date@, last);
                    crate::text::lemma_precedes_is_order(rows[k].date@, last, rows[at].date@);
                }
            },
            None => {},
        }
    }
}

/// A range of one day is named so, and any other by its two ends.
pub proof fn lemma_range_is_named_by_its_ends(from: Seq<char>, to: Seq<char>)
    ensures
        from == to ==> range_name(from, to) == "1d"@,
        from != to ==> range_name(from, to) == from + ":"@ + to,
{
}

/// All time begins with the earliest day that is counted, where it is a date, and today where
/// none is.
pub proof fn lemma_all_time_begins_with_the_first_day(rows: Seq<DailyUsageRow>, today: int, k: int)
    requires
        0 <= k < rows.len(),
        forall|i: int|
            0 <= i < rows.len() && i != k ==> precedes(rows[k].date@, (#[trigger] rows[i]).date@),
    ensures
        parsed_date(rows[k].date@, DATE_FORMAT@) matches Ok(day) ==> first_counted_day(rows, today)
            == day,
        parsed_date(rows[k].date@, DATE_FORMAT@) is Err ==> first_counted_day(rows, today) == today,
        first_counted_day(Seq::empty(), today) == today,
{
    lemma_all_begins_with_the_earliest(rows, rows.len() as int);
    let at = earliest_row(rows, rows.len() as int)->0;
    if at != k {
        assert(precedes(rows[k].date@, rows[at].date@));
        assert(!precedes(rows[k].date@, rows[at].date@));
    }
}

/// Efforts and speeds go by their own names, whatever else is known of the turn; what is not
/// known goes by one name in every breakdown.
pub proof fn lemma_efforts_and_speeds_are_named(
    account_key: Seq<char>,
    model: Option<Seq<char>>,
    effort: Seq<char>,
    speed: Seq<char>,
)
    ensures
        ({
            let by_effort = category_name("reasoning"@, account_key, model, effort, speed);
            let by_speed = category_name("speed"@, account_key, model, effort, speed);
            &&& effort == "low"@ ==> by_effort == "低"@
            &&& effort == "medium"@ ==> by_effort == "中"@
            &&& effort == "high"@ ==> by_effort == "高"@
            &&& effort == "xhigh"@ ==> by_effort == "极高"@
            &&& effort == "ultra"@ ==> by_effort == "超高"@
            &&& !knows_effort(effort) ==> by_effort == "未知"@
            &&& speed == "standard"@ ==> by_speed == "标准"@
            &&& speed == "fast_requested"@ ==> by_speed == "已请求快速模式"@
            &&& speed != "standard"@ && speed != "fast_requested"@ ==> by_speed == "未知"@
            &&& model is None ==> category_name("model"@, account_key, model, effort, speed)
                == "未知"@
            &&& category_name("tokenType"@, account_key, model, effort, speed) == "全部 Token"@
        }),
{
    reveal_strlit("reasoning");
    reveal_strlit("speed");
    reveal_strlit("account");
    reveal_strlit("tokenType");
    reveal_strlit("model");
    assert("reasoning"@.len() == 9 && "tokenType"@.len() == 9);
    assert("reasoning"@[0] == 'r' && "tokenType"@[0] == 't');
    assert("speed"@.len() == 5 && "model"@.len() == 5 && "account"@.len() == 7);
    assert("speed"@[0] == 's' && "model"@[0] == 'm');
    reveal_strlit("low");
    reveal_strlit("medium");
    reveal_strlit("high");
    reveal_strlit("xhigh");
    reveal_strlit("ultra");
    assert("low"@.len() == 3 && "medium"@.len() == 6 && "high"@.len() == 4);
    assert("xhigh"@.len() == 5 && "ultra"@.len() == 5);
    assert("xhigh"@[0] == 'x' && "ultra"@[0] == 'u');
    reveal_strlit("standard");
    reveal_strlit("fast_requested");
    assert("standard"@.len() != "fast_requested"@.len());
}

/// A time zone that is named as that of the world is that; one that is neither named so nor
/// written as hours and minutes is the local one.
pub proof fn lemma_other_zones_are_local(value: Seq<char>, local: int)
    ensures
        ascii_lower(trimmed(value)) == "utc"@ ==> timezone_offset(value, local) == 0,
        trimmed(value) == "z"@ ==> timezone_offset(value, local) == 0,
        ascii_lower(trimmed(value)) != "utc"@ && trimmed(value) != "z"@ && trimmed(value).len() != 6
            ==> timezone_offset(value, local) == local,
        trimmed(value).len() == 6 && ascii_lower(trimmed(value)) != "utc"@ && trimmed(value)[0]
            != '+' && trimmed(value)[0] != '-' ==> timezone_offset(value, local) == local,
{
    reveal_strlit("z");
    assert("z"@.len() == 1);
}

} // verus!
