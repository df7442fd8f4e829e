//! What the tray shows: the quota of a snapshot, its texts, and the snapshot itself.
use crate::arith::lemma_units_of_minutes;
use crate::json::{
    entries_of, entry_views, field, field_of, get_of, is_text, items_of, number_percent, opt_view,
    percent_code_of, text_of, views, Json, JsonNumber, JsonView, Whole,
};
use crate::monitor::{counted, int_opt, minutes_left, number_u64, unsigned_of, whole_minutes_left};
use crate::percent::{code_of_bits, quota_code, Percent};
use crate::sorting::{
    lemma_sorted, lemma_sorted_keeps, lemma_sorted_member, sort_rows, sorted, Ranked,
};
use crate::text::{
    ascii_lower, ascii_lowercase, contains, decimal, decimal_digits, decimal_nat, digit_char,
    joined, occurs_in, push_char, same_text, text_opt,
};
use vstd::prelude::*;

verus! {

// ---------------------------------------------------------------------------
// The quota
// ---------------------------------------------------------------------------

/// A window of a limit, as far as the tray shows it.
#[derive(Clone, Copy, Debug, PartialEq, Eq, Structural)]
pub struct TrayWindow {
    pub duration: u64,
    pub used_percent: Percent,
    pub resets_at: Option<i64>,
}

impl Ranked for TrayWindow {
    open spec fn behind(self, other: Self) -> bool {
        self.duration > other.duration
    }

    fn goes_behind(&self, other: &Self) -> (r: bool) {
        self.duration > other.duration
    }

    proof fn behind_is_order(a: Self, b: Self, c: Self) {
    }
}

/// A whole number, around the end of the range; nothing for one with a fraction.
pub open spec fn whole_of(value: Option<JsonView>) -> Option<i64> {
    match value {
        Some(JsonView::Number(n)) => match n.whole {
            Whole::Unsigned(n) => Some(
                if n > i64::MAX {
                    (n - 0x1_0000_0000_0000_0000) as i64
                } else {
                    n as i64
                },
            ),
            Whole::Negative(n) => Some(n),
            Whole::Truncated(_) => None,
        },
        _ => None,
    }
}

fn read_whole(value: Option<&Json>) -> (r: Option<i64>)
    ensures
        r == whole_of(opt_view(value)),
{
    match value {
        Some(Json::Number(n)) => match n.whole {
            Whole::Unsigned(n) => Some(
                if n > 0x7fff_ffff_ffff_ffff {
                    (n as i128 - 0x1_0000_0000_0000_0000) as i64
                } else {
                    n as i64
                },
            ),
            Whole::Negative(n) => Some(n),
            Whole::Truncated(_) => None,
        },
        _ => None,
    }
}

/// A window of a bucket: none without a length in whole minutes. What is not said to be used
/// counts as nothing.
pub open spec fn tray_window_in(bucket: JsonView, name: Seq<char>) -> Option<TrayWindow> {
    let window = field(bucket, name);
    match unsigned_of(field_of(window, "windowDurationMins"@)) {
        Some(duration) => Some(
            TrayWindow {
                duration: duration as u64,
                used_percent: Percent {
                    code: match percent_code_of(field_of(window, "usedPercent"@)) {
                        Some(code) => code as i64,
                        None => 0i64,
                    },
                },
                resets_at: whole_of(field_of(window, "resetsAt"@)),
            },
        ),
        None => None,
    }
}

pub open spec fn with_window(rows: Seq<TrayWindow>, bucket: JsonView, name: Seq<char>) -> Seq<
    TrayWindow,
> {
    match tray_window_in(bucket, name) {
        Some(window) => rows.push(window),
        None => rows,
    }
}

/// `rows` and, behind them, the windows of a bucket.
pub open spec fn with_tray_bucket(rows: Seq<TrayWindow>, bucket: JsonView) -> Seq<TrayWindow> {
    with_window(with_window(rows, bucket, "primary"@), bucket, "secondary"@)
}

pub open spec fn tray_windows_by_id(entries: Seq<(Seq<char>, JsonView)>) -> Seq<TrayWindow>
    decreases entries.len(),
{
    if entries.len() == 0 {
        Seq::empty()
    } else {
        with_tray_bucket(tray_windows_by_id(entries.drop_last()), entries.last().1)
    }
}

/// The windows of a snapshot: those of the buckets by id, and where there are none, those of
/// the one bucket.
pub open spec fn tray_windows(snapshot: JsonView) -> Seq<TrayWindow> {
    let limits = field(snapshot, "rateLimits"@);
    let by_id = match entries_of(field_of(limits, "rateLimitsByLimitId"@)) {
        Some(entries) => tray_windows_by_id(entries),
        None => Seq::empty(),
    };
    if by_id.len() > 0 {
        by_id
    } else {
        match field_of(limits, "rateLimits"@) {
            Some(bucket) => with_tray_bucket(Seq::empty(), bucket),
            None => Seq::empty(),
        }
    }
}

fn add_tray_window(rows: &mut Vec<TrayWindow>, bucket: &Json, name: &str)
    ensures
        final(rows)@ == with_window(old(rows)@, bucket@, name@),
{
    let window = bucket.get(name);
    if let Some(duration) = number_u64(get_of(window, "windowDurationMins")) {
        let used_percent = match number_percent(get_of(window, "usedPercent")) {
            Some(used) => used,
            None => Percent { code: 0 },
        };
        let resets_at = read_whole(get_of(window, "resetsAt"));
        rows.push(TrayWindow { duration, used_percent, resets_at });
    }
}

/// Adds the windows of a bucket.
pub fn collect_tray_windows(bucket: &Json, rows: &mut Vec<TrayWindow>)
    ensures
        final(rows)@ == with_tray_bucket(old(rows)@, bucket@),
{
    add_tray_window(rows, bucket, "primary");
    add_tray_window(rows, bucket, "secondary");
}

fn read_tray_windows(snapshot: &Json) -> (r: Vec<TrayWindow>)
    ensures
        r@ == tray_windows(snapshot@),
{
    let mut rows: Vec<TrayWindow> = Vec::new();
    let limits = snapshot.get("rateLimits");
    if let Some(by_id) = get_of(limits, "rateLimitsByLimitId") {
        if let Some(entries) = by_id.entries() {
            let ghost all = entry_views(entries@);
            assert(all.take(0) =~= Seq::empty());
            let mut i: usize = 0;
            while i < entries.len()
                invariant
                    i <= entries.len(),
                    all == entry_views(entries@),
                    rows@ == tray_windows_by_id(all.take(i as int)),
                decreases entries.len() - i,
            {
                assert(all.take(i + 1).drop_last() =~= all.take(i as int));
                collect_tray_windows(&entries[i].1, &mut rows);
                i += 1;
            }
            assert(all.take(all.len() as int) =~= all);
        }
    }
    if rows.len() == 0 {
        assert(rows@ =~= Seq::empty());
        if let Some(bucket) = get_of(limits, "rateLimits") {
            collect_tray_windows(bucket, &mut rows);
        }
    }
    rows
}

/// How many minutes a week has.
pub const WEEK_MINUTES: u64 = 10080;

/// The window that the tray shows: the first of a week, or else the longest, and of several
/// so long the last.
pub open spec fn shown_window(windows: Seq<TrayWindow>) -> Option<TrayWindow> {
    let rows = sorted(windows);
    match crate::table::first_where(rows, |w: TrayWindow| w.duration == WEEK_MINUTES) {
        Some(at) => Some(rows[at]),
        None => if rows.len() > 0 {
            Some(rows.last())
        } else {
            None
        },
    }
}

fn pick_window(windows: Vec<TrayWindow>) -> (r: Option<TrayWindow>)
    ensures
        r == shown_window(windows@),
{
    let rows = sort_rows(windows);
    let ghost weekly = |w: TrayWindow| w.duration == WEEK_MINUTES;
    let mut i: usize = 0;
    while i < rows.len()
        invariant
            i <= rows.len(),
            rows@ == sorted(windows@),
            weekly == (|w: TrayWindow| w.duration == WEEK_MINUTES),
            forall|k: int| 0 <= k < i ==> !weekly(#[trigger] rows@[k]),
        decreases rows.len() - i,
    {
        if rows[i].duration == WEEK_MINUTES {
            proof {
                assert(weekly(rows@[i as int]));
                crate::table::lemma_first_where_at(rows@, weekly, i as int);
            }
            return Some(rows[i]);
        }
        i += 1;
    }
    proof {
        crate::table::lemma_first_where_none(rows@, weekly);
    }
    if rows.len() > 0 {
        Some(rows[rows.len() - 1])
    } else {
        None
    }
}

/// The bits of a number's double.
pub open spec fn double_bits(value: Option<JsonView>) -> Option<u64> {
    match value {
        Some(JsonView::Number(n)) => Some(n.bits),
        _ => None,
    }
}

pub open spec fn is_day(bucket: JsonView, today: Seq<char>) -> bool {
    text_of(field(bucket, "startDate"@)) == Some(today)
}

/// The tokens of the first bucket of the day.
pub open spec fn day_tokens(buckets: Seq<JsonView>, today: Seq<char>) -> Option<u64>
    decreases buckets.len(),
{
    if buckets.len() == 0 {
        None
    } else if is_day(buckets.first(), today) {
        double_bits(field(buckets.first(), "tokens"@))
    } else {
        day_tokens(buckets.drop_first(), today)
    }
}

pub open spec fn today_tokens_of(snapshot: JsonView, today: Seq<char>) -> Option<u64> {
    match items_of(field_of(field(snapshot, "usage"@), "dailyUsageBuckets"@)) {
        Some(buckets) => day_tokens(buckets, today),
        None => None,
    }
}

fn read_today_tokens(snapshot: &Json, today: &str) -> (r: Option<u64>)
    ensures
        r == today_tokens_of(snapshot@, today@),
{
    let daily = get_of(snapshot.get("usage"), "dailyUsageBuckets");
    if let Some(daily) = daily {
        if let Some(buckets) = daily.items() {
            let ghost all = views(buckets@);
            let mut i: usize = 0;
            assert(all.skip(0) =~= all);
            while i < buckets.len()
                invariant
                    i <= buckets.len(),
                    all == views(buckets@),
                    today_tokens_of(snapshot@, today@) == day_tokens(all, today@),
                    day_tokens(all, today@) == day_tokens(all.skip(i as int), today@),
                decreases buckets.len() - i,
            {
                assert(all.skip(i as int).drop_first() =~= all.skip(i + 1));
                if is_text(buckets[i].get("startDate"), today) {
                    return match buckets[i].get("tokens") {
                        Some(Json::Number(n)) => Some(n.bits),
                        _ => None,
                    };
                }
                i += 1;
            }
        }
    }
    None
}

/// What the tray shows of the quota. `today_tokens` is the bits of a double.
#[derive(Debug)]
pub struct TrayQuotaSummary {
    pub label: String,
    pub used_percent: Percent,
    pub resets_at: Option<i64>,
    pub today_tokens: Option<u64>,
}

/// The quota of a snapshot; `today` is the date where the user is.
pub fn tray_quota_summary(snapshot: &Json, today: &str) -> (r: TrayQuotaSummary)
    ensures
        r.today_tokens == today_tokens_of(snapshot@, today@),
        match shown_window(tray_windows(snapshot@)) {
            Some(window) => {
                &&& r.label@ == tray_title(window.duration as int)
                &&& r.used_percent.code == quota_code(window.used_percent.code as int)
                &&& r.resets_at == window.resets_at
            },
            None => r.label@ == "每周"@ && r.used_percent.code == 0 && r.resets_at is None,
        },
{
    let today_tokens = read_today_tokens(snapshot, today);
    match pick_window(read_tray_windows(snapshot)) {
        Some(window) => TrayQuotaSummary {
            label: tray_window_label(window.duration),
            used_percent: window.used_percent.in_quota(),
            resets_at: window.resets_at,
            today_tokens,
        },
        None => TrayQuotaSummary {
            label: "每周".to_owned(),
            used_percent: Percent { code: 0 },
            resets_at: None,
            today_tokens,
        },
    }
}

// ---------------------------------------------------------------------------
// Texts
// ---------------------------------------------------------------------------

/// The name of a window of so many minutes.
pub open spec fn tray_title(minutes: int) -> Seq<char> {
    if minutes == 300 {
        "5 小时"@
    } else if minutes == 1440 {
        "每日"@
    } else if minutes == 10080 {
        "每周"@
    } else if minutes % 10080 == 0 {
        decimal(minutes / 10080) + " 周"@
    } else if minutes % 1440 == 0 {
        decimal(minutes / 1440) + " 天"@
    } else if minutes % 60 == 0 {
        decimal(minutes / 60) + " 小时"@
    } else {
        decimal(minutes) + " 分钟"@
    }
}

pub fn tray_window_label(minutes: u64) -> (r: String)
    ensures
        r@ == tray_title(minutes as int),
{
    if minutes == 300 {
        "5 小时".to_owned()
    } else if minutes == 1440 {
        "每日".to_owned()
    } else if minutes == 10080 {
        "每周".to_owned()
    } else if minutes % 10080 == 0 {
        counted(minutes / 10080, " 周")
    } else if minutes % 1440 == 0 {
        counted(minutes / 1440, " 天")
    } else if minutes % 60 == 0 {
        counted(minutes / 60, " 小时")
    } else {
        counted(minutes, " 分钟")
    }
}

/// How long it takes until a reset.
pub open spec fn tray_reset_text(resets_at: Option<int>, now: int) -> Seq<char> {
    match resets_at {
        None => "重置时间不可用"@,
        Some(resets_at) => {
            let left = minutes_left(resets_at, now);
            let days = left / 1440;
            let hours = (left % 1440) / 60;
            let minutes = left % 60;
            if days > 0 {
                "重置：" @ + (decimal(days) + " 天 "@) + (decimal(hours) + " 小时后"@)
            } else if hours > 0 {
                "重置：" @ + (decimal(hours) + " 小时 "@) + (decimal(minutes) + " 分钟后"@)
            } else {
                "重置：" @ + (decimal(minutes) + " 分钟后"@)
            }
        },
    }
}

pub fn format_tray_reset_relative(resets_at: Option<i64>, now: i64) -> (r: String)
    ensures
        r@ == tray_reset_text(int_opt(resets_at), now as int),
{
    let resets_at: i64 = match resets_at {
        Some(resets_at) => resets_at,
        None => return "重置时间不可用".to_owned(),
    };
    let left: u64 = whole_minutes_left(resets_at, now);
    let days: u64 = left / 1440;
    let hours: u64 = (left % 1440) / 60;
    let minutes: u64 = left % 60;
    if days > 0 {
        let front = joined("重置：", counted(days, " 天 ").as_str());
        joined(front.as_str(), counted(hours, " 小时后").as_str())
    } else if hours > 0 {
        let front = joined("重置：", counted(hours, " 小时 ").as_str());
        joined(front.as_str(), counted(minutes, " 分钟后").as_str())
    } else {
        joined("重置：", counted(minutes, " 分钟后").as_str())
    }
}

/// A moment as a calendar and a clock show it where the user is.
#[derive(Clone, Copy, Debug, PartialEq, Eq, Structural)]
pub struct LocalMoment {
    pub month: u32,
    pub day: u32,
    pub hour: u32,
    pub minute: u32,
}

/// A number with at least two digits.
pub open spec fn two_digits(n: int) -> Seq<char> {
    if 0 <= n < 10 {
        "0"@ + decimal(n)
    } else {
        decimal(n)
    }
}

pub open spec fn tray_moment_text(moment: Option<LocalMoment>) -> Seq<char> {
    match moment {
        None => "重置时间不可用"@,
        Some(moment) => "重置：" @ + (decimal(moment.month as int) + "月"@) + (decimal(
            moment.day as int,
        ) + "日 "@) + two_digits(moment.hour as int) + ":"@ + two_digits(moment.minute as int),
    }
}

fn padded(n: u32) -> (r: String)
    ensures
        r@ == two_digits(n as int),
{
    let digits = decimal_digits(n as u128);
    if n < 10 {
        joined("0", digits.as_str())
    } else {
        digits
    }
}

/// When a reset is due. There is no moment where none is known or the calendar has none.
pub fn format_tray_reset_absolute(moment: Option<LocalMoment>) -> (r: String)
    ensures
        r@ == tray_moment_text(moment),
{
    match moment {
        None => "重置时间不可用".to_owned(),
        Some(moment) => {
            let front = joined("重置：", counted(moment.month as u64, "月").as_str());
            let front = joined(front.as_str(), counted(moment.day as u64, "日 ").as_str());
            let front = joined(front.as_str(), padded(moment.hour).as_str());
            let front = joined(front.as_str(), ":");
            joined(front.as_str(), padded(moment.minute).as_str())
        },
    }
}

/// How many steps the progress bar has.
pub const BAR_STEPS: u64 = 20;

pub open spec fn repeated(c: char, n: int) -> Seq<char> {
    Seq::new(n as nat, |i: int| c)
}

/// A bar with so many of its steps filled, and what stands behind it.
pub open spec fn bar_text(filled: int, percent: Seq<char>) -> Seq<char> {
    let full = if filled > BAR_STEPS {
        BAR_STEPS as int
    } else {
        filled
    };
    repeated('█', full) + repeated('░', BAR_STEPS - full) + " "@ + percent + "%"@
}

fn add_repeated(text: &mut String, c: char, n: u64)
    ensures
        final(text)@ == old(text)@ + repeated(c, n as int),
{
    let ghost before = text@;
    let mut i: u64 = 0;
    assert(text@ =~= before + repeated(c, 0));
    while i < n
        invariant
            i <= n,
            text@ == before + repeated(c, i as int),
        decreases n - i,
    {
        push_char(text, c);
        i += 1;
        assert(text@ =~= before + repeated(c, i as int));
    }
}

/// The bar that shows how much is used: `filled` of its steps, and the percentage as written.
pub fn tray_progress_bar(filled: u64, percent: &str) -> (r: String)
    ensures
        r@ == bar_text(filled as int, percent@),
{
    let full: u64 = if filled > BAR_STEPS {
        BAR_STEPS
    } else {
        filled
    };
    let mut bar = String::new();
    add_repeated(&mut bar, '█', full);
    add_repeated(&mut bar, '░', BAR_STEPS - full);
    proof {
        assert(bar@ =~= repeated('█', full as int) + repeated('░', BAR_STEPS - full));
    }
    let front = joined(bar.as_str(), " ");
    let front = joined(front.as_str(), percent);
    joined(front.as_str(), "%")
}

// ---------------------------------------------------------------------------
// The lines of the menu
// ---------------------------------------------------------------------------

/// The lines that the tray shows; a line that is missing stays as it is.
#[derive(Debug)]
pub struct TrayTexts {
    pub status: String,
    pub weekly_title: Option<String>,
    pub weekly_progress: String,
    pub weekly_reset: Option<String>,
    pub today: Option<String>,
    pub tooltip: String,
    pub title: String,
}

#[verifier::ext_equal]
pub struct TrayTextsView {
    pub status: Seq<char>,
    pub weekly_title: Option<Seq<char>>,
    pub weekly_progress: Seq<char>,
    pub weekly_reset: Option<Seq<char>>,
    pub today: Option<Seq<char>>,
    pub tooltip: Seq<char>,
    pub title: Seq<char>,
}

impl View for TrayTexts {
    type V = TrayTextsView;

    open spec fn view(&self) -> TrayTextsView {
        TrayTextsView {
            status: self.status@,
            weekly_title: text_opt(self.weekly_title),
            weekly_progress: self.weekly_progress@,
            weekly_reset: text_opt(self.weekly_reset),
            today: text_opt(self.today),
            tooltip: self.tooltip@,
            title: self.title@,
        }
    }
}

/// The lines while no snapshot can be had.
pub open spec fn texts_without_snapshot(connected: bool, error: Seq<char>) -> TrayTextsView {
    TrayTextsView {
        status: if connected {
            "Codex 已连接 · 额度不可用"@
        } else {
            "Codex 未连接"@
        },
        weekly_title: None,
        weekly_progress: "等待连接…"@,
        weekly_reset: Some("重置时间不可用"@),
        today: Some("今日 · 暂无数据"@),
        tooltip: "Codex 用量\n"@ + (if connected {
            "额度暂不可用"@
        } else {
            "未连接"@
        }) + "\n"@ + error,
        title: if connected {
            "Codex —"@
        } else {
            "Codex"@
        },
    }
}

pub fn unavailable_texts(connected: bool, error: &str) -> (r: TrayTexts)
    ensures
        r@ == texts_without_snapshot(connected, error@),
{
    let state = if connected {
        "额度暂不可用"
    } else {
        "未连接"
    };
    let front = joined("Codex 用量\n", state);
    let front = joined(front.as_str(), "\n");
    TrayTexts {
        status: (if connected {
            "Codex 已连接 · 额度不可用"
        } else {
            "Codex 未连接"
        }).to_owned(),
        weekly_title: None,
        weekly_progress: "等待连接…".to_owned(),
        weekly_reset: Some("重置时间不可用".to_owned()),
        today: Some("今日 · 暂无数据".to_owned()),
        tooltip: joined(front.as_str(), error),
        title: (if connected {
            "Codex —"
        } else {
            "Codex"
        }).to_owned(),
    }
}

/// The figures of a snapshot as they are written.
pub struct TrayFigures<'a> {
    pub label: &'a str,
    /// What is used and what remains, rounded to whole percent.
    pub used: &'a str,
    pub remaining: &'a str,
    pub progress: &'a str,
    pub reset_relative: &'a str,
    pub reset_absolute: &'a str,
    pub today: &'a str,
}

/// The lines for a snapshot. Without an account no figure is in the tooltip or the title.
pub open spec fn texts_of_snapshot(signed_in: bool, figures: TrayFigures) -> TrayTextsView {
    TrayTextsView {
        status: if signed_in {
            "Codex 已连接"@
        } else {
            "Codex 已连接 · 账号不可用"@
        },
        weekly_title: Some(figures.label@),
        weekly_progress: figures.progress@,
        weekly_reset: Some(figures.reset_absolute@),
        today: Some("今日 · "@ + figures.today@),
        tooltip: if signed_in {
            "Codex 用量\n"@ + figures.label@ + " "@ + figures.used@ + "%\n剩余 "@
                + figures.remaining@ + "%\n"@ + figures.reset_relative@
        } else {
            "Codex 用量\n账号不可用\n请登录 Codex"@
        },
        title: if signed_in {
            "Codex "@ + figures.used@ + "%"@
        } else {
            "Codex —"@
        },
    }
}

pub fn snapshot_texts(signed_in: bool, figures: TrayFigures<'_>) -> (r: TrayTexts)
    ensures
        r@ == texts_of_snapshot(signed_in, figures),
{
    let tooltip = if signed_in {
        let front = joined("Codex 用量\n", figures.label);
        let front = joined(front.as_str(), " ");
        let front = joined(front.as_str(), figures.used);
        let front = joined(front.as_str(), "%\n剩余 ");
        let front = joined(front.as_str(), figures.remaining);
        let front = joined(front.as_str(), "%\n");
        joined(front.as_str(), figures.reset_relative)
    } else {
        "Codex 用量\n账号不可用\n请登录 Codex".to_owned()
    };
    let title = if signed_in {
        joined(joined("Codex ", figures.used).as_str(), "%")
    } else {
        "Codex —".to_owned()
    };
    TrayTexts {
        status: (if signed_in {
            "Codex 已连接"
        } else {
            "Codex 已连接 · 账号不可用"
        }).to_owned(),
        weekly_title: Some(figures.label.to_owned()),
        weekly_progress: figures.progress.to_owned(),
        weekly_reset: Some(figures.reset_absolute.to_owned()),
        today: Some(joined("今日 · ", figures.today)),
        tooltip,
        title,
    }
}

/// The lines for a phase of the connection, of those that show one.
pub open spec fn texts_of_phase(phase: Seq<char>) -> Option<TrayTextsView> {
    let lines = if phase == "connecting"@ || phase == "initializing"@ {
        Some(("Codex 正在连接…"@, "正在连接 Codex…"@))
    } else if phase == "reconnecting"@ {
        Some(("Codex 重连中…"@, "正在重新连接 Codex…"@))
    } else if phase == "disconnected"@ {
        Some(("Codex 未连接"@, "Codex 连接已断开"@))
    } else {
        None
    };
    match lines {
        Some((status, message)) => Some(
            TrayTextsView {
                status,
                weekly_title: None,
                weekly_progress: message,
                weekly_reset: None,
                today: None,
                tooltip: "Codex 用量\n"@ + message,
                title: "Codex"@,
            },
        ),
        None => None,
    }
}

pub fn phase_texts(phase: &str) -> (r: Option<TrayTexts>)
    ensures
        match r {
            Some(texts) => texts_of_phase(phase@) == Some(texts@),
            None => texts_of_phase(phase@) is None,
        },
{
    let (status, message) = if same_text(phase, "connecting") || same_text(phase, "initializing") {
        ("Codex 正在连接…", "正在连接 Codex…")
    } else if same_text(phase, "reconnecting") {
        ("Codex 重连中…", "正在重新连接 Codex…")
    } else if same_text(phase, "disconnected") {
        ("Codex 未连接", "Codex 连接已断开")
    } else {
        return None;
    };
    Some(
        TrayTexts {
            status: status.to_owned(),
            weekly_title: None,
            weekly_progress: message.to_owned(),
            weekly_reset: None,
            today: None,
            tooltip: joined("Codex 用量\n", message),
            title: "Codex".to_owned(),
        },
    )
}

// ---------------------------------------------------------------------------
// The snapshot
// ---------------------------------------------------------------------------

/// An error that says that nobody is signed in.
pub open spec fn says_signed_out(error: Seq<char>) -> bool {
    let lower = ascii_lower(error);
    ||| occurs_in("not logged"@, lower)
    ||| occurs_in("not authenticated"@, lower)
    ||| occurs_in("unauthenticated"@, lower)
    ||| occurs_in("unauthorized"@, lower)
    ||| occurs_in("auth_required"@, lower)
    ||| occurs_in("auth required"@, lower)
    ||| occurs_in("not_logged"@, lower)
    ||| occurs_in("signed out"@, lower)
    ||| occurs_in("login required"@, lower)
}

pub fn classify_account_error(error: &str) -> (r: &'static str)
    ensures
        r@ == (if says_signed_out(error@) {
            "signedOut"@
        } else {
            "error"@
        }),
{
    let lower = ascii_lowercase(error);
    let lower = lower.as_str();
    if contains(lower, "not logged") || contains(lower, "not authenticated") || contains(
        lower,
        "unauthenticated",
    ) || contains(lower, "unauthorized") || contains(lower, "auth_required") || contains(
        lower,
        "auth required",
    ) || contains(lower, "not_logged") || contains(lower, "signed out") || contains(
        lower,
        "login required",
    ) {
        "signedOut"
    } else {
        "error"
    }
}

/// What the reply to the question for the account says of it.
pub open spec fn state_of_account(account: Result<JsonView, Seq<char>>) -> Seq<char> {
    match account {
        Ok(value) => match field(value, "account"@) {
            Some(account) => if account is Null {
                "signedOut"@
            } else {
                "signedIn"@
            },
            None => "signedOut"@,
        },
        Err(error) => if says_signed_out(error) {
            "signedOut"@
        } else {
            "error"@
        },
    }
}

pub open spec fn reply_view(reply: Result<Json, String>) -> Result<JsonView, Seq<char>> {
    match reply {
        Ok(value) => Ok(value@),
        Err(error) => Err(error@),
    }
}

pub fn account_state(account: &Result<Json, String>) -> (r: &'static str)
    ensures
        r@ == state_of_account(reply_view(*account)),
{
    match account {
        Ok(value) => match value.get("account") {
            Some(found) => if found.is_null() {
                "signedOut"
            } else {
                "signedIn"
            },
            None => "signedOut",
        },
        Err(error) => classify_account_error(error.as_str()),
    }
}

pub open spec fn value_or_null(reply: Result<JsonView, Seq<char>>) -> JsonView {
    match reply {
        Ok(value) => value,
        Err(_) => JsonView::Null,
    }
}

pub open spec fn error_or_null(reply: Result<JsonView, Seq<char>>) -> JsonView {
    match reply {
        Ok(_) => JsonView::Null,
        Err(error) => JsonView::Text(error),
    }
}

/// A snapshot of the three replies. Without the limits there is none; without one of the
/// other two its error stands beside it.
pub open spec fn snapshot_of(
    program: Option<Seq<char>>,
    fetched_at: JsonNumber,
    account: Result<JsonView, Seq<char>>,
    limits: Result<JsonView, Seq<char>>,
    usage: Result<JsonView, Seq<char>>,
) -> Result<JsonView, Seq<char>> {
    match limits {
        Err(error) => Err(error),
        Ok(limits) => Ok(
            JsonView::Object(
                seq![
                    ("account"@, value_or_null(account)),
                    ("accountError"@, error_or_null(account)),
                    ("accountState"@, JsonView::Text(state_of_account(account))),
                    ("codexPath"@, JsonView::Text(
                        match program {
                            Some(program) => program,
                            None => ""@,
                        },
                    )),
                    ("fetchedAt"@, JsonView::Number(fetched_at)),
                    ("rateLimits"@, limits),
                    ("usage"@, value_or_null(usage)),
                    ("usageError"@, error_or_null(usage)),
                ],
            ),
        ),
    }
}

fn split_reply(reply: Result<Json, String>) -> (r: (Json, Json))
    ensures
        r.0@ == value_or_null(reply_view(reply)),
        r.1@ == error_or_null(reply_view(reply)),
{
    match reply {
        Ok(value) => (value, Json::Null),
        Err(error) => (Json::Null, Json::Text(error)),
    }
}

/// Puts a snapshot together.
pub fn fetch_codex_snapshot(
    program: Option<String>,
    fetched_at: JsonNumber,
    account: Result<Json, String>,
    limits: Result<Json, String>,
    usage: Result<Json, String>,
) -> (r: Result<Json, String>)
    ensures
        reply_view(r) == snapshot_of(
            text_opt(program),
            fetched_at,
            reply_view(account),
            reply_view(limits),
            reply_view(usage),
        ),
{
    let state = account_state(&account);
    let (account_value, account_error) = split_reply(account);
    let limits_value = match limits {
        Ok(value) => value,
        Err(error) => return Err(error),
    };
    let (usage_value, usage_error) = split_reply(usage);
    let path = match program {
        Some(program) => program,
        None => "".to_owned(),
    };
    let mut entries: Vec<(String, Json)> = Vec::new();
    entries.push(("account".to_owned(), account_value));
    entries.push(("accountError".to_owned(), account_error));
    entries.push(("accountState".to_owned(), Json::Text(state.to_owned())));
    entries.push(("codexPath".to_owned(), Json::Text(path)));
    entries.push(("fetchedAt".to_owned(), Json::Number(fetched_at)));
    entries.push(("rateLimits".to_owned(), limits_value));
    entries.push(("usage".to_owned(), usage_value));
    entries.push(("usageError".to_owned(), usage_error));
    let ghost expected = snapshot_of(
        text_opt(program),
        fetched_at,
        reply_view(account),
        reply_view(limits),
        reply_view(usage),
    );
    let r = Json::Object(entries);
    proof {
        assert(r@->Object_0 =~= entry_views(entries@));
        assert(entry_views(entries@) =~= (expected->Ok_0)->Object_0);
    }
    Ok(r)
}

/// A snapshot is made of each reply as it came: an account that cannot be read, or usage that
/// cannot, hides nothing of the limits.
pub proof fn lemma_snapshot_keeps_limits(
    program: Option<Seq<char>>,
    fetched_at: JsonNumber,
    account: Result<JsonView, Seq<char>>,
    limits: JsonView,
    usage: Result<JsonView, Seq<char>>,
)
    ensures
        snapshot_of(program, fetched_at, account, Ok(limits), usage) is Ok,
        field(
            snapshot_of(program, fetched_at, account, Ok(limits), usage)->Ok_0,
            "rateLimits"@,
        ) == Some(limits),
        text_of(
            field(
                snapshot_of(program, fetched_at, account, Ok(limits), usage)->Ok_0,
                "accountState"@,
            ),
        ) == Some(state_of_account(account)),
{
    reveal_strlit("account");
    reveal_strlit("accountError");
    reveal_strlit("accountState");
    reveal_strlit("codexPath");
    reveal_strlit("fetchedAt");
    reveal_strlit("rateLimits");
    assert("account"@.len() == 7 && "accountError"@.len() == 12 && "accountState"@.len() == 12);
    assert("codexPath"@.len() == 9 && "fetchedAt"@.len() == 9 && "rateLimits"@.len() == 10);
    assert("accountError"@[7] == 'E' && "accountState"@[7] == 'S');
    assert("codexPath"@[0] == 'c' && "fetchedAt"@[0] == 'f');
    reveal_with_fuel(crate::json::entry, 9);
}

/// A window of a bucket is read by name: its length, without which there is none, its usage,
/// nothing where none is said, and its next reset.
pub proof fn lemma_tray_window_is_read_by_name(bucket: JsonView, name: Seq<char>)
    ensures
        ({
            let data = field(bucket, name);
            let read = tray_window_in(bucket, name);
            let length = unsigned_of(field_of(data, "windowDurationMins"@));
            let used = percent_code_of(field_of(data, "usedPercent"@));
            &&& read is Some <==> length is Some
            &&& read matches Some(found) ==> {
                &&& found.duration == length->0
                &&& used matches Some(code) ==> found.used_percent.code == code
                &&& used is None ==> found.used_percent.code == 0
                &&& found.resets_at == whole_of(field_of(data, "resetsAt"@))
            }
        }),
{
    let data = field(bucket, name);
    if let Some(JsonView::Number(n)) = field_of(data, "usedPercent"@) {
        assert(i64::MIN <= code_of_bits(n.bits) <= i64::MAX);
    }
}

/// The window that is shown is one of a week where there is one, and else one that no other is
/// longer than; there is one wherever there is any window.
pub proof fn lemma_week_is_shown_or_the_longest(windows: Seq<TrayWindow>)
    ensures
        match shown_window(windows) {
            Some(shown) => {
                &&& exists|i: int| 0 <= i < windows.len() && #[trigger] windows[i] == shown
                &&& shown.duration != 10_080 ==> forall|i: int|
                    0 <= i < windows.len() ==> (#[trigger] windows[i]).duration != 10_080
                        && windows[i].duration <= shown.duration
            },
            None => windows.len() == 0,
        },
{
    let rows = sorted(windows);
    let week = |w: TrayWindow| w.duration == WEEK_MINUTES;
    lemma_sorted(windows);
    crate::table::lemma_first_where(rows, week);
    if rows.len() > 0 {
        match crate::table::first_where(rows, week) {
            Some(at) => {
                assert(week(rows[at]));
                let from = lemma_sorted_member(windows, at);
                assert(windows[from] == rows[at]);
            },
            None => {
                let last = rows.len() - 1;
                let from = lemma_sorted_member(windows, last);
                assert(windows[from] == rows[last]);
                assert forall|i: int| 0 <= i < windows.len() implies (
                #[trigger] windows[i]).duration != 10_080 && windows[i].duration
                    <= rows[last].duration by {
                    let at = lemma_sorted_keeps(windows, i);
                    assert(!week(rows[at]));
                    if at < last {
                        assert(!rows[at].behind(rows[last]));
                    }
                }
            },
        }
    }
}

/// The tokens of today are those of the first day of the list with today's date.
pub proof fn lemma_today_is_found_by_its_date(buckets: Seq<JsonView>, today: Seq<char>, at: int)
    requires
        0 <= at < buckets.len(),
        text_of(field(buckets[at], "startDate"@)) == Some(today),
        forall|k: int|
            0 <= k < at ==> text_of(field(#[trigger] buckets[k], "startDate"@)) != Some(today),
    ensures
        day_tokens(buckets, today) == double_bits(field(buckets[at], "tokens"@)),
    decreases at,
{
    if at > 0 {
        assert(text_of(field(buckets[0], "startDate"@)) != Some(today));
        let rest = buckets.drop_first();
        assert forall|k: int| 0 <= k < at - 1 implies text_of(
            field(#[trigger] rest[k], "startDate"@),
        ) != Some(today) by {
            assert(rest[k] == buckets[k + 1]);
        }
        lemma_today_is_found_by_its_date(rest, today, at - 1);
    }
}

/// A day that is not on the list has no tokens.
pub proof fn lemma_other_days_are_not_today(buckets: Seq<JsonView>, today: Seq<char>)
    requires
        forall|k: int|
            0 <= k < buckets.len() ==> text_of(field(#[trigger] buckets[k], "startDate"@)) != Some(
                today,
            ),
    ensures
        day_tokens(buckets, today) is None,
    decreases buckets.len(),
{
    if buckets.len() > 0 {
        assert(text_of(field(buckets[0], "startDate"@)) != Some(today));
        let rest = buckets.drop_first();
        assert forall|k: int| 0 <= k < rest.len() implies text_of(
            field(#[trigger] rest[k], "startDate"@),
        ) != Some(today) by {
            assert(rest[k] == buckets[k + 1]);
        }
        lemma_other_days_are_not_today(rest, today);
    }
}

/// The windows of the buckets by id are the primary and the secondary window of each bucket,
/// and nothing else.
pub proof fn lemma_every_tray_window_is_found(
    entries: Seq<(Seq<char>, JsonView)>,
    found: TrayWindow,
)
    ensures
        tray_windows_by_id(entries).contains(found) <==> exists|i: int|
            {
                &&& 0 <= i < entries.len()
                &&& tray_window_in((#[trigger] entries[i]).1, "primary"@) == Some(found)
                    || tray_window_in(entries[i].1, "secondary"@) == Some(found)
            },
    decreases entries.len(),
{
    if entries.len() > 0 {
        let front = entries.drop_last();
        lemma_every_tray_window_is_found(front, found);
        let before = tray_windows_by_id(front);
        let last = entries.len() - 1;
        let bucket = entries[last].1;
        let middle = with_window(before, bucket, "primary"@);
        lemma_with_window(before, bucket, "primary"@, found);
        lemma_with_window(middle, bucket, "secondary"@, found);
        assert(tray_windows_by_id(entries) == with_window(middle, bucket, "secondary"@));
        assert forall|i: int| 0 <= i < front.len() implies #[trigger] entries[i] == front[i] by {}
        if before.contains(found) {
            let i = choose|i: int|
                {
                    &&& 0 <= i < front.len()
                    &&& tray_window_in((#[trigger] front[i]).1, "primary"@) == Some(found)
                        || tray_window_in(front[i].1, "secondary"@) == Some(found)
                };
            assert(entries[i] == front[i]);
        }
        if exists|i: int|
            {
                &&& 0 <= i < entries.len()
                &&& tray_window_in((#[trigger] entries[i]).1, "primary"@) == Some(found)
                    || tray_window_in(entries[i].1, "secondary"@) == Some(found)
            } {
            let i = choose|i: int|
                {
                    &&& 0 <= i < entries.len()
                    &&& tray_window_in((#[trigger] entries[i]).1, "primary"@) == Some(found)
                        || tray_window_in(entries[i].1, "secondary"@) == Some(found)
                };
            if i < last {
                assert(front[i] == entries[i]);
            }
        }
    }
}

proof fn lemma_with_window(
    rows: Seq<TrayWindow>,
    bucket: JsonView,
    name: Seq<char>,
    found: TrayWindow,
)
    ensures
        with_window(rows, bucket, name).contains(found) <==> rows.contains(found) || tray_window_in(
            bucket,
            name,
        ) == Some(found),
{
    let all = with_window(rows, bucket, name);
    if rows.contains(found) {
        let i = choose|i: int| 0 <= i < rows.len() && rows[i] == found;
        assert(all[i] == found);
    }
    if tray_window_in(bucket, name) == Some(found) {
        assert(all[rows.len() as int] == found);
    }
    if all.contains(found) {
        let i = choose|i: int| 0 <= i < all.len() && all[i] == found;
        if i < rows.len() {
            assert(rows[i] == found);
        }
    }
}

/// What the tray says of a reset names the days and hours, the hours and minutes, or the
/// minutes that are left until it.
pub proof fn lemma_tray_names_the_time_left(
    days: int,
    hours: int,
    minutes: int,
    seconds: int,
    now: int,
)
    requires
        0 <= days,
        0 <= hours < 24,
        0 <= minutes < 60,
        0 <= seconds < 60,
    ensures
        ({
            let at = now + days * 86_400 + hours * 3_600 + minutes * 60 + seconds;
            let text = tray_reset_text(Some(at), now);
            &&& days > 0 ==> text == "重置："@ + (decimal(days) + " 天 "@) + (decimal(hours)
                + " 小时后"@)
            &&& days == 0 && hours > 0 ==> text == "重置："@ + (decimal(hours) + " 小时 "@) + (
            decimal(minutes) + " 分钟后"@)
            &&& days == 0 && hours == 0 ==> text == "重置："@ + (decimal(minutes) + " 分钟后"@)
        }),
{
    let at = now + days * 86_400 + hours * 3_600 + minutes * 60 + seconds;
    let left = minutes_left(at, now);
    assert(left == days * 1440 + hours * 60 + minutes);
    assert(left / 1440 == days);
    assert(left % 1440 == hours * 60 + minutes);
    assert(left % 60 == minutes);
}

/// The bar has twenty steps, of which the first are filled, and never more than there are.
pub proof fn lemma_bar_has_twenty_steps(filled: int, percent: Seq<char>)
    requires
        0 <= filled,
    ensures
        bar_text(filled, percent).len() == 20 + " "@.len() + percent.len() + "%"@.len(),
        forall|i: int|
            0 <= i < 20 ==> #[trigger] bar_text(filled, percent)[i] == if i < filled {
                '█'
            } else {
                '░'
            },
{
}

/// Someone is signed in where the reply names an account; nobody is where it names none, or
/// where its error says so; any other error says nothing of that.
pub proof fn lemma_account_state_follows_the_reply(account: Result<JsonView, Seq<char>>)
    ensures
        account matches Ok(value) ==> {
            &&& field(value, "account"@) is None || field(value, "account"@) == Some(
                JsonView::Null,
            ) ==> state_of_account(account) == "signedOut"@
            &&& field(value, "account"@) is Some && field(value, "account"@) != Some(
                JsonView::Null,
            ) ==> state_of_account(account) == "signedIn"@
        },
        account matches Err(error) ==> {
            &&& says_signed_out(error) ==> state_of_account(account) == "signedOut"@
            &&& !says_signed_out(error) ==> state_of_account(account) == "error"@
        },
{
}

/// Without an account neither the tooltip nor the title shows a figure: two snapshots are then
/// shown alike there, whatever their figures.
pub proof fn lemma_figures_need_an_account(first: TrayFigures, second: TrayFigures)
    ensures
        texts_of_snapshot(false, first).tooltip == texts_of_snapshot(false, second).tooltip,
        texts_of_snapshot(false, first).title == texts_of_snapshot(false, second).title,
        texts_of_snapshot(true, first).title == "Codex "@ + first.used@ + "%"@,
        texts_of_snapshot(true, first).weekly_progress == first.progress@,
        texts_of_snapshot(true, first).weekly_title == Some(first.label@),
        texts_of_snapshot(true, first).weekly_reset == Some(first.reset_absolute@),
{
}

/// The tray names a window by the largest unit that it is a whole number of.
pub proof fn lemma_tray_window_is_named_by_its_unit(n: int)
    requires
        n >= 1,
    ensures
        n > 1 ==> tray_title(n * 10_080) == decimal(n) + " 周"@,
        n > 1 && n % 7 != 0 ==> tray_title(n * 1_440) == decimal(n) + " 天"@,
        n != 5 && n % 24 != 0 ==> tray_title(n * 60) == decimal(n) + " 小时"@,
        n % 60 != 0 ==> tray_title(n) == decimal(n) + " 分钟"@,
        tray_title(300) == "5 小时"@,
        tray_title(1_440) == "每日"@,
        tray_title(10_080) == "每周"@,
{
    lemma_units_of_minutes(n);
}

/// The windows of a snapshot are those of the buckets by id; only where these have none are
/// they those of the one bucket.
pub proof fn lemma_tray_buckets_by_id_go_first(snapshot: JsonView)
    ensures
        ({
            let limits = field(snapshot, "rateLimits"@);
            let by_id = entries_of(field_of(limits, "rateLimitsByLimitId"@));
            let single = field_of(limits, "rateLimits"@);
            let found = tray_windows(snapshot);
            &&& by_id matches Some(entries) ==> (tray_windows_by_id(entries).len() > 0 ==> found
                == tray_windows_by_id(entries))
            &&& by_id is None || tray_windows_by_id(by_id->0).len() == 0 ==> match single {
                Some(bucket) => forall|window: TrayWindow| #[trigger]
                    found.contains(window) <==> tray_window_in(bucket, "primary"@) == Some(window)
                        || tray_window_in(bucket, "secondary"@) == Some(window),
                None => found.len() == 0,
            }
        }),
{
    let limits = field(snapshot, "rateLimits"@);
    let by_id = entries_of(field_of(limits, "rateLimitsByLimitId"@));
    let found = tray_windows(snapshot);
    if by_id is None || tray_windows_by_id(by_id->0).len() == 0 {
        if let Some(bucket) = field_of(limits, "rateLimits"@) {
            let none = Seq::<TrayWindow>::empty();
            let first = with_window(none, bucket, "primary"@);
            assert forall|window: TrayWindow| #[trigger]
                found.contains(window) <==> tray_window_in(bucket, "primary"@) == Some(window)
                    || tray_window_in(bucket, "secondary"@) == Some(window) by {
                lemma_with_window(none, bucket, "primary"@, window);
                lemma_with_window(first, bucket, "secondary"@, window);
            }
        }
    }
}

/// The tokens of today are looked for among the days of the snapshot's usage.
pub proof fn lemma_today_is_read_from_the_usage(snapshot: JsonView, today: Seq<char>)
    ensures
        items_of(field_of(field(snapshot, "usage"@), "dailyUsageBuckets"@)) matches Some(days)
            ==> today_tokens_of(snapshot, today) == day_tokens(days, today),
        items_of(field_of(field(snapshot, "usage"@), "dailyUsageBuckets"@)) is None
            ==> today_tokens_of(snapshot, today) is None,
{
}

/// Hours and minutes have two digits on the clock.
pub proof fn lemma_clock_has_two_digits(n: int)
    requires
        0 <= n < 100,
    ensures
        two_digits(n).len() == 2,
        two_digits(n)[0] == digit_char(n / 10),
        two_digits(n)[1] == digit_char(n % 10),
{
    reveal_strlit("0");
    assert("0"@.len() == 1 && "0"@[0] == '0');
    reveal_with_fuel(decimal_nat, 3);
    if n < 10 {
        assert(two_digits(n) =~= "0"@ + seq![digit_char(n)]);
    } else {
        assert(two_digits(n) =~= seq![digit_char(n / 10)].push(digit_char(n % 10)));
    }
}

/// What a snapshot does not have of an account or of usage it has the error of, and the other
/// way round.
pub proof fn lemma_value_or_error_is_null(reply: Result<JsonView, Seq<char>>)
    ensures
        reply matches Ok(value) ==> value_or_null(reply) == value && error_or_null(reply)
            == JsonView::Null,
        reply matches Err(error) ==> value_or_null(reply) == JsonView::Null && error_or_null(reply)
            == JsonView::Text(error),
{
}

} // verus!
