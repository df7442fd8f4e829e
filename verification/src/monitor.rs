//! Quota alerts and the usage history: settings, the windows of a snapshot, thresholds, resets.
use crate::arith::lemma_units_of_minutes;
use crate::json::{
    as_text, entries_of, entry_views, field, field_of, get_of, integer_of, number_i64,
    number_percent, opt_view, percent_code_of, text_of, Json, JsonView, Whole,
};
use crate::percent::{quota_code, whole_code, Percent, FULL_CODE};
use crate::text::{decimal, decimal_text, decimal_wide, joined, same_text};
use crate::text_map::TextMap;
use vstd::prelude::*;

verus! {

/// How many seconds lie between two entries of the history, at least.
pub const SAMPLE_INTERVAL_SECONDS: i64 = 300;

pub const MAX_HISTORY_ENTRIES: usize = 120_000;

/// What the user chose, and what was announced so far under each window's key.
#[derive(Debug)]
pub struct MonitorSettings {
    pub notify_thresholds: Vec<u8>,
    pub notify_quota_reset: bool,
    pub launch_at_startup: bool,
    pub start_minimized: bool,
    pub close_to_tray: bool,
    pub usage_refresh_policy: String,
    pub last_notified_threshold: TextMap<u8>,
    pub last_seen_reset_at: TextMap<i64>,
    pub last_reset_notified_at: TextMap<i64>,
}

impl MonitorSettings {
    pub open spec fn wf(self) -> bool {
        &&& self.last_notified_threshold.wf()
        &&& self.last_seen_reset_at.wf()
        &&& self.last_reset_notified_at.wf()
    }
}

impl Default for MonitorSettings {
    fn default() -> (r: MonitorSettings)
        ensures
            r.wf(),
            r.notify_thresholds@ == seq![80u8, 90u8, 95u8, 100u8],
            r.notify_quota_reset,
            !r.launch_at_startup,
            !r.start_minimized,
            r.close_to_tray,
            r.usage_refresh_policy@ == "adaptive"@,
            r.last_notified_threshold@ == Map::<Seq<char>, u8>::empty(),
            r.last_seen_reset_at@ == Map::<Seq<char>, i64>::empty(),
            r.last_reset_notified_at@ == Map::<Seq<char>, i64>::empty(),
    {
        MonitorSettings {
            notify_thresholds: vec![80u8, 90u8, 95u8, 100u8],
            notify_quota_reset: true,
            launch_at_startup: false,
            start_minimized: false,
            close_to_tray: true,
            usage_refresh_policy: default_usage_refresh_policy(),
            last_notified_threshold: TextMap::new(),
            last_seen_reset_at: TextMap::new(),
            last_reset_notified_at: TextMap::new(),
        }
    }
}

pub fn default_usage_refresh_policy() -> (r: String)
    ensures
        r@ == "adaptive"@,
{
    "adaptive".to_owned()
}

/// The refresh policies that there are.
pub open spec fn is_refresh_policy(policy: Seq<char>) -> bool {
    ||| policy == "adaptive"@
    ||| policy == "15s"@
    ||| policy == "30s"@
    ||| policy == "1m"@
    ||| policy == "3m"@
    ||| policy == "5m"@
    ||| policy == "5s"@
}

pub open spec fn rising(values: Seq<u8>) -> bool {
    forall|i: int, j: int|
        0 <= i < j < values.len() ==> (#[trigger] values[i]) < (#[trigger] values[j])
}

/// What stays of a list of thresholds: each value from 1 to 100 once, in rising order.
pub open spec fn sanitized(before: Seq<u8>, after: Seq<u8>) -> bool {
    &&& rising(after)
    &&& forall|value: u8| #[trigger]
        after.contains(value) <==> before.contains(value) && 1 <= value <= 100
}

fn add_threshold(values: &mut Vec<u8>, value: u8)
    requires
        rising(old(values)@),
    ensures
        rising(final(values)@),
        forall|other: u8| #[trigger]
            final(values)@.contains(other) <==> old(values)@.contains(other) || other == value,
{
    let ghost before = values@;
    let mut i: usize = 0;
    while i < values.len() && values[i] < value
        invariant
            i <= values.len(),
            values@ == before,
            forall|k: int| 0 <= k < i ==> (#[trigger] before[k]) < value,
        decreases values.len() - i,
    {
        i += 1;
    }
    if i < values.len() && values[i] == value {
        assert(before[i as int] == value);
        return;
    }
    values.insert(i, value);
    proof {
        let after = values@;
        assert(after =~= before.insert(i as int, value));
        assert forall|a: int, b: int| 0 <= a < b < after.len() implies (#[trigger] after[a]) < (
        #[trigger] after[b]) by {
            let x = if a < i {
                a
            } else {
                a - 1
            };
            let y = if b < i {
                b
            } else {
                b - 1
            };
            if a != i && b != i {
                assert(after[a] == before[x] && after[b] == before[y]);
            } else if a == i {
                assert(after[b] == before[y]);
                assert(before[i as int] <= before[y]);
            } else {
                assert(after[a] == before[x]);
            }
        }
        assert forall|other: u8| #[trigger]
            after.contains(other) <==> before.contains(other) || other == value by {
            if before.contains(other) {
                let k = before.index_of(other);
                let to = if k < i {
                    k
                } else {
                    k + 1
                };
                assert(after[to] == other);
            }
            if other == value {
                assert(after[i as int] == other);
            }
            if after.contains(other) && other != value {
                let k = after.index_of(other);
                let to = if k < i {
                    k
                } else {
                    k - 1
                };
                assert(before[to] == other);
            }
        }
    }
}

/// Keeps the thresholds that can be reached, each once and in rising order, and puts the
/// default in place of a refresh policy that there is not.
pub fn sanitize_settings(settings: &mut MonitorSettings)
    ensures
        sanitized(old(settings).notify_thresholds@, final(settings).notify_thresholds@),
        final(settings).usage_refresh_policy@ == (if is_refresh_policy(
            old(settings).usage_refresh_policy@,
        ) {
            old(settings).usage_refresh_policy@
        } else {
            "adaptive"@
        }),
        final(settings).notify_quota_reset == old(settings).notify_quota_reset,
        final(settings).launch_at_startup == old(settings).launch_at_startup,
        final(settings).start_minimized == old(settings).start_minimized,
        final(settings).close_to_tray == old(settings).close_to_tray,
        final(settings).last_notified_threshold == old(settings).last_notified_threshold,
        final(settings).last_seen_reset_at == old(settings).last_seen_reset_at,
        final(settings).last_reset_notified_at == old(settings).last_reset_notified_at,
{
    let ghost before = settings.notify_thresholds@;
    let mut kept: Vec<u8> = Vec::new();
    let mut i: usize = 0;
    while i < settings.notify_thresholds.len()
        invariant
            i <= settings.notify_thresholds.len(),
            settings.notify_thresholds@ == before,
            *settings == *old(settings),
            rising(kept@),
            forall|value: u8| #[trigger]
                kept@.contains(value) <==> before.take(i as int).contains(value) && 1 <= value
                    <= 100,
        decreases settings.notify_thresholds.len() - i,
    {
        let value: u8 = settings.notify_thresholds[i];
        let ghost kept_before = kept@;
        if value > 0 && value <= 100 {
            add_threshold(&mut kept, value);
        }
        proof {
            let head = before.take(i as int);
            let longer = before.take(i + 1);
            assert(longer =~= head.push(value));
            assert forall|other: u8| #[trigger]
                kept@.contains(other) <==> longer.contains(other) && 1 <= other <= 100 by {
                assert(kept_before.contains(other) <==> head.contains(other) && 1 <= other <= 100);
                if head.contains(other) {
                    assert(longer[head.index_of(other)] == other);
                }
                if longer.contains(other) && other != value {
                    assert(head[longer.index_of(other)] == other);
                }
                assert(longer[i as int] == value);
            }
        }
        i += 1;
    }
    assert(before.take(before.len() as int) =~= before);
    settings.notify_thresholds = kept;
    let policy = settings.usage_refresh_policy.as_str();
    if !(same_text(policy, "adaptive") || same_text(policy, "15s") || same_text(policy, "30s")
        || same_text(policy, "1m") || same_text(policy, "3m") || same_text(policy, "5m")
        || same_text(policy, "5s")) {
        settings.usage_refresh_policy = default_usage_refresh_policy();
    }
}

/// There is one list that holds given values in rising order.
proof fn lemma_rising_is_unique(a: Seq<u8>, b: Seq<u8>)
    requires
        rising(a),
        rising(b),
        forall|value: u8| #[trigger] a.contains(value) <==> b.contains(value),
    ensures
        a == b,
    decreases a.len(),
{
    if a.len() == 0 {
        if b.len() > 0 {
            assert(b.contains(b[0]));
            assert(a.contains(b[0]));
        }
    } else if b.len() == 0 {
        assert(a.contains(a[0]));
        assert(b.contains(a[0]));
    } else {
        let x = a.last();
        let y = b.last();
        assert(a.contains(x) && b.contains(y));
        assert(b.contains(x) && a.contains(y));
        let p = b.index_of(x);
        let q = a.index_of(y);
        assert(x <= y) by {
            if p < b.len() - 1 {
                assert(b[p] < b[b.len() - 1]);
            }
        }
        assert(y <= x) by {
            if q < a.len() - 1 {
                assert(a[q] < a[a.len() - 1]);
            }
        }
        let front = a.drop_last();
        let rest = b.drop_last();
        assert forall|value: u8| #[trigger] front.contains(value) <==> rest.contains(value) by {
            if front.contains(value) {
                let k = front.index_of(value);
                assert(a[k] == value && a[k] < a[a.len() - 1]);
                assert(a.contains(value));
                assert(b.contains(value));
                let m = b.index_of(value);
                assert(m != b.len() - 1);
                assert(rest[m] == value);
            }
            if rest.contains(value) {
                let k = rest.index_of(value);
                assert(b[k] == value && b[k] < b[b.len() - 1]);
                assert(b.contains(value));
                assert(a.contains(value));
                let m = a.index_of(value);
                assert(m != a.len() - 1);
                assert(front[m] == value);
            }
        }
        lemma_rising_is_unique(front, rest);
        assert(a =~= front.push(x) && b =~= rest.push(y));
    }
}

/// Sanitizing what was sanitized changes nothing.
pub proof fn lemma_sanitizing_twice_is_once(before: Seq<u8>, once: Seq<u8>, twice: Seq<u8>)
    requires
        sanitized(before, once),
        sanitized(once, twice),
    ensures
        twice == once,
{
    assert forall|value: u8| #[trigger] once.contains(value) <==> twice.contains(value) by {
        assert(twice.contains(value) <==> once.contains(value) && 1 <= value <= 100);
        assert(once.contains(value) <==> before.contains(value) && 1 <= value <= 100);
    }
    lemma_rising_is_unique(once, twice);
}

// ---------------------------------------------------------------------------
// The windows of a snapshot
// ---------------------------------------------------------------------------

/// What a snapshot says of one window of a limit.
#[derive(Debug)]
pub struct LimitWindow {
    pub key: String,
    pub limit_id: String,
    pub limit_name: String,
    pub window: String,
    pub window_duration_mins: u64,
    pub used_percent: Percent,
    pub resets_at: Option<i64>,
}

#[verifier::ext_equal]
pub struct LimitWindowView {
    pub key: Seq<char>,
    pub limit_id: Seq<char>,
    pub limit_name: Seq<char>,
    pub window: Seq<char>,
    pub minutes: int,
    pub used: int,
    pub resets_at: Option<int>,
}

pub open spec fn int_opt(value: Option<i64>) -> Option<int> {
    match value {
        Some(n) => Some(n as int),
        None => None,
    }
}

impl View for LimitWindow {
    type V = LimitWindowView;

    open spec fn view(&self) -> LimitWindowView {
        LimitWindowView {
            key: self.key@,
            limit_id: self.limit_id@,
            limit_name: self.limit_name@,
            window: self.window@,
            minutes: self.window_duration_mins as int,
            used: self.used_percent.code as int,
            resets_at: int_opt(self.resets_at),
        }
    }
}

pub open spec fn window_views(rows: Seq<LimitWindow>) -> Seq<LimitWindowView> {
    Seq::new(rows.len(), |i: int| rows[i]@)
}

/// A number that is a whole one and not negative.
pub open spec fn unsigned_of(value: Option<JsonView>) -> Option<int> {
    match value {
        Some(JsonView::Number(n)) => match n.whole {
            Whole::Unsigned(n) => Some(n as int),
            _ => None,
        },
        _ => None,
    }
}

pub fn number_u64(value: Option<&Json>) -> (r: Option<u64>)
    ensures
        match r {
            Some(n) => unsigned_of(opt_view(value)) == Some(n as int),
            None => unsigned_of(opt_view(value)) is None,
        },
{
    match value {
        Some(Json::Number(n)) => match n.whole {
            Whole::Unsigned(n) => Some(n),
            _ => None,
        },
        _ => None,
    }
}

/// The key of a limit's window.
pub open spec fn window_key(limit_id: Seq<char>, window: Seq<char>) -> Seq<char> {
    limit_id + ":"@ + window
}

/// The window of the given name in a limit's bucket: none without a length in whole minutes
/// and a percentage.
pub open spec fn window_in(limit_id: Seq<char>, bucket: JsonView, window: Seq<char>) -> Option<
    LimitWindowView,
> {
    let data = field(bucket, window);
    match (
        unsigned_of(field_of(data, "windowDurationMins"@)),
        percent_code_of(field_of(data, "usedPercent"@)),
    ) {
        (Some(minutes), Some(code)) => Some(
            LimitWindowView {
                key: window_key(limit_id, window),
                limit_id,
                limit_name: match text_of(field(bucket, "limitName"@)) {
                    Some(name) => name,
                    None => limit_id,
                },
                window,
                minutes,
                used: quota_code(code),
                resets_at: integer_of(field_of(data, "resetsAt"@)),
            },
        ),
        _ => None,
    }
}

pub open spec fn with_found<T>(rows: Seq<T>, found: Option<T>) -> Seq<T> {
    match found {
        Some(row) => rows.push(row),
        None => rows,
    }
}

/// `rows` and, behind them, the primary and the secondary window of a bucket.
pub open spec fn with_bucket(
    rows: Seq<LimitWindowView>,
    limit_id: Seq<char>,
    bucket: JsonView,
) -> Seq<LimitWindowView> {
    with_found(
        with_found(rows, window_in(limit_id, bucket, "primary"@)),
        window_in(limit_id, bucket, "secondary"@),
    )
}

/// The windows of the buckets that stand under their limits' ids.
pub open spec fn windows_by_id(entries: Seq<(Seq<char>, JsonView)>) -> Seq<LimitWindowView>
    decreases entries.len(),
{
    if entries.len() == 0 {
        Seq::empty()
    } else {
        with_bucket(windows_by_id(entries.drop_last()), entries.last().0, entries.last().1)
    }
}

/// The windows of a snapshot: those of the buckets by id, and where there are none of these,
/// those of the one bucket that carries its id.
pub open spec fn snapshot_windows(snapshot: JsonView) -> Seq<LimitWindowView> {
    let limits = field(snapshot, "rateLimits"@);
    let by_id = entries_of(field_of(limits, "rateLimitsByLimitId"@));
    if by_id is Some && by_id->0.len() > 0 {
        windows_by_id(by_id->0)
    } else {
        let bucket = field_of(limits, "rateLimits"@);
        match text_of(field_of(bucket, "limitId"@)) {
            Some(limit_id) => with_bucket(Seq::empty(), limit_id, bucket->0),
            None => Seq::empty(),
        }
    }
}

fn read_window(limit_id: &str, bucket: &Json, window: &str) -> (r: Option<LimitWindow>)
    ensures
        match r {
            Some(found) => window_in(limit_id@, bucket@, window@) == Some(found@),
            None => window_in(limit_id@, bucket@, window@) is None,
        },
{
    let data = bucket.get(window);
    let minutes = match number_u64(get_of(data, "windowDurationMins")) {
        Some(minutes) => minutes,
        None => return None,
    };
    let used = match number_percent(get_of(data, "usedPercent")) {
        Some(used) => used,
        None => return None,
    };
    let limit_name = match as_text(bucket.get("limitName")) {
        Some(name) => name.to_owned(),
        None => limit_id.to_owned(),
    };
    let front = joined(limit_id, ":");
    Some(
        LimitWindow {
            key: joined(front.as_str(), window),
            limit_id: limit_id.to_owned(),
            limit_name,
            window: window.to_owned(),
            window_duration_mins: minutes,
            used_percent: used.in_quota(),
            resets_at: number_i64(get_of(data, "resetsAt")),
        },
    )
}

fn add_window(rows: &mut Vec<LimitWindow>, limit_id: &str, bucket: &Json, window: &str)
    ensures
        window_views(final(rows)@) == with_found(
            window_views(old(rows)@),
            window_in(limit_id@, bucket@, window@),
        ),
{
    if let Some(found) = read_window(limit_id, bucket, window) {
        let ghost before = rows@;
        rows.push(found);
        assert(window_views(rows@) =~= window_views(before).push(found@));
    }
}

fn add_bucket(rows: &mut Vec<LimitWindow>, limit_id: &str, bucket: &Json)
    ensures
        window_views(final(rows)@) == with_bucket(window_views(old(rows)@), limit_id@, bucket@),
{
    add_window(rows, limit_id, bucket, "primary");
    add_window(rows, limit_id, bucket, "secondary");
}

/// Reads the windows of a snapshot.
pub fn extract_windows(snapshot: &Json) -> (r: Vec<LimitWindow>)
    ensures
        window_views(r@) == snapshot_windows(snapshot@),
{
    let mut rows: Vec<LimitWindow> = Vec::new();
    assert(window_views(rows@) =~= Seq::empty());
    let limits = snapshot.get("rateLimits");
    if let Some(by_id) = get_of(limits, "rateLimitsByLimitId") {
        if let Some(entries) = by_id.entries() {
            let ghost all = entry_views(entries@);
            assert(all.take(0) =~= Seq::empty());
            let mut i: usize = 0;
            while i < entries.len()
                invariant
                    i <= entries.len(),
                    all == entry_views(entries@),
                    window_views(rows@) == windows_by_id(all.take(i as int)),
                decreases entries.len() - i,
            {
                proof {
                    assert(all.take(i + 1).drop_last() =~= all.take(i as int));
                }
                add_bucket(&mut rows, entries[i].0.as_str(), &entries[i].1);
                i += 1;
            }
            assert(all.take(all.len() as int) =~= all);
            if entries.len() > 0 {
                return rows;
            }
        }
    }
    assert(rows@.len() == 0) by {
        assert(window_views(rows@).len() == rows@.len());
    }
    assert(window_views(rows@) =~= Seq::empty());
    if let Some(bucket) = get_of(limits, "rateLimits") {
        if let Some(limit_id) = as_text(bucket.get("limitId")) {
            add_bucket(&mut rows, limit_id, bucket);
        }
    }
    rows
}

// ---------------------------------------------------------------------------
// Texts
// ---------------------------------------------------------------------------

/// The name of a window of so many minutes.
pub open spec fn window_title(minutes: int) -> Seq<char> {
    if minutes == 300 {
        "5 Hour"@
    } else if minutes == 1440 {
        "Daily"@
    } else if minutes == 10080 {
        "Weekly"@
    } else if minutes % 10080 == 0 {
        decimal(minutes / 10080) + " Week"@
    } else if minutes % 1440 == 0 {
        decimal(minutes / 1440) + " Day"@
    } else if minutes % 60 == 0 {
        decimal(minutes / 60) + " Hour"@
    } else {
        decimal(minutes) + " Minute"@
    }
}

/// A number and what stands behind it.
pub fn counted(n: u64, unit: &str) -> (r: String)
    ensures
        r@ == decimal(n as int) + unit@,
{
    let digits = decimal_wide(n as i128);
    joined(digits.as_str(), unit)
}

pub fn window_label(minutes: u64) -> (r: String)
    ensures
        r@ == window_title(minutes as int),
{
    if minutes == 300 {
        "5 Hour".to_owned()
    } else if minutes == 1440 {
        "Daily".to_owned()
    } else if minutes == 10080 {
        "Weekly".to_owned()
    } else if minutes % 10080 == 0 {
        counted(minutes / 10080, " Week")
    } else if minutes % 1440 == 0 {
        counted(minutes / 1440, " Day")
    } else if minutes % 60 == 0 {
        counted(minutes / 60, " Hour")
    } else {
        counted(minutes, " Minute")
    }
}

/// The whole minutes that are left until a reset.
pub open spec fn minutes_left(resets_at: int, now: int) -> int {
    if resets_at <= now {
        0
    } else {
        (resets_at - now) / 60
    }
}

pub fn whole_minutes_left(resets_at: i64, now: i64) -> (r: u64)
    ensures
        r == minutes_left(resets_at as int, now as int),
{
    if resets_at <= now {
        0
    } else {
        ((resets_at as i128 - now as i128) / 60) as u64
    }
}

/// How long it takes until a reset.
pub open spec fn reset_text(resets_at: Option<int>, now: int) -> Seq<char> {
    match resets_at {
        None => "Reset time unavailable."@,
        Some(resets_at) => {
            let left = minutes_left(resets_at, now);
            let days = left / 1440;
            let hours = (left % 1440) / 60;
            let minutes = left % 60;
            if days > 0 {
                "Resets in "@ + (decimal(days) + "d "@) + (decimal(hours) + "h."@)
            } else if hours > 0 {
                "Resets in "@ + (decimal(hours) + "h "@) + (decimal(minutes) + "m."@)
            } else {
                "Resets in "@ + (decimal(minutes) + "m."@)
            }
        },
    }
}

pub fn reset_relative(resets_at: Option<i64>, now: i64) -> (r: String)
    ensures
        r@ == reset_text(int_opt(resets_at), now as int),
{
    let resets_at: i64 = match resets_at {
        Some(resets_at) => resets_at,
        None => return "Reset time unavailable.".to_owned(),
    };
    let left: u64 = whole_minutes_left(resets_at, now);
    let days: u64 = left / 1440;
    let hours: u64 = (left % 1440) / 60;
    let minutes: u64 = left % 60;
    if days > 0 {
        let front = joined("Resets in ", counted(days, "d ").as_str());
        joined(front.as_str(), counted(hours, "h.").as_str())
    } else if hours > 0 {
        let front = joined("Resets in ", counted(hours, "h ").as_str());
        joined(front.as_str(), counted(minutes, "m.").as_str())
    } else {
        joined("Resets in ", counted(minutes, "m.").as_str())
    }
}

// ---------------------------------------------------------------------------
// Thresholds and resets
// ---------------------------------------------------------------------------

/// A threshold above the last one announced that the usage has reached.
pub open spec fn is_due(threshold: u8, last: u8, used: int) -> bool {
    threshold > last && used >= whole_code(threshold as int)
}

/// The greatest threshold that is due.
pub open spec fn greatest_due(thresholds: Seq<u8>, last: u8, used: int) -> Option<u8>
    decreases thresholds.len(),
{
    if thresholds.len() == 0 {
        None
    } else {
        let before = greatest_due(thresholds.drop_last(), last, used);
        let threshold = thresholds.last();
        if is_due(threshold, last, used) && (before is None || threshold >= before->0) {
            Some(threshold)
        } else {
            before
        }
    }
}

pub fn next_threshold(last_notified: u8, used_percent: Percent, thresholds: &[u8]) -> (r: Option<
    u8,
>)
    ensures
        r == greatest_due(thresholds@, last_notified, used_percent.code as int),
{
    let ghost all = thresholds@;
    let mut best: Option<u8> = None;
    let mut i: usize = 0;
    assert(all.take(0) =~= Seq::empty());
    while i < thresholds.len()
        invariant
            i <= thresholds.len(),
            all == thresholds@,
            best == greatest_due(all.take(i as int), last_notified, used_percent.code as int),
        decreases thresholds.len() - i,
    {
        let threshold: u8 = thresholds[i];
        proof {
            assert(all.take(i + 1).drop_last() =~= all.take(i as int));
        }
        if threshold > last_notified && used_percent.code >= Percent::of_whole(threshold).code {
            best = match best {
                Some(b) => if threshold >= b {
                    Some(threshold)
                } else {
                    Some(b)
                },
                None => Some(threshold),
            };
        }
        i += 1;
    }
    assert(all.take(all.len() as int) =~= all);
    best
}

/// The threshold that is announced is one of the list, is due, and no other that is due is
/// greater; none is announced only where none is due.
pub proof fn lemma_greatest_due(thresholds: Seq<u8>, last: u8, used: int)
    ensures
        match greatest_due(thresholds, last, used) {
            Some(t) => thresholds.contains(t) && is_due(t, last, used) && forall|other: u8|
                #![trigger thresholds.contains(other)]
                thresholds.contains(other) && is_due(other, last, used) ==> other <= t,
            None => forall|other: u8| #[trigger]
                thresholds.contains(other) ==> !is_due(other, last, used),
        },
    decreases thresholds.len(),
{
    if thresholds.len() > 0 {
        let front = thresholds.drop_last();
        lemma_greatest_due(front, last, used);
        assert(thresholds[thresholds.len() - 1] == thresholds.last());
        assert forall|other: u8| #[trigger] thresholds.contains(other) implies front.contains(other)
            || other == thresholds.last() by {
            let k = thresholds.index_of(other);
            if k < front.len() {
                assert(front[k] == other);
            }
        }
        match greatest_due(front, last, used) {
            Some(t) => {
                assert(thresholds[front.index_of(t)] == t);
            },
            None => {},
        }
    }
}

/// A threshold is announced once: with it noted, the same usage announces nothing more.
pub proof fn lemma_threshold_is_announced_once(thresholds: Seq<u8>, last: u8, used: int)
    requires
        greatest_due(thresholds, last, used) is Some,
    ensures
        greatest_due(thresholds, last, used)->0 > last,
        greatest_due(thresholds, greatest_due(thresholds, last, used)->0, used) is None,
{
    let t = greatest_due(thresholds, last, used)->0;
    lemma_greatest_due(thresholds, last, used);
    lemma_greatest_due(thresholds, t, used);
    if let Some(more) = greatest_due(thresholds, t, used) {
        assert(thresholds.contains(more) && is_due(more, last, used));
    }
}

/// The quota was reset: a later reset is announced, and it lies ahead.
pub open spec fn was_reset(previous: Option<int>, current: Option<int>, now: int) -> bool {
    previous is Some && current is Some && current->0 > previous->0 && current->0 > now
}

pub fn quota_reset_occurred(previous: Option<i64>, current: Option<i64>, now: i64) -> (r: bool)
    ensures
        r == was_reset(int_opt(previous), int_opt(current), now as int),
{
    match (previous, current) {
        (Some(previous), Some(current)) => current > previous && current > now,
        _ => false,
    }
}

// ---------------------------------------------------------------------------
// A round of alerts
// ---------------------------------------------------------------------------

/// What the user is told.
#[derive(Debug)]
pub enum Notice {
    /// The quota of a window is available again.
    Reset { label: String },
    /// The usage of a window reached a threshold.
    Reached { threshold: u8, label: String, used_percent: Percent, resets_at: Option<i64> },
}

#[verifier::ext_equal]
pub enum NoticeView {
    Reset { label: Seq<char> },
    Reached { threshold: u8, label: Seq<char>, used: int, resets_at: Option<int> },
}

impl View for Notice {
    type V = NoticeView;

    open spec fn view(&self) -> NoticeView {
        match self {
            Notice::Reset { label } => NoticeView::Reset { label: label@ },
            Notice::Reached { threshold, label, used_percent, resets_at } => NoticeView::Reached {
                threshold: *threshold,
                label: label@,
                used: used_percent.code as int,
                resets_at: int_opt(*resets_at),
            },
        }
    }
}

pub open spec fn notice_views(rows: Seq<Notice>) -> Seq<NoticeView> {
    Seq::new(rows.len(), |i: int| rows[i]@)
}

/// What a round over the windows has noted and found so far.
#[verifier::ext_equal]
pub struct RoundView {
    pub thresholds: Map<Seq<char>, u8>,
    pub seen: Map<Seq<char>, i64>,
    pub resets: Map<Seq<char>, i64>,
    pub changed: bool,
    pub force_history: bool,
    pub notices: Seq<NoticeView>,
}

pub open spec fn looked_up(map: Map<Seq<char>, i64>, key: Seq<char>) -> Option<int> {
    if map.contains_key(key) {
        Some(map[key] as int)
    } else {
        None
    }
}

/// A reset takes back the threshold that was announced, and is announced where the user asks
/// for it.
pub open spec fn after_reset(
    round: RoundView,
    window: LimitWindowView,
    notify: bool,
    now: int,
) -> RoundView {
    if was_reset(looked_up(round.seen, window.key), window.resets_at, now) {
        RoundView {
            thresholds: round.thresholds.remove(window.key),
            seen: round.seen,
            resets: round.resets.insert(window.key, window.resets_at->0 as i64),
            changed: true,
            force_history: true,
            notices: if notify {
                round.notices.push(NoticeView::Reset { label: window_title(window.minutes) })
            } else {
                round.notices
            },
        }
    } else {
        round
    }
}

/// The window's reset is noted.
pub open spec fn after_noting(round: RoundView, window: LimitWindowView) -> RoundView {
    match window.resets_at {
        Some(resets_at) => RoundView {
            seen: round.seen.insert(window.key, resets_at as i64),
            changed: round.changed || looked_up(round.seen, window.key) != Some(resets_at),
            ..round
        },
        None => round,
    }
}

/// The greatest threshold that is due is noted and announced.
pub open spec fn after_threshold(
    round: RoundView,
    window: LimitWindowView,
    thresholds: Seq<u8>,
) -> RoundView {
    let last = if round.thresholds.contains_key(window.key) {
        round.thresholds[window.key]
    } else {
        0u8
    };
    match greatest_due(thresholds, last, window.used) {
        Some(threshold) => RoundView {
            thresholds: round.thresholds.insert(window.key, threshold),
            changed: true,
            force_history: true,
            notices: round.notices.push(
                NoticeView::Reached {
                    threshold,
                    label: window_title(window.minutes),
                    used: window.used,
                    resets_at: window.resets_at,
                },
            ),
            ..round
        },
        None => round,
    }
}

pub open spec fn after_window(
    round: RoundView,
    window: LimitWindowView,
    thresholds: Seq<u8>,
    notify: bool,
    now: int,
) -> RoundView {
    after_threshold(
        after_noting(after_reset(round, window, notify, now), window),
        window,
        thresholds,
    )
}

pub open spec fn after_windows(
    round: RoundView,
    windows: Seq<LimitWindowView>,
    thresholds: Seq<u8>,
    notify: bool,
    now: int,
) -> RoundView
    decreases windows.len(),
{
    if windows.len() == 0 {
        round
    } else {
        after_window(
            after_windows(round, windows.drop_last(), thresholds, notify, now),
            windows.last(),
            thresholds,
            notify,
            now,
        )
    }
}

/// What came of a round: whether the settings are to be written, whether the history gets an
/// entry at once, and what to tell the user.
#[derive(Debug)]
pub struct Round {
    pub changed: bool,
    pub force_history: bool,
    pub notices: Vec<Notice>,
}

pub open spec fn round_view(settings: MonitorSettings, round: Round) -> RoundView {
    RoundView {
        thresholds: settings.last_notified_threshold@,
        seen: settings.last_seen_reset_at@,
        resets: settings.last_reset_notified_at@,
        changed: round.changed,
        force_history: round.force_history,
        notices: notice_views(round.notices@),
    }
}

/// A round that has looked at no window yet.
pub open spec fn fresh_round(settings: MonitorSettings) -> RoundView {
    RoundView {
        thresholds: settings.last_notified_threshold@,
        seen: settings.last_seen_reset_at@,
        resets: settings.last_reset_notified_at@,
        changed: false,
        force_history: false,
        notices: Seq::empty(),
    }
}

/// What the user chose stays as it is.
pub open spec fn same_choices(a: MonitorSettings, b: MonitorSettings) -> bool {
    &&& a.notify_thresholds == b.notify_thresholds
    &&& a.notify_quota_reset == b.notify_quota_reset
    &&& a.launch_at_startup == b.launch_at_startup
    &&& a.start_minimized == b.start_minimized
    &&& a.close_to_tray == b.close_to_tray
    &&& a.usage_refresh_policy == b.usage_refresh_policy
}

fn look_for_reset(settings: &mut MonitorSettings, round: &mut Round, window: &LimitWindow, now: i64)
    requires
        old(settings).wf(),
    ensures
        final(settings).wf(),
        same_choices(*final(settings), *old(settings)),
        round_view(*final(settings), *final(round)) == after_reset(
            round_view(*old(settings), *old(round)),
            window@,
            old(settings).notify_quota_reset,
            now as int,
        ),
{
    let previous = settings.last_seen_reset_at.get(window.key.as_str());
    if quota_reset_occurred(previous, window.resets_at, now) {
        if let Some(resets_at) = window.resets_at {
            settings.last_notified_threshold.remove(window.key.as_str());
            settings.last_reset_notified_at.insert(window.key.as_str(), resets_at);
            round.changed = true;
            round.force_history = true;
            if settings.notify_quota_reset {
                let ghost before = round.notices@;
                let notice = Notice::Reset { label: window_label(window.window_duration_mins) };
                round.notices.push(notice);
                assert(notice_views(round.notices@) =~= notice_views(before).push(notice@));
            }
        }
    }
}

fn note_reset(settings: &mut MonitorSettings, round: &mut Round, window: &LimitWindow)
    requires
        old(settings).wf(),
    ensures
        final(settings).wf(),
        same_choices(*final(settings), *old(settings)),
        round_view(*final(settings), *final(round)) == after_noting(
            round_view(*old(settings), *old(round)),
            window@,
        ),
{
    if let Some(resets_at) = window.resets_at {
        let unchanged = match settings.last_seen_reset_at.get(window.key.as_str()) {
            Some(seen) => seen == resets_at,
            None => false,
        };
        settings.last_seen_reset_at.insert(window.key.as_str(), resets_at);
        if !unchanged {
            round.changed = true;
        }
    }
}

fn look_for_threshold(settings: &mut MonitorSettings, round: &mut Round, window: &LimitWindow)
    requires
        old(settings).wf(),
    ensures
        final(settings).wf(),
        same_choices(*final(settings), *old(settings)),
        round_view(*final(settings), *final(round)) == after_threshold(
            round_view(*old(settings), *old(round)),
            window@,
            old(settings).notify_thresholds@,
        ),
{
    let last: u8 = match settings.last_notified_threshold.get(window.key.as_str()) {
        Some(last) => last,
        None => 0,
    };
    match next_threshold(last, window.used_percent, settings.notify_thresholds.as_slice()) {
        Some(threshold) => {
            settings.last_notified_threshold.insert(window.key.as_str(), threshold);
            round.changed = true;
            round.force_history = true;
            let ghost before = round.notices@;
            let notice = Notice::Reached {
                threshold,
                label: window_label(window.window_duration_mins),
                used_percent: window.used_percent,
                resets_at: window.resets_at,
            };
            round.notices.push(notice);
            assert(notice_views(round.notices@) =~= notice_views(before).push(notice@));
        },
        None => {},
    }
}

/// Goes over the windows of a snapshot: notes resets and thresholds, and gathers what the
/// user is to be told.
pub fn process_snapshot(settings: &mut MonitorSettings, snapshot: &Json, now: i64) -> (r: Round)
    requires
        old(settings).wf(),
    ensures
        final(settings).wf(),
        same_choices(*final(settings), *old(settings)),
        round_view(*final(settings), r) == after_windows(
            fresh_round(*old(settings)),
            snapshot_windows(snapshot@),
            old(settings).notify_thresholds@,
            old(settings).notify_quota_reset,
            now as int,
        ),
{
    let windows = extract_windows(snapshot);
    let ghost all = window_views(windows@);
    let mut round = Round { changed: false, force_history: false, notices: Vec::new() };
    proof {
        assert(all.take(0) =~= Seq::empty());
        assert(round_view(*settings, round) =~= fresh_round(*old(settings)));
    }
    let mut i: usize = 0;
    while i < windows.len()
        invariant
            i <= windows.len(),
            all == window_views(windows@),
            settings.wf(),
            same_choices(*settings, *old(settings)),
            round_view(*settings, round) == after_windows(
                fresh_round(*old(settings)),
                all.take(i as int),
                old(settings).notify_thresholds@,
                old(settings).notify_quota_reset,
                now as int,
            ),
        decreases windows.len() - i,
    {
        proof {
            assert(all.take(i + 1).drop_last() =~= all.take(i as int));
            assert(all.take(i + 1).last() == windows@[i as int]@);
        }
        look_for_reset(settings, &mut round, &windows[i], now);
        note_reset(settings, &mut round, &windows[i]);
        look_for_threshold(settings, &mut round, &windows[i]);
        i += 1;
    }
    assert(all.take(all.len() as int) =~= all);
    round
}

/// The headline of a notice.
pub open spec fn title_of(notice: NoticeView) -> Seq<char> {
    match notice {
        NoticeView::Reset { .. } => "Codex quota reset"@,
        NoticeView::Reached { threshold, .. } => "Codex usage reached "@ + (decimal(
            threshold as int,
        ) + "%"@),
    }
}

pub fn notice_title(notice: &Notice) -> (r: String)
    ensures
        r@ == title_of(notice@),
{
    match notice {
        Notice::Reset { .. } => "Codex quota reset".to_owned(),
        Notice::Reached { threshold, .. } => joined(
            "Codex usage reached ",
            counted(*threshold as u64, "%").as_str(),
        ),
    }
}

/// The text of a notice, with what remains of the quota rounded to whole percent.
pub open spec fn body_of(notice: NoticeView, remaining: int, now: int) -> Seq<char> {
    match notice {
        NoticeView::Reset { label } => "Your "@ + label + " quota is available again."@,
        NoticeView::Reached { label, resets_at, .. } => label + " quota has "@ + decimal(remaining)
            + "% remaining.\n"@ + reset_text(resets_at, now),
    }
}

pub fn notice_body(notice: &Notice, remaining: i64, now: i64) -> (r: String)
    ensures
        r@ == body_of(notice@, remaining as int, now as int),
{
    match notice {
        Notice::Reset { label } => {
            let front = joined("Your ", label.as_str());
            joined(front.as_str(), " quota is available again.")
        },
        Notice::Reached { label, resets_at, .. } => {
            let front = joined(label.as_str(), " quota has ");
            let front = joined(front.as_str(), decimal_text(remaining).as_str());
            let front = joined(front.as_str(), "% remaining.\n");
            joined(front.as_str(), reset_relative(*resets_at, now).as_str())
        },
    }
}

// ---------------------------------------------------------------------------
// The history
// ---------------------------------------------------------------------------

/// A window of a limit as the history keeps it.
#[derive(Debug)]
pub struct HistoryLimit {
    pub limit_id: String,
    pub limit_name: String,
    pub window: String,
    pub window_duration_mins: u64,
    pub used_percent: Percent,
    pub resets_at: Option<i64>,
}

#[derive(Debug)]
pub struct UsageHistoryEntry {
    pub timestamp: i64,
    pub limits: TextMap<HistoryLimit>,
    pub lifetime_tokens: Option<i64>,
}

/// The window that a limit of the history was made of.
pub open spec fn limit_of(key: Seq<char>, limit: HistoryLimit) -> LimitWindowView {
    LimitWindowView {
        key,
        limit_id: limit.limit_id@,
        limit_name: limit.limit_name@,
        window: limit.window@,
        minutes: limit.window_duration_mins as int,
        used: limit.used_percent.code as int,
        resets_at: int_opt(limit.resets_at),
    }
}

/// Each window under its key; of two with one key, the later.
pub open spec fn by_key(windows: Seq<LimitWindowView>) -> Map<Seq<char>, LimitWindowView>
    decreases windows.len(),
{
    if windows.len() == 0 {
        Map::empty()
    } else {
        by_key(windows.drop_last()).insert(windows.last().key, windows.last())
    }
}

/// The windows that the limits of the history were made of, by key.
pub open spec fn limits_view(limits: TextMap<HistoryLimit>) -> Map<Seq<char>, LimitWindowView> {
    Map::new(
        |key: Seq<char>| limits@.contains_key(key),
        |key: Seq<char>| limit_of(key, limits@[key]),
    )
}

fn gather_limits(windows: Vec<LimitWindow>) -> (r: TextMap<HistoryLimit>)
    ensures
        r.wf(),
        limits_view(r) == by_key(window_views(windows@)),
{
    let ghost rows = windows@;
    let ghost all = window_views(rows);
    let mut limits: TextMap<HistoryLimit> = TextMap::new();
    proof {
        assert(all.take(0) =~= Seq::empty());
        assert(limits_view(limits) =~= by_key(all.take(0)));
    }
    for window in iter: windows
        invariant
            iter.seq() == rows,
            all == window_views(rows),
            limits.wf(),
            limits_view(limits) == by_key(all.take(iter.index())),
    {
        let ghost before = limits;
        let ghost seen = window@;
        let limit = HistoryLimit {
            limit_id: window.limit_id,
            limit_name: window.limit_name,
            window: window.window,
            window_duration_mins: window.window_duration_mins,
            used_percent: window.used_percent,
            resets_at: window.resets_at,
        };
        limits.insert(window.key.as_str(), limit);
        proof {
            let i = iter.index();
            assert(all.take(i + 1).drop_last() =~= all.take(i));
            assert(all.take(i + 1).last() == seen);
            assert(limits_view(limits) =~= limits_view(before).insert(seen.key, seen));
        }
    }
    assert(all.take(all.len() as int) =~= all);
    limits
}

/// What the snapshot says was used so far.
pub open spec fn lifetime_of(snapshot: JsonView) -> Option<int> {
    integer_of(field_of(field_of(field(snapshot, "usage"@), "summary"@), "lifetimeTokens"@))
}

/// A new entry is due: it is asked for, or the last one is old enough or missing.
pub open spec fn entry_is_due(history: Seq<UsageHistoryEntry>, force: bool, now: int) -> bool {
    force || history.len() == 0 || now - history.last().timestamp >= SAMPLE_INTERVAL_SECONDS
}

/// The entries that stay in front of a new one: one of the same second gives way, and no
/// more than fit stay.
pub open spec fn kept_history(history: Seq<UsageHistoryEntry>, now: int) -> Seq<UsageHistoryEntry> {
    let rest = if history.len() > 0 && history.last().timestamp == now {
        history.drop_last()
    } else {
        history
    };
    if rest.len() + 1 > MAX_HISTORY_ENTRIES {
        rest.skip(rest.len() + 1 - MAX_HISTORY_ENTRIES)
    } else {
        rest
    }
}

/// Adds an entry for the snapshot where one is due. Says whether it did.
pub fn record_history(
    history: &mut Vec<UsageHistoryEntry>,
    snapshot: &Json,
    force: bool,
    now: i64,
) -> (r: bool)
    ensures
        r == entry_is_due(old(history)@, force, now as int),
        !r ==> final(history)@ == old(history)@,
        r ==> {
            let entry = final(history)@.last();
            &&& final(history)@.len() > 0
            &&& final(history)@.drop_last() == kept_history(old(history)@, now as int)
            &&& entry.timestamp == now
            &&& entry.limits.wf()
            &&& limits_view(entry.limits) == by_key(snapshot_windows(snapshot@))
            &&& int_opt(entry.lifetime_tokens) == lifetime_of(snapshot@)
        },
{
    let ghost before = history@;
    let count: usize = history.len();
    let due = force || count == 0 || now as i128 - history[count - 1].timestamp as i128
        >= SAMPLE_INTERVAL_SECONDS as i128;
    if !due {
        return false;
    }
    let usage = snapshot.get("usage");
    let summary = get_of(usage, "summary");
    let entry = UsageHistoryEntry {
        timestamp: now,
        limits: gather_limits(extract_windows(snapshot)),
        lifetime_tokens: number_i64(get_of(summary, "lifetimeTokens")),
    };
    let ghost added = entry;
    if count > 0 && history[count - 1].timestamp == now {
        let _same_second = history.pop();
        assert(history@ =~= before.drop_last());
    }
    let ghost rest = history@;
    history.push(entry);
    let ghost full = history@;
    assert(full.skip(0) =~= full);
    let ghost mut dropped: int = 0;
    while history.len() > MAX_HISTORY_ENTRIES
        invariant
            0 <= dropped <= full.len(),
            history@ == full.skip(dropped),
            full.len() - dropped >= MAX_HISTORY_ENTRIES || dropped == 0,
        decreases history.len(),
    {
        let _oldest = history.remove(0);
        proof {
            assert(full.skip(dropped).remove(0) =~= full.skip(dropped + 1));
            dropped = dropped + 1;
        }
    }
    proof {
        assert(full.last() == added);
        assert(history@.last() == added);
        assert(history@.drop_last() =~= rest.skip(dropped));
        assert(rest.skip(0) =~= rest);
    }
    true
}

/// No round takes the history over its limit.
pub proof fn lemma_history_is_bounded(history: Seq<UsageHistoryEntry>, now: int)
    ensures
        kept_history(history, now).len() + 1 <= MAX_HISTORY_ENTRIES,
{
}

/// A window whose reset is noted and not yet due is reset no second time by the same
/// snapshot, and its announced threshold stays announced.
pub proof fn lemma_reset_is_announced_once(
    round: RoundView,
    window: LimitWindowView,
    thresholds: Seq<u8>,
    notify: bool,
    now: int,
)
    requires
        window.resets_at is Some ==> i64::MIN <= window.resets_at->0 <= i64::MAX,
    ensures
        ({
            let once = after_window(round, window, thresholds, notify, now);
            let twice = after_window(once, window, thresholds, notify, now);
            &&& twice.notices == once.notices
            &&& twice.thresholds == once.thresholds
            &&& twice.seen == once.seen
            &&& twice.resets == once.resets
        }),
{
    let reset = after_reset(round, window, notify, now);
    let noted = after_noting(reset, window);
    let once = after_threshold(noted, window, thresholds);
    if let Some(resets_at) = window.resets_at {
        assert(looked_up(once.seen, window.key) == Some(resets_at));
        assert(!was_reset(looked_up(once.seen, window.key), window.resets_at, now));
        assert(once.seen.insert(window.key, resets_at as i64) =~= once.seen);
    }
    assert(after_reset(once, window, notify, now) == once);
    let last = if noted.thresholds.contains_key(window.key) {
        noted.thresholds[window.key]
    } else {
        0u8
    };
    match greatest_due(thresholds, last, window.used) {
        Some(threshold) => {
            lemma_threshold_is_announced_once(thresholds, last, window.used);
            assert(once.thresholds[window.key] == threshold);
        },
        None => {},
    }
}

/// A window of a bucket is read by name: its length and its usage as numbers, without which
/// there is none, its next reset, and the limit's name, or the limit's id where it has none.
/// Usage is read within the range of a quota.
pub proof fn lemma_limit_window_is_read_by_name(
    limit_id: Seq<char>,
    bucket: JsonView,
    window: Seq<char>,
)
    ensures
        ({
            let data = field(bucket, window);
            let minutes = unsigned_of(field_of(data, "windowDurationMins"@));
            let used = percent_code_of(field_of(data, "usedPercent"@));
            let read = window_in(limit_id, bucket, window);
            &&& read is Some <==> minutes is Some && used is Some
            &&& read matches Some(found) ==> {
                &&& found.key == limit_id + ":"@ + window
                &&& found.limit_id == limit_id
                &&& found.window == window
                &&& Some(found.minutes) == minutes
                &&& 0 <= found.used <= FULL_CODE
                &&& 0 <= used->0 <= FULL_CODE ==> found.used == used->0
                &&& found.resets_at == integer_of(field_of(data, "resetsAt"@))
                &&& text_of(field(bucket, "limitName"@)) matches Some(name) ==> found.limit_name
                    == name
                &&& text_of(field(bucket, "limitName"@)) is None ==> found.limit_name == limit_id
            }
        }),
{
}

/// The windows of the buckets by id are the primary and the secondary window of each, under
/// its id, and nothing else.
pub proof fn lemma_every_limit_window_is_found(
    entries: Seq<(Seq<char>, JsonView)>,
    found: LimitWindowView,
)
    ensures
        windows_by_id(entries).contains(found) <==> exists|i: int|
            {
                &&& 0 <= i < entries.len()
                &&& window_in((#[trigger] entries[i]).0, entries[i].1, "primary"@) == Some(found)
                    || window_in(entries[i].0, entries[i].1, "secondary"@) == Some(found)
            },
    decreases entries.len(),
{
    let all = windows_by_id(entries);
    if entries.len() > 0 {
        let front = entries.drop_last();
        lemma_every_limit_window_is_found(front, found);
        let before = windows_by_id(front);
        let last = entries.len() - 1;
        let first = window_in(entries[last].0, entries[last].1, "primary"@);
        let second = window_in(entries[last].0, entries[last].1, "secondary"@);
        let middle = with_found(before, first);
        lemma_with_found(before, first, found);
        lemma_with_found(middle, second, found);
        assert(all == with_found(middle, second));
        assert forall|i: int| 0 <= i < front.len() implies #[trigger] entries[i] == front[i] by {}
        if before.contains(found) {
            let i = choose|i: int|
                {
                    &&& 0 <= i < front.len()
                    &&& window_in((#[trigger] front[i]).0, front[i].1, "primary"@) == Some(found)
                        || window_in(front[i].0, front[i].1, "secondary"@) == Some(found)
                };
            assert(entries[i] == front[i]);
        }
        if exists|i: int|
            {
                &&& 0 <= i < entries.len()
                &&& window_in((#[trigger] entries[i]).0, entries[i].1, "primary"@) == Some(found)
                    || window_in(entries[i].0, entries[i].1, "secondary"@) == Some(found)
            } {
            let i = choose|i: int|
                {
                    &&& 0 <= i < entries.len()
                    &&& window_in((#[trigger] entries[i]).0, entries[i].1, "primary"@) == Some(
                        found,
                    ) || window_in(entries[i].0, entries[i].1, "secondary"@) == Some(found)
                };
            if i < last {
                assert(front[i] == entries[i]);
            }
        }
    }
}

proof fn lemma_with_found<T>(rows: Seq<T>, found: Option<T>, row: T)
    ensures
        with_found(rows, found).contains(row) <==> rows.contains(row) || found == Some(row),
{
    let all = with_found(rows, found);
    if rows.contains(row) {
        let i = choose|i: int| 0 <= i < rows.len() && rows[i] == row;
        assert(all[i] == row);
    }
    if found == Some(row) {
        assert(all[rows.len() as int] == row);
    }
    if all.contains(row) {
        let i = choose|i: int| 0 <= i < all.len() && all[i] == row;
        if i < rows.len() {
            assert(rows[i] == row);
        }
    }
}

/// A snapshot with buckets by id has the windows of these; only one without has those of the
/// bucket that carries its id, and one with neither has none.
pub proof fn lemma_buckets_by_id_go_first(snapshot: JsonView)
    ensures
        ({
            let limits = field(snapshot, "rateLimits"@);
            let by_id = entries_of(field_of(limits, "rateLimitsByLimitId"@));
            let single = field_of(limits, "rateLimits"@);
            let found = snapshot_windows(snapshot);
            &&& by_id matches Some(entries) ==> (entries.len() > 0 ==> found == windows_by_id(
                entries,
            ))
            &&& by_id is None || by_id->0.len() == 0 ==> match text_of(
                field_of(single, "limitId"@),
            ) {
                Some(limit_id) => forall|window: LimitWindowView| #[trigger]
                    found.contains(window) <==> window_in(limit_id, single->0, "primary"@) == Some(
                        window,
                    ) || window_in(limit_id, single->0, "secondary"@) == Some(window),
                None => found.len() == 0,
            }
        }),
{
    let limits = field(snapshot, "rateLimits"@);
    let by_id = entries_of(field_of(limits, "rateLimitsByLimitId"@));
    let single = field_of(limits, "rateLimits"@);
    let found = snapshot_windows(snapshot);
    if by_id is None || by_id->0.len() == 0 {
        if let Some(limit_id) = text_of(field_of(single, "limitId"@)) {
            let first = window_in(limit_id, single->0, "primary"@);
            let second = window_in(limit_id, single->0, "secondary"@);
            let none = Seq::<LimitWindowView>::empty();
            assert forall|window: LimitWindowView| #[trigger]
                found.contains(window) <==> first == Some(window) || second == Some(window) by {
                lemma_with_found(none, first, window);
                lemma_with_found(with_found(none, first), second, window);
            }
        }
    }
}

/// The minutes that are left are whole ones: as many as fit into the seconds that are left, and
/// none once the reset is due.
pub proof fn lemma_minutes_left_fit(resets_at: int, now: int)
    ensures
        resets_at <= now ==> minutes_left(resets_at, now) == 0,
        resets_at > now ==> minutes_left(resets_at, now) * 60 <= resets_at - now < (minutes_left(
            resets_at,
            now,
        ) + 1) * 60,
{
}

/// What is said of a reset names the days and hours, the hours and minutes, or the minutes that
/// together with what is left unsaid are the minutes that are left.
pub proof fn lemma_reset_text_names_the_time_left(
    days: int,
    hours: int,
    minutes: int,
    seconds: int,
    now: int,
)
    requires
        0 <= days,
        0 <= hours < 24,
        0 <= minutes < 60,
        0 <= seconds < 60,
    ensures
        ({
            let at = now + days * 86_400 + hours * 3_600 + minutes * 60 + seconds;
            &&& days > 0 ==> reset_text(Some(at), now) == "Resets in "@ + (decimal(days) + "d "@)
                + (decimal(hours) + "h."@)
            &&& days == 0 && hours > 0 ==> reset_text(Some(at), now) == "Resets in "@ + (decimal(
                hours,
            ) + "h "@) + (decimal(minutes) + "m."@)
            &&& days == 0 && hours == 0 ==> reset_text(Some(at), now) == "Resets in "@ + (decimal(
                minutes,
            ) + "m."@)
        }),
{
    let at = now + days * 86_400 + hours * 3_600 + minutes * 60 + seconds;
    let left = minutes_left(at, now);
    assert(left == days * 1440 + hours * 60 + minutes);
    assert(left / 1440 == days);
    assert(left % 1440 == hours * 60 + minutes);
    assert(left % 60 == minutes);
}

/// A window is named by the largest unit that it is a whole number of.
pub proof fn lemma_window_is_named_by_its_unit(n: int)
    requires
        n >= 1,
    ensures
        n > 1 ==> window_title(n * 10_080) == decimal(n) + " Week"@,
        n > 1 && n % 7 != 0 ==> window_title(n * 1_440) == decimal(n) + " Day"@,
        n != 5 && n % 24 != 0 ==> window_title(n * 60) == decimal(n) + " Hour"@,
        n % 60 != 0 ==> window_title(n) == decimal(n) + " Minute"@,
        window_title(300) == "5 Hour"@,
        window_title(1_440) == "Daily"@,
        window_title(10_080) == "Weekly"@,
{
    lemma_units_of_minutes(n);
}

/// What is announced of a window's usage is the greatest of the thresholds that the usage has
/// reached and that were not announced before.
pub proof fn lemma_announced_threshold_was_reached(thresholds: Seq<u8>, last: u8, used: int)
    ensures
        match greatest_due(thresholds, last, used) {
            Some(announced) => {
                &&& thresholds.contains(announced)
                &&& announced > last
                &&& used >= whole_code(announced as int)
                &&& forall|other: u8| #[trigger]
                    thresholds.contains(other) && other > announced ==> used < whole_code(
                        other as int,
                    )
            },
            None => forall|other: u8| #[trigger]
                thresholds.contains(other) && other > last ==> used < whole_code(other as int),
        },
{
    lemma_greatest_due(thresholds, last, used);
}

/// A quota was reset where a reset is announced that lies ahead and behind the one that was
/// announced before.
pub proof fn lemma_reset_is_a_later_one_ahead(previous: int, current: int, now: int)
    ensures
        was_reset(Some(previous), Some(current), now) <==> previous < current && now < current,
        !was_reset(None, Some(current), now),
        !was_reset(Some(previous), None, now),
{
}

/// A window that a round looks at changes what is noted under its own key and nothing else.
pub proof fn lemma_windows_do_not_touch_each_other(
    round: RoundView,
    window: LimitWindowView,
    thresholds: Seq<u8>,
    notify: bool,
    now: int,
    other: Seq<char>,
)
    requires
        other != window.key,
    ensures
        ({
            let after = after_window(round, window, thresholds, notify, now);
            &&& after.thresholds.contains_key(other) == round.thresholds.contains_key(other)
            &&& after.thresholds.contains_key(other) ==> after.thresholds[other]
                == round.thresholds[other]
            &&& looked_up(after.seen, other) == looked_up(round.seen, other)
            &&& looked_up(after.resets, other) == looked_up(round.resets, other)
        }),
{
}

/// What a round does with a window. A reset that was not known and lies ahead is noted, forgets
/// the threshold that was announced, and is told where the user asks for it. The next reset is
/// noted in any case. The greatest threshold that is due is told and noted, counted from none
/// after a reset. What is to be told keeps its order.
pub proof fn lemma_round_tells_resets_and_thresholds(
    round: RoundView,
    window: LimitWindowView,
    thresholds: Seq<u8>,
    notify: bool,
    now: int,
)
    requires
        window.resets_at is Some ==> i64::MIN <= window.resets_at->0 <= i64::MAX,
    ensures
        ({
            let after = after_window(round, window, thresholds, notify, now);
            let reset = match (looked_up(round.seen, window.key), window.resets_at) {
                (Some(before), Some(next)) => before < next && now < next,
                _ => false,
            };
            let last = if !reset && round.thresholds.contains_key(window.key) {
                round.thresholds[window.key]
            } else {
                0u8
            };
            let due = greatest_due(thresholds, last, window.used);
            let told = after.notices;
            let label = window_title(window.minutes);
            let resets = if reset && notify {
                1int
            } else {
                0
            };
            &&& window.resets_at is Some ==> looked_up(after.seen, window.key) == window.resets_at
            &&& window.resets_at is None ==> looked_up(after.seen, window.key) == looked_up(
                round.seen,
                window.key,
            )
            &&& reset ==> looked_up(after.resets, window.key) == window.resets_at && after.changed
                && after.force_history
            &&& !reset ==> looked_up(after.resets, window.key) == looked_up(
                round.resets,
                window.key,
            )
            &&& due matches Some(threshold) ==> {
                &&& after.thresholds.contains_key(window.key)
                &&& after.thresholds[window.key] == threshold
                &&& after.changed
                &&& after.force_history
                &&& told.last() == (NoticeView::Reached {
                    threshold,
                    label,
                    used: window.used,
                    resets_at: window.resets_at,
                })
            }
            &&& due is None && reset ==> !after.thresholds.contains_key(window.key)
            &&& told.len() == round.notices.len() + resets + if due is Some {
                1int
            } else {
                0
            }
            &&& resets == 1 ==> told[round.notices.len() as int] == (NoticeView::Reset { label })
            &&& forall|i: int| 0 <= i < round.notices.len() ==> #[trigger] told[i]
                == round.notices[i]
            &&& !reset && due is None ==> after.force_history == round.force_history
            &&& !reset && due is None && (window.resets_at is None || looked_up(
                round.seen,
                window.key,
            ) == window.resets_at) ==> after.changed == round.changed
        }),
{
}

/// An entry is due where it is asked for, where there is none, and where the last one is five
/// minutes old; not before.
pub proof fn lemma_entry_is_due_after_the_interval(
    history: Seq<UsageHistoryEntry>,
    force: bool,
    now: int,
)
    ensures
        force ==> entry_is_due(history, force, now),
        history.len() == 0 ==> entry_is_due(history, force, now),
        !force && history.len() > 0 ==> (entry_is_due(history, force, now) <==> history[
            history.len() - 1].timestamp + 300 <= now),
{
}

/// What stays of the history are its latest entries in their order, but for one of the same
/// second, and all of them while there is room.
pub proof fn lemma_latest_history_is_kept(history: Seq<UsageHistoryEntry>, now: int)
    ensures
        ({
            let kept = kept_history(history, now);
            let end = if history.len() > 0 && history[history.len() - 1].timestamp == now {
                history.len() - 1
            } else {
                history.len() as int
            };
            &&& kept.len() <= end
            &&& forall|i: int|
                0 <= i < kept.len() ==> #[trigger] kept[i] == history[end - kept.len() + i]
            &&& end < 120_000 ==> kept.len() == end
            &&& end >= 120_000 ==> kept.len() == 119_999
        }),
{
}

/// Under a key the history keeps the last of the windows that have it, and under no key of no
/// window anything.
pub proof fn lemma_history_keeps_the_last_of_a_key(windows: Seq<LimitWindowView>, key: Seq<char>)
    ensures
        by_key(windows).contains_key(key) <==> exists|i: int|
            0 <= i < windows.len() && (#[trigger] windows[i]).key == key,
        by_key(windows).contains_key(key) ==> exists|i: int|
            {
                &&& 0 <= i < windows.len()
                &&& (#[trigger] windows[i]).key == key
                &&& by_key(windows)[key] == windows[i]
                &&& forall|k: int| i < k < windows.len() ==> (#[trigger] windows[k]).key != key
            },
    decreases windows.len(),
{
    if windows.len() > 0 {
        let front = windows.drop_last();
        lemma_history_keeps_the_last_of_a_key(front, key);
        let last = windows.len() - 1;
        assert forall|k: int| 0 <= k < front.len() implies #[trigger] windows[k] == front[k] by {}
        if windows[last].key == key {
            assert(by_key(windows)[key] == windows[last]);
        } else {
            if by_key(front).contains_key(key) {
                let i = choose|i: int|
                    {
                        &&& 0 <= i < front.len()
                        &&& (#[trigger] front[i]).key == key
                        &&& by_key(front)[key] == front[i]
                        &&& forall|k: int| i < k < front.len() ==> (#[trigger] front[k]).key != key
                    };
                assert(windows[i].key == key);
                assert forall|k: int| i < k < windows.len() implies (#[trigger] windows[k]).key
                    != key by {
                    if k < last {
                        assert(front[k] == windows[k]);
                    }
                }
            }
            if exists|i: int| 0 <= i < windows.len() && (#[trigger] windows[i]).key == key {
                let i = choose|i: int| 0 <= i < windows.len() && (#[trigger] windows[i]).key == key;
                assert(front[i].key == key);
            }
        }
    }
}

/// The settings keep the thresholds between one and a hundred percent and no others.
pub proof fn lemma_kept_thresholds_can_be_reached(before: Seq<u8>, after: Seq<u8>, value: u8)
    requires
        sanitized(before, after),
    ensures
        before.contains(value) && 0 < value <= 100 ==> after.contains(value),
        after.contains(value) ==> before.contains(value) && 0 < value <= 100,
        forall|i: int, j: int| 0 <= i < j < after.len() ==> after[i] < after[j],
{
}

/// A round over windows keeps what was to be told, and notes of each key what is said last.
pub proof fn lemma_round_keeps_what_was_told(
    round: RoundView,
    windows: Seq<LimitWindowView>,
    thresholds: Seq<u8>,
    notify: bool,
    now: int,
)
    requires
        forall|i: int|
            0 <= i < windows.len() ==> ((#[trigger] windows[i]).resets_at matches Some(at)
                ==> i64::MIN <= at <= i64::MAX),
    ensures
        ({
            let after = after_windows(round, windows, thresholds, notify, now);
            &&& after.notices.len() >= round.notices.len()
            &&& forall|i: int|
                0 <= i < round.notices.len() ==> #[trigger] after.notices[i] == round.notices[i]
            &&& round.changed ==> after.changed
            &&& windows.len() > 0 && windows.last().resets_at is Some ==> looked_up(
                after.seen,
                windows.last().key,
            ) == windows.last().resets_at
            &&& forall|key: Seq<char>|
                (forall|i: int| 0 <= i < windows.len() ==> (#[trigger] windows[i]).key != key)
                    ==> #[trigger] looked_up(after.seen, key) == looked_up(round.seen, key)
        }),
    decreases windows.len(),
{
    if windows.len() > 0 {
        let front = windows.drop_last();
        let last = windows.last();
        assert forall|i: int| 0 <= i < front.len() implies ((#[trigger] front[i]).resets_at
            matches Some(at) ==> i64::MIN <= at <= i64::MAX) by {
            assert(front[i] == windows[i]);
        }
        assert(last == windows[windows.len() - 1]);
        lemma_round_keeps_what_was_told(round, front, thresholds, notify, now);
        let before = after_windows(round, front, thresholds, notify, now);
        let after = after_windows(round, windows, thresholds, notify, now);
        lemma_round_tells_resets_and_thresholds(before, last, thresholds, notify, now);
        assert forall|i: int| 0 <= i < round.notices.len() implies #[trigger] after.notices[i]
            == round.notices[i] by {
            assert(before.notices[i] == round.notices[i]);
        }
        assert forall|key: Seq<char>|
            (forall|i: int| 0 <= i < windows.len() ==> (#[trigger] windows[i]).key
                != key) implies #[trigger] looked_up(after.seen, key) == looked_up(
            round.seen,
            key,
        ) by {
            assert forall|i: int| 0 <= i < front.len() implies (#[trigger] front[i]).key
                != key by {
                assert(front[i] == windows[i]);
            }
            assert(looked_up(before.seen, key) == looked_up(round.seen, key));
            lemma_windows_do_not_touch_each_other(before, last, thresholds, notify, now, key);
        }
    }
}

/// A notice of a threshold names it in its headline; one of a reset does not.
pub proof fn lemma_headline_names_the_threshold(
    threshold: u8,
    label: Seq<char>,
    used: int,
    resets_at: Option<int>,
)
    ensures
        title_of((NoticeView::Reached { threshold, label, used, resets_at })) == "Codex usage reached "@
            + (decimal(threshold as int) + "%"@),
        title_of((NoticeView::Reset { label })) == "Codex quota reset"@,
{
}

/// The body of a notice says what remains of the window, and when it is reset.
pub proof fn lemma_notice_says_what_remains(
    threshold: u8,
    label: Seq<char>,
    used: int,
    resets_at: Option<int>,
    remaining: int,
    now: int,
)
    ensures
        ({
            let body = body_of(
                (NoticeView::Reached { threshold, label, used, resets_at }),
                remaining,
                now,
            );
            let told = label + " quota has "@ + decimal(remaining) + "% remaining.\n"@;
            &&& body.subrange(0, told.len() as int) == told
            &&& body.subrange(told.len() as int, body.len() as int) == reset_text(resets_at, now)
        }),
{
    let body = body_of(
        (NoticeView::Reached { threshold, label, used, resets_at }),
        remaining,
        now,
    );
    let told = label + " quota has "@ + decimal(remaining) + "% remaining.\n"@;
    assert(body =~= told + reset_text(resets_at, now));
    assert(body.subrange(0, told.len() as int) =~= told);
    assert(body.subrange(told.len() as int, body.len() as int) =~= reset_text(resets_at, now));
}

} // verus!
