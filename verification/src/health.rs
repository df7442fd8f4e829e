//! How far an account's data can be trusted.
use crate::arith::{clamp_i64, saturating_sub};
use crate::ledger::{
    accounts_closed, contradicted_turns, lemma_closed_means_no_findings, missing_turns,
    orphan_samples, LedgerView, StoredParseError, TurnLedger,
};
use crate::quota::{
    bucket_rows, bucket_samples, in_bucket, resets_agree, same_reset_at, RateLimitRow, RateSample,
};
use crate::rollout::{string_views, TurnTokenSample, ROLLOUT_PARSER_VERSION};
use crate::sorting::sorted;
use crate::table::{
    count_account_rows, count_of_account, count_where, first_where, lemma_filter_counts,
    lemma_first_where, lemma_first_where_at, lemma_first_where_none,
};
use crate::text::same_text;
use vstd::prelude::*;

verus! {

/// What is claimed of an account's data.
#[derive(Clone, Copy, Debug, PartialEq, Eq, Structural)]
pub enum DataHealth {
    Verified,
    LegacyUnverified,
    AccountingInconsistent,
    Rebuilding,
    SourceIncomplete,
    /// A status that a later version may have stored.
    Other,
}

pub const DATA_HEALTH_VERIFIED: &'static str = "verified";

pub const DATA_HEALTH_LEGACY_UNVERIFIED: &'static str = "legacy_unverified";

pub const DATA_HEALTH_ACCOUNTING_INCONSISTENT: &'static str = "accounting_inconsistent";

pub const DATA_HEALTH_REBUILDING: &'static str = "rebuilding";

pub const DATA_HEALTH_SOURCE_INCOMPLETE: &'static str = "source_incomplete";

impl DataHealth {
    pub open spec fn name(self) -> Seq<char> {
        match self {
            DataHealth::Verified => DATA_HEALTH_VERIFIED@,
            DataHealth::LegacyUnverified => DATA_HEALTH_LEGACY_UNVERIFIED@,
            DataHealth::AccountingInconsistent => DATA_HEALTH_ACCOUNTING_INCONSISTENT@,
            DataHealth::Rebuilding => DATA_HEALTH_REBUILDING@,
            DataHealth::SourceIncomplete => DATA_HEALTH_SOURCE_INCOMPLETE@,
            DataHealth::Other => "other"@,
        }
    }

    pub open spec fn named(name: Seq<char>) -> DataHealth {
        if name == DATA_HEALTH_VERIFIED@ {
            DataHealth::Verified
        } else if name == DATA_HEALTH_LEGACY_UNVERIFIED@ {
            DataHealth::LegacyUnverified
        } else if name == DATA_HEALTH_ACCOUNTING_INCONSISTENT@ {
            DataHealth::AccountingInconsistent
        } else if name == DATA_HEALTH_REBUILDING@ {
            DataHealth::Rebuilding
        } else if name == DATA_HEALTH_SOURCE_INCOMPLETE@ {
            DataHealth::SourceIncomplete
        } else {
            DataHealth::Other
        }
    }

    pub fn as_str(self) -> (r: &'static str)
        ensures
            r@ == self.name(),
    {
        match self {
            DataHealth::Verified => DATA_HEALTH_VERIFIED,
            DataHealth::LegacyUnverified => DATA_HEALTH_LEGACY_UNVERIFIED,
            DataHealth::AccountingInconsistent => DATA_HEALTH_ACCOUNTING_INCONSISTENT,
            DataHealth::Rebuilding => DATA_HEALTH_REBUILDING,
            DataHealth::SourceIncomplete => DATA_HEALTH_SOURCE_INCOMPLETE,
            DataHealth::Other => "other",
        }
    }

    pub fn parse(name: &str) -> (r: DataHealth)
        ensures
            r == DataHealth::named(name@),
    {
        if same_text(name, DATA_HEALTH_VERIFIED) {
            DataHealth::Verified
        } else if same_text(name, DATA_HEALTH_LEGACY_UNVERIFIED) {
            DataHealth::LegacyUnverified
        } else if same_text(name, DATA_HEALTH_ACCOUNTING_INCONSISTENT) {
            DataHealth::AccountingInconsistent
        } else if same_text(name, DATA_HEALTH_REBUILDING) {
            DataHealth::Rebuilding
        } else if same_text(name, DATA_HEALTH_SOURCE_INCOMPLETE) {
            DataHealth::SourceIncomplete
        } else {
            DataHealth::Other
        }
    }
}

/// The name of a status is read back as that status.
pub proof fn lemma_health_round_trip(health: DataHealth)
    ensures
        DataHealth::named(health.name()) == health,
{
    reveal_strlit("verified");
    reveal_strlit("legacy_unverified");
    reveal_strlit("accounting_inconsistent");
    reveal_strlit("rebuilding");
    reveal_strlit("source_incomplete");
    reveal_strlit("other");
    assert(DATA_HEALTH_VERIFIED@[0] == 'v');
    assert(DATA_HEALTH_LEGACY_UNVERIFIED@[0] == 'l');
    assert(DATA_HEALTH_ACCOUNTING_INCONSISTENT@[0] == 'a');
    assert(DATA_HEALTH_REBUILDING@[0] == 'r');
    assert(DATA_HEALTH_SOURCE_INCOMPLETE@[0] == 's');
    assert("other"@[0] == 'o');
}

/// What is claimed of an account's timeline.
#[derive(Clone, Copy, Debug, PartialEq, Eq, Structural)]
pub enum TimelineStatus {
    Rebuilding,
    SourceIncomplete,
    ParseError,
    AccountingInconsistent,
    LegacyPreTimeline,
    Complete,
}

impl TimelineStatus {
    pub open spec fn name(self) -> Seq<char> {
        match self {
            TimelineStatus::Rebuilding => "rebuilding"@,
            TimelineStatus::SourceIncomplete => "source_incomplete"@,
            TimelineStatus::ParseError => "parse_error"@,
            TimelineStatus::AccountingInconsistent => "accounting_inconsistent"@,
            TimelineStatus::LegacyPreTimeline => "legacy_pre_timeline"@,
            TimelineStatus::Complete => "complete"@,
        }
    }

    pub fn as_str(self) -> (r: &'static str)
        ensures
            r@ == self.name(),
    {
        match self {
            TimelineStatus::Rebuilding => "rebuilding",
            TimelineStatus::SourceIncomplete => "source_incomplete",
            TimelineStatus::ParseError => "parse_error",
            TimelineStatus::AccountingInconsistent => "accounting_inconsistent",
            TimelineStatus::LegacyPreTimeline => "legacy_pre_timeline",
            TimelineStatus::Complete => "complete",
        }
    }
}

/// What was found of an account.
#[derive(Clone, Copy, Debug, PartialEq, Eq, Structural)]
pub struct HealthCounts {
    pub missing_timeline_turns: usize,
    pub orphan_timeline_samples: usize,
    pub mismatched_turns: usize,
    pub parse_error_count: usize,
    pub source_incomplete_count: usize,
    pub source_lag_seconds: i64,
}

#[derive(Debug)]
pub struct AccountDataHealth {
    pub account_key: String,
    pub data_version: i64,
    pub status: DataHealth,
    pub timeline_status: TimelineStatus,
    pub counts: HealthCounts,
    pub last_rebuild_batch_id: Option<String>,
    pub verified_at: Option<i64>,
}

pub open spec fn accounting_error(counts: HealthCounts) -> bool {
    counts.orphan_timeline_samples > 0 || counts.mismatched_turns > 0 || counts.parse_error_count
        > 0
}

/// Nothing was found that speaks against the account's data.
pub open spec fn nothing_found(counts: HealthCounts) -> bool {
    counts.missing_timeline_turns == 0 && !accounting_error(counts)
        && counts.source_incomplete_count == 0
}

/// The status that holds where `requested` is asked for.
pub open spec fn granted_status(requested: DataHealth, counts: HealthCounts) -> DataHealth {
    if requested == DataHealth::Rebuilding {
        DataHealth::Rebuilding
    } else if requested == DataHealth::LegacyUnverified {
        DataHealth::LegacyUnverified
    } else if accounting_error(counts) || counts.missing_timeline_turns > 0 {
        DataHealth::AccountingInconsistent
    } else if counts.source_incomplete_count > 0 {
        DataHealth::SourceIncomplete
    } else {
        requested
    }
}

pub open spec fn timeline_claim(status: DataHealth, counts: HealthCounts) -> TimelineStatus {
    if status == DataHealth::Rebuilding {
        TimelineStatus::Rebuilding
    } else if counts.source_incomplete_count > 0 {
        TimelineStatus::SourceIncomplete
    } else if counts.parse_error_count > 0 {
        TimelineStatus::ParseError
    } else if accounting_error(counts) {
        TimelineStatus::AccountingInconsistent
    } else if counts.missing_timeline_turns > 0 {
        TimelineStatus::LegacyPreTimeline
    } else {
        TimelineStatus::Complete
    }
}

/// The account's health where `requested` is asked for, in the light of what was found.
pub fn set_account_data_health(
    account_key: &str,
    requested: DataHealth,
    data_version: i64,
    counts: HealthCounts,
    last_rebuild_batch_id: Option<String>,
    now: i64,
) -> (r: AccountDataHealth)
    ensures
        r.account_key@ == account_key@,
        r.data_version == data_version,
        r.status == granted_status(requested, counts),
        r.timeline_status == timeline_claim(r.status, counts),
        r.counts == counts,
        r.last_rebuild_batch_id == last_rebuild_batch_id,
        r.verified_at == if r.status == DataHealth::Verified {
            Some(now)
        } else {
            None
        },
{
    let has_accounting_error = counts.orphan_timeline_samples > 0 || counts.mismatched_turns > 0
        || counts.parse_error_count > 0;
    let status = if requested == DataHealth::Rebuilding {
        DataHealth::Rebuilding
    } else if requested == DataHealth::LegacyUnverified {
        DataHealth::LegacyUnverified
    } else if has_accounting_error || counts.missing_timeline_turns > 0 {
        DataHealth::AccountingInconsistent
    } else if counts.source_incomplete_count > 0 {
        DataHealth::SourceIncomplete
    } else {
        requested
    };
    let timeline_status = if status == DataHealth::Rebuilding {
        TimelineStatus::Rebuilding
    } else if counts.source_incomplete_count > 0 {
        TimelineStatus::SourceIncomplete
    } else if counts.parse_error_count > 0 {
        TimelineStatus::ParseError
    } else if has_accounting_error {
        TimelineStatus::AccountingInconsistent
    } else if counts.missing_timeline_turns > 0 {
        TimelineStatus::LegacyPreTimeline
    } else {
        TimelineStatus::Complete
    };
    let verified_at = if status == DataHealth::Verified {
        Some(now)
    } else {
        None
    };
    AccountDataHealth {
        account_key: account_key.to_owned(),
        data_version,
        status,
        timeline_status,
        counts,
        last_rebuild_batch_id,
        verified_at,
    }
}

/// An account is called verified only where nothing was found against it, and where it is,
/// its timeline is complete.
pub proof fn lemma_verified_means_nothing_found(requested: DataHealth, counts: HealthCounts)
    ensures
        granted_status(requested, counts) == DataHealth::Verified <==> (requested
            == DataHealth::Verified && nothing_found(counts)),
        granted_status(requested, counts) == DataHealth::Verified ==> timeline_claim(
            DataHealth::Verified,
            counts,
        ) == TimelineStatus::Complete,
{
}

/// The status to ask for when a stored health is looked at again. The stored one is only a
/// cache: apart from a rebuild under way, an unverified ledger and a known contradiction,
/// the account is held to the standard of a verified one.
pub open spec fn renewed_request(previous: Option<DataHealth>) -> DataHealth {
    match previous {
        Some(DataHealth::Rebuilding) => DataHealth::Rebuilding,
        Some(DataHealth::LegacyUnverified) => DataHealth::LegacyUnverified,
        Some(DataHealth::AccountingInconsistent) => DataHealth::AccountingInconsistent,
        Some(_) => DataHealth::Verified,
        None => DataHealth::LegacyUnverified,
    }
}

/// Looks at an account's health again.
pub fn refresh_account_data_health(
    account_key: &str,
    previous: Option<&AccountDataHealth>,
    counts: HealthCounts,
    last_rebuild_batch_id: Option<String>,
    now: i64,
) -> (r: AccountDataHealth)
    ensures
        ({
            let (status, version) = match previous {
                Some(health) => (Some(health.status), health.data_version),
                None => (None, 0),
            };
            &&& r.account_key@ == account_key@
            &&& r.data_version == version
            &&& r.status == granted_status(renewed_request(status), counts)
            &&& r.timeline_status == timeline_claim(r.status, counts)
            &&& r.counts == counts
            &&& r.last_rebuild_batch_id == last_rebuild_batch_id
            &&& r.verified_at == if r.status == DataHealth::Verified {
                Some(now)
            } else {
                None
            }
        }),
{
    let (requested, version) = match previous {
        Some(health) => (
            match health.status {
                DataHealth::Rebuilding => DataHealth::Rebuilding,
                DataHealth::LegacyUnverified => DataHealth::LegacyUnverified,
                DataHealth::AccountingInconsistent => DataHealth::AccountingInconsistent,
                _ => DataHealth::Verified,
            },
            health.data_version,
        ),
        None => (DataHealth::LegacyUnverified, 0i64),
    };
    set_account_data_health(account_key, requested, version, counts, last_rebuild_batch_id, now)
}

/// The status and version to ask for after lines were collected: closed accounts that this
/// parser had verified stay so; others stay unverified, or contradicted where they were.
pub open spec fn request_after_collection(
    previous: Option<(DataHealth, i64)>,
    closed: bool,
) -> (DataHealth, i64) {
    let version = match previous {
        Some((_, version)) => version,
        None => 0,
    };
    if !closed {
        (DataHealth::AccountingInconsistent, version)
    } else {
        match previous {
            Some((status, version)) => if (status == DataHealth::Verified || status
                == DataHealth::SourceIncomplete) && version == ROLLOUT_PARSER_VERSION {
                (DataHealth::Verified, ROLLOUT_PARSER_VERSION)
            } else if status == DataHealth::AccountingInconsistent {
                (DataHealth::AccountingInconsistent, version)
            } else {
                (DataHealth::LegacyUnverified, version)
            },
            None => (DataHealth::LegacyUnverified, version),
        }
    }
}

pub fn health_request_after_collection(previous: Option<&AccountDataHealth>, closed: bool) -> (r: (
    DataHealth,
    i64,
))
    ensures
        r == request_after_collection(
            match previous {
                Some(health) => Some((health.status, health.data_version)),
                None => None,
            },
            closed,
        ),
{
    match previous {
        Some(health) => {
            if !closed {
                (DataHealth::AccountingInconsistent, health.data_version)
            } else if (health.status == DataHealth::Verified || health.status
                == DataHealth::SourceIncomplete) && health.data_version == ROLLOUT_PARSER_VERSION {
                (DataHealth::Verified, ROLLOUT_PARSER_VERSION)
            } else if health.status == DataHealth::AccountingInconsistent {
                (DataHealth::AccountingInconsistent, health.data_version)
            } else {
                (DataHealth::LegacyUnverified, health.data_version)
            }
        },
        None => if !closed {
            (DataHealth::AccountingInconsistent, 0)
        } else {
            (DataHealth::LegacyUnverified, 0)
        },
    }
}

// ---------------------------------------------------------------------------
// Completeness of the sources
// ---------------------------------------------------------------------------

pub const SOURCE_LAG_TOLERANCE_SECONDS: i64 = 300;

/// A source of the account, or one whose account is not known, and the file it is.
#[derive(Clone, Copy, Debug, PartialEq, Eq, Structural)]
pub struct SourceProgress {
    /// Who owns the source is still to be settled.
    pub pending: bool,
    pub last_offset: i64,
    /// The file's length and the second of its last change, where there is a file.
    pub file: Option<FileState>,
}

#[derive(Clone, Copy, Debug, PartialEq, Eq, Structural)]
pub struct FileState {
    pub len: u64,
    pub modified_at: Option<i64>,
}

/// The source has bytes that were not read, or its ownership is open while it reaches into
/// the current quota window.
pub open spec fn source_incomplete(source: SourceProgress, window_start: Option<int>) -> bool {
    match source.file {
        Some(file) => if source.pending {
            match window_start {
                Some(start) => match file.modified_at {
                    Some(modified) => modified >= start,
                    None => false,
                },
                None => true,
            }
        } else {
            file.len > crate::arith::max_int(source.last_offset as int, 0)
        },
        None => false,
    }
}

/// The latest observation of the account's rate limits that says when its window resets.
pub open spec fn latest_reset_row(rows: Seq<RateLimitRow>, key: Seq<char>) -> Option<RateSample>
    decreases rows.len(),
{
    if rows.len() == 0 {
        None
    } else {
        let before = latest_reset_row(rows.drop_last(), key);
        let row = rows.last();
        if row.account_key@ == key && row.sample.resets_at is Some {
            match before {
                Some(best) => if best.sampled_at > row.sample.sampled_at || (best.sampled_at
                    == row.sample.sampled_at && best.id > row.sample.id) {
                    Some(best)
                } else {
                    Some(row.sample)
                },
                None => Some(row.sample),
            }
        } else {
            before
        }
    }
}

/// When the current quota window began.
pub open spec fn window_start(rows: Seq<RateLimitRow>, key: Seq<char>) -> Option<int> {
    match latest_reset_row(rows, key) {
        Some(sample) => Some(sample.resets_at->0 - sample.window_duration_mins * 60),
        None => None,
    }
}

/// The observation at `k` shows that quota was consumed within a cycle.
pub open spec fn consumes_at(samples: Seq<RateSample>, k: int) -> bool {
    &&& 1 <= k < samples.len()
    &&& samples[k].used_percent.code > samples[k - 1].used_percent.code
    &&& samples[k].window_duration_mins == samples[k - 1].window_duration_mins
    &&& resets_agree(samples[k - 1].resets_at, samples[k].resets_at)
}

/// Some observation of the account at this second shows that quota was consumed.
pub open spec fn consumed_at(rows: Seq<RateLimitRow>, key: Seq<char>, at: int) -> bool {
    exists|i: int, k: int|
        {
            &&& 0 <= i < rows.len()
            &&& (#[trigger] rows[i]).account_key@ == key
            &&& #[trigger] consumes_at(
                sorted(bucket_rows(rows, key, rows[i].limit_id@, rows[i].window@)),
                k,
            )
            &&& sorted(bucket_rows(rows, key, rows[i].limit_id@, rows[i].window@))[k].sampled_at
                == at
        }
}

/// The last second at which quota of the account was seen to be consumed.
pub open spec fn is_latest_consumption(
    rows: Seq<RateLimitRow>,
    key: Seq<char>,
    latest: Option<i64>,
) -> bool {
    match latest {
        Some(at) => consumed_at(rows, key, at as int) && forall|other: int| #[trigger]
            consumed_at(rows, key, other) ==> other <= at,
        None => forall|other: int| !#[trigger] consumed_at(rows, key, other),
    }
}

/// The last second at which tokens of the account were sampled.
pub open spec fn latest_sample(samples: Seq<TurnTokenSample>, key: Seq<char>) -> Option<i64>
    decreases samples.len(),
{
    if samples.len() == 0 {
        None
    } else {
        let before = latest_sample(samples.drop_last(), key);
        let sample = samples.last();
        if sample.account_key@ == key {
            match before {
                Some(best) => Some(
                    if best > sample.sampled_at {
                        best
                    } else {
                        sample.sampled_at
                    },
                ),
                None => Some(sample.sampled_at),
            }
        } else {
            before
        }
    }
}

/// By how much the timeline lags behind the quota. A poll that shows no consumption is no
/// evidence of missing tokens.
pub open spec fn lag_of(consumed: Option<i64>, sampled: Option<i64>, incomplete: nat) -> int {
    match (consumed, sampled) {
        (Some(quota), Some(timeline)) => if quota > timeline + SOURCE_LAG_TOLERANCE_SECONDS {
            clamp_i64(quota - timeline)
        } else {
            0
        },
        (Some(quota), None) => if incomplete > 0 {
            quota as int
        } else {
            0
        },
        _ => 0,
    }
}

pub open spec fn incomplete_sources(
    sources: Seq<SourceProgress>,
    window_start: Option<int>,
) -> nat {
    sources.filter(|source: SourceProgress| source_incomplete(source, window_start)).len()
}

fn find_window_start(rows: &Vec<RateLimitRow>, key: &str) -> (r: Option<i128>)
    ensures
        match r {
            Some(start) => window_start(rows@, key@) == Some(start as int),
            None => window_start(rows@, key@) is None,
        },
{
    let mut best: Option<RateSample> = None;
    let mut i: usize = 0;
    while i < rows.len()
        invariant
            i <= rows.len(),
            best == latest_reset_row(rows@.take(i as int), key@),
            best is Some ==> best->0.resets_at is Some,
        decreases rows.len() - i,
    {
        proof {
            assert(rows@.take(i + 1).drop_last() =~= rows@.take(i as int));
            assert(rows@.take(i + 1).last() == rows@[i as int]);
        }
        if rows[i].sample.resets_at.is_some() && same_text(rows[i].account_key.as_str(), key) {
            let sample = rows[i].sample;
            best = match best {
                Some(known) => if known.sampled_at > sample.sampled_at || (known.sampled_at
                    == sample.sampled_at && known.id > sample.id) {
                    Some(known)
                } else {
                    Some(sample)
                },
                None => Some(sample),
            };
        }
        i += 1;
    }
    assert(rows@.take(rows.len() as int) =~= rows@);
    match best {
        Some(sample) => match sample.resets_at {
            Some(at) => Some(at as i128 - sample.window_duration_mins as i128 * 60),
            None => None,
        },
        None => None,
    }
}

fn latest_in_bucket(samples: &Vec<RateSample>, floor: Option<i64>) -> (r: Option<i64>)
    ensures
        match r {
            Some(at) => {
                &&& floor == Some(at) || exists|k: int|
                    #[trigger] consumes_at(samples@, k) && samples@[k].sampled_at == at
                &&& floor matches Some(least) ==> least <= at
                &&& forall|k: int| #[trigger]
                    consumes_at(samples@, k) ==> samples@[k].sampled_at <= at
            },
            None => floor is None && forall|k: int| !#[trigger] consumes_at(samples@, k),
        },
{
    let mut best: Option<i64> = floor;
    let mut k: usize = 1;
    while k < samples.len()
        invariant
            1 <= k,
            samples.len() == 0 || k <= samples.len(),
            match best {
                Some(at) => {
                    &&& floor == Some(at) || exists|m: int|
                        #[trigger] consumes_at(samples@, m) && samples@[m].sampled_at == at
                    &&& floor matches Some(least) ==> least <= at
                    &&& forall|m: int|
                        m < k && #[trigger] consumes_at(samples@, m) ==> samples@[m].sampled_at
                            <= at
                },
                None => floor is None && forall|m: int|
                    m < k ==> !#[trigger] consumes_at(samples@, m),
            },
        decreases samples.len() - k,
    {
        if samples[k].used_percent.code > samples[k - 1].used_percent.code
            && samples[k].window_duration_mins == samples[k - 1].window_duration_mins
            && same_reset_at(samples[k - 1].resets_at, samples[k].resets_at) {
            assert(consumes_at(samples@, k as int));
            let at: i64 = samples[k].sampled_at;
            best = match best {
                Some(known) => if known > at {
                    Some(known)
                } else {
                    Some(at)
                },
                None => Some(at),
            };
        }
        k += 1;
    }
    best
}

/// Whether the bucket of the row at `i` has a row before it.
fn bucket_seen_before(rows: &Vec<RateLimitRow>, i: usize) -> (r: bool)
    requires
        i < rows.len(),
    ensures
        r == exists|m: int|
            0 <= m < i && in_bucket(
                #[trigger] rows@[m],
                rows@[i as int].account_key@,
                rows@[i as int].limit_id@,
                rows@[i as int].window@,
            ),
{
    let mut m: usize = 0;
    while m < i
        invariant
            m <= i < rows.len(),
            forall|k: int|
                0 <= k < m ==> !in_bucket(
                    #[trigger] rows@[k],
                    rows@[i as int].account_key@,
                    rows@[i as int].limit_id@,
                    rows@[i as int].window@,
                ),
        decreases i - m,
    {
        if same_text(rows[m].account_key.as_str(), rows[i].account_key.as_str()) && same_text(
            rows[m].limit_id.as_str(),
            rows[i].limit_id.as_str(),
        ) && same_text(rows[m].window.as_str(), rows[i].window.as_str()) {
            assert(in_bucket(
                rows@[m as int],
                rows@[i as int].account_key@,
                rows@[i as int].limit_id@,
                rows@[i as int].window@,
            ));
            return true;
        }
        m += 1;
    }
    false
}

/// The consumption of the bucket of row `i`, where that row is the account's.
spec fn covered(rows: Seq<RateLimitRow>, key: Seq<char>, i: int, k: int) -> bool {
    rows[i].account_key@ == key && consumes_at(
        sorted(bucket_rows(rows, key, rows[i].limit_id@, rows[i].window@)),
        k,
    )
}

spec fn covered_at(rows: Seq<RateLimitRow>, key: Seq<char>, i: int, k: int) -> i64 {
    sorted(bucket_rows(rows, key, rows[i].limit_id@, rows[i].window@))[k].sampled_at
}

fn find_latest_consumption(rows: &Vec<RateLimitRow>, key: &str) -> (r: Option<i64>)
    ensures
        is_latest_consumption(rows@, key@, r),
{
    let mut best: Option<i64> = None;
    let mut i: usize = 0;
    while i < rows.len()
        invariant
            i <= rows.len(),
            match best {
                Some(at) => {
                    &&& consumed_at(rows@, key@, at as int)
                    &&& forall|m: int, k: int|
                        0 <= m < i && #[trigger] covered(rows@, key@, m, k) ==> covered_at(
                            rows@,
                            key@,
                            m,
                            k,
                        ) <= at
                },
                None => forall|m: int, k: int|
                    0 <= m < i ==> !#[trigger] covered(rows@, key@, m, k),
            },
        decreases rows.len() - i,
    {
        let ghost before = best;
        if same_text(rows[i].account_key.as_str(), key) {
            if !bucket_seen_before(rows, i) {
                let samples = bucket_samples(
                    rows,
                    key,
                    rows[i].limit_id.as_str(),
                    rows[i].window.as_str(),
                );
                best = latest_in_bucket(&samples, best);
                proof {
                    if best is Some && best != before {
                        let k = choose|k: int|
                            #[trigger] consumes_at(samples@, k) && samples@[k].sampled_at
                                == best->0;
                        assert(rows@[i as int].account_key@ == key@);
                        assert(consumed_at(rows@, key@, best->0 as int));
                    }
                    assert forall|k: int| best is Some && #[trigger] covered(
                        rows@,
                        key@,
                        i as int,
                        k,
                    ) implies covered_at(rows@, key@, i as int, k) <= best->0 by {
                        assert(consumes_at(samples@, k));
                    }
                    assert forall|k: int| best is None implies !#[trigger] covered(
                        rows@,
                        key@,
                        i as int,
                        k,
                    ) by {
                        assert(!consumes_at(samples@, k));
                    }
                }
            } else {
                proof {
                    let m = choose|m: int|
                        0 <= m < i && in_bucket(
                            #[trigger] rows@[m],
                            rows@[i as int].account_key@,
                            rows@[i as int].limit_id@,
                            rows@[i as int].window@,
                        );
                    assert forall|k: int| covered(rows@, key@, i as int, k) == #[trigger] covered(
                        rows@,
                        key@,
                        m,
                        k,
                    ) && covered_at(rows@, key@, i as int, k) == covered_at(rows@, key@, m, k) by {}
                    assert forall|k: int| #[trigger]
                        covered(rows@, key@, i as int, k) implies best is Some && covered_at(
                        rows@,
                        key@,
                        i as int,
                        k,
                    ) <= best->0 by {
                        assert(covered(rows@, key@, m, k));
                    }
                }
            }
        }
        i += 1;
    }
    proof {
        assert forall|other: int| #[trigger] consumed_at(rows@, key@, other) implies best is Some
            && other <= best->0 by {
            let (m, k) = choose|m: int, k: int|
                {
                    &&& 0 <= m < rows.len()
                    &&& (#[trigger] rows@[m]).account_key@ == key@
                    &&& #[trigger] consumes_at(
                        sorted(bucket_rows(rows@, key@, rows@[m].limit_id@, rows@[m].window@)),
                        k,
                    )
                    &&& sorted(
                        bucket_rows(rows@, key@, rows@[m].limit_id@, rows@[m].window@),
                    )[k].sampled_at == other
                };
            assert(covered(rows@, key@, m, k));
        }
    }
    best
}

fn find_latest_sample(samples: &Vec<TurnTokenSample>, key: &str) -> (r: Option<i64>)
    ensures
        r == latest_sample(samples@, key@),
{
    let mut best: Option<i64> = None;
    let mut i: usize = 0;
    while i < samples.len()
        invariant
            i <= samples.len(),
            best == latest_sample(samples@.take(i as int), key@),
        decreases samples.len() - i,
    {
        proof {
            assert(samples@.take(i + 1).drop_last() =~= samples@.take(i as int));
            assert(samples@.take(i + 1).last() == samples@[i as int]);
        }
        if same_text(samples[i].account_key.as_str(), key) {
            let at: i64 = samples[i].sampled_at;
            best = match best {
                Some(known) => if known > at {
                    Some(known)
                } else {
                    Some(at)
                },
                None => Some(at),
            };
        }
        i += 1;
    }
    assert(samples@.take(samples.len() as int) =~= samples@);
    best
}

fn count_incomplete(sources: &Vec<SourceProgress>, start: Option<i128>) -> (r: usize)
    ensures
        r == incomplete_sources(
            sources@,
            match start {
                Some(start) => Some(start as int),
                None => None,
            },
        ),
        r <= sources.len(),
{
    let ghost from = match start {
        Some(start) => Some(start as int),
        None => None,
    };
    let ghost pick = |source: SourceProgress| source_incomplete(source, from);
    let mut n: usize = 0;
    let mut i: usize = 0;
    proof {
        reveal(Seq::filter);
    }
    while i < sources.len()
        invariant
            i <= sources.len(),
            n <= i,
            from == match start {
                Some(start) => Some(start as int),
                None => None,
            },
            pick == (|source: SourceProgress| source_incomplete(source, from)),
            n == sources@.take(i as int).filter(pick).len(),
        decreases sources.len() - i,
    {
        proof {
            assert(sources@.take(i + 1).drop_last() =~= sources@.take(i as int));
            assert(sources@.take(i + 1).last() == sources@[i as int]);
            reveal(Seq::filter);
        }
        let source = sources[i];
        let incomplete = match source.file {
            Some(file) => if source.pending {
                match start {
                    Some(start) => match file.modified_at {
                        Some(modified) => modified as i128 >= start,
                        None => false,
                    },
                    None => true,
                }
            } else {
                file.len > source.last_offset.max(0) as u64
            },
            None => false,
        };
        if incomplete {
            n += 1;
        }
        i += 1;
    }
    assert(sources@.take(sources.len() as int) =~= sources@);
    n
}

/// How many of the account's sources are incomplete, with the lag of its timeline as one
/// more, and that lag.
pub fn source_completeness(
    sources: &Vec<SourceProgress>,
    rows: &Vec<RateLimitRow>,
    samples: &Vec<TurnTokenSample>,
    account_key: &str,
) -> (r: (usize, i64))
    requires
        sources.len() < usize::MAX,
    ensures
        ({
            let incomplete = incomplete_sources(sources@, window_start(rows@, account_key@));
            exists|consumed: Option<i64>|
                {
                    &&& #[trigger] is_latest_consumption(rows@, account_key@, consumed)
                    &&& r.1 == lag_of(consumed, latest_sample(samples@, account_key@), incomplete)
                    &&& r.0 == incomplete + if r.1 > 0 {
                        1int
                    } else {
                        0
                    }
                }
        }),
{
    let start = find_window_start(rows, account_key);
    let incomplete: usize = count_incomplete(sources, start);
    let consumed = find_latest_consumption(rows, account_key);
    let sampled = find_latest_sample(samples, account_key);
    let lag: i64 = match (consumed, sampled) {
        (Some(quota), Some(timeline)) => if quota as i128 > timeline as i128
            + SOURCE_LAG_TOLERANCE_SECONDS as i128 {
            saturating_sub(quota, timeline)
        } else {
            0
        },
        (Some(quota), None) => if incomplete > 0 {
            quota
        } else {
            0
        },
        _ => 0,
    };
    assert(is_latest_consumption(rows@, account_key@, consumed));
    if lag > 0 {
        (incomplete + 1, lag)
    } else {
        (incomplete, lag)
    }
}

/// There is only one latest consumption.
pub proof fn lemma_latest_consumption_is_unique(
    rows: Seq<RateLimitRow>,
    key: Seq<char>,
    a: Option<i64>,
    b: Option<i64>,
)
    requires
        is_latest_consumption(rows, key, a),
        is_latest_consumption(rows, key, b),
    ensures
        a == b,
{
    match (a, b) {
        (Some(x), Some(y)) => {
            assert(consumed_at(rows, key, x as int));
            assert(consumed_at(rows, key, y as int));
        },
        (Some(x), None) => {
            assert(consumed_at(rows, key, x as int));
        },
        (None, Some(y)) => {
            assert(consumed_at(rows, key, y as int));
        },
        (None, None) => {},
    }
}

/// Polls that show no consumption make no source lag behind.
pub proof fn lemma_unchanged_polls_make_no_lag(sampled: Option<i64>, incomplete: nat)
    ensures
        lag_of(None, sampled, incomplete) == 0,
{
}

/// What was found of an account in the ledger, beside the completeness of its sources.
pub fn account_health_counts(
    ledger: &TurnLedger,
    account_key: &str,
    source_incomplete_count: usize,
    source_lag_seconds: i64,
) -> (r: HealthCounts)
    ensures
        r.missing_timeline_turns == missing_turns(ledger@, account_key@).len(),
        r.orphan_timeline_samples == orphan_samples(ledger@, account_key@).len(),
        r.mismatched_turns == contradicted_turns(ledger@, account_key@).len(),
        r.parse_error_count == count_of_account(ledger.parse_errors@, account_key@),
        r.source_incomplete_count == source_incomplete_count,
        r.source_lag_seconds == source_lag_seconds,
{
    HealthCounts {
        missing_timeline_turns: ledger.count_missing(account_key),
        orphan_timeline_samples: ledger.count_orphans(account_key),
        mismatched_turns: ledger.count_mismatched(account_key),
        parse_error_count: count_account_rows(&ledger.parse_errors, account_key),
        source_incomplete_count,
        source_lag_seconds,
    }
}

/// A verified account has closed accounts.
pub proof fn lemma_verified_account_is_closed(
    ledger: LedgerView,
    key: Seq<char>,
    requested: DataHealth,
    counts: HealthCounts,
)
    requires
        counts.missing_timeline_turns == missing_turns(ledger, key).len(),
        counts.orphan_timeline_samples == orphan_samples(ledger, key).len(),
        counts.mismatched_turns == contradicted_turns(ledger, key).len(),
        granted_status(requested, counts) == DataHealth::Verified,
    ensures
        accounts_closed(ledger, Some(key)),
{
    lemma_closed_means_no_findings(ledger, key);
}

/// What an account's health says after it was looked at again, where it stood as of a time
/// before its data was checked.
pub open spec fn relabelled(before: AccountDataHealth, counts: HealthCounts) -> AccountDataHealth {
    if before.status == DataHealth::LegacyUnverified {
        AccountDataHealth {
            timeline_status: timeline_claim(DataHealth::LegacyUnverified, counts),
            counts,
            verified_at: None,
            ..before
        }
    } else {
        before
    }
}

/// Looks again at the accounts whose data was never checked; the others stay as they are.
pub fn classify_legacy_accounts(
    rows: Vec<AccountDataHealth>,
    found: &Vec<HealthCounts>,
    now: i64,
) -> (r: Vec<AccountDataHealth>)
    requires
        found.len() == rows.len(),
    ensures
        r@.len() == rows@.len(),
        forall|i: int|
            0 <= i < r@.len() ==> {
                let after = #[trigger] r@[i];
                let wanted = relabelled(rows@[i], found@[i]);
                &&& after.account_key@ == wanted.account_key@
                &&& after.data_version == wanted.data_version
                &&& after.status == wanted.status
                &&& after.timeline_status == wanted.timeline_status
                &&& after.counts == wanted.counts
                &&& after.last_rebuild_batch_id == wanted.last_rebuild_batch_id
                &&& after.verified_at == wanted.verified_at
            },
{
    let ghost all = rows@;
    let mut r: Vec<AccountDataHealth> = Vec::new();
    for row in iter: rows
        invariant
            iter.seq() == all,
            found.len() == all.len(),
            r@.len() == iter.index(),
            forall|i: int|
                0 <= i < r@.len() ==> {
                    let after = #[trigger] r@[i];
                    let wanted = relabelled(all[i], found@[i]);
                    &&& after.account_key@ == wanted.account_key@
                    &&& after.data_version == wanted.data_version
                    &&& after.status == wanted.status
                    &&& after.timeline_status == wanted.timeline_status
                    &&& after.counts == wanted.counts
                    &&& after.last_rebuild_batch_id == wanted.last_rebuild_batch_id
                    &&& after.verified_at == wanted.verified_at
                },
    {
        if row.status == DataHealth::LegacyUnverified {
            let counts = found[r.len()];
            let AccountDataHealth { account_key, data_version, last_rebuild_batch_id, .. } = row;
            let again = set_account_data_health(
                account_key.as_str(),
                DataHealth::LegacyUnverified,
                data_version,
                counts,
                last_rebuild_batch_id,
                now,
            );
            r.push(again);
        } else {
            r.push(row);
        }
    }
    r
}

pub open spec fn is_of_account(key: Seq<char>) -> spec_fn(AccountDataHealth) -> bool {
    |row: AccountDataHealth| row.account_key@ == key
}

fn health_place(rows: &Vec<AccountDataHealth>, account_key: &str) -> (r: Option<usize>)
    ensures
        match r {
            Some(at) => {
                &&& at < rows.len()
                &&& first_where(rows@, is_of_account(account_key@)) == Some(at as int)
            },
            None => first_where(rows@, is_of_account(account_key@)) is None,
        },
{
    let ghost pick = is_of_account(account_key@);
    let mut i: usize = 0;
    while i < rows.len()
        invariant
            i <= rows.len(),
            pick == is_of_account(account_key@),
            forall|k: int| 0 <= k < i ==> !pick(#[trigger] rows@[k]),
        decreases rows.len() - i,
    {
        if same_text(rows[i].account_key.as_str(), account_key) {
            proof {
                lemma_first_where_at(rows@, pick, i as int);
            }
            return Some(i);
        }
        i += 1;
    }
    proof {
        lemma_first_where_none(rows@, pick);
    }
    None
}

/// What is stored of an account's health.
pub fn account_data_health<'a>(
    rows: &'a Vec<AccountDataHealth>,
    account_key: &str,
) -> (r: Option<&'a AccountDataHealth>)
    ensures
        match first_where(rows@, is_of_account(account_key@)) {
            Some(at) => 0 <= at < rows@.len() && r == Some(&rows@[at]),
            None => r is None,
        },
{
    match health_place(rows, account_key) {
        Some(at) => Some(&rows[at]),
        None => None,
    }
}

/// The rows once one is stored: it takes the place of the account's own, or is added.
pub open spec fn health_stored(
    rows: Seq<AccountDataHealth>,
    row: AccountDataHealth,
) -> Seq<AccountDataHealth> {
    match first_where(rows, is_of_account(row.account_key@)) {
        Some(at) => rows.update(at, row),
        None => rows.push(row),
    }
}

/// Stores what was found of an account's health.
pub fn store_account_data_health(rows: &mut Vec<AccountDataHealth>, row: AccountDataHealth)
    ensures
        final(rows)@ == health_stored(old(rows)@, row),
{
    match health_place(rows, row.account_key.as_str()) {
        Some(at) => rows.set(at, row),
        None => rows.push(row),
    }
}

/// What is stored is read back, and of the other accounts what was there before.
pub proof fn lemma_stored_health_is_read(
    rows: Seq<AccountDataHealth>,
    row: AccountDataHealth,
    other: Seq<char>,
)
    requires
        other != row.account_key@,
    ensures
        ({
            let after = health_stored(rows, row);
            let own = first_where(after, is_of_account(row.account_key@));
            let before = first_where(rows, is_of_account(other));
            &&& own is Some && after[own->0] == row
            &&& first_where(after, is_of_account(other)) == before
            &&& before is Some ==> after[before->0] == rows[before->0]
        }),
{
    let own = is_of_account(row.account_key@);
    let theirs = is_of_account(other);
    let after = health_stored(rows, row);
    lemma_first_where(rows, own);
    lemma_first_where(rows, theirs);
    let at = match first_where(rows, own) {
        Some(at) => at,
        None => rows.len() as int,
    };
    assert(after[at] == row);
    assert forall|k: int| 0 <= k < at implies !own(#[trigger] after[k]) by {
        assert(after[k] == rows[k]);
        assert(!own(rows[k]));
    }
    lemma_first_where_at(after, own, at);
    match first_where(rows, theirs) {
        Some(place) => {
            assert(theirs(rows[place]));
            assert(place != at) by {
                if place == at {
                    assert(own(rows[at]));
                }
            }
            assert(after[place] == rows[place]);
            assert forall|k: int| 0 <= k < place implies !theirs(#[trigger] after[k]) by {
                if k != at {
                    assert(after[k] == rows[k]);
                }
                assert(!theirs(rows[k]));
            }
            lemma_first_where_at(after, theirs, place);
        },
        None => {
            assert forall|k: int| 0 <= k < after.len() implies !theirs(#[trigger] after[k]) by {
                if k != at {
                    assert(after[k] == rows[k]);
                    assert(!theirs(rows[k]));
                }
            }
            lemma_first_where_none(after, theirs);
        },
    }
}

/// An error of the account's that a batch left behind.
pub open spec fn left_by_batch(error: StoredParseError, key: Seq<char>) -> bool {
    error.account_key@ == key && error.rebuild_batch_id@.len() > 0
}

/// The place of the latest error of the account's, among the first `n`, that a batch left
/// behind; of several, the first.
pub open spec fn latest_batch_error(
    errors: Seq<StoredParseError>,
    n: int,
    key: Seq<char>,
) -> Option<int>
    decreases n,
{
    if n <= 0 {
        None
    } else {
        let before = latest_batch_error(errors, n - 1, key);
        let error = errors[n - 1];
        if left_by_batch(error, key) && (before is None || errors[before->0].first_seen_at
            < error.first_seen_at) {
            Some(n - 1)
        } else {
            before
        }
    }
}

/// The batch that left the account's latest error behind.
pub fn last_rebuild_batch(errors: &Vec<StoredParseError>, account_key: &str) -> (r: Option<String>)
    ensures
        match latest_batch_error(errors@, errors@.len() as int, account_key@) {
            Some(at) => r is Some && r->0@ == errors@[at].rebuild_batch_id@,
            None => r is None,
        },
{
    let mut latest: Option<usize> = None;
    let mut i: usize = 0;
    while i < errors.len()
        invariant
            i <= errors.len(),
            match latest {
                Some(at) => {
                    &&& at < i
                    &&& latest_batch_error(errors@, i as int, account_key@) == Some(at as int)
                },
                None => latest_batch_error(errors@, i as int, account_key@) is None,
            },
        decreases errors.len() - i,
    {
        let error = &errors[i];
        proof {
            reveal_strlit("");
            if error.rebuild_batch_id@.len() == 0 {
                assert(error.rebuild_batch_id@ =~= ""@);
            }
        }
        if same_text(error.account_key.as_str(), account_key) && !same_text(
            error.rebuild_batch_id.as_str(),
            "",
        ) {
            match latest {
                Some(at) => {
                    if errors[at].first_seen_at < error.first_seen_at {
                        latest = Some(i);
                    }
                },
                None => {
                    latest = Some(i);
                },
            }
        }
        i += 1;
    }
    match latest {
        Some(at) => Some(errors[at].rebuild_batch_id.clone()),
        None => None,
    }
}

/// The accounts, among the first `n` rows, that were never checked, but for one.
pub open spec fn unchecked_of(
    rows: Seq<AccountDataHealth>,
    n: int,
    key: Seq<char>,
) -> Seq<Seq<char>>
    decreases n,
{
    if n <= 0 {
        Seq::empty()
    } else {
        let before = unchecked_of(rows, n - 1, key);
        let row = rows[n - 1];
        if row.account_key@ != key && row.status == DataHealth::LegacyUnverified {
            before.push(row.account_key@)
        } else {
            before
        }
    }
}

/// The accounts that were never checked, but for one.
pub fn unchecked_accounts(rows: &Vec<AccountDataHealth>, account_key: &str) -> (r: Vec<String>)
    ensures
        string_views(r@) == unchecked_of(rows@, rows@.len() as int, account_key@),
{
    let mut r: Vec<String> = Vec::new();
    assert(string_views(r@) =~= unchecked_of(rows@, 0, account_key@));
    let mut i: usize = 0;
    while i < rows.len()
        invariant
            i <= rows.len(),
            string_views(r@) == unchecked_of(rows@, i as int, account_key@),
        decreases rows.len() - i,
    {
        let row = &rows[i];
        if !same_text(row.account_key.as_str(), account_key) && row.status
            == DataHealth::LegacyUnverified {
            let ghost before = string_views(r@);
            r.push(row.account_key.clone());
            assert(string_views(r@) =~= before.push(row.account_key@));
        }
        i += 1;
    }
    r
}

/// The row of an account that was never looked at.
pub fn legacy_row(account_key: String) -> (r: AccountDataHealth)
    ensures
        r.account_key == account_key,
        r.data_version == 0,
        r.status == DataHealth::LegacyUnverified,
        r.timeline_status == TimelineStatus::LegacyPreTimeline,
        nothing_found(r.counts),
        r.counts.source_lag_seconds == 0,
        r.last_rebuild_batch_id is None,
        r.verified_at is None,
{
    AccountDataHealth {
        account_key,
        data_version: 0,
        status: DataHealth::LegacyUnverified,
        timeline_status: TimelineStatus::LegacyPreTimeline,
        counts: HealthCounts {
            missing_timeline_turns: 0,
            orphan_timeline_samples: 0,
            mismatched_turns: 0,
            parse_error_count: 0,
            source_incomplete_count: 0,
            source_lag_seconds: 0,
        },
        last_rebuild_batch_id: None,
        verified_at: None,
    }
}

impl TimelineStatus {
    /// What a stored name stands for.
    pub open spec fn named(name: Seq<char>) -> TimelineStatus {
        if name == "rebuilding"@ {
            TimelineStatus::Rebuilding
        } else if name == "source_incomplete"@ {
            TimelineStatus::SourceIncomplete
        } else if name == "parse_error"@ {
            TimelineStatus::ParseError
        } else if name == "accounting_inconsistent"@ {
            TimelineStatus::AccountingInconsistent
        } else if name == "complete"@ {
            TimelineStatus::Complete
        } else {
            TimelineStatus::LegacyPreTimeline
        }
    }

    pub fn parse(name: &str) -> (r: TimelineStatus)
        ensures
            r == TimelineStatus::named(name@),
    {
        if same_text(name, "rebuilding") {
            TimelineStatus::Rebuilding
        } else if same_text(name, "source_incomplete") {
            TimelineStatus::SourceIncomplete
        } else if same_text(name, "parse_error") {
            TimelineStatus::ParseError
        } else if same_text(name, "accounting_inconsistent") {
            TimelineStatus::AccountingInconsistent
        } else if same_text(name, "complete") {
            TimelineStatus::Complete
        } else {
            TimelineStatus::LegacyPreTimeline
        }
    }
}

/// A status that is stored is read back.
pub proof fn lemma_timeline_status_round_trip(value: TimelineStatus)
    ensures
        TimelineStatus::named(value.name()) == value,
{
    reveal_strlit("rebuilding");
    reveal_strlit("source_incomplete");
    reveal_strlit("parse_error");
    reveal_strlit("accounting_inconsistent");
    reveal_strlit("legacy_pre_timeline");
    reveal_strlit("complete");
    assert("rebuilding"@.len() == 10);
    assert("source_incomplete"@.len() == 17);
    assert("parse_error"@.len() == 11);
    assert("accounting_inconsistent"@.len() == 23);
    assert("legacy_pre_timeline"@.len() == 19);
    assert("complete"@.len() == 8);
}

// ---------------------------------------------------------------------------
// Laws
// ---------------------------------------------------------------------------

/// An account is verified where that was asked for and no count speaks against it; anything
/// wrong with its timeline makes it inconsistent, and only after that a source that is not
/// read to its end makes it incomplete. A rebuild and an unverified ledger stay what they are.
pub proof fn lemma_status_follows_the_counts(requested: DataHealth, counts: HealthCounts)
    ensures
        ({
            let wrong = counts.missing_timeline_turns > 0 || counts.orphan_timeline_samples > 0
                || counts.mismatched_turns > 0 || counts.parse_error_count > 0;
            let short = counts.source_incomplete_count > 0;
            let status = granted_status(requested, counts);
            let held = requested == DataHealth::Rebuilding || requested
                == DataHealth::LegacyUnverified;
            &&& held ==> status == requested
            &&& !held && wrong ==> status == DataHealth::AccountingInconsistent
            &&& !held && !wrong && short ==> status == DataHealth::SourceIncomplete
            &&& !held && !wrong && !short ==> status == requested
            &&& timeline_claim(status, counts) == TimelineStatus::Complete <==> status
                != DataHealth::Rebuilding && !wrong && !short
            &&& status == DataHealth::Rebuilding ==> timeline_claim(status, counts)
                == TimelineStatus::Rebuilding
        }),
{
}

/// What was never verified is not verified by looking again, and a contradiction stays until
/// the data is rebuilt.
pub proof fn lemma_looking_again_verifies_nothing(previous: Option<DataHealth>)
    ensures
        previous is None ==> renewed_request(previous) == DataHealth::LegacyUnverified,
        previous == Some(DataHealth::LegacyUnverified) ==> renewed_request(previous)
            == DataHealth::LegacyUnverified,
        previous == Some(DataHealth::AccountingInconsistent) ==> renewed_request(previous)
            == DataHealth::AccountingInconsistent,
        previous == Some(DataHealth::Rebuilding) ==> renewed_request(previous)
            == DataHealth::Rebuilding,
        previous == Some(DataHealth::Verified) || previous == Some(DataHealth::SourceIncomplete)
            ==> renewed_request(previous) == DataHealth::Verified,
{
}

/// After lines were collected an account is held for verified only where its accounts are
/// closed and it was verified, or only short of a source, under this parser. Accounts that
/// are not closed are inconsistent.
pub proof fn lemma_collecting_keeps_what_was_verified(
    previous: Option<(DataHealth, i64)>,
    closed: bool,
)
    ensures
        !closed ==> request_after_collection(previous, closed).0
            == DataHealth::AccountingInconsistent,
        request_after_collection(previous, closed).0 == DataHealth::Verified <==> {
            &&& closed
            &&& previous matches Some((status, version)) && (status == DataHealth::Verified
                || status == DataHealth::SourceIncomplete) && version == ROLLOUT_PARSER_VERSION
        },
        previous matches Some((_, version)) ==> request_after_collection(previous, closed).1
            == version,
        previous is None ==> request_after_collection(previous, closed).1 == 0,
{
}

/// A source whose owner is settled is incomplete where its file reaches beyond what was read;
/// one without a file never is.
pub proof fn lemma_source_is_incomplete_beyond_its_offset(
    source: SourceProgress,
    window_start: Option<int>,
)
    ensures
        source.file is None ==> !source_incomplete(source, window_start),
        source.file matches Some(file) ==> {
            &&& !source.pending && source.last_offset >= 0 ==> (source_incomplete(
                source,
                window_start,
            ) <==> file.len > source.last_offset)
            &&& source.pending && window_start is None ==> source_incomplete(source, window_start)
            &&& source.pending ==> (window_start matches Some(start) ==> (source_incomplete(
                source,
                window_start,
            ) <==> (file.modified_at matches Some(changed) && start <= changed)))
        },
{
}

/// The row observes the account and says when its window resets.
pub open spec fn tells_reset(row: RateLimitRow, key: Seq<char>) -> bool {
    row.account_key@ == key && row.sample.resets_at is Some
}

/// The current quota window of an account began as long before its reset as the window lasts,
/// by the latest of the account's observations that say when it resets.
pub proof fn lemma_window_begins_by_the_latest_reset(rows: Seq<RateLimitRow>, key: Seq<char>)
    ensures
        match window_start(rows, key) {
            Some(start) => exists|i: int|
                {
                    &&& 0 <= i < rows.len()
                    &&& tells_reset(#[trigger] rows[i], key)
                    &&& start + 60 * rows[i].sample.window_duration_mins
                        == rows[i].sample.resets_at->0
                    &&& forall|k: int|
                        0 <= k < rows.len() && tells_reset(#[trigger] rows[k], key)
                            ==> rows[k].sample.sampled_at < rows[i].sample.sampled_at || (
                        rows[k].sample.sampled_at == rows[i].sample.sampled_at && rows[k].sample.id
                            <= rows[i].sample.id)
                },
            None => forall|k: int| 0 <= k < rows.len() ==> !tells_reset(#[trigger] rows[k], key),
        },
{
    lemma_latest_reset(rows, key);
    match latest_reset_row(rows, key) {
        Some(sample) => {
            let i = choose|i: int|
                {
                    &&& 0 <= i < rows.len()
                    &&& tells_reset(#[trigger] rows[i], key)
                    &&& rows[i].sample == sample
                };
            assert(tells_reset(rows[i], key));
        },
        None => {},
    }
}

proof fn lemma_latest_reset(rows: Seq<RateLimitRow>, key: Seq<char>)
    ensures
        match latest_reset_row(rows, key) {
            Some(sample) => {
                &&& exists|i: int|
                    {
                        &&& 0 <= i < rows.len()
                        &&& tells_reset(#[trigger] rows[i], key)
                        &&& rows[i].sample == sample
                    }
                &&& forall|k: int|
                    0 <= k < rows.len() && tells_reset(#[trigger] rows[k], key)
                        ==> rows[k].sample.sampled_at < sample.sampled_at || (
                    rows[k].sample.sampled_at == sample.sampled_at && rows[k].sample.id
                        <= sample.id)
            },
            None => forall|k: int| 0 <= k < rows.len() ==> !tells_reset(#[trigger] rows[k], key),
        },
    decreases rows.len(),
{
    if rows.len() > 0 {
        let front = rows.drop_last();
        lemma_latest_reset(front, key);
        assert forall|k: int| 0 <= k < front.len() implies rows[k] == #[trigger] front[k] by {}
        let last = rows[rows.len() - 1];
        assert(last == rows.last());
        match latest_reset_row(front, key) {
            Some(sample) => {
                let i = choose|i: int|
                    {
                        &&& 0 <= i < front.len()
                        &&& tells_reset(#[trigger] front[i], key)
                        &&& front[i].sample == sample
                    };
                assert(tells_reset(rows[i], key) && rows[i].sample == sample);
            },
            None => {},
        }
        assert(tells_reset(last, key) == (last.account_key@ == key && last.sample.resets_at
            is Some));
        assert forall|k: int| 0 <= k < rows.len() && tells_reset(#[trigger] rows[k], key) implies (
        latest_reset_row(rows, key) matches Some(sample) && (rows[k].sample.sampled_at
            < sample.sampled_at || (rows[k].sample.sampled_at == sample.sampled_at
            && rows[k].sample.id <= sample.id))) by {
            if k < front.len() {
                assert(front[k] == rows[k]);
            }
        }
    }
}

/// The last second at which an account's tokens were sampled is that of one of its samples,
/// and none is later.
pub proof fn lemma_latest_sample_is_latest(samples: Seq<TurnTokenSample>, key: Seq<char>)
    ensures
        match latest_sample(samples, key) {
            Some(at) => {
                &&& exists|i: int|
                    {
                        &&& 0 <= i < samples.len()
                        &&& (#[trigger] samples[i]).account_key@ == key
                        &&& samples[i].sampled_at == at
                    }
                &&& forall|i: int|
                    0 <= i < samples.len() && (#[trigger] samples[i]).account_key@ == key
                        ==> samples[i].sampled_at <= at
            },
            None => forall|i: int|
                0 <= i < samples.len() ==> (#[trigger] samples[i]).account_key@ != key,
        },
    decreases samples.len(),
{
    if samples.len() > 0 {
        let front = samples.drop_last();
        lemma_latest_sample_is_latest(front, key);
        assert forall|k: int| 0 <= k < front.len() implies samples[k] == #[trigger] front[k] by {}
        let last = samples[samples.len() - 1];
        assert(last == samples.last());
        match latest_sample(front, key) {
            Some(at) => {
                let i = choose|i: int|
                    {
                        &&& 0 <= i < front.len()
                        &&& (#[trigger] front[i]).account_key@ == key
                        &&& front[i].sampled_at == at
                    };
                assert(samples[i].account_key@ == key && samples[i].sampled_at == at);
            },
            None => {},
        }
        assert forall|i: int|
            0 <= i < samples.len() && (#[trigger] samples[i]).account_key@ == key implies (
        latest_sample(samples, key) matches Some(at) && samples[i].sampled_at <= at) by {
            if i < front.len() {
                assert(front[i] == samples[i]);
            }
        }
    }
}

/// A timeline lags by how far it lies behind the quota, where that is more than five minutes;
/// up to that it does not lag.
pub proof fn lemma_lag_is_beyond_five_minutes(consumed: i64, sampled: i64, incomplete: nat)
    requires
        consumed - sampled <= i64::MAX,
    ensures
        consumed - sampled > 5 * 60 ==> lag_of(Some(consumed), Some(sampled), incomplete)
            == consumed - sampled,
        consumed - sampled <= 5 * 60 ==> lag_of(Some(consumed), Some(sampled), incomplete) == 0,
        lag_of(Some(consumed), None, 0) == 0,
{
}

/// The error is the account's, and a batch left it behind.
pub open spec fn is_batch_error(error: StoredParseError, key: Seq<char>) -> bool {
    error.account_key@ == key && error.rebuild_batch_id@ != Seq::<char>::empty()
}

/// The batch that is told of an account left one of its errors behind, and no other such
/// error of the account is later.
pub proof fn lemma_batch_left_the_latest_error(
    errors: Seq<StoredParseError>,
    n: int,
    key: Seq<char>,
)
    requires
        0 <= n <= errors.len(),
    ensures
        match latest_batch_error(errors, n, key) {
            Some(at) => {
                &&& 0 <= at < n
                &&& is_batch_error(errors[at], key)
                &&& forall|k: int|
                    0 <= k < n && is_batch_error(#[trigger] errors[k], key)
                        ==> errors[k].first_seen_at <= errors[at].first_seen_at
            },
            None => forall|k: int| 0 <= k < n ==> !is_batch_error(#[trigger] errors[k], key),
        },
    decreases n,
{
    if n > 0 {
        lemma_batch_left_the_latest_error(errors, n - 1, key);
        let error = errors[n - 1];
        assert(is_batch_error(error, key) == left_by_batch(error, key)) by {
            if error.rebuild_batch_id@.len() == 0 {
                assert(error.rebuild_batch_id@ =~= Seq::<char>::empty());
            }
        }
    }
}

/// The accounts that were never checked are those whose health says so, but for the one that
/// is left out.
pub proof fn lemma_unchecked_are_the_legacy_ones(
    rows: Seq<AccountDataHealth>,
    n: int,
    key: Seq<char>,
    other: Seq<char>,
)
    requires
        0 <= n <= rows.len(),
    ensures
        unchecked_of(rows, n, key).contains(other) <==> other != key && exists|i: int|
            {
                &&& 0 <= i < n
                &&& (#[trigger] rows[i]).account_key@ == other
                &&& rows[i].status == DataHealth::LegacyUnverified
            },
    decreases n,
{
    if n > 0 {
        lemma_unchecked_are_the_legacy_ones(rows, n - 1, key, other);
        let before = unchecked_of(rows, n - 1, key);
        let after = unchecked_of(rows, n, key);
        let row = rows[n - 1];
        if before.contains(other) {
            let k = choose|k: int| 0 <= k < before.len() && before[k] == other;
            assert(after[k] == other);
        }
        if row.account_key@ == other && other != key && row.status == DataHealth::LegacyUnverified {
            assert(after[before.len() as int] == other);
        }
        if after.contains(other) {
            let k = choose|k: int| 0 <= k < after.len() && after[k] == other;
            if k < before.len() {
                assert(before[k] == other);
            } else {
                assert(rows[n - 1].account_key@ == other);
            }
        }
    }
}

/// Quota is seen to be consumed where a share rises from one observation of a bucket to the
/// next, of the same window length, both with a reset within a few seconds or none.
pub proof fn lemma_consumption_is_a_rise(samples: Seq<RateSample>, k: int)
    ensures
        consumes_at(samples, k) <==> {
            &&& 1 <= k < samples.len()
            &&& samples[k - 1].used_percent.code < samples[k].used_percent.code
            &&& samples[k - 1].window_duration_mins == samples[k].window_duration_mins
            &&& match (samples[k - 1].resets_at, samples[k].resets_at) {
                (Some(a), Some(b)) => a - b <= 5 && b - a <= 5,
                (None, None) => true,
                _ => false,
            }
        },
{
}

/// Only what was never verified is labelled anew: it gets the counts that were found, stays
/// unverified, and has no time at which it was verified. All else stays as it is.
pub proof fn lemma_only_unverified_health_is_labelled(
    before: AccountDataHealth,
    counts: HealthCounts,
)
    ensures
        ({
            let after = relabelled(before, counts);
            &&& before.status != DataHealth::LegacyUnverified ==> after == before
            &&& before.status == DataHealth::LegacyUnverified ==> {
                &&& after.status == DataHealth::LegacyUnverified
                &&& after.counts == counts
                &&& after.verified_at is None
                &&& after.account_key == before.account_key
                &&& after.data_version == before.data_version
                &&& after.last_rebuild_batch_id == before.last_rebuild_batch_id
            }
        }),
{
}

/// Consumption that no increase was recorded for at all is a lag only where a source is
/// incomplete; without consumption there is none.
pub proof fn lemma_lag_without_increases(consumed: i64, sampled: Option<i64>, incomplete: nat)
    ensures
        incomplete > 0 ==> lag_of(Some(consumed), None, incomplete) == consumed,
        incomplete == 0 ==> lag_of(Some(consumed), None, incomplete) == 0,
        lag_of(None, sampled, incomplete) == 0,
{
}

/// What is claimed of a timeline is the first thing that is wrong with it: that it is being
/// rebuilt, that a source is incomplete, that a line could not be read, that its accounts do
/// not agree, or that turns have none.
pub proof fn lemma_timeline_claims_the_first_fault(status: DataHealth, counts: HealthCounts)
    ensures
        ({
            let claim = timeline_claim(status, counts);
            let settled = status != DataHealth::Rebuilding;
            let whole = settled && counts.source_incomplete_count == 0;
            let read = whole && counts.parse_error_count == 0;
            let wrong = counts.orphan_timeline_samples > 0 || counts.mismatched_turns > 0;
            &&& claim == TimelineStatus::Rebuilding <==> !settled
            &&& claim == TimelineStatus::SourceIncomplete <==> settled
                && counts.source_incomplete_count > 0
            &&& claim == TimelineStatus::ParseError <==> whole && counts.parse_error_count > 0
            &&& claim == TimelineStatus::AccountingInconsistent <==> read && wrong
            &&& claim == TimelineStatus::LegacyPreTimeline <==> read && !wrong
                && counts.missing_timeline_turns > 0
        }),
{
}

/// As many sources are incomplete as have more to read or are waited for.
pub proof fn lemma_incomplete_sources_are_counted(
    sources: Seq<SourceProgress>,
    window_start: Option<int>,
)
    ensures
        incomplete_sources(sources, window_start) == count_where(
            sources,
            |source: SourceProgress| source_incomplete(source, window_start),
        ),
{
    let pick = |source: SourceProgress| source_incomplete(source, window_start);
    lemma_filter_counts(sources, pick, pick);
}

} // verus!
