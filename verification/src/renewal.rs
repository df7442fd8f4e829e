//! What is derived of an account, brought up to date with its ledger: the steps of its quota
//! and its health.
use crate::arith::min_int;
use crate::collector_core::{
    activity_of_unresolved, lemma_counting_sources_are_own_or_open, places_counting_for,
    sources_counting_for, unresolved_activity, BindingStatus, RolloutSource,
};
use crate::health::{
    account_data_health, account_health_counts, granted_status, health_stored,
    incomplete_sources, is_latest_consumption, is_of_account, lag_of, last_rebuild_batch,
    latest_batch_error, latest_sample, lemma_looking_again_verifies_nothing,
    lemma_status_follows_the_counts, refresh_account_data_health, renewed_request,
    source_completeness, store_account_data_health, timeline_claim, window_start,
    AccountDataHealth, DataHealth, FileState, HealthCounts, SourceProgress,
};
use crate::ledger::{
    contradicted_turns, increases_of, lemma_contradicted_turns_disagree,
    lemma_missing_turns_have_no_increase, lemma_orphans_have_no_turn, missing_turns, names_turn,
    orphan_samples, StoredParseError, TurnLedger,
};
use crate::models::unresolved_key;
use crate::quota::{
    bucket_listed, in_bucket, intervals_stored, is_bucket_result, not_found_in,
    rebuild_account_intervals, rebuilt, store_intervals, BucketIntervals, Evidence, Gap,
    RateLimitRow, UnresolvedActivity,
};
use crate::recorder::DailyUsageRow;
use crate::rollout::{SampleView, TurnView};
use crate::sessions::PresenceInterval;
use crate::table::{
    count_of_account, count_where, delete_account_rows, first_where, lemma_filter_counts,
    lemma_filter_keeps, lemma_filter_member, lemma_first_where, of_this, rows_of_others,
};
use crate::text::text_opt;
use vstd::prelude::*;

verus! {

/// How far each source that counts for the account has been read, and the file it is.
pub open spec fn progress_of(
    sources: Seq<RolloutSource>,
    files: Seq<Option<FileState>>,
    account_key: Seq<char>,
) -> Seq<SourceProgress> {
    let places = places_counting_for(sources, sources.len() as int, account_key);
    Seq::new(
        places.len(),
        |k: int|
            SourceProgress {
                pending: false,
                last_offset: min_int(sources[places[k] as int].last_offset as int, i64::MAX as int)
                    as i64,
                file: files[places[k] as int],
            },
    )
}

proof fn lemma_places_counting_for(sources: Seq<RolloutSource>, n: int, account_key: Seq<char>)
    requires
        0 <= n <= sources.len(),
        sources.len() <= usize::MAX,
    ensures
        ({
            let places = places_counting_for(sources, n, account_key);
            &&& places.len() <= n
            &&& forall|k: int| 0 <= k < places.len() ==> 0 <= #[trigger] places[k] < n
        }),
    decreases n,
{
    if n > 0 {
        lemma_places_counting_for(sources, n - 1, account_key);
    }
}

/// How far each source that counts for the account has been read.
pub fn source_progress(
    sources: &Vec<RolloutSource>,
    files: &Vec<Option<FileState>>,
    account_key: &str,
) -> (r: Vec<SourceProgress>)
    requires
        files.len() == sources.len(),
    ensures
        r@ == progress_of(sources@, files@, account_key@),
        r.len() <= sources.len(),
{
    let places = sources_counting_for(sources, account_key);
    proof {
        lemma_places_counting_for(sources@, sources@.len() as int, account_key@);
    }
    let mut r: Vec<SourceProgress> = Vec::new();
    let mut k: usize = 0;
    while k < places.len()
        invariant
            k <= places.len(),
            places.len() <= sources.len(),
            files.len() == sources.len(),
            places@ == places_counting_for(sources@, sources@.len() as int, account_key@),
            forall|m: int| 0 <= m < places.len() ==> 0 <= #[trigger] places@[m] < sources.len(),
            r@ == progress_of(sources@, files@, account_key@).take(k as int),
        decreases places.len() - k,
    {
        let at: usize = places[k];
        let read: u64 = sources[at].last_offset;
        let last_offset: i64 = if read > i64::MAX as u64 {
            i64::MAX
        } else {
            read as i64
        };
        r.push(SourceProgress { pending: false, last_offset, file: files[at] });
        proof {
            let all = progress_of(sources@, files@, account_key@);
            assert(all.take(k + 1) =~= all.take(k as int).push(all[k as int]));
        }
        k += 1;
    }
    proof {
        let all = progress_of(sources@, files@, account_key@);
        assert(all.take(all.len() as int) =~= all);
    }
    r
}

/// The counts are what is found of the account.
pub open spec fn counts_found(
    counts: HealthCounts,
    ledger: TurnLedger,
    sources: Seq<RolloutSource>,
    files: Seq<Option<FileState>>,
    limits: Seq<RateLimitRow>,
    account_key: Seq<char>,
) -> bool {
    let incomplete = incomplete_sources(
        progress_of(sources, files, account_key),
        window_start(limits, account_key),
    );
    &&& counts.missing_timeline_turns == missing_turns(ledger@, account_key).len()
    &&& counts.orphan_timeline_samples == orphan_samples(ledger@, account_key).len()
    &&& counts.mismatched_turns == contradicted_turns(ledger@, account_key).len()
    &&& counts.parse_error_count == count_of_account(ledger.parse_errors@, account_key)
    &&& exists|consumed: Option<i64>|
        {
            &&& #[trigger] is_latest_consumption(limits, account_key, consumed)
            &&& counts.source_lag_seconds == lag_of(
                consumed,
                latest_sample(ledger.samples@, account_key),
                incomplete,
            )
            &&& counts.source_incomplete_count == incomplete + if counts.source_lag_seconds > 0 {
                1int
            } else {
                0
            }
        }
}

/// Counts what is found of an account: in its ledger, and of the sources that count for it.
pub fn count_account(
    ledger: &TurnLedger,
    sources: &Vec<RolloutSource>,
    files: &Vec<Option<FileState>>,
    limits: &Vec<RateLimitRow>,
    account_key: &str,
) -> (r: HealthCounts)
    requires
        files.len() == sources.len(),
        sources.len() < usize::MAX,
    ensures
        counts_found(r, *ledger, sources@, files@, limits@, account_key@),
{
    let progress = source_progress(sources, files, account_key);
    let (incomplete, lag) = source_completeness(&progress, limits, &ledger.samples, account_key);
    account_health_counts(ledger, account_key, incomplete, lag)
}

/// The row says of the account's health what is found when it is looked at again.
pub open spec fn is_renewed_health(
    row: AccountDataHealth,
    stored: Seq<AccountDataHealth>,
    ledger: TurnLedger,
    sources: Seq<RolloutSource>,
    files: Seq<Option<FileState>>,
    limits: Seq<RateLimitRow>,
    account_key: Seq<char>,
    now: i64,
) -> bool {
    let (status, version) = match first_where(stored, is_of_account(account_key)) {
        Some(at) => (Some(stored[at].status), stored[at].data_version),
        None => (None, 0),
    };
    let errors = ledger.parse_errors@;
    &&& row.account_key@ == account_key
    &&& row.data_version == version
    &&& counts_found(row.counts, ledger, sources, files, limits, account_key)
    &&& row.status == granted_status(renewed_request(status), row.counts)
    &&& row.timeline_status == timeline_claim(row.status, row.counts)
    &&& match latest_batch_error(errors, errors.len() as int, account_key) {
        Some(at) => row.last_rebuild_batch_id is Some && row.last_rebuild_batch_id->0@
            == errors[at].rebuild_batch_id@,
        None => row.last_rebuild_batch_id is None,
    }
    &&& row.verified_at == if row.status == DataHealth::Verified {
        Some(now)
    } else {
        None
    }
}

/// The account's health has been looked at again; that of every other account stays.
pub open spec fn health_renewed(
    before: Seq<AccountDataHealth>,
    after: Seq<AccountDataHealth>,
    ledger: TurnLedger,
    sources: Seq<RolloutSource>,
    files: Seq<Option<FileState>>,
    limits: Seq<RateLimitRow>,
    account_key: Seq<char>,
    now: i64,
) -> bool {
    exists|row: AccountDataHealth|
        #[trigger] is_renewed_health(
            row,
            before,
            ledger,
            sources,
            files,
            limits,
            account_key,
            now,
        ) && after == health_stored(before, row)
}

/// Looks at an account's health again, and stores what is found.
pub fn renew_account_health(
    health: &mut Vec<AccountDataHealth>,
    ledger: &TurnLedger,
    sources: &Vec<RolloutSource>,
    files: &Vec<Option<FileState>>,
    limits: &Vec<RateLimitRow>,
    account_key: &str,
    now: i64,
)
    requires
        files.len() == sources.len(),
        sources.len() < usize::MAX,
    ensures
        health_renewed(
            old(health)@,
            final(health)@,
            *ledger,
            sources@,
            files@,
            limits@,
            account_key@,
            now,
        ),
{
    let counts = count_account(ledger, sources, files, limits, account_key);
    let batch = last_rebuild_batch(&ledger.parse_errors, account_key);
    let row = refresh_account_data_health(
        account_key,
        account_data_health(health, account_key),
        counts,
        batch,
        now,
    );
    assert(is_renewed_health(
        row,
        old(health)@,
        *ledger,
        sources@,
        files@,
        limits@,
        account_key@,
        now,
    ));
    store_account_data_health(health, row);
}

/// What bears on the steps of a quota: the collector's gaps, the ledger's samples, and the
/// sources whose account is not known.
pub open spec fn is_evidence(
    evidence: Evidence,
    gaps: Seq<Gap>,
    ledger: TurnLedger,
    sources: Seq<RolloutSource>,
) -> bool {
    &&& evidence.gaps@ == gaps
    &&& evidence.samples@ == ledger.samples@
    &&& evidence.unresolved@ == activity_of_unresolved(sources, sources.len() as int)
}

/// The account's quota steps have been found again from its observations. Of an account that
/// is not known nothing changes.
pub open spec fn intervals_renewed(
    before: Seq<BucketIntervals>,
    after: Seq<BucketIntervals>,
    ledger: TurnLedger,
    sources: Seq<RolloutSource>,
    limits: Seq<RateLimitRow>,
    gaps: Seq<Gap>,
    account_key: Seq<char>,
) -> bool {
    if unresolved_key(account_key) {
        after == before
    } else {
        exists|evidence: Evidence, found: Seq<BucketIntervals>|
            {
                &&& is_evidence(evidence, gaps, ledger, sources)
                &&& #[trigger] rebuilt(found, limits, evidence, Some(account_key))
                &&& after == intervals_stored(before, found)
            }
    }
}

/// Finds the steps of an account's quota again, and stores what is found.
pub fn renew_account_intervals(
    buckets: &mut Vec<BucketIntervals>,
    ledger: &TurnLedger,
    sources: &Vec<RolloutSource>,
    limits: &Vec<RateLimitRow>,
    gaps: &Vec<Gap>,
    account_key: &str,
)
    ensures
        intervals_renewed(
            old(buckets)@,
            final(buckets)@,
            *ledger,
            sources@,
            limits@,
            gaps@,
            account_key@,
        ),
{
    let unresolved: Vec<UnresolvedActivity> = unresolved_activity(sources);
    let evidence = Evidence { gaps, samples: &ledger.samples, unresolved: &unresolved };
    match rebuild_account_intervals(limits, account_key, &evidence) {
        Some(found) => {
            assert(is_evidence(evidence, gaps@, *ledger, sources@));
            store_intervals(buckets, found);
        },
        None => {},
    }
}

/// Brings what is derived of an account up to date once rows of its ledger have moved: the
/// steps of its quota, and then its health.
pub fn renew_account(
    buckets: &mut Vec<BucketIntervals>,
    health: &mut Vec<AccountDataHealth>,
    ledger: &TurnLedger,
    sources: &Vec<RolloutSource>,
    files: &Vec<Option<FileState>>,
    limits: &Vec<RateLimitRow>,
    gaps: &Vec<Gap>,
    account_key: &str,
    now: i64,
)
    requires
        files.len() == sources.len(),
        sources.len() < usize::MAX,
    ensures
        intervals_renewed(
            old(buckets)@,
            final(buckets)@,
            *ledger,
            sources@,
            limits@,
            gaps@,
            account_key@,
        ),
        health_renewed(
            old(health)@,
            final(health)@,
            *ledger,
            sources@,
            files@,
            limits@,
            account_key@,
            now,
        ),
{
    renew_account_intervals(buckets, ledger, sources, limits, gaps, account_key);
    renew_account_health(health, ledger, sources, files, limits, account_key, now);
}

/// Removes what is kept of an account beside its ledger: its days, its presence and the
/// steps of its quota. A reset retains what was observed of its quota; setting the account
/// aside does not.
pub fn clear_account_tables(
    days: &mut Vec<DailyUsageRow>,
    presence: &mut Vec<PresenceInterval>,
    buckets: &mut Vec<BucketIntervals>,
    limits: &mut Vec<RateLimitRow>,
    account_key: &str,
    retain_observations: bool,
)
    ensures
        final(days)@ == rows_of_others(old(days)@, account_key@),
        final(presence)@ == rows_of_others(old(presence)@, account_key@),
        final(buckets)@ == rows_of_others(old(buckets)@, account_key@),
        final(limits)@ == if retain_observations {
            old(limits)@
        } else {
            rows_of_others(old(limits)@, account_key@)
        },
{
    delete_account_rows(days, account_key);
    delete_account_rows(presence, account_key);
    delete_account_rows(buckets, account_key);
    if !retain_observations {
        delete_account_rows(limits, account_key);
    }
}

/// What is looked at of an account's sources is how far each has been read and the file that
/// it is: of its own sources and of those that nobody is known to own, and of no other.
pub proof fn lemma_progress_is_of_own_and_open_sources(
    sources: Seq<RolloutSource>,
    files: Seq<Option<FileState>>,
    account_key: Seq<char>,
)
    requires
        files.len() == sources.len(),
        sources.len() <= usize::MAX,
    ensures
        ({
            let found = progress_of(sources, files, account_key);
            &&& forall|i: int|
                0 <= i < sources.len() && (text_opt((#[trigger] sources[i]).account_key) == Some(
                    account_key,
                ) || sources[i].binding_status == BindingStatus::Unresolved) ==> exists|k: int|
                    {
                        &&& 0 <= k < found.len()
                        &&& (#[trigger] found[k]).file == files[i]
                        &&& sources[i].last_offset <= i64::MAX ==> found[k].last_offset
                            == sources[i].last_offset
                        &&& sources[i].last_offset > i64::MAX ==> found[k].last_offset == i64::MAX
                        &&& !found[k].pending
                    }
            &&& forall|k: int|
                0 <= k < found.len() ==> exists|i: int|
                    {
                        &&& 0 <= i < sources.len()
                        &&& text_opt((#[trigger] sources[i]).account_key) == Some(account_key)
                            || sources[i].binding_status == BindingStatus::Unresolved
                        &&& (#[trigger] found[k]).file == files[i]
                    }
        }),
{
    let n = sources.len() as int;
    let places = places_counting_for(sources, n, account_key);
    let found = progress_of(sources, files, account_key);
    lemma_counting_sources_are_own_or_open(sources, n, account_key);
    assert forall|i: int|
        0 <= i < sources.len() && (text_opt((#[trigger] sources[i]).account_key) == Some(
            account_key,
        ) || sources[i].binding_status == BindingStatus::Unresolved) implies exists|k: int|
        {
            &&& 0 <= k < found.len()
            &&& (#[trigger] found[k]).file == files[i]
            &&& sources[i].last_offset <= i64::MAX ==> found[k].last_offset
                == sources[i].last_offset
            &&& sources[i].last_offset > i64::MAX ==> found[k].last_offset == i64::MAX
            &&& !found[k].pending
        } by {
        let k = choose|k: int| 0 <= k < places.len() && places[k] == i as usize;
        assert(found[k].file == files[i]);
    }
    assert forall|k: int| 0 <= k < found.len() implies exists|i: int|
        {
            &&& 0 <= i < sources.len()
            &&& text_opt((#[trigger] sources[i]).account_key) == Some(account_key)
                || sources[i].binding_status == BindingStatus::Unresolved
            &&& (#[trigger] found[k]).file == files[i]
        } by {
        let i = places[k] as int;
        assert(text_opt(sources[i].account_key) == Some(account_key) || sources[i].binding_status
            == BindingStatus::Unresolved);
        assert(found[k].file == files[i]);
    }
}

/// The counts are those of the account's own rows: turns with tokens and no increase, turns
/// that their increases contradict, increases without a turn, and lines that could not be
/// read. A source that lags behind counts as one more that is incomplete.
pub proof fn lemma_counts_are_of_the_accounts_rows(
    counts: HealthCounts,
    ledger: TurnLedger,
    sources: Seq<RolloutSource>,
    files: Seq<Option<FileState>>,
    limits: Seq<RateLimitRow>,
    account_key: Seq<char>,
)
    requires
        counts_found(counts, ledger, sources, files, limits, account_key),
    ensures
        counts.missing_timeline_turns == count_where(
            ledger@.turns,
            |turn: TurnView|
                turn.account_key == account_key && turn.usage.raw_total_tokens > 0 && increases_of(
                    ledger@,
                    turn,
                ) == 0,
        ),
        counts.mismatched_turns == count_where(
            ledger@.turns,
            |turn: TurnView|
                turn.account_key == account_key && (turn.usage.raw_total_tokens < 0
                    || increases_of(ledger@, turn) < 0 || (increases_of(ledger@, turn) > 0
                    && increases_of(ledger@, turn) != turn.usage.raw_total_tokens)),
        ),
        counts.orphan_timeline_samples == count_where(
            ledger@.samples,
            |sample: SampleView|
                sample.account_key == account_key && !names_turn(
                    ledger@.turns,
                    sample.account_key,
                    sample.thread_id,
                    sample.turn_id,
                ),
        ),
        counts.parse_error_count == count_where(
            ledger.parse_errors@,
            |error: StoredParseError| error.account_key@ == account_key,
        ),
        counts.source_incomplete_count == incomplete_sources(
            progress_of(sources, files, account_key),
            window_start(limits, account_key),
        ) + if counts.source_lag_seconds > 0 {
            1int
        } else {
            0
        },
{
    lemma_missing_turns_have_no_increase(ledger@, account_key);
    lemma_contradicted_turns_disagree(ledger@, account_key);
    lemma_orphans_have_no_turn(ledger@, account_key);
    lemma_filter_counts(
        ledger.parse_errors@,
        of_this(account_key),
        |error: StoredParseError| error.account_key@ == account_key,
    );
}

/// Once an account's health was looked at again it is on record: as verified, at that time,
/// only where nothing was found wrong or short and it was neither unverified, nor inconsistent,
/// nor being rebuilt before; and at the version that it had. What is on record of other
/// accounts stays.
pub proof fn lemma_renewed_health_is_on_record(
    before: Seq<AccountDataHealth>,
    after: Seq<AccountDataHealth>,
    ledger: TurnLedger,
    sources: Seq<RolloutSource>,
    files: Seq<Option<FileState>>,
    limits: Seq<RateLimitRow>,
    account_key: Seq<char>,
    now: i64,
)
    requires
        health_renewed(before, after, ledger, sources, files, limits, account_key, now),
    ensures
        exists|i: int|
            {
                let row = #[trigger] after[i];
                let clean = row.counts.missing_timeline_turns == 0
                    && row.counts.orphan_timeline_samples == 0 && row.counts.mismatched_turns == 0
                    && row.counts.parse_error_count == 0 && row.counts.source_incomplete_count == 0;
                &&& 0 <= i < after.len()
                &&& row.account_key@ == account_key
                &&& counts_found(row.counts, ledger, sources, files, limits, account_key)
                &&& row.status == DataHealth::Verified ==> clean && row.verified_at == Some(now)
                &&& row.status != DataHealth::Verified ==> row.verified_at is None
                &&& i < before.len() ==> {
                    let was = before[i];
                    &&& was.account_key@ == account_key
                    &&& row.data_version == was.data_version
                    &&& clean && (was.status == DataHealth::Verified || was.status
                        == DataHealth::SourceIncomplete) ==> row.status == DataHealth::Verified
                    &&& was.status == DataHealth::Rebuilding || was.status
                        == DataHealth::LegacyUnverified ==> row.status == was.status
                    &&& row.status == DataHealth::Verified ==> was.status
                        != DataHealth::AccountingInconsistent
                }
                &&& i == before.len() ==> row.status == DataHealth::LegacyUnverified
                    && row.data_version == 0
            },
        forall|i: int|
            0 <= i < before.len() && (#[trigger] before[i]).account_key@ != account_key
                ==> after[i] == before[i],
        before.len() <= after.len() <= before.len() + 1,
{
    let row = choose|row: AccountDataHealth|
        #[trigger] is_renewed_health(
            row,
            before,
            ledger,
            sources,
            files,
            limits,
            account_key,
            now,
        ) && after == health_stored(before, row);
    let pick = is_of_account(account_key);
    lemma_first_where(before, pick);
    let (at, previous) = match first_where(before, pick) {
        Some(at) => (at, Some(before[at].status)),
        None => (before.len() as int, None),
    };
    lemma_looking_again_verifies_nothing(previous);
    lemma_status_follows_the_counts(renewed_request(previous), row.counts);
    assert(after[at] == row);
    if at < before.len() {
        assert(pick(before[at]));
    }
}

/// Once an account's quota was looked at again, the buckets with an observation of the account
/// have the steps that were found in them, and the buckets of all other accounts stay as they
/// are.
pub proof fn lemma_renewed_steps_are_the_accounts(
    before: Seq<BucketIntervals>,
    after: Seq<BucketIntervals>,
    ledger: TurnLedger,
    sources: Seq<RolloutSource>,
    limits: Seq<RateLimitRow>,
    gaps: Seq<Gap>,
    account_key: Seq<char>,
)
    requires
        intervals_renewed(before, after, ledger, sources, limits, gaps, account_key),
    ensures
        forall|bucket: BucketIntervals|
            bucket.account_key@ != account_key ==> (#[trigger] after.contains(bucket)
                <==> before.contains(bucket)),
        !unresolved_key(account_key) ==> forall|i: int|
            0 <= i < limits.len() && (#[trigger] limits[i]).account_key@ == account_key
                ==> exists|k: int|
                0 <= k < after.len() && (#[trigger] after[k]).account_key@ == account_key
                    && after[k].limit_id@ == limits[i].limit_id@ && after[k].window@
                    == limits[i].window@,
        unresolved_key(account_key) ==> after == before,
{
    if !unresolved_key(account_key) {
        let (evidence, found) = choose|evidence: Evidence, found: Seq<BucketIntervals>|
            {
                &&& is_evidence(evidence, gaps, ledger, sources)
                &&& #[trigger] rebuilt(found, limits, evidence, Some(account_key))
                &&& after == intervals_stored(before, found)
            };
        let keep = not_found_in(found);
        let kept = before.filter(keep);
        assert forall|k: int| 0 <= k < found.len() implies (#[trigger] found[k]).account_key@
            == account_key by {
            assert(is_bucket_result(found[k], limits, evidence, Some(account_key)));
        }
        assert forall|bucket: BucketIntervals| bucket.account_key@ != account_key implies (
        #[trigger] after.contains(bucket) <==> before.contains(bucket)) by {
            if after.contains(bucket) {
                let k = choose|k: int| 0 <= k < after.len() && after[k] == bucket;
                if k < kept.len() {
                    let from = lemma_filter_member(before, keep, k);
                    assert(before[from] == bucket);
                } else {
                    assert(after[k] == found[k - kept.len()]);
                }
            }
            if before.contains(bucket) {
                let from = choose|from: int| 0 <= from < before.len() && before[from] == bucket;
                assert(keep(before[from]));
                let at = lemma_filter_keeps(before, keep, from);
                assert(after[at] == bucket);
            }
        }
        assert forall|i: int|
            0 <= i < limits.len() && (#[trigger] limits[i]).account_key@
                == account_key implies exists|k: int|
            0 <= k < after.len() && (#[trigger] after[k]).account_key@ == account_key
                && after[k].limit_id@ == limits[i].limit_id@ && after[k].window@
                == limits[i].window@ by {
            assert(bucket_listed(found, limits[i]));
            let k = choose|k: int|
                0 <= k < found.len() && in_bucket(
                    limits[i],
                    (#[trigger] found[k]).account_key@,
                    found[k].limit_id@,
                    found[k].window@,
                );
            assert(after[kept.len() + k] == found[k]);
        }
    }
}

/// The steps that are stored for an account's buckets are those that its observations show,
/// with the gaps of the collector, the increases of the ledger and the sources without an
/// account between them.
pub proof fn lemma_renewed_steps_rest_on_the_evidence(
    before: Seq<BucketIntervals>,
    after: Seq<BucketIntervals>,
    ledger: TurnLedger,
    sources: Seq<RolloutSource>,
    limits: Seq<RateLimitRow>,
    gaps: Seq<Gap>,
    account_key: Seq<char>,
)
    requires
        intervals_renewed(before, after, ledger, sources, limits, gaps, account_key),
        !unresolved_key(account_key),
    ensures
        exists|evidence: Evidence, found: Seq<BucketIntervals>|
            {
                &&& evidence.gaps@ == gaps
                &&& evidence.samples@ == ledger.samples@
                &&& evidence.unresolved@ == activity_of_unresolved(sources, sources.len() as int)
                &&& #[trigger] rebuilt(found, limits, evidence, Some(account_key))
                &&& forall|k: int| 0 <= k < found.len() ==> after.contains(#[trigger] found[k])
            },
{
    let (evidence, found) = choose|evidence: Evidence, found: Seq<BucketIntervals>|
        {
            &&& is_evidence(evidence, gaps, ledger, sources)
            &&& #[trigger] rebuilt(found, limits, evidence, Some(account_key))
            &&& after == intervals_stored(before, found)
        };
    let kept = before.filter(not_found_in(found));
    assert forall|k: int| 0 <= k < found.len() implies after.contains(#[trigger] found[k]) by {
        assert(after[kept.len() + k] == found[k]);
    }
    assert(rebuilt(found, limits, evidence, Some(account_key)));
}

} // verus!
