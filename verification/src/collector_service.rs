//! The collector's refreshing: which generation of the account's data is current, what may be
//! shown of it, and what follows from what was read.
use crate::catch_up::{
    bound_by_activity, catch_up_path, caught_up, retroactively_bind_source, Books, CatchUp,
    CatchUpError,
};
use crate::collector_core::{BindingAudit, BindingStatus, ObservedFile, RolloutSource};
use crate::health::{AccountDataHealth, FileState};
use crate::json::{as_text, field, text_of, Json, JsonView};
use crate::ledger::{AccountingError, TurnLedger};
use crate::names::has_name;
use crate::quota::{BucketIntervals, Gap, RateLimitRow};
use crate::recorder::{explicit_key_of, explicit_snapshot_account_key, AccountRecord};
use crate::renewal::{health_renewed, intervals_renewed, renew_account};
use crate::scheduler::UsageSchedulerStatus;
use crate::text::{joined, same_text, str_opt, text_opt};
use vstd::prelude::*;

verus! {

// ---------------------------------------------------------------------------
// Generations
// ---------------------------------------------------------------------------

/// How the refreshing stands. Whatever changes who the account is begins a new generation,
/// and what an older one found is never shown.
#[derive(Debug)]
pub struct RefreshState {
    pub generation: u64,
    pub refreshing: bool,
    pub queued_refresh: bool,
    pub error: Option<String>,
    pub started_at: Option<i64>,
    pub latest_snapshot: Option<Json>,
}

pub open spec fn next_generation(generation: u64) -> u64 {
    if generation < u64::MAX {
        (generation + 1) as u64
    } else {
        generation
    }
}

fn increment(generation: u64) -> (r: u64)
    ensures
        r == next_generation(generation),
{
    if generation < u64::MAX {
        generation + 1
    } else {
        generation
    }
}

impl Default for RefreshState {
    fn default() -> (r: RefreshState)
        ensures
            r == (RefreshState {
                generation: 0,
                refreshing: false,
                queued_refresh: false,
                error: None,
                started_at: None,
                latest_snapshot: None,
            }),
    {
        RefreshState {
            generation: 0,
            refreshing: false,
            queued_refresh: false,
            error: None,
            started_at: None,
            latest_snapshot: None,
        }
    }
}

impl RefreshState {
    /// Begins a refresh, where none is under way.
    pub fn begin_refresh(&mut self, now: i64) -> (r: Option<u64>)
        ensures
            if old(self).refreshing {
                r is None && *final(self) == *old(self)
            } else {
                &&& r == Some(next_generation(old(self).generation))
                &&& *final(self) == (RefreshState {
                    generation: next_generation(old(self).generation),
                    refreshing: true,
                    queued_refresh: false,
                    error: None,
                    started_at: Some(now),
                    latest_snapshot: None,
                })
            },
    {
        if self.refreshing {
            return None;
        }
        self.generation = increment(self.generation);
        self.refreshing = true;
        self.queued_refresh = false;
        self.error = None;
        self.started_at = Some(now);
        self.latest_snapshot = None;
        Some(self.generation)
    }

    /// Begins a new generation because the account may have changed. A refresh that is under
    /// way goes on, and another is queued behind it; otherwise one is begun.
    pub fn invalidate_account(&mut self, now: i64) -> (r: Option<u64>)
        ensures
            *final(self) == (RefreshState {
                generation: next_generation(old(self).generation),
                refreshing: true,
                queued_refresh: old(self).refreshing,
                error: None,
                started_at: Some(now),
                latest_snapshot: None,
            }),
            r == if old(self).refreshing {
                None
            } else {
                Some(next_generation(old(self).generation))
            },
    {
        self.generation = increment(self.generation);
        self.latest_snapshot = None;
        self.error = None;
        self.started_at = Some(now);
        if self.refreshing {
            self.queued_refresh = true;
            None
        } else {
            self.refreshing = true;
            self.queued_refresh = false;
            Some(self.generation)
        }
    }

    /// What may be shown: nothing while a refresh is under way.
    pub open spec fn shown(self) -> JsonView {
        match self.latest_snapshot {
            Some(snapshot) => if self.refreshing {
                JsonView::Null
            } else {
                snapshot@
            },
            None => JsonView::Null,
        }
    }

    pub fn renderable_snapshot(&self) -> (r: &Json)
        ensures
            r@ == self.shown(),
    {
        match &self.latest_snapshot {
            Some(snapshot) => if self.refreshing {
                &Json::Null
            } else {
                snapshot
            },
            None => &Json::Null,
        }
    }

    /// The generation that a refresh is to be run for, where one is reserved. What was queued
    /// before it starts is taken up by it.
    pub fn start_reserved(&mut self) -> (r: Option<u64>)
        ensures
            if old(self).refreshing {
                &&& r == Some(old(self).generation)
                &&& *final(self) == (RefreshState { queued_refresh: false, ..*old(self) })
            } else {
                r is None && *final(self) == *old(self)
            },
    {
        if !self.refreshing {
            return None;
        }
        self.queued_refresh = false;
        Some(self.generation)
    }

    /// Publishes what a refresh found, unless it is of an older generation.
    pub fn publish(&mut self, generation: u64, snapshot: Option<Json>)
        ensures
            *final(self) == if old(self).generation == generation && old(self).refreshing {
                RefreshState { latest_snapshot: snapshot, ..*old(self) }
            } else {
                *old(self)
            },
    {
        if self.generation == generation && self.refreshing {
            self.latest_snapshot = snapshot;
        }
    }

    /// Ends a refresh. Another is to follow where one was queued, or where the generation is
    /// no longer the one that was refreshed.
    pub fn finish(&mut self, generation: u64, error: Option<String>) -> (r: bool)
        ensures
            r == (old(self).queued_refresh || old(self).generation != generation),
            final(self).generation == old(self).generation,
            final(self).started_at == old(self).started_at,
            final(self).queued_refresh == false,
            final(self).refreshing == (old(self).refreshing && r),
            if old(self).generation == generation && error is Some {
                final(self).error == error && final(self).latest_snapshot is None
            } else {
                final(self).error == old(self).error && final(self).latest_snapshot
                    == old(self).latest_snapshot
            },
    {
        let current = self.generation == generation;
        if current {
            if let Some(error) = error {
                self.latest_snapshot = None;
                self.error = Some(error);
            }
        }
        if self.queued_refresh || !current {
            self.queued_refresh = false;
            true
        } else {
            self.refreshing = false;
            false
        }
    }

    /// Gives up a refresh that could not be started.
    pub fn fail_reserved(&mut self, error: String)
        ensures
            *final(self) == (RefreshState {
                refreshing: false,
                queued_refresh: false,
                error: Some(error),
                latest_snapshot: None,
                ..*old(self)
            }),
    {
        self.latest_snapshot = None;
        self.refreshing = false;
        self.queued_refresh = false;
        self.error = Some(error);
    }

    /// Ends a refresh that runs alone: it is over where nothing came in meanwhile, and is run
    /// again for the newest generation otherwise.
    pub fn finish_once(&mut self, generation: u64, error: Option<String>) -> (r: OnceStep)
        ensures
            if old(self).generation == generation && !old(self).queued_refresh {
                &&& r == OnceStep::Over(error)
                &&& *final(self) == match error {
                    Some(_) => RefreshState {
                        refreshing: false,
                        error,
                        latest_snapshot: None,
                        ..*old(self)
                    },
                    None => RefreshState { refreshing: false, ..*old(self) },
                }
            } else {
                &&& r == OnceStep::Again(old(self).generation)
                &&& *final(self) == (RefreshState { queued_refresh: false, ..*old(self) })
            },
    {
        if self.generation == generation && !self.queued_refresh {
            self.refreshing = false;
            if let Some(error) = &error {
                self.latest_snapshot = None;
                self.error = Some(error.clone());
            }
            OnceStep::Over(error)
        } else {
            self.queued_refresh = false;
            OnceStep::Again(self.generation)
        }
    }

    /// How the refreshing is shown to stand.
    pub fn scheduler_status(&self) -> (r: UsageSchedulerStatus)
        ensures
            r.policy@ == "standalone"@,
            r.mode@ == "standalone"@,
            r.watcher_active,
            !r.pending_reconciliation,
            r.fallback_seconds == 5,
            r.last_refresh_at is None,
            r.last_local_activity_at is None,
            r.refreshing == self.refreshing,
            r.refresh_reason is None,
            text_opt(r.refresh_error) == text_opt(self.error),
            r.refresh_started_at == self.started_at,
            r.refresh_generation == Some(self.generation),
            r.queued_refresh == self.queued_refresh,
    {
        UsageSchedulerStatus {
            policy: "standalone".to_owned(),
            mode: "standalone".to_owned(),
            watcher_active: true,
            pending_reconciliation: false,
            fallback_seconds: 5,
            last_refresh_at: None,
            last_local_activity_at: None,
            refreshing: self.refreshing,
            refresh_reason: None,
            refresh_error: match &self.error {
                Some(error) => Some(error.clone()),
                None => None,
            },
            refresh_started_at: self.started_at,
            refresh_generation: Some(self.generation),
            queued_refresh: self.queued_refresh,
        }
    }
}

/// What follows a refresh that runs alone.
#[derive(Debug)]
pub enum OnceStep {
    /// It is over, with what went wrong.
    Over(Option<String>),
    /// It is to be run again, for this generation.
    Again(u64),
}

/// After the account may have changed, nothing that was found before is shown: not now, and
/// not when a refresh of an older generation publishes what it found or ends.
pub proof fn lemma_stale_snapshot_is_never_shown(
    before: RefreshState,
    invalidated: RefreshState,
    published: RefreshState,
    generation: u64,
    snapshot: Option<Json>,
    now: i64,
)
    requires
        generation <= before.generation < u64::MAX,
        invalidated == (RefreshState {
            generation: next_generation(before.generation),
            refreshing: true,
            queued_refresh: before.refreshing,
            error: None,
            started_at: Some(now),
            latest_snapshot: None,
        }),
        published == if invalidated.generation == generation && invalidated.refreshing {
            RefreshState { latest_snapshot: snapshot, ..invalidated }
        } else {
            invalidated
        },
    ensures
        invalidated.shown() == JsonView::Null,
        published == invalidated,
        published.latest_snapshot is None,
{
}

// ---------------------------------------------------------------------------
// Reading the sources on
// ---------------------------------------------------------------------------

/// The files to read: those that are registered first, and then those that were found beside
/// them.
pub open spec fn paths_in_turn(registered: Seq<String>, found: Seq<String>, n: int) -> Seq<Seq<char>>
    decreases n,
{
    if n <= 0 {
        path_views(registered)
    } else {
        let before = paths_in_turn(registered, found, n - 1);
        if before.contains(found[n - 1]@) {
            before
        } else {
            before.push(found[n - 1]@)
        }
    }
}

pub open spec fn path_views(paths: Seq<String>) -> Seq<Seq<char>> {
    Seq::new(paths.len(), |i: int| paths[i]@)
}

proof fn lemma_listed_is_contained(paths: Seq<String>, path: Seq<char>)
    ensures
        crate::names::lists(paths, path) <==> path_views(paths).contains(path),
{
    let views = path_views(paths);
    if crate::names::lists(paths, path) {
        let k = choose|k: int| 0 <= k < paths.len() && (#[trigger] paths[k])@ == path;
        assert(views[k] == path);
    }
    if views.contains(path) {
        let k = choose|k: int| 0 <= k < views.len() && views[k] == path;
        assert(paths[k]@ == path);
    }
}

/// The files to read: those that are registered first, and then those that were found beside
/// them.
pub fn order_paths(registered: Vec<String>, found: Vec<String>) -> (r: Vec<String>)
    ensures
        path_views(r@) == paths_in_turn(registered@, found@, found@.len() as int),
{
    let ghost first = registered@;
    let ghost given = found@;
    let mut r = registered;
    for path in iter: found
        invariant
            iter.seq() == given,
            path_views(r@) == paths_in_turn(first, given, iter.index()),
    {
        proof {
            lemma_listed_is_contained(r@, path@);
        }
        if !has_name(&r, path.as_str()) {
            let ghost before = path_views(r@);
            let ghost view = path@;
            r.push(path);
            assert(path_views(r@) =~= before.push(view));
        }
    }
    r
}

/// What was read binds a source that still has no account: it was read before, it grew, and
/// an account was verified to be the one in use.
pub open spec fn tail_binds(
    changed: bool,
    before_offset: int,
    after_offset: int,
    size: int,
    allowed: bool,
    status: BindingStatus,
) -> bool {
    &&& changed || after_offset > before_offset
    &&& before_offset > 0
    &&& size > before_offset
    &&& allowed
    &&& status == BindingStatus::Unresolved
}

pub const SERVICE_EVIDENCE: &'static str = "standalone collector live-tail evidence";

/// A source may be bound: it is known who the account is, and recorded that it was in use.
pub open spec fn may_bind(account: Option<Seq<char>>, verified: bool) -> bool {
    account is Some && verified
}

/// What follows once a source was caught up: it is bound where what was read says whose it
/// is.
pub open spec fn then_bound(
    before: Books,
    middle: Books,
    read: Result<CatchUp, CatchUpError>,
    after: Books,
    file: ObservedFile,
    account: Option<Seq<char>>,
    verified: bool,
    now: i64,
    r: Result<CatchUp, CatchUpError>,
) -> bool {
    match read {
        Ok(done) => if tail_binds(
            done.changed,
            before.source.last_offset as int,
            middle.source.last_offset as int,
            file.bytes@.len() as int,
            may_bind(account, verified),
            middle.source.binding_status,
        ) {
            exists|bound: Result<bool, AccountingError>|
                {
                    &&& #[trigger] bound_by_activity(
                        middle,
                        after,
                        account->0,
                        SERVICE_EVIDENCE@,
                        now,
                        bound,
                    )
                    &&& match bound {
                        Ok(_) => r == Ok::<CatchUp, CatchUpError>(
                            CatchUp { newly_bound: true, ..done },
                        ),
                        Err(error) => r == Err::<CatchUp, CatchUpError>(
                            CatchUpError::Accounting(error),
                        ),
                    }
                }
        } else {
            after == middle && r == Ok::<CatchUp, CatchUpError>(done)
        },
        Err(error) => after == middle && r == Err::<CatchUp, CatchUpError>(error),
    }
}

/// What reading a source on in a refresh does: it is caught up, and then bound where what was
/// read says whose it is.
pub open spec fn refreshed(
    before: Books,
    after: Books,
    file: ObservedFile,
    account: Option<Seq<char>>,
    verified: bool,
    now: i64,
    r: Result<CatchUp, CatchUpError>,
) -> bool {
    exists|middle: Books, read: Result<CatchUp, CatchUpError>|
        {
            &&& caught_up(before, middle, file, account, may_bind(account, verified), now, read)
            &&& #[trigger] then_bound(
                before,
                middle,
                read,
                after,
                file,
                account,
                verified,
                now,
                r,
            )
        }
}

/// Reads a source on in a refresh. `account` is who the account was read to be just before,
/// and `verified` whether that is recorded to cover the moment.
pub fn refresh_source(
    source: &mut RolloutSource,
    ledger: &mut TurnLedger,
    audits: &mut Vec<BindingAudit>,
    accounts: &mut Vec<AccountRecord>,
    file: &ObservedFile,
    account: Option<&str>,
    verified: bool,
    now: i64,
) -> (r: Result<CatchUp, CatchUpError>)
    requires
        old(source).cursor_wf(),
        old(ledger)@.wf(),
    ensures
        final(ledger)@.wf(),
        final(source).cursor_wf(),
        refreshed(
            (Books {
                source: *old(source),
                ledger: *old(ledger),
                audits: old(audits)@,
                accounts: old(accounts)@,
            }),
            (Books {
                source: *final(source),
                ledger: *final(ledger),
                audits: final(audits)@,
                accounts: final(accounts)@,
            }),
            *file,
            str_opt(account),
            verified,
            now,
            r,
        ),
{
    let ghost first = Books {
        source: *source,
        ledger: *ledger,
        audits: audits@,
        accounts: accounts@,
    };
    let allowed = account.is_some() && verified;
    let before_offset: u64 = source.last_offset;
    let size: u64 = file.bytes.len() as u64;
    let read = catch_up_path(source, ledger, audits, accounts, file, account, allowed, now);
    let ghost middle = Books {
        source: *source,
        ledger: *ledger,
        audits: audits@,
        accounts: accounts@,
    };
    let ghost who = str_opt(account);
    let ghost found = read;
    assert(caught_up(first, middle, *file, who, may_bind(who, verified), now, found));
    let r = match read {
        Ok(done) => {
            let due = (done.changed || source.last_offset > before_offset) && before_offset > 0
                && size > before_offset && source.binding_status == BindingStatus::Unresolved
                && verified;
            match account {
                Some(key) => if due {
                    let bound = retroactively_bind_source(
                        source,
                        ledger,
                        audits,
                        accounts,
                        key,
                        SERVICE_EVIDENCE,
                        now,
                    );
                    let ghost last = Books {
                        source: *source,
                        ledger: *ledger,
                        audits: audits@,
                        accounts: accounts@,
                    };
                    assert(bound_by_activity(middle, last, who->0, SERVICE_EVIDENCE@, now, bound));
                    match bound {
                        Ok(_) => Ok(
                            CatchUp {
                                changed: done.changed,
                                generation_changed: done.generation_changed,
                                newly_bound: true,
                            },
                        ),
                        Err(error) => Err(CatchUpError::Accounting(error)),
                    }
                } else {
                    Ok(done)
                },
                None => Ok(done),
            }
        },
        Err(error) => Err(error),
    };
    let ghost last = Books {
        source: *source,
        ledger: *ledger,
        audits: audits@,
        accounts: accounts@,
    };
    assert(then_bound(first, middle, found, last, *file, who, verified, now, r));
    r
}

/// Reads one of the sources on in a refresh. Where that binds it, what is derived of the
/// account is brought up to date: the steps of its quota, and its health.
pub fn refresh_registered_source(
    sources: &mut Vec<RolloutSource>,
    place: usize,
    ledger: &mut TurnLedger,
    audits: &mut Vec<BindingAudit>,
    accounts: &mut Vec<AccountRecord>,
    buckets: &mut Vec<BucketIntervals>,
    health: &mut Vec<AccountDataHealth>,
    file: &ObservedFile,
    files: &Vec<Option<FileState>>,
    limits: &Vec<RateLimitRow>,
    gaps: &Vec<Gap>,
    account: Option<&str>,
    verified: bool,
    now: i64,
) -> (r: Result<CatchUp, CatchUpError>)
    requires
        place < old(sources).len() < usize::MAX,
        old(sources)@[place as int].cursor_wf(),
        old(ledger)@.wf(),
        files.len() == old(sources).len(),
    ensures
        final(ledger)@.wf(),
        final(sources)@ == old(sources)@.update(place as int, final(sources)@[place as int]),
        final(sources)@[place as int].cursor_wf(),
        refreshed(
            (Books {
                source: old(sources)@[place as int],
                ledger: *old(ledger),
                audits: old(audits)@,
                accounts: old(accounts)@,
            }),
            (Books {
                source: final(sources)@[place as int],
                ledger: *final(ledger),
                audits: final(audits)@,
                accounts: final(accounts)@,
            }),
            *file,
            str_opt(account),
            verified,
            now,
            r,
        ),
        r is Ok && r->Ok_0.newly_bound && account is Some ==> intervals_renewed(
            old(buckets)@,
            final(buckets)@,
            *final(ledger),
            final(sources)@,
            limits@,
            gaps@,
            str_opt(account)->0,
        ) && health_renewed(
            old(health)@,
            final(health)@,
            *final(ledger),
            final(sources)@,
            files@,
            limits@,
            str_opt(account)->0,
            now,
        ),
        !(r is Ok && r->Ok_0.newly_bound && account is Some) ==> final(buckets)@ == old(buckets)@
            && final(health)@ == old(health)@,
{
    let r = refresh_source(
        &mut sources[place],
        ledger,
        audits,
        accounts,
        file,
        account,
        verified,
        now,
    );
    let bound = match &r {
        Ok(done) => done.newly_bound,
        Err(_) => false,
    };
    match account {
        Some(key) => if bound {
            renew_account(buckets, health, ledger, sources, files, limits, gaps, key, now);
        },
        None => {},
    }
    r
}

// ---------------------------------------------------------------------------
// What follows from a snapshot
// ---------------------------------------------------------------------------

/// What follows from the snapshot that a refresh ended with.
#[derive(Debug)]
pub struct SnapshotOutcome {
    /// It was not known at some point who the account is.
    pub identity_unavailable: bool,
    /// The quota steps are to be found again.
    pub rebuild_intervals: bool,
    /// The accounts' health is to be looked at again.
    pub refresh_health: bool,
    /// The snapshot may be shown.
    pub publish: bool,
    pub error: Option<String>,
}

/// The first part of a snapshot that failed, and why.
pub open spec fn failed_part(snapshot: JsonView) -> Option<Seq<char>> {
    match text_of(field(snapshot, "accountError"@)) {
        Some(error) => Some(error),
        None => match text_of(field(snapshot, "rateLimitsError"@)) {
            Some(error) => Some(error),
            None => text_of(field(snapshot, "usageError"@)),
        },
    }
}

pub const SNAPSHOT_MISSING: &'static str = "Codex snapshot refresh failed or timed out";

/// Each part of the snapshot was read, and someone is signed in.
pub open spec fn complete_signed_in(snapshot: JsonView) -> bool {
    text_of(field(snapshot, "accountState"@)) == Some("signedIn"@) && failed_part(snapshot) is None
}

fn find_failed_part(snapshot: &Json) -> (r: Option<&str>)
    ensures
        str_opt(r) == failed_part(snapshot@),
{
    match as_text(snapshot.get("accountError")) {
        Some(error) => Some(error),
        None => match as_text(snapshot.get("rateLimitsError")) {
            Some(error) => Some(error),
            None => as_text(snapshot.get("usageError")),
        },
    }
}

/// Whether each part of a snapshot was read, and someone is signed in.
pub fn snapshot_is_complete_signed_in(snapshot: &Json) -> (r: bool)
    ensures
        r == complete_signed_in(snapshot@),
{
    match as_text(snapshot.get("accountState")) {
        Some(state) => same_text(state, "signedIn") && find_failed_part(snapshot).is_none(),
        None => false,
    }
}

/// What follows from the snapshot that a refresh ended with. Nothing that is derived of an
/// account advances while it is not known who the account is.
pub fn snapshot_outcome(
    snapshot: Option<&Json>,
    identity_unavailable: bool,
) -> (r: SnapshotOutcome)
    ensures
        match snapshot {
            Some(seen) => {
                &&& r.identity_unavailable == (identity_unavailable || text_of(
                    field(seen@, "accountError"@),
                ) is Some || explicit_key_of(seen@) is None)
                &&& r.rebuild_intervals == (!r.identity_unavailable && complete_signed_in(seen@))
                &&& r.refresh_health == complete_signed_in(seen@)
                &&& r.publish == complete_signed_in(seen@)
                &&& match failed_part(seen@) {
                    Some(error) => r.error is Some && r.error->0@
                        == "Codex snapshot refresh failed: "@ + error,
                    None => r.error is None,
                }
            },
            None => {
                &&& r.identity_unavailable == identity_unavailable
                &&& !r.rebuild_intervals
                &&& !r.refresh_health
                &&& !r.publish
                &&& r.error is Some
                &&& r.error->0@ == SNAPSHOT_MISSING@
            },
        },
{
    match snapshot {
        Some(seen) => {
            let complete = snapshot_is_complete_signed_in(seen);
            let unavailable = identity_unavailable || as_text(seen.get("accountError")).is_some()
                || explicit_snapshot_account_key(seen).is_none();
            let error = match find_failed_part(seen) {
                Some(error) => Some(joined("Codex snapshot refresh failed: ", error)),
                None => None,
            };
            SnapshotOutcome {
                identity_unavailable: unavailable,
                rebuild_intervals: !unavailable && complete,
                refresh_health: complete,
                publish: complete,
                error,
            }
        },
        None => SnapshotOutcome {
            identity_unavailable,
            rebuild_intervals: false,
            refresh_health: false,
            publish: false,
            error: Some(SNAPSHOT_MISSING.to_owned()),
        },
    }
}

// ---------------------------------------------------------------------------
// Arguments
// ---------------------------------------------------------------------------

/// The argument that follows the first `--database`, from the place `from` on.
pub open spec fn argument_after(arguments: Seq<String>, name: Seq<char>, from: int) -> Option<int>
    decreases arguments.len() - from,
{
    if from + 1 >= arguments.len() || from < 0 {
        None
    } else if arguments[from]@ == name {
        Some(from + 1)
    } else {
        argument_after(arguments, name, from + 1)
    }
}

/// The value that follows a name among the arguments.
pub fn named_argument(arguments: &Vec<String>, name: &str) -> (r: Option<String>)
    ensures
        match (r, argument_after(arguments@, name@, 0)) {
            (Some(value), Some(at)) => value@ == arguments@[at]@,
            (None, None) => true,
            _ => false,
        },
{
    let mut i: usize = 0;
    while i < arguments.len() && arguments.len() - i > 1
        invariant
            i <= arguments.len(),
            argument_after(arguments@, name@, 0) == argument_after(arguments@, name@, i as int),
        decreases arguments.len() - i,
    {
        if same_text(arguments[i].as_str(), name) {
            return Some(arguments[i + 1].clone());
        }
        i += 1;
    }
    None
}

/// A new generation is another one, and later, until the numbers end.
pub proof fn lemma_generations_go_up(generation: u64)
    ensures
        generation < u64::MAX ==> next_generation(generation) == generation + 1,
        generation == u64::MAX ==> next_generation(generation) == u64::MAX,
{
}

/// While a refresh is under way nothing is shown; else what was last found is, where there is
/// anything.
pub proof fn lemma_nothing_is_shown_during_a_refresh(state: RefreshState)
    ensures
        state.refreshing ==> state.shown() == JsonView::Null,
        !state.refreshing ==> (state.latest_snapshot matches Some(snapshot) ==> state.shown()
            == snapshot@),
        state.latest_snapshot is None ==> state.shown() == JsonView::Null,
{
}

/// The files to read are those that are registered, in their order, and behind them each that
/// was found beside them, once.
pub proof fn lemma_each_found_path_is_read_once(
    registered: Seq<String>,
    found: Seq<String>,
    n: int,
)
    requires
        0 <= n <= found.len(),
    ensures
        ({
            let paths = paths_in_turn(registered, found, n);
            &&& paths.len() >= registered.len()
            &&& forall|i: int| 0 <= i < registered.len() ==> #[trigger] paths[i] == registered[i]@
            &&& forall|k: int| 0 <= k < n ==> paths.contains((#[trigger] found[k])@)
            &&& forall|i: int|
                registered.len() <= i < paths.len() ==> exists|k: int|
                    0 <= k < n && (#[trigger] found[k])@ == #[trigger] paths[i]
            &&& forall|i: int, j: int|
                registered.len() <= i < paths.len() && 0 <= j < i ==> #[trigger] paths[j]
                    != #[trigger] paths[i]
        }),
    decreases n,
{
    if n > 0 {
        lemma_each_found_path_is_read_once(registered, found, n - 1);
        let before = paths_in_turn(registered, found, n - 1);
        let paths = paths_in_turn(registered, found, n);
        let last = found[n - 1]@;
        assert forall|i: int| 0 <= i < before.len() implies #[trigger] paths[i] == before[i] by {}
        assert forall|i: int| 0 <= i < registered.len() implies #[trigger] paths[i]
            == registered[i]@ by {
            assert(paths[i] == before[i]);
        }
        assert forall|k: int| 0 <= k < n implies paths.contains((#[trigger] found[k])@) by {
            if k < n - 1 {
                let i = choose|i: int| 0 <= i < before.len() && before[i] == found[k]@;
                assert(paths[i] == found[k]@);
            } else if before.contains(last) {
                let i = choose|i: int| 0 <= i < before.len() && before[i] == last;
                assert(paths[i] == last);
            } else {
                assert(paths[before.len() as int] == last);
            }
        }
        assert forall|i: int| registered.len() <= i < paths.len() implies exists|k: int|
            0 <= k < n && (#[trigger] found[k])@ == #[trigger] paths[i] by {
            if i < before.len() {
                assert(paths[i] == before[i]);
                let k = choose|k: int| 0 <= k < n - 1 && (#[trigger] found[k])@ == before[i];
                assert(found[k]@ == paths[i]);
            } else {
                assert(found[n - 1]@ == paths[i]);
            }
        }
        assert forall|i: int, j: int|
            registered.len() <= i < paths.len() && 0 <= j < i implies #[trigger] paths[j]
            != #[trigger] paths[i] by {
            assert(paths[j] == before[j]);
            if i < before.len() {
                assert(paths[i] == before[i]);
            } else {
                assert(before.contains(before[j]));
            }
        }
    }
}

/// What was read binds a source exactly where the source is still without an account and was
/// read before, its file is longer than that, something was read, and a known account is
/// recorded to have been in use.
pub proof fn lemma_service_binds_only_open_live_tails(
    changed: bool,
    before_offset: int,
    after_offset: int,
    size: int,
    account: Option<Seq<char>>,
    verified: bool,
    status: BindingStatus,
)
    ensures
        ({
            let binds = tail_binds(
                changed,
                before_offset,
                after_offset,
                size,
                may_bind(account, verified),
                status,
            );
            &&& binds ==> status == BindingStatus::Unresolved && account is Some && verified
            &&& binds ==> 0 < before_offset < size
            &&& binds ==> changed || after_offset > before_offset
            &&& status == BindingStatus::Unresolved && account is Some && verified && 0
                < before_offset < size && (changed || after_offset > before_offset) ==> binds
        }),
{
}

/// A refresh that does not bind a source leaves it as reading it on did; one that does hands it
/// to the account that was read to be in use, and says so.
pub proof fn lemma_refresh_binds_to_the_account_in_use(
    before: Books,
    middle: Books,
    read: Result<CatchUp, CatchUpError>,
    after: Books,
    file: ObservedFile,
    account: Option<Seq<char>>,
    verified: bool,
    now: i64,
    done: CatchUp,
)
    requires
        then_bound(before, middle, read, after, file, account, verified, now, Ok(done)),
        middle.source.binding_status != BindingStatus::Verified,
    ensures
        after != middle ==> {
            &&& verified
            &&& account is Some
            &&& after.source@.binding_status == BindingStatus::Verified
            &&& after.source@.account_key == account
            &&& done.newly_bound
            &&& after.source@.source_id == middle.source@.source_id
            &&& after.source@.last_offset == middle.source@.last_offset
        },
        account is None || !verified ==> after == middle && read == Ok::<CatchUp, CatchUpError>(
            done,
        ),
{
}

/// The error that a snapshot is said to have is the first of those of its account, its limits
/// and its usage; it has none exactly where none of them has.
pub proof fn lemma_failed_part_is_the_first(snapshot: JsonView)
    ensures
        ({
            let account = text_of(field(snapshot, "accountError"@));
            let limits = text_of(field(snapshot, "rateLimitsError"@));
            let usage = text_of(field(snapshot, "usageError"@));
            &&& account is Some ==> failed_part(snapshot) == account
            &&& account is None && limits is Some ==> failed_part(snapshot) == limits
            &&& account is None && limits is None ==> failed_part(snapshot) == usage
            &&& complete_signed_in(snapshot) <==> account is None && limits is None && usage is None
                && text_of(field(snapshot, "accountState"@)) == Some("signedIn"@)
        }),
{
}

/// The value of an argument follows the first place at which its name stands, of those that
/// something follows.
pub proof fn lemma_argument_follows_its_name(arguments: Seq<String>, name: Seq<char>, from: int)
    requires
        0 <= from,
    ensures
        match argument_after(arguments, name, from) {
            Some(at) => {
                &&& from < at < arguments.len()
                &&& arguments[at - 1]@ == name
                &&& forall|k: int| from <= k < at - 1 ==> (#[trigger] arguments[k])@ != name
            },
            None => forall|k: int|
                from <= k < arguments.len() - 1 ==> (#[trigger] arguments[k])@ != name,
        },
    decreases arguments.len() - from,
{
    if from + 1 < arguments.len() && arguments[from]@ != name {
        lemma_argument_follows_its_name(arguments, name, from + 1);
    }
}

} // verus!
