//! Collector sessions, the gaps between them, and which account was present when.
use crate::arith::{clamp_i64, max_int, min_int, saturating_millis, saturating_sub};
use crate::quota::Gap;
use crate::table::{count_where, lemma_filter_counts, AccountRow};
use crate::text::{
    decimal, decimal_digits, decimal_nat, decimal_text, ends_with, first_line, first_line_of,
    first_word, is_line_feed, is_space, is_suffix, joined, keyed_number, lemma_decimal_digits,
    lemma_run_length, read_keyed_number, same_text, text_opt, trimmed_start,
};
use vstd::prelude::*;

verus! {

// ---------------------------------------------------------------------------
// The lock file
// ---------------------------------------------------------------------------

/// The process that a lock file names.
pub fn parse_lock_pid(contents: &str) -> (r: Option<u32>)
    ensures
        match r {
            Some(pid) => keyed_number(contents@, "pid="@) == Some(pid as nat),
            None => keyed_number(contents@, "pid="@) is None,
        },
{
    read_keyed_number(contents, "pid=")
}

/// The lock file was written by the holder of the token.
pub open spec fn lock_names_token(contents: Seq<char>, token: Seq<char>) -> bool {
    contents.len() > 0 && is_suffix("token="@ + token, first_line(contents))
}

/// Whether a lock file was written by the holder of the token.
pub fn lock_is_owned(contents: &str, token: &str) -> (r: bool)
    ensures
        r == lock_names_token(contents@, token@),
{
    match first_line_of(contents) {
        Some(line) => ends_with(line.as_str(), joined("token=", token).as_str()),
        None => false,
    }
}

/// The token of a holder: the process and what tells it from an earlier one of that number.
pub open spec fn holder_token(pid: nat, suffix: nat) -> Seq<char> {
    decimal_nat(pid) + ":"@ + decimal_nat(suffix)
}

pub fn lock_token(pid: u32, suffix: u128) -> (r: String)
    ensures
        r@ == holder_token(pid as nat, suffix as nat),
{
    let front = joined(decimal_digits(pid as u128).as_str(), ":");
    joined(front.as_str(), decimal_digits(suffix).as_str())
}

/// What the holder of a lock writes.
pub open spec fn lock_text(pid: nat, token: Seq<char>) -> Seq<char> {
    "pid="@ + decimal_nat(pid) + " token="@ + token + "\n"@
}

pub fn lock_entry(pid: u32, token: &str) -> (r: String)
    ensures
        r@ == lock_text(pid as nat, token@),
{
    let line = joined("pid=", decimal_digits(pid as u128).as_str());
    let line = joined(line.as_str(), " token=");
    let line = joined(line.as_str(), token);
    joined(line.as_str(), "\n")
}

/// What the holder of a lock wrote names its process and its token.
pub proof fn lemma_lock_reads_back(pid: u32, suffix: u128)
    ensures
        ({
            let token = holder_token(pid as nat, suffix as nat);
            let contents = lock_text(pid as nat, token);
            &&& keyed_number(contents, "pid="@) == Some(pid as nat)
            &&& lock_names_token(contents, token)
        }),
{
    let digits = decimal_nat(pid as nat);
    let more = decimal_nat(suffix as nat);
    let token = holder_token(pid as nat, suffix as nat);
    let line = "pid="@ + digits + " token="@ + token;
    let contents = lock_text(pid as nat, token);
    reveal_strlit("pid=");
    reveal_strlit(" token=");
    reveal_strlit("token=");
    reveal_strlit(":");
    reveal_strlit("\n");
    lemma_decimal_digits(pid as nat);
    lemma_decimal_digits(suffix as nat);
    let end = line.len() as int;
    assert(contents =~= line.push('\n'));
    assert forall|k: int| 0 <= k < end implies !is_line_feed()(#[trigger] contents[k]) by {
        let d = digits.len() as int;
        if k < 4 {
            assert(contents[k] == "pid="@[k]);
        } else if k < 4 + d {
            assert(contents[k] == digits[k - 4]);
        } else if k < 11 + d {
            assert(contents[k] == " token="@[k - 4 - d]);
        } else if k < 11 + d + d {
            assert(contents[k] == digits[k - 11 - d]);
        } else if k == 11 + d + d {
            assert(contents[k] == ':');
        } else {
            assert(contents[k] == more[k - 12 - d - d]);
        }
    }
    lemma_run_length(contents, is_line_feed(), end);
    assert(contents.subrange(0, end) =~= line);
    // The number.
    assert(line.subrange(0, 4) =~= "pid="@);
    let rest = line.subrange(4, line.len() as int);
    assert(rest =~= digits + " token="@ + token);
    assert(rest.first() == digits[0]);
    assert(trimmed_start(rest) == rest);
    assert forall|k: int| 0 <= k < digits.len() implies !is_space()(#[trigger] rest[k]) by {
        assert(rest[k] == digits[k]);
    }
    assert(rest[digits.len() as int] == " token="@[0]);
    lemma_run_length(rest, is_space(), digits.len() as int);
    assert(first_word(rest) =~= digits);
    assert(digits.first() != '+');
    // The token.
    assert(contents[end - 1] == more[more.len() - 1]);
    let tail = "token="@ + token;
    assert(line.subrange(line.len() - tail.len(), line.len() as int) =~= tail);
}

/// Who may write, if anyone.
#[derive(Debug)]
pub struct WriterSlot {
    pub token: Option<String>,
}

impl WriterSlot {
    pub fn is_active(&self) -> (r: bool)
        ensures
            r == (self.token is Some),
    {
        self.token.is_some()
    }

    pub fn activate(&mut self, token: &str)
        ensures
            text_opt(final(self).token) == Some(token@),
    {
        self.token = Some(token.to_owned());
    }

    /// Only the holder gives the slot up.
    pub fn deactivate(&mut self, token: &str)
        ensures
            text_opt(old(self).token) == Some(token@) ==> final(self).token is None,
            text_opt(old(self).token) != Some(token@) ==> *final(self) == *old(self),
    {
        let held = match &self.token {
            Some(current) => same_text(current.as_str(), token),
            None => false,
        };
        if held {
            self.token = None;
        }
    }
}

// ---------------------------------------------------------------------------
// Sessions and gaps
// ---------------------------------------------------------------------------

#[derive(Clone, Copy, Debug, PartialEq, Eq, Structural)]
pub enum SessionStatus {
    Running,
    Stopped,
    Recovered,
}

/// Why the collector did not run.
#[derive(Clone, Copy, Debug, PartialEq, Eq, Structural)]
pub enum GapReason {
    OsSleep,
    Crash,
    Unknown,
}

impl GapReason {
    pub open spec fn name(self) -> Seq<char> {
        match self {
            GapReason::OsSleep => "os_sleep"@,
            GapReason::Crash => "crash"@,
            GapReason::Unknown => "unknown"@,
        }
    }

    pub fn as_str(self) -> (r: &'static str)
        ensures
            r@ == self.name(),
    {
        match self {
            GapReason::OsSleep => "os_sleep",
            GapReason::Crash => "crash",
            GapReason::Unknown => "unknown",
        }
    }
}

#[derive(Debug)]
pub struct CollectorSession {
    pub session_id: String,
    pub instance_id: String,
    pub pid: i64,
    pub started_at: i64,
    pub last_heartbeat_at: i64,
    pub stopped_at: Option<i64>,
    pub status: SessionStatus,
    pub recovery_reason: Option<GapReason>,
}

#[derive(Debug)]
pub struct CollectorGap {
    pub session_id: Option<String>,
    pub start_at: i64,
    pub end_at: i64,
    pub duration_ms: i64,
    pub reason: GapReason,
    pub created_at: i64,
}

/// The collector that is registered as the current one.
#[derive(Debug)]
pub struct CollectorState {
    pub instance_id: String,
    pub pid: i64,
    pub started_at: i64,
    pub heartbeat_at: i64,
    pub running: bool,
}

/// A gap up to `end_at`. It begins no later than it ends.
pub open spec fn gap_up_to(
    session_id: Option<String>,
    start_at: i64,
    end_at: i64,
    reason: GapReason,
    created_at: i64,
) -> CollectorGap {
    let start = min_int(start_at as int, end_at as int);
    CollectorGap {
        session_id,
        start_at: start as i64,
        end_at,
        duration_ms: clamp_i64(clamp_i64(end_at - start) * 1000) as i64,
        reason,
        created_at,
    }
}

pub fn record_gap(
    gaps: &mut Vec<CollectorGap>,
    session_id: Option<String>,
    start_at: i64,
    end_at: i64,
    reason: GapReason,
    created_at: i64,
)
    ensures
        final(gaps)@ == old(gaps)@.push(gap_up_to(session_id, start_at, end_at, reason, created_at)),
        final(gaps)@.last().start_at <= final(gaps)@.last().end_at,
        final(gaps)@.last().duration_ms >= 0,
{
    let start: i64 = start_at.min(end_at);
    let duration_ms: i64 = saturating_millis(saturating_sub(end_at, start));
    gaps.push(CollectorGap { session_id, start_at: start, end_at, duration_ms, reason, created_at });
}

/// Why an open session ended, as far as its heartbeat tells: after more than five minutes
/// the machine was asleep, otherwise the collector crashed.
pub open spec fn recovery_reason(session: CollectorSession, now: i64) -> GapReason {
    if clamp_i64(now - session.last_heartbeat_at) > 300 {
        GapReason::OsSleep
    } else {
        GapReason::Crash
    }
}

/// The gap that an open session leaves: from its last heartbeat on; from its start, for
/// an unknown reason, where the heartbeat lies ahead; none where that does too.
pub open spec fn recovery_gap(session: CollectorSession, now: i64) -> Option<CollectorGap> {
    if now > session.last_heartbeat_at {
        Some(
            gap_up_to(
                Some(session.session_id),
                session.last_heartbeat_at,
                now,
                recovery_reason(session, now),
                now,
            ),
        )
    } else if now > session.started_at {
        Some(
            gap_up_to(
                Some(session.session_id),
                session.started_at,
                now,
                GapReason::Unknown,
                now,
            ),
        )
    } else {
        None
    }
}

pub open spec fn recovered(session: CollectorSession, now: i64) -> CollectorSession {
    if session.stopped_at is None {
        CollectorSession {
            stopped_at: Some(now),
            status: SessionStatus::Recovered,
            recovery_reason: Some(recovery_reason(session, now)),
            ..session
        }
    } else {
        session
    }
}

pub open spec fn recovered_all(sessions: Seq<CollectorSession>, now: i64) -> Seq<CollectorSession> {
    Seq::new(sessions.len(), |i: int| recovered(sessions[i], now))
}

/// The gaps with those that the open sessions leave.
pub open spec fn gaps_after_recovery(
    gaps: Seq<CollectorGap>,
    sessions: Seq<CollectorSession>,
    now: i64,
) -> Seq<CollectorGap>
    decreases sessions.len(),
{
    if sessions.len() == 0 {
        gaps
    } else {
        let before = gaps_after_recovery(gaps, sessions.drop_last(), now);
        if sessions.last().stopped_at is None {
            match recovery_gap(sessions.last(), now) {
                Some(gap) => before.push(gap),
                None => before,
            }
        } else {
            before
        }
    }
}

pub open spec fn open_sessions(sessions: Seq<CollectorSession>) -> nat {
    sessions.filter(|session: CollectorSession| session.stopped_at is None).len()
}

/// Closes the sessions that were left open, and records the gaps that they leave. The
/// result is how many there were.
pub fn recover_open_sessions(
    sessions: &mut Vec<CollectorSession>,
    gaps: &mut Vec<CollectorGap>,
    now: i64,
) -> (r: usize)
    ensures
        final(sessions)@ == recovered_all(old(sessions)@, now),
        final(gaps)@ == gaps_after_recovery(old(gaps)@, old(sessions)@, now),
        r == open_sessions(old(sessions)@),
{
    let ghost before = sessions@;
    let ghost is_open = |session: CollectorSession| session.stopped_at is None;
    let mut count: usize = 0;
    let mut i: usize = 0;
    proof {
        reveal(Seq::filter);
    }
    while i < sessions.len()
        invariant
            i <= sessions.len(),
            before == old(sessions)@,
            sessions@.len() == before.len(),
            is_open == (|session: CollectorSession| session.stopped_at is None),
            forall|k: int| 0 <= k < i ==> #[trigger] sessions@[k] == recovered(before[k], now),
            forall|k: int| i <= k < before.len() ==> #[trigger] sessions@[k] == before[k],
            gaps@ == gaps_after_recovery(old(gaps)@, before.take(i as int), now),
            count <= i,
            count == before.take(i as int).filter(is_open).len(),
        decreases sessions.len() - i,
    {
        proof {
            assert(before.take(i + 1).drop_last() =~= before.take(i as int));
            assert(before.take(i + 1).last() == before[i as int]);
            reveal(Seq::filter);
        }
        if sessions[i].stopped_at.is_none() {
            let heartbeat: i64 = sessions[i].last_heartbeat_at;
            let started: i64 = sessions[i].started_at;
            let reason = if saturating_sub(now, heartbeat) > 5 * 60 {
                GapReason::OsSleep
            } else {
                GapReason::Crash
            };
            let session_id = sessions[i].session_id.clone();
            if now > heartbeat {
                record_gap(gaps, Some(session_id), heartbeat, now, reason, now);
            } else if now > started {
                record_gap(gaps, Some(session_id), started, now, GapReason::Unknown, now);
            }
            let row = CollectorSession {
                session_id: sessions[i].session_id.clone(),
                instance_id: sessions[i].instance_id.clone(),
                pid: sessions[i].pid,
                started_at: started,
                last_heartbeat_at: heartbeat,
                stopped_at: Some(now),
                status: SessionStatus::Recovered,
                recovery_reason: Some(reason),
            };
            sessions.set(i, row);
            count += 1;
        }
        i += 1;
    }
    assert(before.take(before.len() as int) =~= before);
    assert(sessions@ =~= recovered_all(before, now));
    count
}

/// After a recovery no session is open, and a second one changes nothing.
pub proof fn lemma_recovery_is_final(sessions: Seq<CollectorSession>, now: i64, later: i64)
    ensures
        recovered_all(recovered_all(sessions, now), later) == recovered_all(sessions, now),
        forall|i: int|
            0 <= i < sessions.len() ==> (#[trigger] recovered_all(sessions, now)[i]).stopped_at
                is Some,
{
    assert(recovered_all(recovered_all(sessions, now), later) =~= recovered_all(sessions, now));
}

/// The gap that a recovery records begins no later than it ends.
pub proof fn lemma_recovery_gap_is_forward(session: CollectorSession, now: i64)
    ensures
        recovery_gap(session, now) matches Some(gap) ==> gap.start_at <= gap.end_at
            && gap.duration_ms >= 0 && gap.end_at == now,
{
}

/// The session is the named one of the named collector.
pub open spec fn session_is(
    session: CollectorSession,
    session_id: Seq<char>,
    instance_id: Seq<char>,
) -> bool {
    session.session_id@ == session_id && session.instance_id@ == instance_id
}

pub open spec fn touched(
    session: CollectorSession,
    session_id: Seq<char>,
    instance_id: Seq<char>,
    now: i64,
) -> CollectorSession {
    if session_is(session, session_id, instance_id) && session.stopped_at is None {
        CollectorSession { last_heartbeat_at: now, ..session }
    } else {
        session
    }
}

pub open spec fn stopped(
    session: CollectorSession,
    session_id: Seq<char>,
    instance_id: Seq<char>,
    now: i64,
) -> CollectorSession {
    if session_is(session, session_id, instance_id) {
        CollectorSession {
            last_heartbeat_at: now,
            stopped_at: Some(now),
            status: SessionStatus::Stopped,
            ..session
        }
    } else {
        session
    }
}

/// The registered collector after a sign of life of the named one.
pub open spec fn state_after(
    state: CollectorState,
    instance_id: Seq<char>,
    now: i64,
    running: bool,
) -> CollectorState {
    if state.instance_id@ == instance_id {
        CollectorState { heartbeat_at: now, running, ..state }
    } else {
        state
    }
}

fn mark_state(state: &mut CollectorState, instance_id: &str, now: i64, running: bool)
    ensures
        *final(state) == state_after(*old(state), instance_id@, now, running),
{
    if same_text(state.instance_id.as_str(), instance_id) {
        state.heartbeat_at = now;
        state.running = running;
    }
}

/// Records a sign of life of a session that is open.
pub fn touch_session(
    session: &mut CollectorSession,
    state: &mut CollectorState,
    session_id: &str,
    now: i64,
    instance_id: &str,
)
    ensures
        *final(session) == touched(*old(session), session_id@, instance_id@, now),
        *final(state) == state_after(*old(state), instance_id@, now, true),
{
    if session.stopped_at.is_none() && same_text(session.session_id.as_str(), session_id)
        && same_text(session.instance_id.as_str(), instance_id) {
        session.last_heartbeat_at = now;
    }
    mark_state(state, instance_id, now, true);
}

/// Records the orderly end of a session.
pub fn stop_session(
    session: &mut CollectorSession,
    state: &mut CollectorState,
    session_id: &str,
    now: i64,
    instance_id: &str,
)
    ensures
        *final(session) == stopped(*old(session), session_id@, instance_id@, now),
        *final(state) == state_after(*old(state), instance_id@, now, false),
{
    if same_text(session.session_id.as_str(), session_id) && same_text(
        session.instance_id.as_str(),
        instance_id,
    ) {
        session.last_heartbeat_at = now;
        session.stopped_at = Some(now);
        session.status = SessionStatus::Stopped;
    }
    mark_state(state, instance_id, now, false);
}

/// A session that was stopped in an orderly way leaves no gap to recover.
pub proof fn lemma_stopped_session_is_not_recovered(
    session: CollectorSession,
    session_id: Seq<char>,
    instance_id: Seq<char>,
    now: i64,
    later: i64,
)
    requires
        session_is(session, session_id, instance_id),
    ensures
        recovered(stopped(session, session_id, instance_id, now), later) == stopped(
            session,
            session_id,
            instance_id,
            now,
        ),
{
}

// ---------------------------------------------------------------------------
// Presence of accounts
// ---------------------------------------------------------------------------

/// A stretch of time in which an account was signed in.
#[derive(Debug)]
pub struct PresenceInterval {
    pub account_key: String,
    pub email: Option<String>,
    pub started_at: i64,
    pub ended_at: Option<i64>,
    pub source: String,
    pub confidence: String,
    pub instance_id: Option<String>,
}

pub struct PresenceView {
    pub account_key: Seq<char>,
    pub email: Option<Seq<char>>,
    pub started_at: int,
    pub ended_at: Option<i64>,
    pub source: Seq<char>,
    pub confidence: Seq<char>,
    pub instance_id: Option<Seq<char>>,
}

impl View for PresenceInterval {
    type V = PresenceView;

    open spec fn view(&self) -> PresenceView {
        PresenceView {
            account_key: self.account_key@,
            email: text_opt(self.email),
            started_at: self.started_at as int,
            ended_at: self.ended_at,
            source: self.source@,
            confidence: self.confidence@,
            instance_id: text_opt(self.instance_id),
        }
    }
}

pub open spec fn presence_views(intervals: Seq<PresenceInterval>) -> Seq<PresenceView> {
    Seq::new(intervals.len(), |i: int| intervals[i]@)
}

/// The open interval that began last.
pub open spec fn current_presence(intervals: Seq<PresenceView>) -> Option<int>
    decreases intervals.len(),
{
    if intervals.len() == 0 {
        None
    } else {
        let before = current_presence(intervals.drop_last());
        let last = intervals.len() - 1;
        if intervals[last].ended_at is Some {
            before
        } else {
            match before {
                Some(at) => if intervals[at].started_at >= intervals[last].started_at {
                    Some(at)
                } else {
                    Some(last)
                },
                None => Some(last),
            }
        }
    }
}

/// The timeline after an account was seen. An observation that lies no later than the
/// beginning of the current interval is ignored: what came late rewrites nothing.
pub open spec fn presence_after(
    intervals: Seq<PresenceView>,
    seen: PresenceView,
) -> Seq<PresenceView> {
    match current_presence(intervals) {
        Some(at) => {
            let current = intervals[at];
            if seen.started_at <= current.started_at {
                intervals
            } else if current.account_key == seen.account_key {
                intervals.update(
                    at,
                    PresenceView { source: seen.source, confidence: seen.confidence, ..current },
                )
            } else {
                intervals.update(
                    at,
                    PresenceView {
                        ended_at: Some(max_int(seen.started_at, 0) as i64),
                        ..current
                    },
                ).push(seen)
            }
        },
        None => intervals.push(seen),
    }
}

pub proof fn lemma_current_presence(intervals: Seq<PresenceView>)
    ensures
        current_presence(intervals) matches Some(at) ==> 0 <= at < intervals.len()
            && intervals[at].ended_at is None,
    decreases intervals.len(),
{
    if intervals.len() > 0 {
        lemma_current_presence(intervals.drop_last());
    }
}

fn find_current(intervals: &Vec<PresenceInterval>) -> (r: Option<usize>)
    ensures
        match r {
            Some(at) => at < intervals.len() && current_presence(presence_views(intervals@))
                == Some(at as int),
            None => current_presence(presence_views(intervals@)) is None,
        },
{
    let ghost all = presence_views(intervals@);
    let mut best: Option<usize> = None;
    let mut i: usize = 0;
    while i < intervals.len()
        invariant
            i <= intervals.len(),
            all == presence_views(intervals@),
            match best {
                Some(at) => at < i && current_presence(all.take(i as int)) == Some(at as int),
                None => current_presence(all.take(i as int)) is None,
            },
        decreases intervals.len() - i,
    {
        proof {
            assert(all.take(i + 1).drop_last() =~= all.take(i as int));
        }
        if intervals[i].ended_at.is_none() {
            best = match best {
                Some(at) => if intervals[at].started_at >= intervals[i].started_at {
                    Some(at)
                } else {
                    Some(i)
                },
                None => Some(i),
            };
        }
        i += 1;
    }
    assert(all.take(all.len() as int) =~= all);
    best
}

fn same_interval(interval: &PresenceInterval) -> (r: PresenceInterval)
    ensures
        r == *interval,
{
    PresenceInterval {
        account_key: interval.account_key.clone(),
        email: match &interval.email {
            Some(email) => Some(email.clone()),
            None => None,
        },
        started_at: interval.started_at,
        ended_at: interval.ended_at,
        source: interval.source.clone(),
        confidence: interval.confidence.clone(),
        instance_id: match &interval.instance_id {
            Some(id) => Some(id.clone()),
            None => None,
        },
    }
}

/// Records that an account was seen. The open interval of another account ends there.
pub fn record_account_presence(intervals: &mut Vec<PresenceInterval>, seen: PresenceInterval)
    requires
        seen.ended_at is None,
    ensures
        presence_views(final(intervals)@) == presence_after(presence_views(old(intervals)@), seen@),
{
    let ghost before = presence_views(intervals@);
    match find_current(intervals) {
        Some(at) => {
            if seen.started_at <= intervals[at].started_at {
                return;
            }
            let mut current = same_interval(&intervals[at]);
            if same_text(current.account_key.as_str(), seen.account_key.as_str()) {
                current.source = seen.source;
                current.confidence = seen.confidence;
                let ghost view = current@;
                intervals.set(at, current);
                assert(presence_views(intervals@) =~= before.update(at as int, view));
            } else {
                current.ended_at = Some(seen.started_at.max(0));
                let ghost view = current@;
                let ghost next = seen@;
                intervals.set(at, current);
                intervals.push(seen);
                assert(presence_views(intervals@) =~= before.update(at as int, view).push(next));
            }
        },
        None => {
            let ghost next = seen@;
            intervals.push(seen);
            assert(presence_views(intervals@) =~= before.push(next));
        },
    }
}

/// The interval is the account's, began by then, and has not ended by then.
pub open spec fn covers(interval: PresenceView, account_key: Seq<char>, at: int) -> bool {
    &&& interval.account_key == account_key
    &&& interval.started_at <= at
    &&& interval.ended_at matches Some(end) ==> at < end
}

/// It is recorded that the account was signed in at that time.
pub open spec fn is_covered(
    intervals: Seq<PresenceView>,
    account_key: Seq<char>,
    at: int,
) -> bool {
    exists|i: int| 0 <= i < intervals.len() && covers(#[trigger] intervals[i], account_key, at)
}

/// Whether it is recorded that the account was signed in at that time.
pub fn account_presence_covers(
    intervals: &Vec<PresenceInterval>,
    account_key: &str,
    at: i64,
) -> (r: bool)
    ensures
        r == is_covered(presence_views(intervals@), account_key@, at as int),
{
    let ghost all = presence_views(intervals@);
    let mut i: usize = 0;
    while i < intervals.len()
        invariant
            i <= intervals.len(),
            all == presence_views(intervals@),
            forall|k: int| 0 <= k < i ==> !covers(#[trigger] all[k], account_key@, at as int),
        decreases intervals.len() - i,
    {
        let interval = &intervals[i];
        let open = match interval.ended_at {
            Some(end) => at < end,
            None => true,
        };
        assert(all[i as int] == interval@);
        if open && interval.started_at <= at && same_text(
            interval.account_key.as_str(),
            account_key,
        ) {
            assert(covers(all[i as int], account_key@, at as int));
            return true;
        }
        i += 1;
    }
    false
}

/// An account that is recorded as signed in, after the current interval began, is covered at
/// that time.
pub proof fn lemma_recorded_presence_covers(intervals: Seq<PresenceView>, seen: PresenceView)
    requires
        seen.ended_at is None,
        current_presence(intervals) matches Some(at) ==> intervals[at].started_at
            < seen.started_at,
    ensures
        is_covered(presence_after(intervals, seen), seen.account_key, seen.started_at),
{
    lemma_current_presence(intervals);
    let after = presence_after(intervals, seen);
    let place = match current_presence(intervals) {
        Some(at) => if intervals[at].account_key == seen.account_key {
            at
        } else {
            intervals.len() as int
        },
        None => intervals.len() as int,
    };
    assert(covers(after[place], seen.account_key, seen.started_at));
}

/// The intervals follow one another: only the last can be open, and each ends where the
/// next begins.
pub open spec fn is_timeline(intervals: Seq<PresenceView>) -> bool {
    &&& forall|i: int|
        0 <= i < intervals.len() - 1 ==> #[trigger] intervals[i].ended_at == Some(
            intervals[i + 1].started_at as i64,
        ) && intervals[i].started_at < intervals[i + 1].started_at
    &&& forall|i: int| 0 <= i < intervals.len() ==> 0 <= (#[trigger] intervals[i]).started_at
        <= i64::MAX
    &&& intervals.len() > 0 ==> intervals.last().ended_at is None
}

proof fn lemma_closed_intervals_have_no_current(intervals: Seq<PresenceView>)
    requires
        forall|i: int| 0 <= i < intervals.len() ==> (#[trigger] intervals[i]).ended_at is Some,
    ensures
        current_presence(intervals) is None,
    decreases intervals.len(),
{
    if intervals.len() > 0 {
        let front = intervals.drop_last();
        assert forall|i: int| 0 <= i < front.len() implies (#[trigger] front[i]).ended_at
            is Some by {
            assert(front[i] == intervals[i]);
        }
        lemma_closed_intervals_have_no_current(front);
        assert(intervals[intervals.len() - 1].ended_at is Some);
    }
}

/// Observations keep the timeline one: whatever is seen, and however late, the intervals
/// follow one another without overlap.
pub proof fn lemma_presence_stays_a_timeline(intervals: Seq<PresenceView>, seen: PresenceView)
    requires
        is_timeline(intervals),
        seen.ended_at is None,
        0 <= seen.started_at <= i64::MAX,
    ensures
        is_timeline(presence_after(intervals, seen)),
{
    let after = presence_after(intervals, seen);
    if intervals.len() == 0 {
        assert(current_presence(intervals) is None);
        assert(after =~= seq![seen]);
    } else {
        let last = intervals.len() - 1;
        let front = intervals.drop_last();
        assert forall|i: int| 0 <= i < front.len() implies (#[trigger] front[i]).ended_at
            is Some by {
            assert(intervals[i].ended_at is Some);
        }
        lemma_closed_intervals_have_no_current(front);
        assert(current_presence(intervals) == Some(last as int));
        assert forall|i: int| 0 <= i < after.len() - 1 implies #[trigger] after[i].ended_at == Some(
            after[i + 1].started_at as i64,
        ) && after[i].started_at < after[i + 1].started_at by {
            if i < last {
                assert(intervals[i].ended_at == Some(intervals[i + 1].started_at as i64));
                assert(after[i] == intervals[i]);
            }
        }
        assert forall|i: int| 0 <= i < after.len() implies 0 <= (#[trigger] after[i]).started_at
            <= i64::MAX by {
            if i <= last {
                assert(0 <= intervals[i].started_at <= i64::MAX);
            }
        }
    }
}

/// What came before an observation is not rewritten by it: intervals that had ended stay
/// as they were.
pub proof fn lemma_ended_presence_is_kept(
    intervals: Seq<PresenceView>,
    seen: PresenceView,
    i: int,
)
    requires
        0 <= i < intervals.len(),
        intervals[i].ended_at is Some,
    ensures
        i < presence_after(intervals, seen).len(),
        presence_after(intervals, seen)[i] == intervals[i],
{
    lemma_current_presence(intervals);
}

/// The id of a session: the process and what tells it from an earlier one of that number.
pub open spec fn session_name(pid: nat, suffix: nat) -> Seq<char> {
    "session:"@ + holder_token(pid, suffix)
}

/// The id of a collector: the process and when it started.
pub open spec fn instance_name(pid: nat, now: int) -> Seq<char> {
    "instance:"@ + decimal_nat(pid) + ":"@ + decimal(now)
}

/// Starts a session behind those that were left open, which are closed first.
pub fn start_session(
    sessions: &mut Vec<CollectorSession>,
    gaps: &mut Vec<CollectorGap>,
    pid: u32,
    suffix: u128,
    now: i64,
)
    ensures
        final(gaps)@ == gaps_after_recovery(old(gaps)@, old(sessions)@, now),
        final(sessions)@.len() == old(sessions)@.len() + 1,
        final(sessions)@.drop_last() == recovered_all(old(sessions)@, now),
        ({
            let started = final(sessions)@.last();
            &&& started.session_id@ == session_name(pid as nat, suffix as nat)
            &&& started.instance_id@ == instance_name(pid as nat, now as int)
            &&& started.pid == pid
            &&& started.started_at == now
            &&& started.last_heartbeat_at == now
            &&& started.stopped_at is None
            &&& started.status == SessionStatus::Running
            &&& started.recovery_reason is None
        }),
{
    let _open: usize = recover_open_sessions(sessions, gaps, now);
    let ghost closed = sessions@;
    let instance = joined("instance:", decimal_digits(pid as u128).as_str());
    let instance = joined(instance.as_str(), ":");
    sessions.push(
        CollectorSession {
            session_id: joined("session:", lock_token(pid, suffix).as_str()),
            instance_id: joined(instance.as_str(), decimal_text(now).as_str()),
            pid: pid as i64,
            started_at: now,
            last_heartbeat_at: now,
            stopped_at: None,
            status: SessionStatus::Running,
            recovery_reason: None,
        },
    );
    assert(sessions@.drop_last() =~= closed);
}

pub open spec fn gap_span(gap: CollectorGap) -> Gap {
    Gap { start_at: gap.start_at, end_at: gap.end_at }
}

/// When nothing was watched.
pub fn gap_spans(gaps: &Vec<CollectorGap>) -> (r: Vec<Gap>)
    ensures
        r@ == Seq::new(gaps@.len(), |i: int| gap_span(gaps@[i])),
{
    let ghost spans = Seq::new(gaps@.len(), |i: int| gap_span(gaps@[i]));
    let mut r: Vec<Gap> = Vec::new();
    let mut i: usize = 0;
    while i < gaps.len()
        invariant
            i <= gaps.len(),
            spans == Seq::new(gaps@.len(), |k: int| gap_span(gaps@[k])),
            r@ == spans.take(i as int),
        decreases gaps.len() - i,
    {
        r.push(Gap { start_at: gaps[i].start_at, end_at: gaps[i].end_at });
        assert(spans.take(i + 1) =~= spans.take(i as int).push(gap_span(gaps@[i as int])));
        i += 1;
    }
    assert(spans.take(spans.len() as int) =~= spans);
    r
}

impl AccountRow for PresenceInterval {
    open spec fn account(&self) -> Seq<char> {
        self.account_key@
    }

    fn account_is(&self, key: &str) -> (r: bool) {
        same_text(self.account_key.as_str(), key)
    }
}

impl SessionStatus {
    pub open spec fn name(self) -> Seq<char> {
        match self {
            SessionStatus::Running => "running"@,
            SessionStatus::Stopped => "stopped"@,
            SessionStatus::Recovered => "recovered"@,
        }
    }

    /// What a stored name stands for.
    pub open spec fn named(name: Seq<char>) -> SessionStatus {
        if name == "running"@ {
            SessionStatus::Running
        } else if name == "recovered"@ {
            SessionStatus::Recovered
        } else {
            SessionStatus::Stopped
        }
    }

    pub fn as_str(self) -> (r: &'static str)
        ensures
            r@ == self.name(),
    {
        match self {
            SessionStatus::Running => "running",
            SessionStatus::Stopped => "stopped",
            SessionStatus::Recovered => "recovered",
        }
    }

    pub fn parse(name: &str) -> (r: SessionStatus)
        ensures
            r == SessionStatus::named(name@),
    {
        if same_text(name, "running") {
            SessionStatus::Running
        } else if same_text(name, "recovered") {
            SessionStatus::Recovered
        } else {
            SessionStatus::Stopped
        }
    }
}

/// A status that is stored is read back.
pub proof fn lemma_session_status_round_trip(value: SessionStatus)
    ensures
        SessionStatus::named(value.name()) == value,
{
    reveal_strlit("running");
    reveal_strlit("stopped");
    reveal_strlit("recovered");
    assert("running"@.len() == 7);
    assert("stopped"@.len() == 7);
    assert("recovered"@.len() == 9);
    assert("running"@[0] != "stopped"@[0]);
}

impl GapReason {
    /// What a stored name stands for.
    pub open spec fn named(name: Seq<char>) -> GapReason {
        if name == "os_sleep"@ {
            GapReason::OsSleep
        } else if name == "crash"@ {
            GapReason::Crash
        } else {
            GapReason::Unknown
        }
    }

    pub fn parse(name: &str) -> (r: GapReason)
        ensures
            r == GapReason::named(name@),
    {
        if same_text(name, "os_sleep") {
            GapReason::OsSleep
        } else if same_text(name, "crash") {
            GapReason::Crash
        } else {
            GapReason::Unknown
        }
    }
}

/// A reason that is stored is read back.
pub proof fn lemma_gap_reason_round_trip(value: GapReason)
    ensures
        GapReason::named(value.name()) == value,
{
    reveal_strlit("os_sleep");
    reveal_strlit("crash");
    reveal_strlit("unknown");
    assert("os_sleep"@.len() == 8);
    assert("crash"@.len() == 5);
    assert("unknown"@.len() == 7);
}

/// A gap begins where it is said to, or where it ends if that lies ahead, and lasts as many
/// milliseconds as lie between.
pub proof fn lemma_gap_lasts_what_lies_between(
    session_id: Option<String>,
    start_at: i64,
    end_at: i64,
    reason: GapReason,
    created_at: i64,
)
    ensures
        ({
            let gap = gap_up_to(session_id, start_at, end_at, reason, created_at);
            &&& gap.session_id == session_id
            &&& gap.end_at == end_at
            &&& gap.reason == reason
            &&& gap.created_at == created_at
            &&& start_at <= end_at ==> gap.start_at == start_at
            &&& start_at > end_at ==> gap.start_at == end_at && gap.duration_ms == 0
            &&& start_at <= end_at && (end_at - start_at) * 1000 <= i64::MAX ==> gap.duration_ms
                == (end_at - start_at) * 1000
            &&& start_at <= end_at && (end_at - start_at) * 1000 > i64::MAX ==> gap.duration_ms
                == i64::MAX
        }),
{
}

/// A session that was left open leaves a gap from its last sign of life on. More than five
/// minutes of silence are taken for sleep, less for a crash. Where the sign of life lies
/// ahead, the gap begins with the session, and nothing is said of why.
pub proof fn lemma_silence_is_a_gap(session: CollectorSession, now: i64)
    requires
        now - session.last_heartbeat_at <= i64::MAX,
    ensures
        now > session.last_heartbeat_at ==> (recovery_gap(session, now) matches Some(gap) && {
            &&& gap.session_id == Some(session.session_id)
            &&& gap.start_at == session.last_heartbeat_at
            &&& gap.end_at == now
            &&& gap.reason == if now - session.last_heartbeat_at > 300 {
                GapReason::OsSleep
            } else {
                GapReason::Crash
            }
        }),
        now <= session.last_heartbeat_at && now > session.started_at ==> (recovery_gap(
            session,
            now,
        ) matches Some(gap) && gap.start_at == session.started_at && gap.end_at == now
            && gap.reason == GapReason::Unknown && gap.session_id == Some(session.session_id)),
        now <= session.last_heartbeat_at && now <= session.started_at ==> recovery_gap(
            session,
            now,
        ) is None,
{
}

/// A recovery closes the open sessions at that time and leaves the others as they are.
pub proof fn lemma_recovery_closes_open_sessions(session: CollectorSession, now: i64)
    ensures
        ({
            let is = recovered(session, now);
            &&& session.stopped_at is Some ==> is == session
            &&& session.stopped_at is None ==> {
                &&& is.stopped_at == Some(now)
                &&& is.status == SessionStatus::Recovered
                &&& is.recovery_reason is Some
                &&& is.session_id == session.session_id
                &&& is.instance_id == session.instance_id
                &&& is.pid == session.pid
                &&& is.started_at == session.started_at
                &&& is.last_heartbeat_at == session.last_heartbeat_at
            }
        }),
{
}

/// A recovery keeps the gaps on record and adds one of each open session that leaves one, and
/// of no session that was closed.
pub proof fn lemma_every_open_session_leaves_its_gap(
    gaps: Seq<CollectorGap>,
    sessions: Seq<CollectorSession>,
    now: i64,
)
    ensures
        ({
            let after = gaps_after_recovery(gaps, sessions, now);
            &&& after.len() == gaps.len() + count_where(
                sessions,
                |session: CollectorSession|
                    session.stopped_at is None && (now > session.last_heartbeat_at || now
                        > session.started_at),
            )
            &&& forall|i: int| 0 <= i < gaps.len() ==> #[trigger] after[i] == gaps[i]
            &&& forall|i: int|
                0 <= i < sessions.len() && (#[trigger] sessions[i]).stopped_at is None && now
                    > sessions[i].last_heartbeat_at ==> exists|k: int|
                    {
                        &&& gaps.len() <= k < after.len()
                        &&& (#[trigger] after[k]).session_id == Some(sessions[i].session_id)
                        &&& after[k].start_at == sessions[i].last_heartbeat_at
                        &&& after[k].end_at == now
                    }
        }),
    decreases sessions.len(),
{
    if sessions.len() > 0 {
        let front = sessions.drop_last();
        lemma_every_open_session_leaves_its_gap(gaps, front, now);
        let before = gaps_after_recovery(gaps, front, now);
        let after = gaps_after_recovery(gaps, sessions, now);
        assert forall|k: int| 0 <= k < before.len() implies #[trigger] after[k] == before[k] by {}
        assert forall|i: int|
            0 <= i < sessions.len() && (#[trigger] sessions[i]).stopped_at is None && now
                > sessions[i].last_heartbeat_at implies exists|k: int|
            {
                &&& gaps.len() <= k < after.len()
                &&& (#[trigger] after[k]).session_id == Some(sessions[i].session_id)
                &&& after[k].start_at == sessions[i].last_heartbeat_at
                &&& after[k].end_at == now
            } by {
            if i < front.len() {
                assert(front[i] == sessions[i]);
                let k = choose|k: int|
                    {
                        &&& gaps.len() <= k < before.len()
                        &&& (#[trigger] before[k]).session_id == Some(front[i].session_id)
                        &&& before[k].start_at == front[i].last_heartbeat_at
                        &&& before[k].end_at == now
                    };
                assert(after[k] == before[k]);
            } else {
                assert(after[before.len() as int].end_at == now);
            }
        }
    }
}

/// As many sessions are open as have not been stopped.
pub proof fn lemma_open_sessions_are_not_stopped(sessions: Seq<CollectorSession>)
    ensures
        open_sessions(sessions) == count_where(
            sessions,
            |session: CollectorSession| session.stopped_at is None,
        ),
{
    let open = |session: CollectorSession| session.stopped_at is None;
    lemma_filter_counts(sessions, open, open);
}

/// A sign of life goes to the session and the collector that it is of, and only while the
/// session is open; an end goes to them too. All others stay as they are.
pub proof fn lemma_sign_of_life_is_the_sessions_own(
    session: CollectorSession,
    state: CollectorState,
    session_id: Seq<char>,
    instance_id: Seq<char>,
    now: i64,
    running: bool,
)
    ensures
        session.session_id@ == session_id && session.instance_id@ == instance_id ==> {
            let ended = stopped(session, session_id, instance_id, now);
            let alive = touched(session, session_id, instance_id, now);
            &&& ended.stopped_at == Some(now)
            &&& ended.last_heartbeat_at == now
            &&& ended.status == SessionStatus::Stopped
            &&& ended.started_at == session.started_at
            &&& session.stopped_at is None ==> alive.last_heartbeat_at == now && alive.stopped_at
                is None && alive.status == session.status && alive.started_at == session.started_at
            &&& session.stopped_at is Some ==> alive == session
        },
        session.session_id@ != session_id || session.instance_id@ != instance_id ==> {
            &&& stopped(session, session_id, instance_id, now) == session
            &&& touched(session, session_id, instance_id, now) == session
        },
        ({
            let is = state_after(state, instance_id, now, running);
            &&& state.instance_id@ == instance_id ==> is.heartbeat_at == now && is.running
                == running && is.instance_id == state.instance_id && is.pid == state.pid
                && is.started_at == state.started_at
            &&& state.instance_id@ != instance_id ==> is == state
        }),
{
}

/// The current presence is the open one that began last, and of those the first.
pub proof fn lemma_current_presence_began_last(intervals: Seq<PresenceView>)
    ensures
        match current_presence(intervals) {
            Some(at) => {
                &&& 0 <= at < intervals.len()
                &&& intervals[at].ended_at is None
                &&& forall|k: int|
                    0 <= k < intervals.len() && (#[trigger] intervals[k]).ended_at is None
                        ==> intervals[k].started_at <= intervals[at].started_at && (k < at
                        ==> intervals[k].started_at < intervals[at].started_at)
            },
            None => forall|k: int|
                0 <= k < intervals.len() ==> (#[trigger] intervals[k]).ended_at is Some,
        },
    decreases intervals.len(),
{
    if intervals.len() > 0 {
        let front = intervals.drop_last();
        lemma_current_presence_began_last(front);
        assert forall|k: int| 0 <= k < front.len() implies #[trigger] intervals[k] == front[k] by {}
    }
}

/// Seeing the account that is present leaves its presence as it began. Seeing another ends that
/// presence there and begins the other's. What is seen late changes nothing.
pub proof fn lemma_seeing_another_account_ends_presence(
    intervals: Seq<PresenceView>,
    seen: PresenceView,
    at: int,
)
    requires
        current_presence(intervals) == Some(at),
        seen.ended_at is None,
        seen.started_at <= i64::MAX,
    ensures
        ({
            let after = presence_after(intervals, seen);
            let was = intervals[at];
            &&& seen.started_at <= was.started_at ==> after == intervals
            &&& seen.started_at > was.started_at && seen.account_key == was.account_key ==> {
                &&& after.len() == intervals.len()
                &&& after[at].started_at == was.started_at
                &&& after[at].ended_at is None
                &&& after[at].account_key == was.account_key
            }
            &&& seen.started_at > was.started_at && seen.account_key != was.account_key ==> {
                &&& after.len() == intervals.len() + 1
                &&& after[at].account_key == was.account_key
                &&& after[at].started_at == was.started_at
                &&& seen.started_at >= 0 ==> after[at].ended_at == Some(seen.started_at as i64)
                &&& after.last() == seen
            }
            &&& forall|k: int|
                0 <= k < intervals.len() && k != at ==> #[trigger] after[k] == intervals[k]
        }),
{
    lemma_current_presence_began_last(intervals);
}

/// An account that is seen while none is present is present from then on.
pub proof fn lemma_first_seen_account_is_present(intervals: Seq<PresenceView>, seen: PresenceView)
    requires
        forall|k: int| 0 <= k < intervals.len() ==> (#[trigger] intervals[k]).ended_at is Some,
    ensures
        presence_after(intervals, seen) == intervals.push(seen),
{
    lemma_current_presence_began_last(intervals);
}

/// An account was signed in at a time exactly where one of its intervals had begun by then and
/// had not ended.
pub proof fn lemma_presence_is_of_the_account(
    intervals: Seq<PresenceView>,
    account_key: Seq<char>,
    at: int,
)
    ensures
        is_covered(intervals, account_key, at) <==> exists|i: int|
            {
                &&& 0 <= i < intervals.len()
                &&& (#[trigger] intervals[i]).account_key == account_key
                &&& intervals[i].started_at <= at
                &&& intervals[i].ended_at is None || at < intervals[i].ended_at->0
            },
{
    if is_covered(intervals, account_key, at) {
        let i = choose|i: int|
            0 <= i < intervals.len() && covers(#[trigger] intervals[i], account_key, at);
        assert(intervals[i].account_key == account_key);
    }
    if exists|i: int|
        {
            &&& 0 <= i < intervals.len()
            &&& (#[trigger] intervals[i]).account_key == account_key
            &&& intervals[i].started_at <= at
            &&& intervals[i].ended_at is None || at < intervals[i].ended_at->0
        } {
        let i = choose|i: int|
            {
                &&& 0 <= i < intervals.len()
                &&& (#[trigger] intervals[i]).account_key == account_key
                &&& intervals[i].started_at <= at
                &&& intervals[i].ended_at is None || at < intervals[i].ended_at->0
            };
        assert(covers(intervals[i], account_key, at));
    }
}

/// What is known of when nothing was watched is where each gap begins and ends.
pub proof fn lemma_span_is_that_of_the_gap(gap: CollectorGap)
    ensures
        gap_span(gap).start_at == gap.start_at,
        gap_span(gap).end_at == gap.end_at,
{
}

} // verus!
