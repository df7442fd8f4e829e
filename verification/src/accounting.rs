//! The accounts stay closed: what the lines of a log record keeps every turn's total equal to
//! the sum of its timeline.
use crate::json::JsonView;
use crate::ledger::{
    accounts_closed, has_sample, has_turn, in_scope, ledger_with, mismatched, orphan, same_sample,
    sample_turn, timeline_total, turn_at, turn_key, turns_with, LedgerView, TurnKey,
};
use crate::rollout::{
    after_line, after_lines, after_session, begins_turn, context_thread, context_turn, counter_of,
    fresh_state, kind_of, lemma_increase_is_counter_growth, lemma_line_keeps_wf,
    lemma_repeated_counter_is_no_observation, lemma_samples_advance,
    lemma_turn_total_is_sum_of_deltas, line_delta, line_time, line_update, resolved_thread,
    thread_name, CursorView, LineKind, SampleView, TurnView, UpdateView,
};
use vstd::prelude::*;

verus! {

/// The turn that is current, where it is named.
pub open spec fn current_key(state: CursorView, account_key: Seq<char>) -> TurnKey {
    TurnKey { account_key, thread_id: thread_name(state), turn_id: state.turn_id->0 }
}

/// The ledger stands as the state says: the current turn, where it is named, has the
/// accumulated total on its row and on its timeline, and no sample of it lies beyond the
/// last counter.
pub open spec fn tracks(ledger: LedgerView, state: CursorView, account_key: Seq<char>) -> bool {
    state.turn_id is Some ==> {
        let key = current_key(state, account_key);
        let total = state.turn_accumulated_usage.raw_total_tokens;
        let reached = state.last_totals.raw_total_tokens
            - state.turn_segment_start_usage.raw_total_tokens;
        &&& timeline_total(ledger.samples, key) == total
        &&& forall|i: int|
            #[trigger]
            turn_at(ledger.turns, key, i) ==> ledger.turns[i].usage.raw_total_tokens == total
        &&& forall|i: int|
            0 <= i < ledger.samples.len() && sample_turn(#[trigger] ledger.samples[i]) == key ==> {
                ||| ledger.samples[i].segment_no < state.segment_no
                ||| ledger.samples[i].segment_no == state.segment_no
                    && ledger.samples[i].cumulative_tokens <= reached
            }
    }
}

/// Nothing is recorded of the turn.
pub open spec fn unrecorded(ledger: LedgerView, key: TurnKey) -> bool {
    &&& !has_turn(ledger.turns, key)
    &&& forall|i: int|
        0 <= i < ledger.samples.len() ==> sample_turn(#[trigger] ledger.samples[i]) != key
}

/// The line keeps to the order of a log: tokens are counted for a turn that is named, and
/// within range; a turn that begins has no records yet; and no other line moves the current
/// turn to another thread.
pub open spec fn orderly_line(
    ledger: LedgerView,
    state: CursorView,
    value: JsonView,
    account_key: Seq<char>,
    now: i64,
) -> bool {
    let next = after_line(state, value, now);
    if kind_of(value) == LineKind::TokenCount {
        &&& state.turn_id is Some
        &&& state.turn_accumulated_usage.raw_total_tokens + line_delta(state, value) <= i64::MAX
        &&& state.segment_no < i64::MAX
    } else if begins_turn(state, value) {
        next.turn_id is Some ==> unrecorded(ledger, current_key(next, account_key))
    } else {
        resolved_thread(next) == resolved_thread(state)
    }
}

/// The ledger after the lines of a log.
pub open spec fn ledger_after(
    ledger: LedgerView,
    state: CursorView,
    lines: Seq<JsonView>,
    account_key: Seq<char>,
    now: i64,
) -> LedgerView
    decreases lines.len(),
{
    if lines.len() == 0 {
        ledger
    } else {
        let before = ledger_after(ledger, state, lines.drop_last(), account_key, now);
        let reached = after_lines(state, lines.drop_last(), now);
        match line_update(reached, lines.last(), account_key, now) {
            Some(update) => ledger_with(before, update),
            None => before,
        }
    }
}

/// Every line keeps to the order of a log.
pub open spec fn orderly(
    ledger: LedgerView,
    state: CursorView,
    lines: Seq<JsonView>,
    account_key: Seq<char>,
    now: i64,
) -> bool
    decreases lines.len(),
{
    lines.len() == 0 || {
        &&& orderly(ledger, state, lines.drop_last(), account_key, now)
        &&& orderly_line(
            ledger_after(ledger, state, lines.drop_last(), account_key, now),
            after_lines(state, lines.drop_last(), now),
            lines.last(),
            account_key,
            now,
        )
    }
}

/// A sample adds its increase to the timeline of its own turn and to no other.
pub proof fn lemma_sample_adds_to_its_turn(
    samples: Seq<SampleView>,
    sample: SampleView,
    key: TurnKey,
)
    ensures
        timeline_total(samples.push(sample), key) == timeline_total(samples, key)
            + if sample_turn(sample) == key {
            sample.delta_tokens
        } else {
            0
        },
{
    assert(samples.push(sample).drop_last() =~= samples);
}

proof fn lemma_unrecorded_total(samples: Seq<SampleView>, key: TurnKey)
    requires
        forall|i: int| 0 <= i < samples.len() ==> sample_turn(#[trigger] samples[i]) != key,
    ensures
        timeline_total(samples, key) == 0,
    decreases samples.len(),
{
    if samples.len() > 0 {
        let front = samples.drop_last();
        assert forall|i: int| 0 <= i < front.len() implies sample_turn(#[trigger] front[i])
            != key by {
            assert(front[i] == samples[i]);
        }
        lemma_unrecorded_total(front, key);
        assert(sample_turn(samples[samples.len() - 1]) != key);
    }
}

/// What recording a turn leaves: its row under its key, and every other row as it was.
proof fn lemma_turns_with(turns: Seq<TurnView>, turn: TurnView)
    ensures
        ({
            let after = turns_with(turns, turn);
            &&& has_turn(after, turn_key(turn))
            &&& forall|i: int|
                0 <= i < after.len() ==> (#[trigger] after[i]) == turn || (i < turns.len()
                    && after[i] == turns[i])
            &&& forall|k: TurnKey| #[trigger] has_turn(turns, k) ==> has_turn(after, k)
        }),
{
    let after = turns_with(turns, turn);
    let key = turn_key(turn);
    if has_turn(turns, key) {
        let at = choose|at: int| #[trigger] turn_at(turns, key, at);
        assert(turn_at(after, key, at));
        assert forall|k: TurnKey| #[trigger] has_turn(turns, k) implies has_turn(after, k) by {
            let i = choose|i: int| #[trigger] turn_at(turns, k, i);
            assert(turn_at(after, k, i));
        }
    } else {
        assert(turn_at(after, key, turns.len() as int));
        assert forall|k: TurnKey| #[trigger] has_turn(turns, k) implies has_turn(after, k) by {
            let i = choose|i: int| #[trigger] turn_at(turns, k, i);
            assert(turn_at(after, k, i));
        }
    }
}

proof fn lemma_turns_with_unique(turns: Seq<TurnView>, turn: TurnView, at: int)
    requires
        crate::ledger::turns_unique(turns),
        0 <= at < turns_with(turns, turn).len(),
        turn_key(turns_with(turns, turn)[at]) == turn_key(turn),
    ensures
        turns_with(turns, turn)[at] == turn,
{
    let key = turn_key(turn);
    if has_turn(turns, key) {
        let found = choose|found: int| #[trigger] turn_at(turns, key, found);
        if at != found {
            assert(turns_with(turns, turn)[at] == turns[at]);
            if at < found {
                assert(turn_key(turns[at]) != turn_key(turns[found]));
            } else {
                assert(turn_key(turns[found]) != turn_key(turns[at]));
            }
        }
    } else if at < turns.len() {
        assert(turns_with(turns, turn)[at] == turns[at]);
        assert(turn_at(turns, key, at));
    }
}

/// A counter that is recorded keeps the ledger in step.
pub proof fn lemma_counted_line_keeps_step(
    ledger: LedgerView,
    state: CursorView,
    value: JsonView,
    account_key: Seq<char>,
    now: i64,
)
    requires
        ledger.wf(),
        state.wf(),
        tracks(ledger, state, account_key),
        kind_of(value) == LineKind::TokenCount,
        orderly_line(ledger, state, value, account_key, now),
    ensures
        ({
            let update = line_update(state, value, account_key, now)->0;
            let after = ledger_with(ledger, update);
            &&& after.wf()
            &&& tracks(after, after_line(state, value, now), account_key)
            &&& turn_key(update.turn) == current_key(state, account_key)
            &&& has_turn(after.turns, current_key(state, account_key))
            &&& after.samples == if line_delta(state, value) > 0 {
                ledger.samples.push(update.sample->0)
            } else {
                ledger.samples
            }
        }),
{
    let counter = counter_of(value);
    let next = after_line(state, value, now);
    let update = line_update(state, value, account_key, now)->0;
    let after = ledger_with(ledger, update);
    let key = current_key(state, account_key);
    let delta = line_delta(state, value);
    lemma_increase_is_counter_growth(state, counter);
    assert(current_key(next, account_key) == key);
    assert(turn_key(update.turn) == key);
    lemma_turns_with(ledger.turns, update.turn);
    assert(update.turn.usage.raw_total_tokens == next.turn_accumulated_usage.raw_total_tokens);
    assert(next.turn_accumulated_usage.raw_total_tokens
        == state.turn_accumulated_usage.raw_total_tokens + delta);
    // The rows stay unique.
    assert(crate::ledger::turns_unique(after.turns)) by {
        assert forall|i: int, j: int| 0 <= i < j < after.turns.len() implies turn_key(
            #[trigger] after.turns[i],
        ) != turn_key(#[trigger] after.turns[j]) by {
            if turn_key(after.turns[i]) == turn_key(after.turns[j]) {
                if has_turn(ledger.turns, key) {
                    assert(turn_key(ledger.turns[i]) == turn_key(after.turns[i]));
                    assert(turn_key(ledger.turns[j]) == turn_key(after.turns[j]));
                } else if j < ledger.turns.len() {
                    assert(turn_key(ledger.turns[i]) != turn_key(ledger.turns[j]));
                } else {
                    assert(turn_at(ledger.turns, key, i));
                }
            }
        }
    }
    if delta > 0 {
        lemma_samples_advance(state, value, account_key, now);
        let sample = update.sample->0;
        assert(sample_turn(sample) == key);
        assert(!has_sample(ledger.samples, sample)) by {
            assert forall|i: int| 0 <= i < ledger.samples.len() implies !same_sample(
                #[trigger] ledger.samples[i],
                sample,
            ) by {}
        }
        assert(after.samples == ledger.samples.push(sample));
        lemma_sample_adds_to_its_turn(ledger.samples, sample, key);
    } else {
        assert(after.samples == ledger.samples);
    }
    assert(timeline_total(after.samples, key) == next.turn_accumulated_usage.raw_total_tokens);
    assert forall|i: int| #[trigger] turn_at(after.turns, key, i) implies after.turns[i]
        == update.turn by {
        lemma_turns_with_unique(ledger.turns, update.turn, i);
    }
    assert(tracks(after, next, account_key));
}

/// A counter that is recorded keeps the accounts closed and the ledger in step.
pub proof fn lemma_counted_line_keeps_accounts(
    ledger: LedgerView,
    state: CursorView,
    value: JsonView,
    account_key: Seq<char>,
    scope: Option<Seq<char>>,
    now: i64,
)
    requires
        ledger.wf(),
        state.wf(),
        tracks(ledger, state, account_key),
        accounts_closed(ledger, scope),
        kind_of(value) == LineKind::TokenCount,
        orderly_line(ledger, state, value, account_key, now),
    ensures
        ({
            let after = ledger_with(ledger, line_update(state, value, account_key, now)->0);
            &&& after.wf()
            &&& tracks(after, after_line(state, value, now), account_key)
            &&& accounts_closed(after, scope)
        }),
{
    let next = after_line(state, value, now);
    let update = line_update(state, value, account_key, now)->0;
    let after = ledger_with(ledger, update);
    let key = current_key(state, account_key);
    lemma_counted_line_keeps_step(ledger, state, value, account_key, now);
    lemma_turns_with(ledger.turns, update.turn);
    assert(current_key(next, account_key) == key);
    assert(timeline_total(after.samples, key) == update.turn.usage.raw_total_tokens);
    assert forall|i: int|
        0 <= i < after.turns.len() && in_scope(
            (#[trigger] after.turns[i]).account_key,
            scope,
        ) implies !mismatched(after.turns[i], after.samples) by {
        if after.turns[i] != update.turn {
            assert(after.turns[i] == ledger.turns[i]);
            assert(!mismatched(ledger.turns[i], ledger.samples));
            let other = turn_key(ledger.turns[i]);
            if other == key {
                lemma_turns_with_unique(ledger.turns, update.turn, i);
            }
            if line_delta(state, value) > 0 {
                lemma_sample_adds_to_its_turn(ledger.samples, update.sample->0, other);
            }
        }
    }
    assert forall|i: int|
        0 <= i < after.samples.len() && in_scope(
            (#[trigger] after.samples[i]).account_key,
            scope,
        ) implies !orphan(after.samples[i], after.turns) by {
        if i < ledger.samples.len() {
            assert(after.samples[i] == ledger.samples[i]);
            assert(!orphan(ledger.samples[i], ledger.turns));
        }
    }
}

/// A line that counts nothing leaves the ledger in step.
pub proof fn lemma_other_line_keeps_step(
    ledger: LedgerView,
    state: CursorView,
    value: JsonView,
    account_key: Seq<char>,
    now: i64,
)
    requires
        state.wf(),
        tracks(ledger, state, account_key),
        kind_of(value) != LineKind::TokenCount,
        orderly_line(ledger, state, value, account_key, now),
    ensures
        line_update(state, value, account_key, now) is None,
        tracks(ledger, after_line(state, value, now), account_key),
{
    let next = after_line(state, value, now);
    if begins_turn(state, value) {
        if next.turn_id is Some {
            let key = current_key(next, account_key);
            lemma_unrecorded_total(ledger.samples, key);
            assert forall|i: int| #[trigger] turn_at(ledger.turns, key, i) implies false by {
                assert(has_turn(ledger.turns, key));
            }
        }
    } else if next.turn_id is Some {
        assert(current_key(next, account_key) == current_key(state, account_key));
    }
}

/// Accounts that are closed stay closed: the lines of an orderly log keep every turn's
/// canonical total equal to the sum of its timeline, and every sample with its turn.
pub proof fn lemma_orderly_log_keeps_accounts_closed(
    ledger: LedgerView,
    state: CursorView,
    lines: Seq<JsonView>,
    account_key: Seq<char>,
    scope: Option<Seq<char>>,
    now: i64,
)
    requires
        ledger.wf(),
        state.wf(),
        tracks(ledger, state, account_key),
        accounts_closed(ledger, scope),
        orderly(ledger, state, lines, account_key, now),
    ensures
        ledger_after(ledger, state, lines, account_key, now).wf(),
        tracks(
            ledger_after(ledger, state, lines, account_key, now),
            after_lines(state, lines, now),
            account_key,
        ),
        accounts_closed(ledger_after(ledger, state, lines, account_key, now), scope),
    decreases lines.len(),
{
    if lines.len() > 0 {
        let front = lines.drop_last();
        lemma_orderly_log_keeps_accounts_closed(ledger, state, front, account_key, scope, now);
        lemma_turn_total_is_sum_of_deltas(state, front, now);
        let before = ledger_after(ledger, state, front, account_key, now);
        let reached = after_lines(state, front, now);
        if kind_of(lines.last()) == LineKind::TokenCount {
            lemma_counted_line_keeps_accounts(
                before,
                reached,
                lines.last(),
                account_key,
                scope,
                now,
            );
        } else {
            lemma_other_line_keeps_step(before, reached, lines.last(), account_key, now);
        }
    }
}

/// A log that is read into an empty ledger from its front leaves closed accounts.
pub proof fn lemma_fresh_log_closes_accounts(
    lines: Seq<JsonView>,
    account_key: Seq<char>,
    scope: Option<Seq<char>>,
    now: i64,
)
    requires
        orderly(
            (LedgerView { turns: Seq::empty(), samples: Seq::empty() }),
            fresh_state(),
            lines,
            account_key,
            now,
        ),
    ensures
        accounts_closed(
            ledger_after(
                (LedgerView { turns: Seq::empty(), samples: Seq::empty() }),
                fresh_state(),
                lines,
                account_key,
                now,
            ),
            scope,
        ),
{
    lemma_orderly_log_keeps_accounts_closed(
        LedgerView { turns: Seq::empty(), samples: Seq::empty() },
        fresh_state(),
        lines,
        account_key,
        scope,
        now,
    );
}

// ---------------------------------------------------------------------------
// The log of one turn
// ---------------------------------------------------------------------------

/// The running total of a counter line.
pub open spec fn running_total(value: JsonView) -> int {
    counter_of(value).raw_total_tokens as int
}

/// The running total that a run of counters ends with; before the first it is nought.
pub open spec fn last_total(counters: Seq<JsonView>) -> int {
    if counters.len() == 0 {
        0
    } else {
        running_total(counters.last())
    }
}

/// What a counter grows by: what it has above the one before it, or all it has where it is
/// below that one.
pub open spec fn growth_by(before: int, total: int) -> int {
    if total >= before {
        total - before
    } else {
        total
    }
}

/// What a run of counters grows by.
pub open spec fn counter_growth(counters: Seq<JsonView>) -> int
    decreases counters.len(),
{
    if counters.len() == 0 {
        0
    } else {
        counter_growth(counters.drop_last()) + growth_by(
            last_total(counters.drop_last()),
            running_total(counters.last()),
        )
    }
}

/// Every line is a counter above nought.
pub open spec fn counter_run(counters: Seq<JsonView>) -> bool {
    forall|i: int|
        0 <= i < counters.len() ==> kind_of(#[trigger] counters[i]) == LineKind::TokenCount
            && running_total(counters[i]) > 0
}

proof fn lemma_front_is_counter_run(counters: Seq<JsonView>)
    requires
        counter_run(counters),
        counters.len() > 0,
    ensures
        counter_run(counters.drop_last()),
        kind_of(counters.last()) == LineKind::TokenCount,
        running_total(counters.last()) > 0,
        last_total(counters.drop_last()) >= 0,
        counter_growth(counters.drop_last()) <= counter_growth(counters),
{
    let front = counters.drop_last();
    assert forall|i: int| 0 <= i < front.len() implies kind_of(#[trigger] front[i])
        == LineKind::TokenCount && running_total(front[i]) > 0 by {
        assert(front[i] == counters[i]);
    }
    assert(counters[counters.len() - 1] == counters.last());
    if front.len() > 0 {
        assert(running_total(front[front.len() - 1]) > 0);
    }
}

/// The line gives the session its identity.
pub open spec fn names_session(value: JsonView, session_id: Seq<char>) -> bool {
    &&& kind_of(value) == LineKind::SessionMeta
    &&& after_session(fresh_state(), value).session_id == Some(session_id)
}

/// The line is the context of the turn, and names no thread.
pub open spec fn names_turn(value: JsonView, turn_id: Seq<char>) -> bool {
    &&& kind_of(value) == LineKind::TurnContext
    &&& context_turn(value) == Some(turn_id)
    &&& context_thread(fresh_state(), value) is None
}

/// The log of one turn: the session's identity, the turn's context, and its counters.
pub open spec fn turn_log(meta: JsonView, context: JsonView, counters: Seq<JsonView>) -> Seq<
    JsonView,
> {
    seq![meta, context] + counters
}

/// A counter line acts by its running total and its time alone: two lines that agree in
/// these, whatever else they carry, lead to the same state and the same record.
pub proof fn lemma_counter_acts_by_its_total(
    state: CursorView,
    first: JsonView,
    second: JsonView,
    account_key: Seq<char>,
    now: i64,
)
    requires
        kind_of(first) == LineKind::TokenCount,
        kind_of(second) == LineKind::TokenCount,
        counter_of(first) == counter_of(second),
        line_time(first, now) == line_time(second, now),
    ensures
        after_line(state, first, now) == after_line(state, second, now),
        line_update(state, first, account_key, now) == line_update(
            state,
            second,
            account_key,
            now,
        ),
{
}

/// How the log of one turn stands after some of its counters: `reached` is the last running
/// total, and `grown` what they grew by.
pub open spec fn in_turn(
    ledger: LedgerView,
    state: CursorView,
    key: TurnKey,
    reached: int,
    grown: int,
) -> bool {
    &&& state.wf()
    &&& state.turn_id is Some
    &&& current_key(state, key.account_key) == key
    &&& state.last_totals.raw_total_tokens == reached
    &&& state.turn_accumulated_usage.raw_total_tokens == grown
    &&& if grown == 0 {
        reached == 0 && state.segment_no == 0
    } else {
        state.segment_no < grown
    }
    &&& ledger.wf()
    &&& tracks(ledger, state, key.account_key)
}

/// The log of one turn before its first counter.
#[verifier::spinoff_prover]
proof fn lemma_turn_begins(
    ledger: LedgerView,
    meta: JsonView,
    context: JsonView,
    key: TurnKey,
    now: i64,
)
    requires
        ledger.wf(),
        unrecorded(ledger, key),
        names_session(meta, key.thread_id),
        names_turn(context, key.turn_id),
    ensures
        ({
            let log = turn_log(meta, context, Seq::empty());
            &&& in_turn(ledger, after_lines(fresh_state(), log, now), key, 0, 0)
            &&& ledger_after(ledger, fresh_state(), log, key.account_key, now) == ledger
        }),
{
    let log = turn_log(meta, context, Seq::empty());
    let one = seq![meta];
    let none = Seq::<JsonView>::empty();
    assert(log.drop_last() =~= one);
    assert(one.drop_last() =~= none);
    assert(after_lines(fresh_state(), none, now) == fresh_state());
    let met = after_session(fresh_state(), meta);
    assert(after_lines(fresh_state(), one, now) == met);
    assert(ledger_after(ledger, fresh_state(), none, key.account_key, now) == ledger);
    assert(ledger_after(ledger, fresh_state(), one, key.account_key, now) == ledger);
    let state = after_line(met, context, now);
    assert(after_lines(fresh_state(), log, now) == state);
    assert(begins_turn(met, context));
    assert(current_key(state, key.account_key) == key);
    assert(tracks(ledger, met, key.account_key));
    lemma_other_line_keeps_step(ledger, met, context, key.account_key, now);
}

/// One more counter of the turn.
#[verifier::spinoff_prover]
proof fn lemma_turn_goes_on(
    ledger: LedgerView,
    state: CursorView,
    value: JsonView,
    key: TurnKey,
    reached: int,
    grown: int,
    now: i64,
)
    requires
        in_turn(ledger, state, key, reached, grown),
        kind_of(value) == LineKind::TokenCount,
        running_total(value) > 0,
        grown + growth_by(reached, running_total(value)) <= i64::MAX,
    ensures
        ({
            let update = line_update(state, value, key.account_key, now);
            let after = ledger_with(ledger, update->0);
            let total = running_total(value);
            &&& update is Some
            &&& in_turn(
                after,
                after_line(state, value, now),
                key,
                total,
                grown + growth_by(reached, total),
            )
            &&& has_turn(after.turns, key)
        }),
{
    lemma_increase_is_counter_growth(state, counter_of(value));
    assert(line_delta(state, value) == growth_by(reached, running_total(value)));
    lemma_counted_line_keeps_step(ledger, state, value, key.account_key, now);
    lemma_line_keeps_wf(state, value, now);
}

/// Where the log of one turn leads.
proof fn lemma_turn_log(
    ledger: LedgerView,
    meta: JsonView,
    context: JsonView,
    counters: Seq<JsonView>,
    key: TurnKey,
    now: i64,
)
    requires
        ledger.wf(),
        unrecorded(ledger, key),
        names_session(meta, key.thread_id),
        names_turn(context, key.turn_id),
        counter_run(counters),
        counter_growth(counters) <= i64::MAX,
    ensures
        ({
            let log = turn_log(meta, context, counters);
            let after = ledger_after(ledger, fresh_state(), log, key.account_key, now);
            &&& in_turn(
                after,
                after_lines(fresh_state(), log, now),
                key,
                last_total(counters),
                counter_growth(counters),
            )
            &&& has_turn(after.turns, key) == (counters.len() > 0)
        }),
    decreases counters.len(),
{
    let log = turn_log(meta, context, counters);
    if counters.len() == 0 {
        assert(counters =~= Seq::empty());
        lemma_turn_begins(ledger, meta, context, key, now);
    } else {
        let front = counters.drop_last();
        let last = counters.last();
        lemma_front_is_counter_run(counters);
        lemma_turn_log(ledger, meta, context, front, key, now);
        assert(log.drop_last() =~= turn_log(meta, context, front));
        assert(log.last() == last);
        lemma_turn_goes_on(
            ledger_after(ledger, fresh_state(), log.drop_last(), key.account_key, now),
            after_lines(fresh_state(), log.drop_last(), now),
            last,
            key,
            last_total(front),
            counter_growth(front),
            now,
        );
    }
}

/// The log of one turn of a session, read from its front into a ledger that has nothing of
/// the turn, leaves one row of it. The row's total is the sum of the turn's timeline, and is
/// what the counters grew by, where a counter that falls counts from nought.
pub proof fn lemma_turn_total_is_counter_growth(
    ledger: LedgerView,
    meta: JsonView,
    context: JsonView,
    counters: Seq<JsonView>,
    key: TurnKey,
    now: i64,
)
    requires
        ledger.wf(),
        unrecorded(ledger, key),
        names_session(meta, key.thread_id),
        names_turn(context, key.turn_id),
        counter_run(counters),
        counter_growth(counters) <= i64::MAX,
    ensures
        ({
            let log = turn_log(meta, context, counters);
            let after = ledger_after(ledger, fresh_state(), log, key.account_key, now);
            &&& after.wf()
            &&& has_turn(after.turns, key) == (counters.len() > 0)
            &&& timeline_total(after.samples, key) == counter_growth(counters)
            &&& forall|i: int|
                #[trigger]
                turn_at(after.turns, key, i) ==> after.turns[i].usage.raw_total_tokens
                    == counter_growth(counters)
        }),
{
    lemma_turn_log(ledger, meta, context, counters, key, now);
}

/// In the log of one turn a counter that repeats the one before it changes no state and adds
/// no sample.
#[verifier::spinoff_prover]
pub proof fn lemma_repeated_counter_adds_no_sample(
    ledger: LedgerView,
    meta: JsonView,
    context: JsonView,
    counters: Seq<JsonView>,
    key: TurnKey,
    now: i64,
)
    requires
        ledger.wf(),
        unrecorded(ledger, key),
        names_session(meta, key.thread_id),
        names_turn(context, key.turn_id),
        counter_run(counters),
        counter_growth(counters) <= i64::MAX,
        counters.len() > 0,
        running_total(counters.last()) == last_total(counters.drop_last()),
    ensures
        ({
            let log = turn_log(meta, context, counters);
            let read = turn_log(meta, context, counters.drop_last());
            let state = after_lines(fresh_state(), read, now);
            &&& line_update(state, counters.last(), key.account_key, now)->0.sample is None
            &&& after_lines(fresh_state(), log, now) == state
            &&& ledger_after(ledger, fresh_state(), log, key.account_key, now).samples
                == ledger_after(ledger, fresh_state(), read, key.account_key, now).samples
        }),
{
    let front = counters.drop_last();
    let last = counters.last();
    lemma_front_is_counter_run(counters);
    lemma_turn_log(ledger, meta, context, front, key, now);
    let log = turn_log(meta, context, counters);
    let read = turn_log(meta, context, front);
    assert(log.drop_last() =~= read);
    assert(log.last() == last);
    let state = after_lines(fresh_state(), read, now);
    lemma_repeated_counter_is_no_observation(state, last, key.account_key, now);
    let before = ledger_after(ledger, fresh_state(), read, key.account_key, now);
    lemma_no_sample_is_recorded(
        before,
        line_update(state, last, key.account_key, now)->0,
    );
}

proof fn lemma_no_sample_is_recorded(ledger: LedgerView, update: UpdateView)
    requires
        update.sample is None,
    ensures
        ledger_with(ledger, update).samples == ledger.samples,
{
}

} // verus!
