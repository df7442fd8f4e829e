//! Reading a rollout log piece by piece: which bytes are lines, and what a run of them records.
use crate::json::parsed_json;
use crate::models::{is_normal, zero_usage, TokenUsage};
use crate::rollout::{
    after_counter, after_line, after_text, fresh_state, lemma_increase_is_counter_growth,
    line_update, process_line, text_update, CursorState, CursorView, TurnUpdate, UpdateView,
    ROLLOUT_PARSER_VERSION,
};
use crate::text::{trim_end, trimmed_end};
use vstd::prelude::*;
use vstd::slice::slice_subrange;
use vstd::utf8::{decode_utf8, valid_utf8};

verus! {

/// How far a log has been read, and what is known of its session there.
#[derive(Debug)]
pub struct RolloutCursor {
    pub byte_offset: u64,
    pub state: CursorState,
}

/// A line that was not JSON.
#[derive(Debug)]
pub struct ParseError {
    pub byte_offset: u64,
    pub error: String,
}

/// What a run of lines has to be recorded as.
#[derive(Debug)]
pub struct Collected {
    pub cursor: RolloutCursor,
    pub changed: bool,
    pub updates: Vec<TurnUpdate>,
    pub errors: Vec<ParseError>,
}

/// The log holds bytes that are not UTF-8.
#[derive(Clone, Copy, Debug, PartialEq, Eq, Structural)]
pub enum CollectError {
    InvalidUtf8,
}

pub struct RunView {
    pub state: CursorView,
    pub offset: int,
    pub changed: bool,
    pub updates: Seq<UpdateView>,
    pub errors: Seq<(int, Seq<char>)>,
}

pub open spec fn update_views(updates: Seq<TurnUpdate>) -> Seq<UpdateView> {
    Seq::new(updates.len(), |i: int| updates[i]@)
}

pub open spec fn error_views(errors: Seq<ParseError>) -> Seq<(int, Seq<char>)> {
    Seq::new(errors.len(), |i: int| (errors[i].byte_offset as int, errors[i].error@))
}

impl View for Collected {
    type V = RunView;

    open spec fn view(&self) -> RunView {
        RunView {
            state: self.cursor.state@,
            offset: self.cursor.byte_offset as int,
            changed: self.changed,
            updates: update_views(self.updates@),
            errors: error_views(self.errors@),
        }
    }
}

/// The place of the first line feed.
pub open spec fn newline_at(bytes: Seq<u8>) -> Option<int>
    decreases bytes.len(),
{
    if bytes.len() == 0 {
        None
    } else if bytes.first() == 10 {
        Some(0)
    } else {
        match newline_at(bytes.drop_first()) {
            Some(at) => Some(at + 1),
            None => None,
        }
    }
}

/// The bytes behind the last line feed: a line that has not been written to its end.
pub open spec fn partial_line(bytes: Seq<u8>) -> Seq<u8>
    decreases bytes.len(),
{
    match newline_at(bytes) {
        Some(at) => if 0 <= at < bytes.len() {
            partial_line(bytes.subrange(at + 1, bytes.len() as int))
        } else {
            bytes
        },
        None => bytes,
    }
}

/// A line's text without what stands behind it.
pub open spec fn line_text(line: Seq<u8>) -> Seq<char> {
    trimmed_end(decode_utf8(line))
}

/// A run after one more line.
#[verifier::opaque]
pub open spec fn run_line(run: RunView, line: Seq<u8>, account_key: Seq<char>, now: i64) -> RunView {
    let text = line_text(line);
    let next = RunView {
        state: after_text(run.state, text, now),
        offset: run.offset + line.len(),
        ..run
    };
    match text_update(run.state, text, account_key, now) {
        Ok(Some(update)) => RunView {
            changed: run.changed || update.sample is Some,
            updates: run.updates.push(update),
            ..next
        },
        Ok(None) => next,
        Err(message) => RunView { errors: run.errors.push((run.offset, message)), ..next },
    }
}

/// A run after the lines of `bytes`. Bytes behind the last line feed are left for later;
/// nothing is taken where any of them are not UTF-8.
pub open spec fn run_lines(run: RunView, bytes: Seq<u8>, account_key: Seq<char>, now: i64) -> Option<
    RunView,
>
    decreases bytes.len(),
{
    match newline_at(bytes) {
        Some(at) => if 0 <= at < bytes.len() && valid_utf8(bytes.subrange(0, at + 1)) {
            run_lines(
                run_line(run, bytes.subrange(0, at + 1), account_key, now),
                bytes.subrange(at + 1, bytes.len() as int),
                account_key,
                now,
            )
        } else {
            None
        },
        None => if valid_utf8(bytes) {
            Some(run)
        } else {
            None
        },
    }
}

/// A run that has read nothing yet.
pub open spec fn run_from(state: CursorView, offset: int) -> RunView {
    RunView { state, offset, changed: false, updates: Seq::empty(), errors: Seq::empty() }
}

/// `std::str::from_utf8`: the text that the bytes encode, or nothing where they are not UTF-8.
#[verifier::external_body]
pub(crate) fn utf8_text(bytes: &[u8]) -> (r: Option<&str>)
    ensures
        r is Some <==> valid_utf8(bytes@),
        r matches Some(text) ==> text@ == decode_utf8(bytes@),
{
    match std::str::from_utf8(bytes) {
        Ok(text) => Some(text),
        Err(_) => None,
    }
}

proof fn lemma_newline_found(bytes: Seq<u8>, at: int)
    requires
        0 <= at < bytes.len(),
        bytes[at] == 10,
        forall|k: int| 0 <= k < at ==> #[trigger] bytes[k] != 10,
    ensures
        newline_at(bytes) == Some(at),
    decreases at,
{
    if at > 0 {
        assert(bytes[0] != 10);
        let rest = bytes.drop_first();
        assert forall|k: int| 0 <= k < at - 1 implies #[trigger] rest[k] != 10 by {
            assert(rest[k] == bytes[k + 1]);
        }
        lemma_newline_found(rest, at - 1);
    }
}

proof fn lemma_newline_absent(bytes: Seq<u8>)
    requires
        forall|k: int| 0 <= k < bytes.len() ==> #[trigger] bytes[k] != 10,
    ensures
        newline_at(bytes) is None,
    decreases bytes.len(),
{
    if bytes.len() > 0 {
        assert(bytes[0] != 10);
        let rest = bytes.drop_first();
        assert forall|k: int| 0 <= k < rest.len() implies #[trigger] rest[k] != 10 by {
            assert(rest[k] == bytes[k + 1]);
        }
        lemma_newline_absent(rest);
    }
}

/// Where a first line feed is found, it stands there and nowhere before.
pub proof fn lemma_newline_at(bytes: Seq<u8>)
    ensures
        match newline_at(bytes) {
            Some(at) => {
                &&& 0 <= at < bytes.len()
                &&& bytes[at] == 10
                &&& forall|k: int| 0 <= k < at ==> #[trigger] bytes[k] != 10
            },
            None => forall|k: int| 0 <= k < bytes.len() ==> #[trigger] bytes[k] != 10,
        },
    decreases bytes.len(),
{
    if bytes.len() > 0 && bytes.first() != 10 {
        let rest = bytes.drop_first();
        lemma_newline_at(rest);
        assert forall|k: int| 1 <= k < bytes.len() implies bytes[k] == #[trigger] rest[k - 1] by {}
        match newline_at(rest) {
            Some(at) => {
                assert forall|k: int| 0 <= k < at + 1 implies #[trigger] bytes[k] != 10 by {
                    if k > 0 {
                        assert(rest[k - 1] == bytes[k]);
                    }
                }
            },
            None => {
                assert forall|k: int| 0 <= k < bytes.len() implies #[trigger] bytes[k] != 10 by {
                    if k > 0 {
                        assert(rest[k - 1] == bytes[k]);
                    }
                }
            },
        }
    }
}

/// The end of the line that begins at `from`: the place behind its line feed.
fn line_end(bytes: &Vec<u8>, from: usize) -> (r: Option<usize>)
    requires
        from <= bytes.len(),
    ensures
        match r {
            Some(end) => {
                &&& from < end <= bytes.len()
                &&& newline_at(bytes@.subrange(from as int, bytes.len() as int)) == Some(
                    end - from - 1,
                )
            },
            None => newline_at(bytes@.subrange(from as int, bytes.len() as int)) is None,
        },
{
    let ghost rest = bytes@.subrange(from as int, bytes.len() as int);
    let mut i: usize = from;
    while i < bytes.len()
        invariant
            from <= i <= bytes.len(),
            rest == bytes@.subrange(from as int, bytes.len() as int),
            forall|k: int| 0 <= k < i - from ==> #[trigger] rest[k] != 10,
        decreases bytes.len() - i,
    {
        if bytes[i] == 10 {
            proof {
                lemma_newline_found(rest, i - from);
            }
            return Some(i + 1);
        }
        i += 1;
    }
    proof {
        lemma_newline_absent(rest);
    }
    None
}

pub fn fresh_cursor() -> (r: RolloutCursor)
    ensures
        r.byte_offset == 0,
        r.state@ == fresh_state(),
        r.state@.wf(),
{
    RolloutCursor { byte_offset: 0, state: CursorState::fresh() }
}

/// The stored cursor can be read on from: it was written by this parser and the log has not
/// become shorter than what it has read.
pub open spec fn cursor_usable(cursor: RolloutCursor, file_len: u64) -> bool {
    cursor.state.parser_version == ROLLOUT_PARSER_VERSION && cursor.byte_offset <= file_len
}

/// The cursor to read on from: the stored one, or else the front of the log.
pub fn resume_cursor(stored: Option<RolloutCursor>, file_len: u64) -> (r: RolloutCursor)
    ensures
        r.byte_offset <= file_len,
        match stored {
            Some(cursor) => if cursor_usable(cursor, file_len) {
                r == cursor
            } else {
                r.byte_offset == 0 && r.state@ == fresh_state()
            },
            None => r.byte_offset == 0 && r.state@ == fresh_state(),
        },
{
    match stored {
        Some(cursor) => if cursor.state.parser_version == ROLLOUT_PARSER_VERSION
            && cursor.byte_offset <= file_len {
            cursor
        } else {
            fresh_cursor()
        },
        None => fresh_cursor(),
    }
}

impl Collected {
    fn from_cursor(cursor: RolloutCursor) -> (r: Collected)
        ensures
            r@ == run_from(cursor.state@, cursor.byte_offset as int),
            r.cursor == cursor,
    {
        let r = Collected { cursor, changed: false, updates: Vec::new(), errors: Vec::new() };
        assert(r@.updates =~= Seq::empty());
        assert(r@.errors =~= Seq::empty());
        r
    }

    fn take_line(&mut self, line: &[u8], text: &str, account_key: &str, now: i64)
        requires
            old(self).cursor.state@.wf(),
            old(self).cursor.byte_offset + line@.len() <= u64::MAX,
            text@ == decode_utf8(line@),
        ensures
            final(self)@ == run_line(old(self)@, line@, account_key@, now),
            final(self).cursor.state@.wf(),
            final(self).cursor.byte_offset == old(self).cursor.byte_offset + line@.len(),
    {
        proof {
            reveal(run_line);
        }
        let at: u64 = self.cursor.byte_offset;
        match process_line(trim_end(text).as_str(), &mut self.cursor.state, account_key, now) {
            Ok(Some(update)) => {
                if update.sample.is_some() {
                    self.changed = true;
                }
                self.updates.push(update);
            },
            Ok(None) => {},
            Err(error) => {
                self.errors.push(ParseError { byte_offset: at, error });
            },
        }
        self.cursor.byte_offset = at + line.len() as u64;
        assert(self@.updates =~= run_line(old(self)@, line@, account_key@, now).updates);
        assert(self@.errors =~= run_line(old(self)@, line@, account_key@, now).errors);
    }
}

/// Takes over the lines of `tail`, which are the bytes of the log from the cursor on.
pub fn collect_tail(cursor: RolloutCursor, tail: &Vec<u8>, account_key: &str, now: i64) -> (r: Result<
    Collected,
    CollectError,
>)
    requires
        cursor.state@.wf(),
        cursor.byte_offset + tail.len() <= u64::MAX,
    ensures
        match r {
            Ok(collected) => {
                &&& run_lines(
                    run_from(cursor.state@, cursor.byte_offset as int),
                    tail@,
                    account_key@,
                    now,
                ) == Some(collected@)
                &&& collected.cursor.state@.wf()
            },
            Err(_) => run_lines(
                run_from(cursor.state@, cursor.byte_offset as int),
                tail@,
                account_key@,
                now,
            ) is None,
        },
{
    let ghost start = run_from(cursor.state@, cursor.byte_offset as int);
    let ghost base = cursor.byte_offset;
    let mut run = Collected::from_cursor(cursor);
    let mut pos: usize = 0;
    assert(tail@.subrange(0, tail.len() as int) =~= tail@);
    loop
        invariant
            pos <= tail.len(),
            base + tail.len() <= u64::MAX,
            start == run_from(cursor.state@, cursor.byte_offset as int),
            run.cursor.state@.wf(),
            run.cursor.byte_offset == base + pos,
            run_lines(start, tail@, account_key@, now) == run_lines(
                run@,
                tail@.subrange(pos as int, tail.len() as int),
                account_key@,
                now,
            ),
        decreases tail.len() - pos,
    {
        let ghost rest = tail@.subrange(pos as int, tail.len() as int);
        match line_end(tail, pos) {
            Some(end) => {
                let line = slice_subrange(tail.as_slice(), pos, end);
                assert(line@ =~= rest.subrange(0, end - pos));
                match utf8_text(line) {
                    Some(text) => {
                        run.take_line(line, text, account_key, now);
                    },
                    None => {
                        return Err(CollectError::InvalidUtf8);
                    },
                }
                assert(rest.subrange(end - pos, rest.len() as int) =~= tail@.subrange(
                    end as int,
                    tail.len() as int,
                ));
                pos = end;
            },
            None => {
                let line = slice_subrange(tail.as_slice(), pos, tail.len());
                assert(line@ =~= rest);
                return match utf8_text(line) {
                    Some(_) => Ok(run),
                    None => Err(CollectError::InvalidUtf8),
                };
            },
        }
    }
}

/// The state after a line that is only skimmed: one that is not JSON starts over.
#[verifier::opaque]
pub open spec fn skimmed_state(state: CursorView, line: Seq<u8>, now: i64) -> CursorView {
    match parsed_json(line_text(line)) {
        Ok(value) => after_line(state, value, now),
        Err(_) => fresh_state(),
    }
}

/// The state and the offset after the lines of `bytes` are skimmed.
pub open spec fn skim_lines(state: CursorView, offset: int, bytes: Seq<u8>, now: i64) -> Option<
    (CursorView, int),
>
    decreases bytes.len(),
{
    match newline_at(bytes) {
        Some(at) => if 0 <= at < bytes.len() && valid_utf8(bytes.subrange(0, at + 1)) {
            skim_lines(
                skimmed_state(state, bytes.subrange(0, at + 1), now),
                offset + at + 1,
                bytes.subrange(at + 1, bytes.len() as int),
                now,
            )
        } else {
            None
        },
        None => if valid_utf8(bytes) {
            Some((state, offset))
        } else {
            None
        },
    }
}

/// A state that counts from here on: whatever was read so far belongs to no turn.
pub open spec fn rebased(state: CursorView, now: i64) -> CursorView {
    CursorView {
        parser_version: ROLLOUT_PARSER_VERSION,
        turn_start_totals: state.last_totals,
        turn_segment_start_usage: state.last_totals,
        turn_accumulated_usage: zero_usage(),
        turn_started_at: Some(now),
        ..state
    }
}

fn skim_line(state: &mut CursorState, line: &[u8], text: &str, account_key: &str, now: i64)
    requires
        old(state)@.wf(),
        text@ == decode_utf8(line@),
    ensures
        final(state)@ == skimmed_state(old(state)@, line@, now),
        final(state)@.wf(),
{
    proof {
        reveal(skimmed_state);
        reveal(after_text);
        reveal(text_update);
    }
    match process_line(trim_end(text).as_str(), state, account_key, now) {
        Ok(_) => {},
        Err(_) => {
            *state = CursorState::fresh();
        },
    }
}

/// Moves the cursor over the lines of `tail` without recording anything of them.
pub fn skim_tail(cursor: RolloutCursor, tail: &Vec<u8>, account_key: &str, now: i64) -> (r: Result<
    RolloutCursor,
    CollectError,
>)
    requires
        cursor.state@.wf(),
        cursor.byte_offset + tail.len() <= u64::MAX,
    ensures
        match (r, skim_lines(cursor.state@, cursor.byte_offset as int, tail@, now)) {
            (Ok(next), Some((state, offset))) => {
                &&& next.byte_offset == offset
                &&& next.state@ == (CursorView { parser_version: ROLLOUT_PARSER_VERSION, ..state })
                &&& next.state@.wf()
            },
            (Err(_), None) => true,
            _ => false,
        },
{
    let ghost start = cursor.state@;
    let base: u64 = cursor.byte_offset;
    let mut state = cursor.state;
    let mut pos: usize = 0;
    assert(tail@.subrange(0, tail.len() as int) =~= tail@);
    loop
        invariant
            pos <= tail.len(),
            base + tail.len() <= u64::MAX,
            start == cursor.state@,
            base == cursor.byte_offset,
            state@.wf(),
            skim_lines(start, base as int, tail@, now) == skim_lines(
                state@,
                base + pos,
                tail@.subrange(pos as int, tail.len() as int),
                now,
            ),
        decreases tail.len() - pos,
    {
        let ghost rest = tail@.subrange(pos as int, tail.len() as int);
        match line_end(tail, pos) {
            Some(end) => {
                let line = slice_subrange(tail.as_slice(), pos, end);
                assert(line@ =~= rest.subrange(0, end - pos));
                match utf8_text(line) {
                    Some(text) => {
                        skim_line(&mut state, line, text, account_key, now);
                    },
                    None => {
                        return Err(CollectError::InvalidUtf8);
                    },
                }
                assert(rest.subrange(end - pos, rest.len() as int) =~= tail@.subrange(
                    end as int,
                    tail.len() as int,
                ));
                pos = end;
            },
            None => {
                let line = slice_subrange(tail.as_slice(), pos, tail.len());
                assert(line@ =~= rest);
                if utf8_text(line).is_none() {
                    return Err(CollectError::InvalidUtf8);
                }
                state.parser_version = ROLLOUT_PARSER_VERSION;
                return Ok(RolloutCursor { byte_offset: base + pos as u64, state });
            },
        }
    }
}

/// Moves the cursor over the lines of `tail` without recording anything of them, and lets
/// the current turn count from there on.
pub fn rebase_tail(cursor: RolloutCursor, tail: &Vec<u8>, account_key: &str, now: i64) -> (r: Result<
    RolloutCursor,
    CollectError,
>)
    requires
        cursor.state@.wf(),
        cursor.byte_offset + tail.len() <= u64::MAX,
    ensures
        match (r, skim_lines(cursor.state@, cursor.byte_offset as int, tail@, now)) {
            (Ok(next), Some((state, offset))) => {
                &&& next.byte_offset == offset
                &&& next.state@ == rebased(state, now)
                &&& next.state@.wf()
            },
            (Err(_), None) => true,
            _ => false,
        },
{
    match skim_tail(cursor, tail, account_key, now) {
        Ok(mut next) => {
            next.state.turn_start_totals = next.state.last_totals;
            next.state.turn_segment_start_usage = next.state.last_totals;
            next.state.turn_accumulated_usage = TokenUsage::default();
            next.state.turn_started_at = Some(now);
            Ok(next)
        },
        Err(error) => Err(error),
    }
}

/// Whatever stands behind the last line feed is left: the offset moves over the complete
/// lines and no further.
pub proof fn lemma_offset_stops_at_partial_line(
    run: RunView,
    bytes: Seq<u8>,
    account_key: Seq<char>,
    now: i64,
)
    requires
        run_lines(run, bytes, account_key, now) is Some,
    ensures
        ({
            let rest = partial_line(bytes);
            &&& run_lines(run, bytes, account_key, now)->0.offset == run.offset + bytes.len()
                - rest.len()
            &&& rest.len() <= bytes.len()
            &&& rest == bytes.subrange(bytes.len() - rest.len(), bytes.len() as int)
            &&& newline_at(rest) is None
        }),
    decreases bytes.len(),
{
    lemma_newline_at(bytes);
    match newline_at(bytes) {
        Some(at) => {
            let line = bytes.subrange(0, at + 1);
            let rest = bytes.subrange(at + 1, bytes.len() as int);
            lemma_offset_stops_at_partial_line(
                run_line(run, line, account_key, now),
                rest,
                account_key,
                now,
            );
            reveal(run_line);
            let end = partial_line(rest);
            assert(rest.subrange(rest.len() - end.len(), rest.len() as int) =~= bytes.subrange(
                bytes.len() - end.len(),
                bytes.len() as int,
            ));
        },
        None => {
            assert(bytes.subrange(0, bytes.len() as int) =~= bytes);
        },
    }
}

/// Reading a log in two pieces records what reading it in one does: what follows a first
/// piece is read on from where that piece left the cursor.
pub proof fn lemma_reading_is_incremental(
    run: RunView,
    first: Seq<u8>,
    second: Seq<u8>,
    account_key: Seq<char>,
    now: i64,
)
    requires
        run_lines(run, first, account_key, now) is Some,
    ensures
        run_lines(run, first + second, account_key, now) == run_lines(
            run_lines(run, first, account_key, now)->0,
            partial_line(first) + second,
            account_key,
            now,
        ),
    decreases first.len(),
{
    lemma_newline_at(first);
    match newline_at(first) {
        Some(at) => {
            let whole = first + second;
            assert forall|k: int| 0 <= k < at implies #[trigger] whole[k] != 10 by {
                assert(whole[k] == first[k]);
            }
            lemma_newline_found(whole, at);
            assert(whole.subrange(0, at + 1) =~= first.subrange(0, at + 1));
            let rest = first.subrange(at + 1, first.len() as int);
            assert(whole.subrange(at + 1, whole.len() as int) =~= rest + second);
            lemma_reading_is_incremental(
                run_line(run, first.subrange(0, at + 1), account_key, now),
                rest,
                second,
                account_key,
                now,
            );
        },
        None => {},
    }
}

/// Reading again where nothing but an unfinished line was added records nothing.
pub proof fn lemma_reading_again_is_idempotent(
    run: RunView,
    bytes: Seq<u8>,
    account_key: Seq<char>,
    now: i64,
)
    requires
        newline_at(bytes) is None,
        valid_utf8(bytes),
    ensures
        run_lines(run, bytes, account_key, now) == Some(run),
{
}

/// A rebased state counts from zero: the next counter adds only what it has above the last
/// total that was skimmed, and the turn has no other tokens.
pub proof fn lemma_rebased_counts_from_here(state: CursorView, counter: TokenUsage, now: i64)
    requires
        state.wf(),
        is_normal(counter),
        counter.raw_total_tokens >= state.last_totals.raw_total_tokens,
    ensures
        after_counter(rebased(state, now), counter).turn_accumulated_usage.raw_total_tokens
            == counter.raw_total_tokens - state.last_totals.raw_total_tokens,
{
    lemma_increase_is_counter_growth(rebased(state, now), counter);
}

/// Where an unfinished line is left behind other lines, it begins behind a line feed.
pub proof fn lemma_partial_line_follows_a_line_feed(bytes: Seq<u8>)
    ensures
        ({
            let rest = partial_line(bytes);
            &&& rest.len() <= bytes.len()
            &&& rest.len() < bytes.len() ==> bytes[bytes.len() - rest.len() - 1] == 10
            &&& forall|k: int|
                bytes.len() - rest.len() <= k < bytes.len() ==> #[trigger] bytes[k] != 10
        }),
    decreases bytes.len(),
{
    lemma_newline_at(bytes);
    if let Some(at) = newline_at(bytes) {
        let behind = bytes.subrange(at + 1, bytes.len() as int);
        lemma_partial_line_follows_a_line_feed(behind);
        let rest = partial_line(bytes);
        assert(rest == partial_line(behind));
        if rest.len() < behind.len() {
            assert(behind[behind.len() - rest.len() - 1] == bytes[bytes.len() - rest.len() - 1]);
        }
        assert forall|k: int| bytes.len() - rest.len() <= k < bytes.len() implies #[trigger] bytes[k]
            != 10 by {
            assert(behind[k - at - 1] == bytes[k]);
        }
    }
}

/// A line is read as the text that it encodes, without the white space behind it. One that is
/// not JSON is noted where it begins, with the parser's message, and changes nothing else; one
/// that is JSON is taken over, recorded where it has something to record, and noted nowhere.
/// Either way the offset moves over the whole line.
pub proof fn lemma_line_is_recorded_or_noted(
    run: RunView,
    line: Seq<u8>,
    account_key: Seq<char>,
    now: i64,
)
    ensures
        ({
            let after = run_line(run, line, account_key, now);
            &&& after.offset == run.offset + line.len()
            &&& match parsed_json(trimmed_end(decode_utf8(line))) {
                Err(message) => {
                    &&& after.errors == run.errors.push((run.offset, message))
                    &&& after.updates == run.updates
                    &&& after.state == run.state
                    &&& after.changed == run.changed
                },
                Ok(value) => {
                    &&& after.errors == run.errors
                    &&& after.state == after_line(run.state, value, now)
                    &&& match line_update(run.state, value, account_key, now) {
                        Some(update) => {
                            &&& after.updates == run.updates.push(update)
                            &&& update.sample is Some ==> after.changed
                            &&& update.sample is None ==> after.changed == run.changed
                        },
                        None => after.updates == run.updates && after.changed == run.changed,
                    }
                },
            }
        }),
{
    reveal(run_line);
    reveal(after_text);
    reveal(text_update);
}

/// Reading on takes nothing back: what was recorded and noted stays, and tokens were added
/// exactly where a recorded line has a sample.
pub proof fn lemma_run_only_adds(
    run: RunView,
    bytes: Seq<u8>,
    account_key: Seq<char>,
    now: i64,
)
    ensures
        run_lines(run, bytes, account_key, now) matches Some(after) ==> {
            &&& after.updates.len() >= run.updates.len()
            &&& after.errors.len() >= run.errors.len()
            &&& forall|i: int|
                0 <= i < run.updates.len() ==> #[trigger] after.updates[i] == run.updates[i]
            &&& forall|i: int|
                0 <= i < run.errors.len() ==> #[trigger] after.errors[i] == run.errors[i]
            &&& run.changed ==> after.changed
            &&& (forall|i: int|
                run.updates.len() <= i < after.updates.len() ==> (
                #[trigger] after.updates[i]).sample is None) ==> after.changed == run.changed
            &&& (exists|i: int|
                run.updates.len() <= i < after.updates.len() && (
                #[trigger] after.updates[i]).sample is Some) ==> after.changed
        },
    decreases bytes.len(),
{
    if let Some(at) = newline_at(bytes) {
        if 0 <= at < bytes.len() && valid_utf8(bytes.subrange(0, at + 1)) {
            let line = bytes.subrange(0, at + 1);
            let rest = bytes.subrange(at + 1, bytes.len() as int);
            let next = run_line(run, line, account_key, now);
            lemma_line_is_recorded_or_noted(run, line, account_key, now);
            lemma_run_only_adds(next, rest, account_key, now);
            if let Some(after) = run_lines(next, rest, account_key, now) {
                assert forall|i: int| 0 <= i < run.updates.len() implies #[trigger] after.updates[i]
                    == run.updates[i] by {
                    assert(next.updates[i] == run.updates[i]);
                }
                assert forall|i: int| 0 <= i < run.errors.len() implies #[trigger] after.errors[i]
                    == run.errors[i] by {
                    assert(next.errors[i] == run.errors[i]);
                }
                if next.updates.len() > run.updates.len() {
                    let k = run.updates.len() as int;
                    assert(after.updates[k] == next.updates[k]);
                }
            }
        }
    }
}

/// A cursor is read on from only where this parser wrote it and the log is still as long as
/// what it has read.
pub proof fn lemma_stale_cursor_is_not_used(cursor: RolloutCursor, file_len: u64)
    ensures
        cursor_usable(cursor, file_len) <==> !(cursor.byte_offset > file_len
            || cursor.state.parser_version != ROLLOUT_PARSER_VERSION),
{
}

/// A line that is only skimmed leaves the state that reading it does, if it is JSON.
pub proof fn lemma_skimming_knows_what_reading_does(
    run: RunView,
    line: Seq<u8>,
    account_key: Seq<char>,
    now: i64,
)
    requires
        parsed_json(trimmed_end(decode_utf8(line))) is Ok,
    ensures
        skimmed_state(run.state, line, now) == run_line(run, line, account_key, now).state,
{
    reveal(skimmed_state);
    lemma_line_is_recorded_or_noted(run, line, account_key, now);
}

/// Skimming reaches the offset that reading does, and is refused where reading is.
pub proof fn lemma_skimming_reaches_where_reading_does(
    run: RunView,
    state: CursorView,
    bytes: Seq<u8>,
    account_key: Seq<char>,
    now: i64,
)
    ensures
        match (
            run_lines(run, bytes, account_key, now),
            skim_lines(state, run.offset, bytes, now),
        ) {
            (Some(after), Some((_, offset))) => after.offset == offset,
            (None, None) => true,
            _ => false,
        },
    decreases bytes.len(),
{
    if let Some(at) = newline_at(bytes) {
        if 0 <= at < bytes.len() && valid_utf8(bytes.subrange(0, at + 1)) {
            let line = bytes.subrange(0, at + 1);
            let next = run_line(run, line, account_key, now);
            lemma_line_is_recorded_or_noted(run, line, account_key, now);
            lemma_skimming_reaches_where_reading_does(
                next,
                skimmed_state(state, line, now),
                bytes.subrange(at + 1, bytes.len() as int),
                account_key,
                now,
            );
        }
    }
}

} // verus!
