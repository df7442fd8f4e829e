//! The connection to the Codex app server: its state, its messages and where its program is.
use crate::json::{
    field, is_text, opt_view, parse_json, parsed_json, text_of, Json, JsonNumber, JsonView, Whole,
};
use crate::paths::{extension, extension_of, join_path, path_joined};
use crate::rollout::string_views;
use crate::table::{
    first_where, lemma_first_where, lemma_first_where_at, lemma_first_where_none,
};
use crate::text::{
    ascii_lower, ascii_lowercase, char_replaced, chars_of, contains, is_line_feed, joined,
    line_feed_at, occurs_in, replace_char, run_length, same_text, str_opt, text_between, text_opt,
    trim, trimmed,
};
use vstd::prelude::*;

verus! {

// ---------------------------------------------------------------------------
// What others see of the connection
// ---------------------------------------------------------------------------

#[derive(Debug)]
pub struct ConnectionStatus {
    pub phase: String,
    pub generation: u64,
    pub attempt: u32,
    pub retry_in_ms: Option<u64>,
    pub last_error: Option<String>,
    pub codex_path: Option<String>,
}

#[verifier::ext_equal]
pub struct StatusView {
    pub phase: Seq<char>,
    pub generation: u64,
    pub attempt: u32,
    pub retry_in_ms: Option<u64>,
    pub last_error: Option<Seq<char>>,
    pub codex_path: Option<Seq<char>>,
}

impl View for ConnectionStatus {
    type V = StatusView;

    open spec fn view(&self) -> StatusView {
        StatusView {
            phase: self.phase@,
            generation: self.generation,
            attempt: self.attempt,
            retry_in_ms: self.retry_in_ms,
            last_error: text_opt(self.last_error),
            codex_path: text_opt(self.codex_path),
        }
    }
}

impl Default for ConnectionStatus {
    fn default() -> (r: ConnectionStatus)
        ensures
            r@ == (StatusView {
                phase: "disconnected"@,
                generation: 0,
                attempt: 0,
                retry_in_ms: None,
                last_error: None,
                codex_path: None,
            }),
    {
        ConnectionStatus {
            phase: "disconnected".to_owned(),
            generation: 0,
            attempt: 0,
            retry_in_ms: None,
            last_error: None,
            codex_path: None,
        }
    }
}

/// How many seconds to wait before an attempt.
pub open spec fn delay_of(attempt: int) -> int {
    if attempt <= 1 {
        1
    } else if attempt == 2 {
        2
    } else if attempt == 3 {
        4
    } else if attempt == 4 {
        8
    } else if attempt == 5 {
        15
    } else {
        30
    }
}

pub fn reconnect_delay(attempt: u32) -> (r: u64)
    ensures
        r == delay_of(attempt as int),
{
    if attempt <= 1 {
        1
    } else if attempt == 2 {
        2
    } else if attempt == 3 {
        4
    } else if attempt == 4 {
        8
    } else if attempt == 5 {
        15
    } else {
        30
    }
}

/// A later attempt waits no less, and none waits more than half a minute.
pub proof fn lemma_delay_grows(a: int, b: int)
    requires
        0 <= a <= b,
    ensures
        1 <= delay_of(a) <= delay_of(b) <= 30,
{
}

// ---------------------------------------------------------------------------
// The state of the client
// ---------------------------------------------------------------------------

/// What the client knows of its connection. Each transport has a generation; the active one
/// is 0 while there is none.
#[derive(Debug)]
pub struct CodexRpcClient {
    pub status: ConnectionStatus,
    pub active_generation: u64,
    pub next_generation: u64,
    pub next_id: i64,
    pub reconnecting: bool,
    pub reconnect_requested: bool,
    pub shutting_down: bool,
    pub display_path: Option<String>,
    /// The requests that wait for a reply.
    pub pending: Vec<i64>,
}

#[verifier::ext_equal]
pub struct ClientView {
    pub status: StatusView,
    pub active_generation: u64,
    pub next_generation: u64,
    pub next_id: i64,
    pub reconnecting: bool,
    pub reconnect_requested: bool,
    pub shutting_down: bool,
    pub display_path: Option<Seq<char>>,
    pub pending: Seq<i64>,
}

impl View for CodexRpcClient {
    type V = ClientView;

    open spec fn view(&self) -> ClientView {
        ClientView {
            status: self.status@,
            active_generation: self.active_generation,
            next_generation: self.next_generation,
            next_id: self.next_id,
            reconnecting: self.reconnecting,
            reconnect_requested: self.reconnect_requested,
            shutting_down: self.shutting_down,
            display_path: text_opt(self.display_path),
            pending: self.pending@,
        }
    }
}

/// The client with a new status, which names the active generation and the program.
pub open spec fn with_status(
    client: ClientView,
    phase: Seq<char>,
    attempt: u32,
    last_error: Option<Seq<char>>,
    retry_in_ms: Option<u64>,
) -> ClientView {
    ClientView {
        status: StatusView {
            phase,
            generation: client.active_generation,
            attempt,
            retry_in_ms,
            last_error,
            codex_path: client.display_path,
        },
        ..client
    }
}

pub open spec fn fresh_client() -> ClientView {
    ClientView {
        status: StatusView {
            phase: "connecting"@,
            generation: 0,
            attempt: 0,
            retry_in_ms: None,
            last_error: None,
            codex_path: None,
        },
        active_generation: 0,
        next_generation: 1,
        next_id: 1,
        reconnecting: false,
        reconnect_requested: false,
        shutting_down: false,
        display_path: None,
        pending: Seq::empty(),
    }
}

/// The generation behind `generation`, around the end of its range.
pub open spec fn following_generation(generation: u64) -> u64 {
    if generation == u64::MAX {
        0
    } else {
        (generation + 1) as u64
    }
}

pub open spec fn following_id(id: i64) -> i64 {
    if id == i64::MAX {
        i64::MIN
    } else {
        (id + 1) as i64
    }
}

/// The client without its transport, and with the reason told.
pub open spec fn cut_off(client: ClientView, reason: Seq<char>) -> ClientView {
    with_status(
        ClientView { active_generation: 0, pending: Seq::empty(), ..client },
        "disconnected"@,
        0,
        Some(reason),
        None,
    )
}

fn copy_opt(value: &Option<String>) -> (r: Option<String>)
    ensures
        text_opt(r) == text_opt(*value),
{
    match value {
        Some(text) => Some(text.clone()),
        None => None,
    }
}

impl CodexRpcClient {
    /// A client that is about to connect for the first time.
    pub fn start() -> (r: CodexRpcClient)
        ensures
            r@ == fresh_client(),
    {
        let mut client = CodexRpcClient {
            status: ConnectionStatus::default(),
            active_generation: 0,
            next_generation: 1,
            next_id: 1,
            reconnecting: false,
            reconnect_requested: false,
            shutting_down: false,
            display_path: None,
            pending: Vec::new(),
        };
        client.set_status("connecting", 0, None, None);
        assert(client@ =~= fresh_client());
        client
    }

    pub fn set_status(
        &mut self,
        phase: &str,
        attempt: u32,
        last_error: Option<String>,
        retry_in_ms: Option<u64>,
    )
        ensures
            final(self)@ == with_status(
                old(self)@,
                phase@,
                attempt,
                text_opt(last_error),
                retry_in_ms,
            ),
    {
        self.status = ConnectionStatus {
            phase: phase.to_owned(),
            generation: self.active_generation,
            attempt,
            retry_in_ms,
            last_error,
            codex_path: copy_opt(&self.display_path),
        };
    }

    pub fn status(&self) -> (r: ConnectionStatus)
        ensures
            r@ == self@.status,
    {
        ConnectionStatus {
            phase: self.status.phase.clone(),
            generation: self.status.generation,
            attempt: self.status.attempt,
            retry_in_ms: self.status.retry_in_ms,
            last_error: copy_opt(&self.status.last_error),
            codex_path: copy_opt(&self.status.codex_path),
        }
    }

    pub fn display_path(&self) -> (r: Option<String>)
        ensures
            text_opt(r) == self@.display_path,
    {
        copy_opt(&self.display_path)
    }

    /// An attempt to connect begins, unless the client shuts down.
    pub fn establish_connection(&mut self, attempt: u32) -> (r: Result<(), String>)
        ensures
            match r {
                Ok(_) => !old(self)@.shutting_down && final(self)@ == with_status(
                    old(self)@,
                    if attempt == 0 {
                        "connecting"@
                    } else {
                        "reconnecting"@
                    },
                    attempt,
                    None,
                    None,
                ),
                Err(error) => {
                    &&& old(self)@.shutting_down
                    &&& error@ == "Codex RPC client is shutting down"@
                    &&& final(self)@ == old(self)@
                },
            },
    {
        if self.shutting_down {
            return Err("Codex RPC client is shutting down".to_owned());
        }
        let phase = if attempt == 0 {
            "connecting"
        } else {
            "reconnecting"
        };
        self.set_status(phase, attempt, None, None);
        Ok(())
    }

    /// The program runs: its transport becomes the active one, under a generation of its own.
    pub fn transport_started(&mut self, program: &str, attempt: u32) -> (generation: u64)
        ensures
            generation == old(self)@.next_generation,
            final(self)@ == with_status(
                (ClientView {
                    active_generation: generation,
                    next_generation: following_generation(generation),
                    display_path: Some(program@),
                    ..old(self)@
                }),
                "initializing"@,
                attempt,
                None,
                None,
            ),
    {
        let generation: u64 = self.next_generation;
        self.next_generation = if generation == 0xffff_ffff_ffff_ffff {
            0
        } else {
            generation + 1
        };
        self.display_path = Some(program.to_owned());
        self.active_generation = generation;
        self.set_status("initializing", attempt, None, None);
        generation
    }

    /// The handshake is done.
    pub fn became_ready(&mut self, attempt: u32)
        ensures
            final(self)@ == with_status(old(self)@, "ready"@, attempt, None, None),
    {
        self.set_status("ready", attempt, None, None);
    }

    /// Requests of others are taken only while the connection is ready.
    pub fn request(&self) -> (r: Result<(), String>)
        ensures
            match r {
                Ok(_) => self@.status.phase == "ready"@,
                Err(error) => self@.status.phase != "ready"@ && error@
                    == "Codex connection is not ready (state="@ + self@.status.phase + ")"@,
            },
    {
        if same_text(self.status.phase.as_str(), "ready") {
            Ok(())
        } else {
            let front = joined(
                "Codex connection is not ready (state=",
                self.status.phase.as_str(),
            );
            Err(joined(front.as_str(), ")"))
        }
    }

    /// A request gets its number, and waits for its reply where there is a transport.
    pub fn begin_request(&mut self) -> (r: Result<i64, String>)
        ensures
            final(self)@.next_id == following_id(old(self)@.next_id),
            match r {
                Ok(id) => {
                    &&& old(self)@.active_generation != 0
                    &&& id == old(self)@.next_id
                    &&& final(self)@ == (ClientView {
                        next_id: following_id(id),
                        pending: if old(self)@.pending.contains(id) {
                            old(self)@.pending
                        } else {
                            old(self)@.pending.push(id)
                        },
                        ..old(self)@
                    })
                },
                Err(error) => {
                    &&& old(self)@.active_generation == 0
                    &&& error@ == "Codex transport is disconnected"@
                    &&& final(self)@ == (ClientView {
                        next_id: following_id(old(self)@.next_id),
                        ..old(self)@
                    })
                },
            },
    {
        let id: i64 = self.next_id;
        self.next_id = if id == 0x7fff_ffff_ffff_ffff {
            -0x8000_0000_0000_0000
        } else {
            id + 1
        };
        if self.active_generation == 0 {
            return Err("Codex transport is disconnected".to_owned());
        }
        match self.pending_at(id) {
            Some(at) => {
                assert(self.pending@[at as int] == id);
            },
            None => {
                self.pending.push(id);
            },
        }
        Ok(id)
    }

    fn pending_at(&self, id: i64) -> (r: Option<usize>)
        ensures
            match r {
                Some(at) => at < self.pending.len() && self.pending@[at as int] == id && forall|
                    k: int,
                |
                    0 <= k < at ==> self.pending@[k] != id,
                None => !self.pending@.contains(id),
            },
    {
        let mut i: usize = 0;
        while i < self.pending.len()
            invariant
                i <= self.pending.len(),
                forall|k: int| 0 <= k < i ==> self.pending@[k] != id,
            decreases self.pending.len() - i,
        {
            if self.pending[i] == id {
                return Some(i);
            }
            i += 1;
        }
        None
    }

    /// Takes a request off the list of those that wait. Says whether it was on it.
    pub fn remove_pending(&mut self, id: i64) -> (r: bool)
        ensures
            r == old(self)@.pending.contains(id),
            final(self)@ == (ClientView { pending: without_id(old(self)@.pending, id), ..old(self)@ }),
    {
        match self.pending_at(id) {
            Some(at) => {
                let ghost before = self.pending@;
                let _id: i64 = self.pending.remove(at);
                proof {
                    assert(before[at as int] == id);
                    lemma_without_id(before, id, at as int);
                }
                true
            },
            None => {
                proof {
                    lemma_without_id_absent(self.pending@, id);
                }
                false
            },
        }
    }

    /// A transport is gone. Only the active one takes the connection with it; the requests
    /// that waited are handed out, to be told so.
    pub fn disconnect_generation(&mut self, generation: u64, reason: &str) -> (r: Option<Vec<i64>>)
        ensures
            match r {
                Some(waiting) => {
                    &&& old(self)@.active_generation == generation
                    &&& waiting@ == old(self)@.pending
                    &&& final(self)@ == cut_off(old(self)@, reason@)
                },
                None => old(self)@.active_generation != generation && final(self)@ == old(self)@,
            },
    {
        if self.active_generation != generation {
            return None;
        }
        self.active_generation = 0;
        let mut waiting: Vec<i64> = Vec::new();
        std::mem::swap(&mut waiting, &mut self.pending);
        self.set_status("disconnected", 0, Some(reason.to_owned()), None);
        Some(waiting)
    }

    /// A transport failed. Nothing more is done about it while the client shuts down.
    pub fn transport_failed(&mut self, generation: u64, reason: &str) -> (r: Option<Vec<i64>>)
        ensures
            match r {
                Some(waiting) => {
                    &&& !old(self)@.shutting_down
                    &&& old(self)@.active_generation == generation
                    &&& waiting@ == old(self)@.pending
                    &&& final(self)@ == cut_off(old(self)@, reason@)
                },
                None => {
                    &&& old(self)@.shutting_down || old(self)@.active_generation != generation
                    &&& final(self)@ == old(self)@
                },
            },
    {
        if self.shutting_down {
            return None;
        }
        self.disconnect_generation(generation, reason)
    }

    /// The user asks to connect again.
    pub fn reconnect(&mut self) -> (r: Result<(), String>)
        ensures
            match r {
                Ok(_) => {
                    let status = old(self)@.status;
                    &&& !old(self)@.shutting_down
                    &&& status.phase == "disconnected"@ || status.phase == "reconnecting"@
                    &&& final(self)@ == (ClientView {
                        reconnect_requested: true,
                        ..with_status(
                            old(self)@,
                            "reconnecting"@,
                            if status.attempt == 0 {
                                1u32
                            } else {
                                status.attempt
                            },
                            status.last_error,
                            Some(0u64),
                        )
                    })
                },
                Err(error) => {
                    &&& final(self)@ == old(self)@
                    &&& if old(self)@.shutting_down {
                        error@ == "Codex RPC client is shutting down"@
                    } else {
                        &&& old(self)@.status.phase != "disconnected"@
                        &&& old(self)@.status.phase != "reconnecting"@
                        &&& error@ == "Codex connection is not disconnected (state="@
                            + old(self)@.status.phase + ")"@
                    }
                },
            },
    {
        if self.shutting_down {
            return Err("Codex RPC client is shutting down".to_owned());
        }
        let status = self.status();
        if !same_text(status.phase.as_str(), "disconnected") && !same_text(
            status.phase.as_str(),
            "reconnecting",
        ) {
            let front = joined(
                "Codex connection is not disconnected (state=",
                status.phase.as_str(),
            );
            return Err(joined(front.as_str(), ")"));
        }
        let attempt: u32 = if status.attempt == 0 {
            1
        } else {
            status.attempt
        };
        self.set_status("reconnecting", attempt, status.last_error, Some(0));
        self.reconnect_requested = true;
        Ok(())
    }

    /// The loop that reconnects is to be started: there is none yet, and the client goes on.
    pub fn schedule_reconnect(&mut self) -> (r: bool)
        ensures
            r == (!old(self)@.shutting_down && !old(self)@.reconnecting),
            final(self)@ == (ClientView {
                reconnecting: old(self)@.reconnecting || r,
                ..old(self)@
            }),
    {
        if self.shutting_down || self.reconnecting {
            return false;
        }
        self.reconnecting = true;
        true
    }

    /// Whether the user asked to connect at once; the question is answered once.
    pub fn take_reconnect_request(&mut self) -> (r: bool)
        ensures
            r == old(self)@.reconnect_requested,
            final(self)@ == (ClientView { reconnect_requested: false, ..old(self)@ }),
    {
        let requested = self.reconnect_requested;
        self.reconnect_requested = false;
        requested
    }

    /// The loop that reconnects goes on, unless the client shuts down: then it ends.
    pub fn reconnect_goes_on(&mut self) -> (r: bool)
        ensures
            r == !old(self)@.shutting_down,
            final(self)@ == (ClientView {
                reconnecting: old(self)@.reconnecting && r,
                ..old(self)@
            }),
    {
        if self.shutting_down {
            self.reconnecting = false;
            return false;
        }
        true
    }

    /// A round of the loop that reconnects: how many milliseconds to wait before the attempt,
    /// or nothing where the loop ends. Who asked to connect does not wait.
    pub fn begin_attempt(&mut self, attempt: u32) -> (r: Option<u64>)
        ensures
            match r {
                None => old(self)@.shutting_down && final(self)@ == (ClientView {
                    reconnecting: false,
                    ..old(self)@
                }),
                Some(delay) => {
                    &&& !old(self)@.shutting_down
                    &&& delay == (if old(self)@.reconnect_requested {
                        0
                    } else {
                        1000 * delay_of(attempt as int)
                    })
                    &&& final(self)@ == with_status(
                        (ClientView { reconnect_requested: false, ..old(self)@ }),
                        "reconnecting"@,
                        attempt,
                        old(self)@.status.last_error,
                        Some(delay),
                    )
                },
            },
    {
        if !self.reconnect_goes_on() {
            return None;
        }
        let delay: u64 = if self.take_reconnect_request() {
            0
        } else {
            1000 * reconnect_delay(attempt)
        };
        let last_error = copy_opt(&self.status.last_error);
        self.set_status("reconnecting", attempt, last_error, Some(delay));
        Some(delay)
    }

    /// An attempt of the loop succeeded: the loop ends.
    pub fn attempt_succeeded(&mut self)
        ensures
            final(self)@ == (ClientView {
                reconnecting: false,
                reconnect_requested: false,
                ..old(self)@
            }),
    {
        self.reconnect_requested = false;
        self.reconnecting = false;
    }

    /// An attempt of the loop failed. Gives the number of the next one.
    pub fn attempt_failed(&mut self, attempt: u32, error: &str) -> (next: u32)
        ensures
            next == (if attempt == u32::MAX {
                attempt as int
            } else {
                attempt + 1
            }),
            final(self)@ == with_status(old(self)@, "disconnected"@, attempt, Some(error@), None),
    {
        self.set_status("disconnected", attempt, Some(error.to_owned()), None);
        if attempt == 0xffff_ffff {
            attempt
        } else {
            attempt + 1
        }
    }

    /// The client ends. The requests that waited are handed out, to be told so.
    pub fn shut_down(&mut self) -> (waiting: Vec<i64>)
        ensures
            waiting@ == old(self)@.pending,
            final(self)@ == (ClientView {
                shutting_down: true,
                active_generation: 0,
                pending: Seq::empty(),
                ..old(self)@
            }),
    {
        self.shutting_down = true;
        self.active_generation = 0;
        let mut waiting: Vec<i64> = Vec::new();
        std::mem::swap(&mut waiting, &mut self.pending);
        waiting
    }
}

/// A list without the first place at which a number stands.
pub open spec fn without_id(ids: Seq<i64>, id: i64) -> Seq<i64>
    decreases ids.len(),
{
    if ids.len() == 0 {
        ids
    } else if ids.first() == id {
        ids.drop_first()
    } else {
        seq![ids.first()] + without_id(ids.drop_first(), id)
    }
}

proof fn lemma_without_id(ids: Seq<i64>, id: i64, at: int)
    requires
        0 <= at < ids.len(),
        ids[at] == id,
        forall|k: int| 0 <= k < at ==> ids[k] != id,
    ensures
        without_id(ids, id) == ids.remove(at),
    decreases ids.len(),
{
    if at == 0 {
        assert(ids.remove(0) =~= ids.drop_first());
    } else {
        let rest = ids.drop_first();
        assert forall|k: int| 0 <= k < at - 1 implies rest[k] != id by {
            assert(rest[k] == ids[k + 1]);
        }
        lemma_without_id(rest, id, at - 1);
        assert(ids.remove(at) =~= seq![ids.first()] + rest.remove(at - 1));
    }
}

proof fn lemma_without_id_absent(ids: Seq<i64>, id: i64)
    requires
        !ids.contains(id),
    ensures
        without_id(ids, id) == ids,
    decreases ids.len(),
{
    if ids.len() > 0 {
        let rest = ids.drop_first();
        assert(ids[0] != id);
        assert(!rest.contains(id)) by {
            if rest.contains(id) {
                let k = rest.index_of(id);
                assert(ids[k + 1] == id);
            }
        }
        lemma_without_id_absent(rest, id);
        assert(ids =~= seq![ids.first()] + rest);
    }
}

// ---------------------------------------------------------------------------
// Messages
// ---------------------------------------------------------------------------

/// What a message of the server is.
pub enum Incoming<'a> {
    /// It comes from a transport that is no longer the active one.
    Stale,
    /// A request of the server, which nothing here answers.
    Unhandled,
    /// The reply to a request; `waiting` says whether the request still waits.
    Reply { id: i64, waiting: bool, error: Option<&'a Json>, result: Option<&'a Json> },
    RateLimits { params: &'a Json },
    Account { payload: Option<&'a Json> },
    Ignored,
}

pub enum IncomingView {
    Stale,
    Unhandled,
    Reply { id: int, waiting: bool, error: Option<JsonView>, result: Option<JsonView> },
    RateLimits { params: JsonView },
    Account { payload: Option<JsonView> },
    Ignored,
}

impl View for Incoming<'_> {
    type V = IncomingView;

    open spec fn view(&self) -> IncomingView {
        match self {
            Incoming::Stale => IncomingView::Stale,
            Incoming::Unhandled => IncomingView::Unhandled,
            Incoming::Reply { id, waiting, error, result } => IncomingView::Reply {
                id: *id as int,
                waiting: *waiting,
                error: opt_view(*error),
                result: opt_view(*result),
            },
            Incoming::RateLimits { params } => IncomingView::RateLimits { params: params@ },
            Incoming::Account { payload } => IncomingView::Account { payload: opt_view(*payload) },
            Incoming::Ignored => IncomingView::Ignored,
        }
    }
}

/// A number that is whole and within the range of the ids.
pub open spec fn id_of(value: Option<JsonView>) -> Option<int> {
    match value {
        Some(JsonView::Number(n)) => match n.whole {
            Whole::Unsigned(n) => if n <= i64::MAX {
                Some(n as int)
            } else {
                None
            },
            Whole::Negative(n) => Some(n as int),
            Whole::Truncated(_) => None,
        },
        _ => None,
    }
}

fn read_id(value: Option<&Json>) -> (r: Option<i64>)
    ensures
        match r {
            Some(id) => id_of(opt_view(value)) == Some(id as int),
            None => id_of(opt_view(value)) is None,
        },
{
    match value {
        Some(Json::Number(n)) => match n.whole {
            Whole::Unsigned(n) => if n <= 0x7fff_ffff_ffff_ffff {
                Some(n as i64)
            } else {
                None
            },
            Whole::Negative(n) => Some(n),
            Whole::Truncated(_) => None,
        },
        _ => None,
    }
}

/// What a message is to the client: with an id and no method it is a reply, with both a
/// request, and else it is told by its method.
pub open spec fn incoming(client: ClientView, generation: u64, message: JsonView) -> IncomingView {
    if client.active_generation != generation {
        IncomingView::Stale
    } else {
        match id_of(field(message, "id"@)) {
            Some(id) => if field(message, "method"@) is Some {
                IncomingView::Unhandled
            } else {
                IncomingView::Reply {
                    id,
                    waiting: client.pending.contains(id as i64),
                    error: field(message, "error"@),
                    result: field(message, "result"@),
                }
            },
            None => {
                let method = text_of(field(message, "method"@));
                if method == Some("account/rateLimits/updated"@) {
                    match field(message, "params"@) {
                        Some(params) => IncomingView::RateLimits { params },
                        None => IncomingView::Ignored,
                    }
                } else if method == Some("account/updated"@) {
                    IncomingView::Account { payload: field(message, "params"@) }
                } else {
                    IncomingView::Ignored
                }
            },
        }
    }
}

/// A line of the server that is worth a look, as a message.
pub fn read_message(line: &str) -> (r: Option<Json>)
    ensures
        match r {
            Some(message) => trimmed(line@).len() > 0 && parsed_json(line@) == Ok::<
                JsonView,
                Seq<char>,
            >(message@),
            None => trimmed(line@).len() == 0 || parsed_json(line@) is Err,
        },
{
    let inner = trim(line);
    proof {
        reveal_strlit("");
    }
    if same_text(inner.as_str(), "") {
        return None;
    }
    assert(inner@.len() > 0) by {
        if inner@.len() == 0 {
            assert(inner@ =~= ""@);
        }
    }
    match parse_json(line) {
        Ok(message) => Some(message),
        Err(_) => None,
    }
}

/// What the server writes to its error stream and is worth passing on.
pub open spec fn is_worth_passing_on(line: Seq<char>) -> bool {
    trimmed(line).len() > 0 && !occurs_in(
        "failed to refresh available models: timeout waiting for child process to exit"@,
        line,
    )
}

pub fn passes_on(line: &str) -> (r: bool)
    ensures
        r == is_worth_passing_on(line@),
{
    let inner = trim(line);
    proof {
        reveal_strlit("");
        if inner@.len() == 0 {
            assert(inner@ =~= ""@);
        }
    }
    !same_text(inner.as_str(), "") && !contains(
        line,
        "failed to refresh available models: timeout waiting for child process to exit",
    )
}

impl CodexRpcClient {
    /// Takes a message in. A reply takes its request off the list of those that wait.
    pub fn handle_message<'a>(&mut self, generation: u64, message: &'a Json) -> (r: Incoming<'a>)
        ensures
            r@ == incoming(old(self)@, generation, message@),
            final(self)@ == (match incoming(old(self)@, generation, message@) {
                IncomingView::Reply { id, .. } => (ClientView {
                    pending: without_id(old(self)@.pending, id as i64),
                    ..old(self)@
                }),
                _ => old(self)@,
            }),
    {
        if self.active_generation != generation {
            return Incoming::Stale;
        }
        let method = message.get("method");
        match read_id(message.get("id")) {
            Some(id) => {
                if method.is_some() {
                    return Incoming::Unhandled;
                }
                let error = message.get("error");
                let result = message.get("result");
                let waiting = self.remove_pending(id);
                Incoming::Reply { id, waiting, error, result }
            },
            None => if is_text(method, "account/rateLimits/updated") {
                match message.get("params") {
                    Some(params) => Incoming::RateLimits { params },
                    None => Incoming::Ignored,
                }
            } else if is_text(method, "account/updated") {
                Incoming::Account { payload: message.get("params") }
            } else {
                Incoming::Ignored
            },
        }
    }
}

/// Why a request got no reply.
#[derive(Clone, Copy, Debug, PartialEq, Eq, Structural)]
pub enum RequestFailure {
    TimedOut,
    Disconnected,
}

pub open spec fn failure_reason(failure: RequestFailure, method: Seq<char>) -> Seq<char> {
    match failure {
        RequestFailure::TimedOut => "RPC `"@ + method + "` timed out"@,
        RequestFailure::Disconnected => "RPC `"@ + method + "` response channel disconnected"@,
    }
}

pub open spec fn failure_error(failure: RequestFailure, method: Seq<char>) -> Seq<char> {
    match failure {
        RequestFailure::TimedOut => "Timed out waiting for Codex RPC `"@ + method + "`"@,
        RequestFailure::Disconnected => "Codex RPC `"@ + method + "` disconnected"@,
    }
}

impl RequestFailure {
    /// Why the transport failed.
    pub fn reason(self, method: &str) -> (r: String)
        ensures
            r@ == failure_reason(self, method@),
    {
        let front = joined("RPC `", method);
        match self {
            RequestFailure::TimedOut => joined(front.as_str(), "` timed out"),
            RequestFailure::Disconnected => joined(
                front.as_str(),
                "` response channel disconnected",
            ),
        }
    }

    /// What the caller is told.
    pub fn error(self, method: &str) -> (r: String)
        ensures
            r@ == failure_error(self, method@),
    {
        match self {
            RequestFailure::TimedOut => joined(
                joined("Timed out waiting for Codex RPC `", method).as_str(),
                "`",
            ),
            RequestFailure::Disconnected => joined(
                joined("Codex RPC `", method).as_str(),
                "` disconnected",
            ),
        }
    }
}

/// What an earlier transport sends changes nothing and is answered nowhere.
pub proof fn lemma_stale_transport_is_ignored(
    client: ClientView,
    generation: u64,
    message: JsonView,
)
    requires
        client.active_generation != generation,
    ensures
        incoming(client, generation, message) is Stale,
{
}

/// A transport that was cut off stays so: no message of its generation is taken, unless the
/// generation is 0, under which nothing ever runs before the numbers start over.
pub proof fn lemma_cut_off_is_final(
    client: ClientView,
    reason: Seq<char>,
    generation: u64,
    message: JsonView,
)
    requires
        generation != 0,
    ensures
        incoming(cut_off(client, reason), generation, message) is Stale,
        cut_off(client, reason).pending.len() == 0,
{
}

/// A request is answered once: behind its reply no other reply finds it waiting.
pub proof fn lemma_reply_is_taken_once(ids: Seq<i64>, id: i64)
    requires
        ids.no_duplicates(),
    ensures
        !without_id(ids, id).contains(id),
        without_id(ids, id).no_duplicates(),
        forall|other: i64|
            other != id ==> (#[trigger] without_id(ids, id).contains(other) <==> ids.contains(
                other,
            )),
{
    if ids.contains(id) {
        let at = ids.index_of(id);
        assert forall|k: int| 0 <= k < at implies ids[k] != id by {}
        lemma_without_id(ids, id, at);
        let rest = ids.remove(at);
        assert forall|k: int| 0 <= k < rest.len() implies rest[k] == ids[if k < at {
            k
        } else {
            k + 1
        }] by {}
        assert forall|other: i64| other != id implies (#[trigger] rest.contains(other)
            <==> ids.contains(other)) by {
            if ids.contains(other) {
                let k = ids.index_of(other);
                let to = if k < at {
                    k
                } else {
                    k - 1
                };
                assert(rest[to] == other);
            }
        }
    } else {
        lemma_without_id_absent(ids, id);
    }
}

// ---------------------------------------------------------------------------
// The program
// ---------------------------------------------------------------------------

/// How to run the program.
#[derive(Debug)]
pub struct CodexCommand {
    pub program: String,
    pub prefix_args: Vec<String>,
    pub display_path: String,
}

#[verifier::ext_equal]
pub struct CommandView {
    pub program: Seq<char>,
    pub prefix_args: Seq<Seq<char>>,
    pub display_path: Seq<char>,
}

impl View for CodexCommand {
    type V = CommandView;

    open spec fn view(&self) -> CommandView {
        CommandView {
            program: self.program@,
            prefix_args: string_views(self.prefix_args@),
            display_path: self.display_path@,
        }
    }
}

/// The extension of a program, in small letters, where parts may stand between backslashes.
pub open spec fn program_extension(path: Seq<char>) -> Option<Seq<char>> {
    match extension_of(char_replaced(path, '\\', '/')) {
        Some(found) => Some(ascii_lower(found)),
        None => None,
    }
}

fn lower_extension(path: &str) -> (r: Option<String>)
    ensures
        text_opt(r) == program_extension(path@),
{
    match extension(replace_char(path, '\\', '/').as_str()) {
        Some(found) => Some(ascii_lowercase(found.as_str())),
        None => None,
    }
}

/// A script of the Windows shell.
pub open spec fn is_script(path: Seq<char>) -> bool {
    program_extension(path) == Some("cmd"@) || program_extension(path) == Some("bat"@)
}

/// How to run the program at a path: on Windows a script is run by the shell.
pub open spec fn command_of(path: Seq<char>, windows: bool) -> CommandView {
    if windows && is_script(path) {
        CommandView {
            program: "cmd.exe"@,
            prefix_args: seq!["/C"@, path],
            display_path: path,
        }
    } else {
        CommandView { program: path, prefix_args: Seq::empty(), display_path: path }
    }
}

fn has_extension(path: &str, wanted: &str) -> (r: bool)
    ensures
        r == (program_extension(path@) == Some(wanted@)),
{
    match lower_extension(path) {
        Some(found) => same_text(found.as_str(), wanted),
        None => false,
    }
}

pub fn command_for_path(path: &str, windows: bool) -> (r: CodexCommand)
    ensures
        r@ == command_of(path@, windows),
{
    if windows && (has_extension(path, "cmd") || has_extension(path, "bat")) {
        let mut prefix_args: Vec<String> = Vec::new();
        prefix_args.push("/C".to_owned());
        prefix_args.push(path.to_owned());
        assert(string_views(prefix_args@) =~= seq!["/C"@, path@]);
        return CodexCommand {
            program: "cmd.exe".to_owned(),
            prefix_args,
            display_path: path.to_owned(),
        };
    }
    let r = CodexCommand {
        program: path.to_owned(),
        prefix_args: Vec::new(),
        display_path: path.to_owned(),
    };
    assert(r@ =~= command_of(path@, windows));
    r
}

/// A path at which the program may be, and whether a file is there.
#[derive(Debug)]
pub struct Candidate {
    pub path: String,
    pub is_file: bool,
}

/// The first path at which there is a file.
pub open spec fn first_file(candidates: Seq<Candidate>) -> Option<Seq<char>>
    decreases candidates.len(),
{
    if candidates.len() == 0 {
        None
    } else if candidates.first().is_file {
        Some(candidates.first().path@)
    } else {
        first_file(candidates.drop_first())
    }
}

pub fn first_existing(candidates: &Vec<Candidate>) -> (r: Option<String>)
    ensures
        text_opt(r) == first_file(candidates@),
{
    let mut i: usize = 0;
    assert(candidates@.skip(0) =~= candidates@);
    while i < candidates.len()
        invariant
            i <= candidates.len(),
            first_file(candidates@) == first_file(candidates@.skip(i as int)),
        decreases candidates.len() - i,
    {
        assert(candidates@.skip(i as int).drop_first() =~= candidates@.skip(i + 1));
        if candidates[i].is_file {
            return Some(candidates[i].path.clone());
        }
        i += 1;
    }
    None
}

/// The names under which the program goes.
pub open spec fn program_names(windows: bool) -> Seq<Seq<char>> {
    if windows {
        seq!["codex.exe"@, "codex.cmd"@, "codex.bat"@]
    } else {
        seq!["codex"@]
    }
}

/// The program's names in the first `n` directories, directory by directory.
pub open spec fn names_in(directories: Seq<String>, n: int, windows: bool) -> Seq<Seq<char>>
    decreases n,
{
    if n <= 0 {
        Seq::empty()
    } else {
        names_in(directories, n - 1, windows) + Seq::new(
            program_names(windows).len(),
            |i: int| path_joined(directories[n - 1]@, program_names(windows)[i]),
        )
    }
}

/// Where the program is in the directories of the search path.
pub fn executable_candidates_in_path(directories: &Vec<String>, windows: bool) -> (r: Vec<String>)
    ensures
        string_views(r@) == names_in(directories@, directories@.len() as int, windows),
{
    let mut r: Vec<String> = Vec::new();
    let mut i: usize = 0;
    assert(string_views(r@) =~= names_in(directories@, 0, windows));
    while i < directories.len()
        invariant
            i <= directories.len(),
            string_views(r@) == names_in(directories@, i as int, windows),
        decreases directories.len() - i,
    {
        let ghost before = string_views(r@);
        let directory = directories[i].as_str();
        if windows {
            r.push(join_path(directory, "codex.exe"));
            r.push(join_path(directory, "codex.cmd"));
            r.push(join_path(directory, "codex.bat"));
        } else {
            r.push(join_path(directory, "codex"));
        }
        proof {
            let added = Seq::new(
                program_names(windows).len(),
                |k: int| path_joined(directories[i as int]@, program_names(windows)[k]),
            );
            assert(string_views(r@) =~= before + added);
        }
        i += 1;
    }
    r
}

/// The lines of a text, without the whitespace around them.
pub open spec fn trimmed_lines(s: Seq<char>) -> Seq<Seq<char>>
    decreases s.len(),
{
    if s.len() == 0 {
        Seq::empty()
    } else {
        let end = run_length(s, is_line_feed()) as int;
        let first = seq![trimmed(s.subrange(0, end))];
        if 0 <= end < s.len() {
            first + trimmed_lines(s.subrange(end + 1, s.len() as int))
        } else {
            first
        }
    }
}

/// The paths that a shell prints, one on a line.
pub fn shell_path_candidates(output: &str) -> (r: Vec<String>)
    ensures
        string_views(r@) == trimmed_lines(output@),
{
    let chars = chars_of(output);
    let ghost all = chars@;
    let mut r: Vec<String> = Vec::new();
    let mut from: usize = 0;
    proof {
        assert(all.subrange(0, all.len() as int) =~= all);
        assert(string_views(r@) + trimmed_lines(all) =~= trimmed_lines(all));
    }
    while from < chars.len()
        invariant
            from <= chars.len(),
            all == chars@,
            all == output@,
            string_views(r@) + trimmed_lines(all.subrange(from as int, all.len() as int))
                == trimmed_lines(all),
        decreases chars.len() - from,
    {
        let ghost rest = all.subrange(from as int, all.len() as int);
        let end: usize = line_feed_at(&chars, from);
        let line = trim(text_between(&chars, from, end).as_str());
        let ghost before = string_views(r@);
        r.push(line);
        proof {
            assert(rest.subrange(0, end - from) =~= all.subrange(from as int, end as int));
            assert(string_views(r@) =~= before.push(line@));
            if end < chars.len() {
                let next = all.subrange(end + 1, all.len() as int);
                assert(rest.subrange(end - from + 1, rest.len() as int) =~= next);
                assert(before + (seq![line@] + trimmed_lines(next)) =~= before.push(line@)
                    + trimmed_lines(next));
            } else {
                assert(before + seq![line@] =~= before.push(line@));
            }
        }
        if end == chars.len() {
            return r;
        }
        from = end + 1;
    }
    proof {
        assert(all.subrange(from as int, all.len() as int) =~= Seq::empty());
        assert(string_views(r@) + trimmed_lines(Seq::empty()) =~= string_views(r@));
    }
    r
}

/// The paths of the application bundles.
pub open spec fn bundle_paths(home: Option<Seq<char>>) -> Seq<Seq<char>> {
    let shared = seq![
        "/Applications/ChatGPT.app/Contents/Resources/codex"@,
        "/Applications/Codex.app/Contents/Resources/codex"@,
    ];
    match home {
        Some(home) => shared + seq![
            path_joined(home, "Applications/ChatGPT.app/Contents/Resources/codex"@),
            path_joined(home, "Applications/Codex.app/Contents/Resources/codex"@),
        ],
        None => shared,
    }
}

pub fn macos_codex_candidates(home: Option<&str>) -> (r: Vec<String>)
    ensures
        string_views(r@) == bundle_paths(str_opt(home)),
{
    let mut r: Vec<String> = Vec::new();
    r.push("/Applications/ChatGPT.app/Contents/Resources/codex".to_owned());
    r.push("/Applications/Codex.app/Contents/Resources/codex".to_owned());
    if let Some(home) = home {
        r.push(join_path(home, "Applications/ChatGPT.app/Contents/Resources/codex"));
        r.push(join_path(home, "Applications/Codex.app/Contents/Resources/codex"));
    }
    assert(string_views(r@) =~= bundle_paths(str_opt(home)));
    r
}

pub open spec fn with_joined(
    paths: Seq<Seq<char>>,
    directory: Option<Seq<char>>,
    rest: Seq<char>,
) -> Seq<Seq<char>> {
    match directory {
        Some(directory) => paths.push(path_joined(directory, rest)),
        None => paths,
    }
}

/// The paths at which package managers put the program.
pub open spec fn package_paths(
    home: Option<Seq<char>>,
    nvm_bin: Option<Seq<char>>,
    fnm_shell: Option<Seq<char>>,
    volta_home: Option<Seq<char>>,
) -> Seq<Seq<char>> {
    let shared = seq![
        "/opt/homebrew/bin/codex"@,
        "/usr/local/bin/codex"@,
        "/usr/bin/codex"@,
    ];
    let own = with_joined(
        with_joined(
            with_joined(
                with_joined(
                    with_joined(shared, home, ".local/bin/codex"@),
                    home,
                    ".npm-global/bin/codex"@,
                ),
                home,
                ".volta/bin/codex"@,
            ),
            home,
            ".nvm/current/bin/codex"@,
        ),
        home,
        ".fnm/current/bin/codex"@,
    );
    with_joined(
        with_joined(with_joined(own, nvm_bin, "codex"@), fnm_shell, "codex"@),
        volta_home,
        "bin/codex"@,
    )
}

fn add_joined(paths: &mut Vec<String>, directory: Option<&str>, rest: &str)
    ensures
        string_views(final(paths)@) == with_joined(
            string_views(old(paths)@),
            str_opt(directory),
            rest@,
        ),
{
    if let Some(directory) = directory {
        let ghost before = string_views(paths@);
        let path = join_path(directory, rest);
        paths.push(path);
        assert(string_views(paths@) =~= before.push(path@));
    }
}

pub fn unix_codex_candidates(
    home: Option<&str>,
    nvm_bin: Option<&str>,
    fnm_shell: Option<&str>,
    volta_home: Option<&str>,
) -> (r: Vec<String>)
    ensures
        string_views(r@) == package_paths(
            str_opt(home),
            str_opt(nvm_bin),
            str_opt(fnm_shell),
            str_opt(volta_home),
        ),
{
    let mut r: Vec<String> = Vec::new();
    r.push("/opt/homebrew/bin/codex".to_owned());
    r.push("/usr/local/bin/codex".to_owned());
    r.push("/usr/bin/codex".to_owned());
    assert(string_views(r@) =~= seq![
        "/opt/homebrew/bin/codex"@,
        "/usr/local/bin/codex"@,
        "/usr/bin/codex"@,
    ]);
    add_joined(&mut r, home, ".local/bin/codex");
    add_joined(&mut r, home, ".npm-global/bin/codex");
    add_joined(&mut r, home, ".volta/bin/codex");
    add_joined(&mut r, home, ".nvm/current/bin/codex");
    add_joined(&mut r, home, ".fnm/current/bin/codex");
    add_joined(&mut r, nvm_bin, "codex");
    add_joined(&mut r, fnm_shell, "codex");
    add_joined(&mut r, volta_home, "bin/codex");
    r
}

pub open spec fn is_program(candidate: Candidate, wanted: Seq<char>) -> bool {
    candidate.is_file && program_extension(candidate.path@) == Some(wanted)
}

/// Where the shell of Windows finds the program: a native one goes before a script.
pub open spec fn found_by_shell(found: Seq<Candidate>) -> Option<Seq<char>> {
    let native = first_where(found, |c: Candidate| is_program(c, "exe"@));
    let script = first_where(found, |c: Candidate| c.is_file && is_script(c.path@));
    match native {
        Some(at) => Some(found[at].path@),
        None => match script {
            Some(at) => Some(found[at].path@),
            None => None,
        },
    }
}

/// What Windows runs of the paths that its shell finds.
pub fn pick_by_shell(found: &Vec<Candidate>) -> (r: Option<String>)
    ensures
        text_opt(r) == found_by_shell(found@),
{
    let ghost native = |c: Candidate| is_program(c, "exe"@);
    let ghost script = |c: Candidate| c.is_file && is_script(c.path@);
    let mut i: usize = 0;
    while i < found.len()
        invariant
            i <= found.len(),
            native == (|c: Candidate| is_program(c, "exe"@)),
            forall|k: int| 0 <= k < i ==> !native(#[trigger] found@[k]),
        decreases found.len() - i,
    {
        if found[i].is_file && has_extension(found[i].path.as_str(), "exe") {
            proof {
                assert(native(found@[i as int]));
                lemma_first_where_at(found@, native, i as int);
            }
            return Some(found[i].path.clone());
        }
        i += 1;
    }
    proof {
        lemma_first_where_none(found@, native);
    }
    let mut j: usize = 0;
    while j < found.len()
        invariant
            j <= found.len(),
            native == (|c: Candidate| is_program(c, "exe"@)),
            first_where(found@, native) is None,
            script == (|c: Candidate| c.is_file && is_script(c.path@)),
            forall|k: int| 0 <= k < j ==> !script(#[trigger] found@[k]),
        decreases found.len() - j,
    {
        if found[j].is_file && (has_extension(found[j].path.as_str(), "cmd") || has_extension(
            found[j].path.as_str(),
            "bat",
        )) {
            proof {
                assert(script(found@[j as int]));
                lemma_first_where_at(found@, script, j as int);
            }
            return Some(found[j].path.clone());
        }
        j += 1;
    }
    proof {
        lemma_first_where_none(found@, script);
    }
    None
}

pub const NOT_FOUND: &'static str =
    "Cannot find `codex`. Checked PATH, the login shell PATH, common package-manager directories, and platform app bundles. Run `codex --version` or set CODEX_BIN.";

/// The program to run: the one that is named, which must be there, or else the first found.
pub open spec fn resolved(
    named: Option<Candidate>,
    candidates: Seq<Candidate>,
    windows: bool,
) -> Result<CommandView, Seq<char>> {
    match named {
        Some(named) => if named.is_file {
            Ok(command_of(named.path@, windows))
        } else {
            Err("CODEX_BIN points to a missing file: "@ + named.path@)
        },
        None => match first_file(candidates) {
            Some(path) => Ok(command_of(path, windows)),
            None => Err(NOT_FOUND@),
        },
    }
}

pub fn resolve_codex(
    named: Option<Candidate>,
    candidates: &Vec<Candidate>,
    windows: bool,
) -> (r: Result<CodexCommand, String>)
    ensures
        match r {
            Ok(command) => resolved(named, candidates@, windows) == Ok::<CommandView, Seq<char>>(
                command@,
            ),
            Err(error) => resolved(named, candidates@, windows) == Err::<CommandView, Seq<char>>(
                error@,
            ),
        },
{
    match named {
        Some(named) => if named.is_file {
            Ok(command_for_path(named.path.as_str(), windows))
        } else {
            Err(joined("CODEX_BIN points to a missing file: ", named.path.as_str()))
        },
        None => match first_existing(candidates) {
            Some(path) => Ok(command_for_path(path.as_str(), windows)),
            None => Err(NOT_FOUND.to_owned()),
        },
    }
}

/// The wait before an attempt doubles from a second to eight, and is then a quarter of a minute
/// and from there on half a minute.
pub proof fn lemma_wait_doubles_to_half_a_minute(attempt: int)
    ensures
        attempt <= 1 ==> delay_of(attempt) == 1,
        1 <= attempt <= 3 ==> delay_of(attempt + 1) == 2 * delay_of(attempt),
        attempt == 5 ==> delay_of(attempt) == 15,
        attempt > 5 ==> delay_of(attempt) == 30,
{
}

/// A status names the transport that is active and the program that is run, and leaves all else
/// of the client as it is.
pub proof fn lemma_status_is_of_the_active_transport(
    client: ClientView,
    phase: Seq<char>,
    attempt: u32,
    last_error: Option<Seq<char>>,
    retry_in_ms: Option<u64>,
)
    ensures
        ({
            let is = with_status(client, phase, attempt, last_error, retry_in_ms);
            &&& is.status.phase == phase
            &&& is.status.generation == client.active_generation
            &&& is.status.attempt == attempt
            &&& is.status.retry_in_ms == retry_in_ms
            &&& is.status.last_error == last_error
            &&& is.status.codex_path == client.display_path
            &&& is.active_generation == client.active_generation
            &&& is.next_generation == client.next_generation
            &&& is.next_id == client.next_id
            &&& is.pending == client.pending
            &&& is.reconnecting == client.reconnecting
            &&& is.reconnect_requested == client.reconnect_requested
            &&& is.shutting_down == client.shutting_down
            &&& is.display_path == client.display_path
        }),
{
}

/// A client that was cut off says so and why, waits for no reply, and keeps its numbers, so
/// that no later request or transport is taken for an earlier one.
pub proof fn lemma_cut_off_client_says_why(client: ClientView, reason: Seq<char>)
    ensures
        ({
            let is = cut_off(client, reason);
            &&& is.status.phase == "disconnected"@
            &&& is.status.last_error == Some(reason)
            &&& is.status.generation == 0
            &&& is.active_generation == 0
            &&& is.pending.len() == 0
            &&& is.next_id == client.next_id
            &&& is.next_generation == client.next_generation
            &&& is.shutting_down == client.shutting_down
        }),
{
}

/// Numbers go up by one, and start over only at the end of their range.
pub proof fn lemma_numbers_go_up(generation: u64, id: i64)
    ensures
        generation < u64::MAX ==> following_generation(generation) == generation + 1,
        id < i64::MAX ==> following_id(id) == id + 1,
        following_generation(generation) != generation,
        following_id(id) != id,
{
}

/// A message is told by its id and its method. With an id of its own and no method it is the
/// reply to the request of that number, with its result and its error; with both it is a
/// request. Without an id, limits and account are told apart by their methods, and what has
/// another is ignored.
pub proof fn lemma_message_is_told_by_id_and_method(
    client: ClientView,
    message: JsonView,
    id: int,
)
    ensures
        ({
            let told = incoming(client, client.active_generation, message);
            let method = field(message, "method"@);
            let named = text_of(method);
            &&& id_of(field(message, "id"@)) == Some(id) && method is None ==> (
            told matches IncomingView::Reply { id: of, waiting, error, result } && of == id
                && waiting == client.pending.contains(id as i64) && error == field(
                message,
                "error"@,
            ) && result == field(message, "result"@))
            &&& id_of(field(message, "id"@)) is Some && method is Some ==> told is Unhandled
            &&& id_of(field(message, "id"@)) is None && named == Some(
                "account/rateLimits/updated"@,
            ) ==> (match field(message, "params"@) {
                Some(params) => told == (IncomingView::RateLimits { params }),
                None => told is Ignored,
            })
            &&& id_of(field(message, "id"@)) is None && named == Some("account/updated"@) ==> told
                == (IncomingView::Account { payload: field(message, "params"@) })
            &&& id_of(field(message, "id"@)) is None && named != Some(
                "account/rateLimits/updated"@,
            ) && named != Some("account/updated"@) ==> told is Ignored
        }),
{
    reveal_strlit("account/rateLimits/updated");
    reveal_strlit("account/updated");
    assert("account/rateLimits/updated"@.len() != "account/updated"@.len());
}

/// An id is a whole number within the range of the numbers that requests have.
pub proof fn lemma_id_is_a_whole_number(n: JsonNumber)
    ensures
        id_of(Some(JsonView::Number(n))) == (match n.whole {
            Whole::Unsigned(m) => if m > i64::MAX as u64 {
                None
            } else {
                Some(m as int)
            },
            Whole::Negative(m) => Some(m as int),
            Whole::Truncated(_) => None,
        }),
        id_of(None) is None,
        forall|value: JsonView| !(value is Number) ==> #[trigger] id_of(Some(value)) is None,
{
}

/// The first path at which there is a file is taken, and none only where there is no file.
pub proof fn lemma_first_file_is_taken(candidates: Seq<Candidate>, at: int)
    requires
        0 <= at < candidates.len(),
        candidates[at].is_file,
        forall|k: int| 0 <= k < at ==> !(#[trigger] candidates[k]).is_file,
    ensures
        first_file(candidates) == Some(candidates[at].path@),
    decreases at,
{
    if at > 0 {
        assert(!candidates[0].is_file);
        let rest = candidates.drop_first();
        assert forall|k: int| 0 <= k < at - 1 implies !(#[trigger] rest[k]).is_file by {
            assert(rest[k] == candidates[k + 1]);
        }
        lemma_first_file_is_taken(rest, at - 1);
    }
}

/// Where no path has a file, none is taken.
pub proof fn lemma_missing_files_are_not_taken(candidates: Seq<Candidate>)
    requires
        forall|k: int| 0 <= k < candidates.len() ==> !(#[trigger] candidates[k]).is_file,
    ensures
        first_file(candidates) is None,
    decreases candidates.len(),
{
    if candidates.len() > 0 {
        assert(!candidates[0].is_file);
        let rest = candidates.drop_first();
        assert forall|k: int| 0 <= k < rest.len() implies !(#[trigger] rest[k]).is_file by {
            assert(rest[k] == candidates[k + 1]);
        }
        lemma_missing_files_are_not_taken(rest);
    }
}

/// The program that is named is run where it is there, and is an error where it is not,
/// whatever else was found.
pub proof fn lemma_named_program_goes_first(
    named: Candidate,
    candidates: Seq<Candidate>,
    windows: bool,
)
    ensures
        named.is_file ==> (resolved(Some(named), candidates, windows) matches Ok(command)
            && command.display_path == named.path@),
        !named.is_file ==> resolved(Some(named), candidates, windows) is Err,
        first_file(candidates) matches Some(path) ==> (resolved(None, candidates, windows)
            matches Ok(command) && command.display_path == path),
        first_file(candidates) is None ==> resolved(None, candidates, windows) is Err,
{
}

/// A script is run by the shell on Windows and nowhere else; any other program is run itself,
/// with no arguments before its own.
pub proof fn lemma_only_windows_scripts_need_the_shell(path: Seq<char>, windows: bool)
    ensures
        ({
            let command = command_of(path, windows);
            let extension = program_extension(path);
            &&& command.display_path == path
            &&& windows && (extension == Some("cmd"@) || extension == Some("bat"@)) ==> {
                &&& command.program == "cmd.exe"@
                &&& command.prefix_args.len() == 2
                &&& command.prefix_args[1] == path
            }
            &&& !windows || (extension != Some("cmd"@) && extension != Some("bat"@)) ==> {
                &&& command.program == path
                &&& command.prefix_args.len() == 0
            }
        }),
{
}

/// Of what the shell of Windows finds, the first native program is taken, and a script only
/// where there is none.
pub proof fn lemma_native_program_goes_before_a_script(found: Seq<Candidate>)
    ensures
        ({
            let native = |c: Candidate|
                c.is_file && program_extension(c.path@) == Some("exe"@);
            let script = |c: Candidate|
                c.is_file && (program_extension(c.path@) == Some("cmd"@) || program_extension(
                    c.path@,
                ) == Some("bat"@));
            match found_by_shell(found) {
                Some(path) => exists|i: int|
                    {
                        &&& 0 <= i < found.len()
                        &&& (#[trigger] found[i]).path@ == path
                        &&& native(found[i]) || script(found[i])
                        &&& !native(found[i]) ==> forall|k: int|
                            0 <= k < found.len() ==> !native(#[trigger] found[k])
                        &&& forall|k: int|
                            0 <= k < i ==> !native(#[trigger] found[k]) && (!native(found[i])
                                ==> !script(found[k]))
                    },
                None => forall|k: int|
                    0 <= k < found.len() ==> !native(#[trigger] found[k]) && !script(found[k]),
            }
        }),
{
    let native = |c: Candidate| is_program(c, "exe"@);
    let script = |c: Candidate| c.is_file && is_script(c.path@);
    lemma_first_where(found, native);
    lemma_first_where(found, script);
    assert forall|k: int| 0 <= k < found.len() implies {
        &&& native(#[trigger] found[k]) == (found[k].is_file && program_extension(found[k].path@)
            == Some("exe"@))
        &&& script(found[k]) == (found[k].is_file && (program_extension(found[k].path@) == Some(
            "cmd"@,
        ) || program_extension(found[k].path@) == Some("bat"@)))
    } by {}
    match first_where(found, native) {
        Some(at) => {
            assert(found_by_shell(found) == Some(found[at].path@));
        },
        None => {
            if let Some(at) = first_where(found, script) {
                assert(found_by_shell(found) == Some(found[at].path@));
                assert(!native(found[at]));
            }
        },
    }
}

/// What the server writes to its error stream is passed on, unless it is blank or the one
/// message that is known to say nothing.
pub proof fn lemma_blank_lines_are_not_passed_on(line: Seq<char>)
    ensures
        trimmed(line).len() == 0 ==> !is_worth_passing_on(line),
        trimmed(line).len() > 0 && !is_worth_passing_on(line) ==> occurs_in(
            "failed to refresh available models: timeout waiting for child process to exit"@,
            line,
        ),
{
}

/// The program is looked for under each of its names in every directory, directory by
/// directory.
pub proof fn lemma_every_directory_is_searched(
    directories: Seq<String>,
    n: int,
    windows: bool,
    d: int,
    k: int,
)
    requires
        0 <= d < n <= directories.len(),
        0 <= k < program_names(windows).len(),
    ensures
        names_in(directories, n, windows).len() == n * program_names(windows).len(),
        names_in(directories, n, windows)[d * program_names(windows).len() + k] == path_joined(
            directories[d]@,
            program_names(windows)[k],
        ),
        windows ==> program_names(windows) == seq!["codex.exe"@, "codex.cmd"@, "codex.bat"@],
        !windows ==> program_names(windows) == seq!["codex"@],
    decreases n,
{
    let width = program_names(windows).len();
    let before = names_in(directories, n - 1, windows);
    lemma_names_in_len(directories, n, windows);
    lemma_names_in_len(directories, n - 1, windows);
    assert((n - 1) * width + width == n * width) by (nonlinear_arith);
    if d < n - 1 {
        lemma_every_directory_is_searched(directories, n - 1, windows, d, k);
        assert(d * width + k < (n - 1) * width) by (nonlinear_arith)
            requires
                d < n - 1,
                0 <= k < width,
        ;
        assert(0 <= d * width) by (nonlinear_arith)
            requires
                0 <= d,
        ;
    }
}

proof fn lemma_names_in_len(directories: Seq<String>, n: int, windows: bool)
    requires
        0 <= n,
    ensures
        names_in(directories, n, windows).len() == n * program_names(windows).len(),
    decreases n,
{
    let width = program_names(windows).len();
    if n > 0 {
        lemma_names_in_len(directories, n - 1, windows);
        assert((n - 1) * width + width == n * width) by (nonlinear_arith);
    }
}

} // verus!
