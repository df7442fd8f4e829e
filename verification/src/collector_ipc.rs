//! What the collector and its clients say to each other: requests and responses, one to a
//! line, and how the collector stands.
use crate::arith::{clamp_i64, max_int, saturating_millis, saturating_sub};
use crate::collector_core::{copy_source, BindingStatus, RolloutSource, SourceCondition};
use crate::json::{as_text, field, field_of, text_of, Json, JsonView};
use crate::percent::Percent;
use crate::quota::RateLimitRow;
use crate::rollout::TurnTokenSample;
use crate::scheduler::UsageSchedulerStatus;
use crate::sessions::{CollectorGap, GapReason};
use crate::sorting::{lemma_sorted, lemma_sorted_keeps, sort_rows, sorted, Ranked};
use crate::table::count_where;
use crate::text::{decimal, decimal_text, joined, same_text};
use vstd::prelude::*;

verus! {

pub const IPC_SOCKET_FILE: &'static str = "collector.sock";

pub const EVENT_USAGE_INVALIDATED: &'static str = "collector://usage-invalidated";

pub const EVENT_RATE_LIMIT_UPDATED: &'static str = "collector://rate-limit-updated";

pub const EVENT_ACCOUNT_UPDATED: &'static str = "collector://account-updated";

pub const EVENT_HEALTH: &'static str = "collector://health";

pub const EVENT_REBUILD_PROGRESS: &'static str = "collector://rebuild-progress";

pub const MAX_REQUEST_BYTES: usize = 65_536;

pub const MAX_CONNECTIONS: usize = 32;

pub const IO_TIMEOUT_SECS: u64 = 2;

// ---------------------------------------------------------------------------
// Methods
// ---------------------------------------------------------------------------

#[derive(Clone, Copy, Debug, PartialEq, Eq, Structural)]
pub enum CollectorMethod {
    GetStatus,
    RefreshNow,
    GetAccount,
    GetCategoryUsage,
    GetDataHealth,
    RebuildAccount,
    GetSnapshot,
    GetCodexStatus,
    ReconnectCodex,
}

impl CollectorMethod {
    pub open spec fn name(self) -> Seq<char> {
        match self {
            CollectorMethod::GetStatus => "GET_STATUS"@,
            CollectorMethod::RefreshNow => "REFRESH_NOW"@,
            CollectorMethod::GetAccount => "GET_ACCOUNT"@,
            CollectorMethod::GetCategoryUsage => "GET_CATEGORY_USAGE"@,
            CollectorMethod::GetDataHealth => "GET_DATA_HEALTH"@,
            CollectorMethod::RebuildAccount => "REBUILD_ACCOUNT"@,
            CollectorMethod::GetSnapshot => "GET_SNAPSHOT"@,
            CollectorMethod::GetCodexStatus => "GET_CODEX_STATUS"@,
            CollectorMethod::ReconnectCodex => "RECONNECT_CODEX"@,
        }
    }

    pub fn parse(value: &str) -> (r: Result<CollectorMethod, String>)
        ensures
            match r {
                Ok(method) => method.name() == value@,
                Err(message) => {
                    &&& forall|method: CollectorMethod| #[trigger] method.name() != value@
                    &&& message@ == "unsupported collector method: "@ + value@
                },
            },
    {
        if same_text(value, "GET_STATUS") {
            Ok(CollectorMethod::GetStatus)
        } else if same_text(value, "REFRESH_NOW") {
            Ok(CollectorMethod::RefreshNow)
        } else if same_text(value, "GET_ACCOUNT") {
            Ok(CollectorMethod::GetAccount)
        } else if same_text(value, "GET_CATEGORY_USAGE") {
            Ok(CollectorMethod::GetCategoryUsage)
        } else if same_text(value, "GET_DATA_HEALTH") {
            Ok(CollectorMethod::GetDataHealth)
        } else if same_text(value, "REBUILD_ACCOUNT") {
            Ok(CollectorMethod::RebuildAccount)
        } else if same_text(value, "GET_SNAPSHOT") {
            Ok(CollectorMethod::GetSnapshot)
        } else if same_text(value, "GET_CODEX_STATUS") {
            Ok(CollectorMethod::GetCodexStatus)
        } else if same_text(value, "RECONNECT_CODEX") {
            Ok(CollectorMethod::ReconnectCodex)
        } else {
            Err(joined("unsupported collector method: ", value))
        }
    }
}

/// No two methods have the same name.
pub proof fn lemma_methods_are_distinct(a: CollectorMethod, b: CollectorMethod)
    requires
        a.name() == b.name(),
    ensures
        a == b,
{
    reveal_strlit("GET_STATUS");
    reveal_strlit("REFRESH_NOW");
    reveal_strlit("GET_ACCOUNT");
    reveal_strlit("GET_CATEGORY_USAGE");
    reveal_strlit("GET_DATA_HEALTH");
    reveal_strlit("REBUILD_ACCOUNT");
    reveal_strlit("GET_SNAPSHOT");
    reveal_strlit("GET_CODEX_STATUS");
    reveal_strlit("RECONNECT_CODEX");
    assert("GET_STATUS"@.len() == 10);
    assert("REFRESH_NOW"@.len() == 11 && "REFRESH_NOW"@[0] == 'R');
    assert("GET_ACCOUNT"@.len() == 11 && "GET_ACCOUNT"@[0] == 'G');
    assert("GET_CATEGORY_USAGE"@.len() == 18);
    assert("GET_DATA_HEALTH"@.len() == 15 && "GET_DATA_HEALTH"@[2] == 'T');
    assert("REBUILD_ACCOUNT"@.len() == 15 && "REBUILD_ACCOUNT"@[2] == 'B');
    assert("GET_SNAPSHOT"@.len() == 12);
    assert("GET_CODEX_STATUS"@.len() == 16);
    assert("RECONNECT_CODEX"@.len() == 15 && "RECONNECT_CODEX"@[2] == 'C');
}

/// What a request asks for.
#[derive(Debug)]
pub enum Route {
    GetStatus,
    RefreshNow,
    GetAccount,
    GetCategoryUsage { period: String },
    GetDataHealth,
    RebuildAccount { account_key: String },
    GetSnapshot,
    GetCodexStatus,
    ReconnectCodex,
}

pub const REBUILD_NEEDS_KEY: &'static str = "REBUILD_ACCOUNT requires accountKey";

/// The period that usage is asked for; the day, where none is named.
pub open spec fn asked_period(params: JsonView) -> Seq<char> {
    match text_of(field_of(Some(params), "period"@)) {
        Some(period) => period,
        None => "day"@,
    }
}

/// The route that a method with its parameters takes.
pub open spec fn takes_route(route: Route, method: CollectorMethod, params: JsonView) -> bool {
    match method {
        CollectorMethod::GetStatus => route is GetStatus,
        CollectorMethod::RefreshNow => route is RefreshNow,
        CollectorMethod::GetAccount => route is GetAccount,
        CollectorMethod::GetCategoryUsage => route matches Route::GetCategoryUsage { period }
            && period@ == asked_period(params),
        CollectorMethod::GetDataHealth => route is GetDataHealth,
        CollectorMethod::RebuildAccount => route matches Route::RebuildAccount { account_key }
            && text_of(field_of(Some(params), "accountKey"@)) == Some(account_key@),
        CollectorMethod::GetSnapshot => route is GetSnapshot,
        CollectorMethod::GetCodexStatus => route is GetCodexStatus,
        CollectorMethod::ReconnectCodex => route is ReconnectCodex,
    }
}

/// What a request asks for, or why it cannot be served.
pub fn route_request(method: &str, params: &Json) -> (r: Result<Route, String>)
    ensures
        match r {
            Ok(route) => exists|parsed: CollectorMethod|
                #[trigger] parsed.name() == method@ && takes_route(route, parsed, params@),
            Err(message) => if method@ == CollectorMethod::RebuildAccount.name() {
                &&& text_of(field_of(Some(params@), "accountKey"@)) is None
                &&& message@ == REBUILD_NEEDS_KEY@
            } else {
                &&& forall|parsed: CollectorMethod| #[trigger] parsed.name() != method@
                &&& message@ == "unsupported collector method: "@ + method@
            },
        },
{
    let parsed = match CollectorMethod::parse(method) {
        Ok(parsed) => parsed,
        Err(error) => {
            proof {
                let rebuild = CollectorMethod::RebuildAccount;
                assert(rebuild.name() != method@);
            }
            return Err(error);
        },
    };
    assert(parsed.name() == method@);
    match parsed {
        CollectorMethod::GetStatus => Ok(Route::GetStatus),
        CollectorMethod::RefreshNow => Ok(Route::RefreshNow),
        CollectorMethod::GetAccount => Ok(Route::GetAccount),
        CollectorMethod::GetCategoryUsage => {
            let period = match as_text(params.get("period")) {
                Some(period) => period.to_owned(),
                None => "day".to_owned(),
            };
            Ok(Route::GetCategoryUsage { period })
        },
        CollectorMethod::GetDataHealth => Ok(Route::GetDataHealth),
        CollectorMethod::RebuildAccount => match as_text(params.get("accountKey")) {
            Some(account_key) => Ok(Route::RebuildAccount { account_key: account_key.to_owned() }),
            None => Err(REBUILD_NEEDS_KEY.to_owned()),
        },
        CollectorMethod::GetSnapshot => Ok(Route::GetSnapshot),
        CollectorMethod::GetCodexStatus => Ok(Route::GetCodexStatus),
        CollectorMethod::ReconnectCodex => Ok(Route::ReconnectCodex),
    }
}

// ---------------------------------------------------------------------------
// Lines
// ---------------------------------------------------------------------------

pub const REQUEST_TOO_LONG: &'static str = "collector IPC request exceeds size limit";

pub const REQUEST_EMPTY: &'static str = "collector IPC request is empty";

pub const RESPONSE_TOO_LONG: &'static str = "collector IPC response exceeds size limit";

pub const LINE_FEED: u8 = 10;

/// How many bytes stand before the first line feed, or in all where there is none.
pub open spec fn line_length(bytes: Seq<u8>) -> nat
    decreases bytes.len(),
{
    if bytes.len() == 0 || bytes[0] == LINE_FEED {
        0
    } else {
        1 + line_length(bytes.drop_first())
    }
}

/// A line that is being read.
#[derive(Debug)]
pub struct LineReader {
    pub bytes: Vec<u8>,
}

/// What a byte did to a line.
#[derive(Clone, Copy, Debug, PartialEq, Eq, Structural)]
pub enum LineStep {
    More,
    Ended,
    TooLong,
}

impl LineReader {
    pub fn new() -> (r: LineReader)
        ensures
            r.bytes@ == Seq::<u8>::empty(),
    {
        LineReader { bytes: Vec::new() }
    }

    /// Takes the next byte.
    pub fn push(&mut self, byte: u8) -> (r: LineStep)
        requires
            old(self).bytes@.len() <= MAX_REQUEST_BYTES,
        ensures
            final(self).bytes@.len() <= MAX_REQUEST_BYTES,
            if byte == LINE_FEED {
                r == LineStep::Ended && final(self).bytes@ == old(self).bytes@
            } else if old(self).bytes@.len() == MAX_REQUEST_BYTES {
                r == LineStep::TooLong && final(self).bytes@ == old(self).bytes@
            } else {
                r == LineStep::More && final(self).bytes@ == old(self).bytes@.push(byte)
            },
    {
        if byte == LINE_FEED {
            LineStep::Ended
        } else if self.bytes.len() >= MAX_REQUEST_BYTES {
            LineStep::TooLong
        } else {
            self.bytes.push(byte);
            LineStep::More
        }
    }

    /// The line, once it ended.
    pub fn finish(self) -> (r: Result<Vec<u8>, String>)
        ensures
            match r {
                Ok(line) => line@ == self.bytes@ && line@.len() > 0,
                Err(message) => self.bytes@.len() == 0 && message@ == REQUEST_EMPTY@,
            },
    {
        if self.bytes.len() == 0 {
            Err(REQUEST_EMPTY.to_owned())
        } else {
            Ok(self.bytes)
        }
    }
}

proof fn lemma_line_length_at(bytes: Seq<u8>, n: int)
    requires
        0 <= n <= bytes.len(),
        forall|k: int| 0 <= k < n ==> #[trigger] bytes[k] != LINE_FEED,
    ensures
        line_length(bytes) >= n,
        n == bytes.len() || bytes[n] == LINE_FEED ==> line_length(bytes) == n,
    decreases n,
{
    if n > 0 {
        let rest = bytes.drop_first();
        assert(bytes[0] != LINE_FEED);
        assert forall|k: int| 0 <= k < n - 1 implies #[trigger] rest[k] != LINE_FEED by {
            assert(rest[k] == bytes[k + 1]);
        }
        lemma_line_length_at(rest, n - 1);
    }
}

/// The first line of a stream, or why there is none: it has no byte, or is longer than a
/// message may be.
pub open spec fn limited_line(stream: Seq<u8>) -> Result<Seq<u8>, Seq<char>> {
    let length = line_length(stream);
    if length == 0 {
        Err(REQUEST_EMPTY@)
    } else if length > MAX_REQUEST_BYTES {
        Err(REQUEST_TOO_LONG@)
    } else {
        Ok(stream.take(length as int))
    }
}

/// Reads the first line of a stream.
pub fn read_limited_line(stream: &[u8]) -> (r: Result<Vec<u8>, String>)
    ensures
        match r {
            Ok(line) => limited_line(stream@) == Ok::<Seq<u8>, Seq<char>>(line@),
            Err(message) => limited_line(stream@) == Err::<Seq<u8>, Seq<char>>(message@),
        },
{
    let mut reader = LineReader::new();
    let mut i: usize = 0;
    proof {
        lemma_line_length_at(stream@, 0);
        assert(stream@.take(0) =~= Seq::empty());
    }
    while i < stream.len()
        invariant_except_break
            i <= stream@.len(),
            reader.bytes@ == stream@.take(i as int),
            forall|k: int| 0 <= k < i ==> #[trigger] stream@[k] != LINE_FEED,
            reader.bytes@.len() <= MAX_REQUEST_BYTES,
            i == stream@.len() ==> line_length(stream@) == i,
        ensures
            line_length(stream@) <= MAX_REQUEST_BYTES,
            reader.bytes@ == stream@.take(line_length(stream@) as int),
            reader.bytes@.len() == line_length(stream@),
        decreases stream.len() - i,
    {
        match reader.push(stream[i]) {
            LineStep::More => {
                assert(stream@.take(i + 1) =~= stream@.take(i as int).push(stream@[i as int]));
            },
            LineStep::Ended => {
                proof {
                    lemma_line_length_at(stream@, i as int);
                }
                break;
            },
            LineStep::TooLong => {
                proof {
                    lemma_line_length_at(stream@, i + 1);
                }
                return Err(REQUEST_TOO_LONG.to_owned());
            },
        }
        i += 1;
        proof {
            if i == stream@.len() {
                lemma_line_length_at(stream@, i as int);
            }
        }
    }
    reader.finish()
}

/// A message as it is sent: its bytes, and the line feed that ends it.
pub open spec fn framed(encoded: Seq<u8>) -> Seq<u8> {
    encoded.push(LINE_FEED)
}

/// Frames an encoded request. One that is too long is not sent.
pub fn write_request(encoded: Vec<u8>) -> (r: Result<Vec<u8>, String>)
    ensures
        match r {
            Ok(sent) => encoded@.len() <= MAX_REQUEST_BYTES && sent@ == framed(encoded@),
            Err(message) => encoded@.len() > MAX_REQUEST_BYTES && message@ == REQUEST_TOO_LONG@,
        },
{
    if encoded.len() > MAX_REQUEST_BYTES {
        return Err(REQUEST_TOO_LONG.to_owned());
    }
    let mut sent = encoded;
    sent.push(LINE_FEED);
    Ok(sent)
}

/// Frames an encoded response. One that is too long is not sent.
pub fn write_response(encoded: Vec<u8>) -> (r: Result<Vec<u8>, String>)
    ensures
        match r {
            Ok(sent) => encoded@.len() <= MAX_REQUEST_BYTES && sent@ == framed(encoded@),
            Err(message) => encoded@.len() > MAX_REQUEST_BYTES && message@ == RESPONSE_TOO_LONG@,
        },
{
    if encoded.len() > MAX_REQUEST_BYTES {
        return Err(RESPONSE_TOO_LONG.to_owned());
    }
    let mut sent = encoded;
    sent.push(LINE_FEED);
    Ok(sent)
}

/// A message that is accepted for sending is read back whole, whatever follows it. A message
/// has at least one byte, and none of them is a line feed.
pub proof fn lemma_sent_message_is_read(encoded: Seq<u8>, rest: Seq<u8>)
    requires
        0 < encoded.len() <= MAX_REQUEST_BYTES,
        forall|k: int| 0 <= k < encoded.len() ==> #[trigger] encoded[k] != LINE_FEED,
    ensures
        limited_line(framed(encoded) + rest) == Ok::<Seq<u8>, Seq<char>>(encoded),
{
    let stream = framed(encoded) + rest;
    assert forall|k: int| 0 <= k < encoded.len() implies #[trigger] stream[k] != LINE_FEED by {
        assert(stream[k] == encoded[k]);
    }
    assert(stream[encoded.len() as int] == LINE_FEED);
    lemma_line_length_at(stream, encoded.len() as int);
    assert(stream.take(encoded.len() as int) =~= encoded);
}

// ---------------------------------------------------------------------------
// Responses
// ---------------------------------------------------------------------------

#[derive(Debug)]
pub struct IpcRequest {
    pub id: String,
    pub method: String,
    pub params: Json,
}

#[derive(Debug)]
pub struct IpcResponse {
    pub id: String,
    pub ok: bool,
    pub result: Option<Json>,
    pub error: Option<String>,
}

/// The identifier of a client's request.
pub fn request_id(now_ms: i64) -> (r: String)
    ensures
        r@ == "ui-"@ + decimal(now_ms as int),
{
    joined("ui-", decimal_text(now_ms).as_str())
}

/// The response to a request: what came of it under its identifier.
pub fn respond(id: String, outcome: Result<Json, String>) -> (r: IpcResponse)
    ensures
        r.id == id,
        match outcome {
            Ok(value) => r.ok && r.result == Some(value) && r.error is None,
            Err(error) => !r.ok && r.result is None && r.error == Some(error),
        },
{
    match outcome {
        Ok(value) => IpcResponse { id, ok: true, result: Some(value), error: None },
        Err(error) => IpcResponse { id, ok: false, result: None, error: Some(error) },
    }
}

/// The response to what could not be read as a request.
pub fn respond_unreadable(error: String) -> (r: IpcResponse)
    ensures
        r.id@ == "unknown"@,
        !r.ok,
        r.result is None,
        r.error == Some(error),
{
    respond("unknown".to_owned(), Err(error))
}

pub const REQUEST_FAILED: &'static str = "collector request failed";

/// What a response says came of the request.
pub fn outcome_of(response: IpcResponse) -> (r: Result<Json, String>)
    ensures
        match r {
            Ok(value) => response.ok && value == match response.result {
                Some(result) => result,
                None => Json::Null,
            },
            Err(message) => !response.ok && message@ == match response.error {
                Some(error) => error@,
                None => REQUEST_FAILED@,
            },
        },
{
    if response.ok {
        match response.result {
            Some(result) => Ok(result),
            None => Ok(Json::Null),
        }
    } else {
        match response.error {
            Some(error) => Err(error),
            None => Err(REQUEST_FAILED.to_owned()),
        }
    }
}

// ---------------------------------------------------------------------------
// The endpoint
// ---------------------------------------------------------------------------

pub const NOT_A_SOCKET: &'static str = "collector endpoint is not a Unix socket";

pub const FOREIGN_SOCKET: &'static str = "collector endpoint owner does not match current user";

pub const OPEN_SOCKET: &'static str = "collector endpoint permissions must be 0600";

/// Whether anyone but the owner has a right in a mode.
pub open spec fn open_to_others(mode: u32) -> bool {
    mode % 64 != 0
}

/// An endpoint is trusted where it is a socket of the current user that nobody else may use.
pub fn validate_endpoint(is_socket: bool, is_own: bool, mode: u32) -> (r: Result<(), String>)
    ensures
        match r {
            Ok(()) => is_socket && is_own && !open_to_others(mode),
            Err(message) => if !is_socket {
                message@ == NOT_A_SOCKET@
            } else if !is_own {
                message@ == FOREIGN_SOCKET@
            } else {
                open_to_others(mode) && message@ == OPEN_SOCKET@
            },
        },
{
    assert(mode & 0o077 == mode % 64) by (bit_vector);
    if !is_socket {
        Err(NOT_A_SOCKET.to_owned())
    } else if !is_own {
        Err(FOREIGN_SOCKET.to_owned())
    } else if mode & 0o077 != 0 {
        Err(OPEN_SOCKET.to_owned())
    } else {
        Ok(())
    }
}

// ---------------------------------------------------------------------------
// Status
// ---------------------------------------------------------------------------

/// The collector as it last registered.
#[derive(Debug)]
pub struct RegisteredCollector {
    pub instance_id: String,
    pub pid: i64,
    pub started_at: i64,
    pub heartbeat_at: i64,
    pub version: String,
    pub status: String,
}

#[derive(Debug)]
pub struct CollectorStatus {
    pub status: String,
    pub instance_id: Option<String>,
    pub pid: Option<i64>,
    pub started_at: Option<i64>,
    pub heartbeat_at: Option<i64>,
    pub heartbeat_age_ms: Option<i64>,
    pub version: Option<String>,
    pub transport: String,
    pub endpoint: String,
}

#[derive(Debug)]
pub struct CollectorStatusEnvelope {
    pub collector: CollectorStatus,
    pub scheduler: UsageSchedulerStatus,
}

/// A heartbeat that is older than this says that the collector is gone.
pub const HEARTBEAT_LIMIT_MS: i64 = 15_000;

pub open spec fn heartbeat_age(heartbeat_at: int, now_ms: int) -> int {
    max_int(clamp_i64(now_ms - clamp_i64(heartbeat_at * 1000)), 0)
}

/// How a collector stands: it runs where it says so and its heartbeat is fresh.
pub open spec fn standing(state: Option<RegisteredCollector>, now_ms: int) -> Seq<char> {
    match state {
        None => "unavailable"@,
        Some(state) => if state.status@ == "running"@ && heartbeat_age(
            state.heartbeat_at as int,
            now_ms,
        ) <= HEARTBEAT_LIMIT_MS {
            "running"@
        } else {
            "reconnecting"@
        },
    }
}

/// How the collector stands, by what it last registered.
pub fn status_from_connection(
    state: Option<RegisteredCollector>,
    endpoint: &str,
    unix: bool,
    now_ms: i64,
) -> (r: CollectorStatus)
    ensures
        r.status@ == standing(state, now_ms as int),
        r.endpoint@ == endpoint@,
        r.transport@ == if unix {
            "unix_socket"@
        } else {
            "named_pipe"@
        },
        match state {
            Some(state) => {
                &&& r.instance_id == Some(state.instance_id)
                &&& r.pid == Some(state.pid)
                &&& r.started_at == Some(state.started_at)
                &&& r.heartbeat_at == Some(state.heartbeat_at)
                &&& r.heartbeat_age_ms == Some(
                    heartbeat_age(state.heartbeat_at as int, now_ms as int) as i64,
                )
                &&& r.version == Some(state.version)
            },
            None => {
                &&& r.instance_id is None
                &&& r.pid is None
                &&& r.started_at is None
                &&& r.heartbeat_at is None
                &&& r.heartbeat_age_ms is None
                &&& r.version is None
            },
        },
{
    let transport = if unix {
        "unix_socket"
    } else {
        "named_pipe"
    };
    match state {
        Some(state) => {
            let age: i64 = saturating_sub(now_ms, saturating_millis(state.heartbeat_at)).max(0);
            let status = if same_text(state.status.as_str(), "running") && age
                <= HEARTBEAT_LIMIT_MS {
                "running"
            } else {
                "reconnecting"
            };
            CollectorStatus {
                status: status.to_owned(),
                instance_id: Some(state.instance_id),
                pid: Some(state.pid),
                started_at: Some(state.started_at),
                heartbeat_at: Some(state.heartbeat_at),
                heartbeat_age_ms: Some(age),
                version: Some(state.version),
                transport: transport.to_owned(),
                endpoint: endpoint.to_owned(),
            }
        },
        None => CollectorStatus {
            status: "unavailable".to_owned(),
            instance_id: None,
            pid: None,
            started_at: None,
            heartbeat_at: None,
            heartbeat_age_ms: None,
            version: None,
            transport: transport.to_owned(),
            endpoint: endpoint.to_owned(),
        },
    }
}

// ---------------------------------------------------------------------------
// Diagnostics
// ---------------------------------------------------------------------------

/// How a source stands, as it is shown.
#[derive(Debug)]
pub struct SourceHealth {
    pub source_id: String,
    pub path: String,
    pub account_key: Option<String>,
    pub binding_status: BindingStatus,
    pub binding_source: String,
    pub condition: SourceCondition,
    pub last_offset: u64,
    pub last_size: u64,
    pub last_activity_at: Option<i64>,
    pub last_error: Option<String>,
    pub updated_at: i64,
}

#[derive(Clone, Copy, Debug, PartialEq, Eq, Structural)]
pub struct GapDiagnostic {
    pub start_at: i64,
    pub end_at: i64,
    pub duration_ms: i64,
    pub reason: GapReason,
}

#[derive(Debug)]
pub struct RateLimitSample {
    pub account_key: String,
    pub sampled_at: i64,
    pub limit_id: String,
    pub window: String,
    pub used_percent: Percent,
    pub resets_at: Option<i64>,
    pub id: i64,
}

#[derive(Debug)]
pub struct TokenSample {
    pub account_key: String,
    pub thread_id: String,
    pub turn_id: String,
    pub sampled_at: i64,
    pub delta_tokens: i64,
    pub cumulative_tokens: i64,
}

impl Ranked for SourceHealth {
    open spec fn behind(self, other: SourceHealth) -> bool {
        self.updated_at < other.updated_at
    }

    fn goes_behind(&self, other: &SourceHealth) -> (r: bool) {
        self.updated_at < other.updated_at
    }

    proof fn behind_is_order(a: SourceHealth, b: SourceHealth, c: SourceHealth) {
    }
}

impl Ranked for GapDiagnostic {
    open spec fn behind(self, other: GapDiagnostic) -> bool {
        self.end_at < other.end_at
    }

    fn goes_behind(&self, other: &GapDiagnostic) -> (r: bool) {
        self.end_at < other.end_at
    }

    proof fn behind_is_order(a: GapDiagnostic, b: GapDiagnostic, c: GapDiagnostic) {
    }
}

impl Ranked for RateLimitSample {
    open spec fn behind(self, other: RateLimitSample) -> bool {
        self.sampled_at < other.sampled_at || (self.sampled_at == other.sampled_at && self.id
            < other.id)
    }

    fn goes_behind(&self, other: &RateLimitSample) -> (r: bool) {
        self.sampled_at < other.sampled_at || (self.sampled_at == other.sampled_at && self.id
            < other.id)
    }

    proof fn behind_is_order(a: RateLimitSample, b: RateLimitSample, c: RateLimitSample) {
    }
}

impl Ranked for TokenSample {
    open spec fn behind(self, other: TokenSample) -> bool {
        self.sampled_at < other.sampled_at
    }

    fn goes_behind(&self, other: &TokenSample) -> (r: bool) {
        self.sampled_at < other.sampled_at
    }

    proof fn behind_is_order(a: TokenSample, b: TokenSample, c: TokenSample) {
    }
}

/// How many of the latest rows are shown.
pub const SHOWN_ROWS: usize = 20;

/// The first rows of a list, as many as are shown.
pub open spec fn first_shown<T>(rows: Seq<T>) -> Seq<T> {
    if rows.len() <= SHOWN_ROWS {
        rows
    } else {
        rows.take(SHOWN_ROWS as int)
    }
}

fn keep_shown<T>(rows: Vec<T>) -> (r: Vec<T>)
    ensures
        r@ == first_shown(rows@),
{
    let mut rows = rows;
    if rows.len() > SHOWN_ROWS {
        rows.truncate(SHOWN_ROWS);
        assert(rows@ =~= first_shown(rows@));
    }
    rows
}

pub open spec fn source_health(source: RolloutSource) -> SourceHealth {
    SourceHealth {
        source_id: source.source_id,
        path: source.canonical_path,
        account_key: source.account_key,
        binding_status: source.binding_status,
        binding_source: source.binding_source,
        condition: source.condition,
        last_offset: source.last_offset,
        last_size: source.last_size,
        last_activity_at: source.last_activity_at,
        last_error: source.last_error,
        updated_at: source.updated_at,
    }
}

/// The sources as they are shown, the last changed first.
pub fn list_sources(sources: &Vec<RolloutSource>) -> (r: Vec<SourceHealth>)
    ensures
        r@ == sorted(Seq::new(sources@.len(), |i: int| source_health(sources@[i]))),
{
    let ghost wanted = Seq::new(sources@.len(), |i: int| source_health(sources@[i]));
    let mut rows: Vec<SourceHealth> = Vec::new();
    let mut i: usize = 0;
    while i < sources.len()
        invariant
            i <= sources.len(),
            wanted == Seq::new(sources@.len(), |i: int| source_health(sources@[i])),
            rows@.len() == i,
            forall|k: int| 0 <= k < i ==> #[trigger] rows@[k] == wanted[k],
        decreases sources.len() - i,
    {
        let source = copy_source(&sources[i]);
        let row = SourceHealth {
            source_id: source.source_id,
            path: source.canonical_path,
            account_key: source.account_key,
            binding_status: source.binding_status,
            binding_source: source.binding_source,
            condition: source.condition,
            last_offset: source.last_offset,
            last_size: source.last_size,
            last_activity_at: source.last_activity_at,
            last_error: source.last_error,
            updated_at: source.updated_at,
        };
        assert(row == wanted[i as int]);
        rows.push(row);
        i += 1;
    }
    assert(rows@ =~= wanted);
    sort_rows(rows)
}

pub open spec fn gap_diagnostic(gap: CollectorGap) -> GapDiagnostic {
    GapDiagnostic {
        start_at: gap.start_at,
        end_at: gap.end_at,
        duration_ms: gap.duration_ms,
        reason: gap.reason,
    }
}

/// The latest gaps.
pub fn latest_gaps(gaps: &Vec<CollectorGap>) -> (r: Vec<GapDiagnostic>)
    ensures
        r@ == first_shown(sorted(Seq::new(gaps@.len(), |i: int| gap_diagnostic(gaps@[i])))),
{
    let ghost wanted = Seq::new(gaps@.len(), |i: int| gap_diagnostic(gaps@[i]));
    let mut rows: Vec<GapDiagnostic> = Vec::new();
    let mut i: usize = 0;
    while i < gaps.len()
        invariant
            i <= gaps.len(),
            wanted == Seq::new(gaps@.len(), |i: int| gap_diagnostic(gaps@[i])),
            rows@.len() == i,
            forall|k: int| 0 <= k < i ==> #[trigger] rows@[k] == wanted[k],
        decreases gaps.len() - i,
    {
        let row = GapDiagnostic {
            start_at: gaps[i].start_at,
            end_at: gaps[i].end_at,
            duration_ms: gaps[i].duration_ms,
            reason: gaps[i].reason,
        };
        assert(row == wanted[i as int]);
        rows.push(row);
        i += 1;
    }
    assert(rows@ =~= wanted);
    keep_shown(sort_rows(rows))
}

pub open spec fn shown_rate_limit(row: RateLimitRow) -> RateLimitSample {
    RateLimitSample {
        account_key: row.account_key,
        sampled_at: row.sample.sampled_at,
        limit_id: row.limit_id,
        window: row.window,
        used_percent: row.sample.used_percent,
        resets_at: row.sample.resets_at,
        id: row.sample.id,
    }
}

/// The latest observations of rate limits.
pub fn latest_rate_limits(rows: &Vec<RateLimitRow>) -> (r: Vec<RateLimitSample>)
    ensures
        r@ == first_shown(sorted(Seq::new(rows@.len(), |i: int| shown_rate_limit(rows@[i])))),
{
    let ghost wanted = Seq::new(rows@.len(), |i: int| shown_rate_limit(rows@[i]));
    let mut shown: Vec<RateLimitSample> = Vec::new();
    let mut i: usize = 0;
    while i < rows.len()
        invariant
            i <= rows.len(),
            wanted == Seq::new(rows@.len(), |i: int| shown_rate_limit(rows@[i])),
            shown@.len() == i,
            forall|k: int| 0 <= k < i ==> #[trigger] shown@[k] == wanted[k],
        decreases rows.len() - i,
    {
        let row = RateLimitSample {
            account_key: rows[i].account_key.clone(),
            sampled_at: rows[i].sample.sampled_at,
            limit_id: rows[i].limit_id.clone(),
            window: rows[i].window.clone(),
            used_percent: rows[i].sample.used_percent,
            resets_at: rows[i].sample.resets_at,
            id: rows[i].sample.id,
        };
        assert(row == wanted[i as int]);
        shown.push(row);
        i += 1;
    }
    assert(shown@ =~= wanted);
    keep_shown(sort_rows(shown))
}

pub open spec fn shown_token_sample(sample: TurnTokenSample) -> TokenSample {
    TokenSample {
        account_key: sample.account_key,
        thread_id: sample.thread_id,
        turn_id: sample.turn_id,
        sampled_at: sample.sampled_at,
        delta_tokens: sample.delta_tokens,
        cumulative_tokens: sample.cumulative_tokens,
    }
}

/// The latest increases; of several at one time, the last recorded first.
pub fn latest_token_samples(samples: &Vec<TurnTokenSample>) -> (r: Vec<TokenSample>)
    ensures
        r@ == first_shown(
            sorted(
                Seq::new(
                    samples@.len(),
                    |i: int| shown_token_sample(samples@[samples@.len() - 1 - i]),
                ),
            ),
        ),
{
    let ghost wanted = Seq::new(
        samples@.len(),
        |i: int| shown_token_sample(samples@[samples@.len() - 1 - i]),
    );
    let mut shown: Vec<TokenSample> = Vec::new();
    let mut i: usize = samples.len();
    while i > 0
        invariant
            i <= samples.len(),
            wanted == Seq::new(
                samples@.len(),
                |i: int| shown_token_sample(samples@[samples@.len() - 1 - i]),
            ),
            shown@.len() == samples@.len() - i,
            forall|k: int| 0 <= k < shown@.len() ==> #[trigger] shown@[k] == wanted[k],
        decreases i,
    {
        i -= 1;
        let row = TokenSample {
            account_key: samples[i].account_key.clone(),
            thread_id: samples[i].thread_id.clone(),
            turn_id: samples[i].turn_id.clone(),
            sampled_at: samples[i].sampled_at,
            delta_tokens: samples[i].delta_tokens,
            cumulative_tokens: samples[i].cumulative_tokens,
        };
        assert(row == wanted[shown@.len() as int]);
        shown.push(row);
    }
    assert(shown@ =~= wanted);
    keep_shown(sort_rows(shown))
}

pub open spec fn unresolved_of(sources: Seq<RolloutSource>) -> nat
    decreases sources.len(),
{
    if sources.len() == 0 {
        0
    } else {
        unresolved_of(sources.drop_last()) + if sources.last().binding_status
            == BindingStatus::Unresolved {
            1nat
        } else {
            0nat
        }
    }
}

/// How many sources have no account yet.
pub fn count_unresolved(sources: &Vec<RolloutSource>) -> (r: usize)
    ensures
        r == unresolved_of(sources@),
{
    let mut count: usize = 0;
    let mut i: usize = 0;
    assert(sources@.take(0) =~= Seq::empty());
    while i < sources.len()
        invariant
            i <= sources.len(),
            count <= i,
            count == unresolved_of(sources@.take(i as int)),
        decreases sources.len() - i,
    {
        proof {
            assert(sources@.take(i + 1).drop_last() =~= sources@.take(i as int));
            assert(sources@.take(i + 1).last() == sources@[i as int]);
        }
        if sources[i].binding_status == BindingStatus::Unresolved {
            count += 1;
        }
        i += 1;
    }
    assert(sources@.take(sources@.len() as int) =~= sources@);
    count
}

/// What is shown of the collector's data.
#[derive(Debug)]
pub struct CollectorDataHealth {
    pub collector: CollectorStatus,
    pub sources: Vec<SourceHealth>,
    pub unresolved_source_count: usize,
    pub gaps: Vec<GapDiagnostic>,
    pub latest_rate_limit_samples: Vec<RateLimitSample>,
    pub latest_token_samples: Vec<TokenSample>,
}

/// Puts together what is shown of the collector's data: its sources, and the latest of what
/// it observed.
pub fn data_health_for_connection(
    collector: CollectorStatus,
    sources: &Vec<RolloutSource>,
    gaps: &Vec<CollectorGap>,
    rate_limits: &Vec<RateLimitRow>,
    samples: &Vec<TurnTokenSample>,
) -> (r: CollectorDataHealth)
    ensures
        r.collector == collector,
        r.sources@ == sorted(Seq::new(sources@.len(), |i: int| source_health(sources@[i]))),
        r.unresolved_source_count == unresolved_of(sources@),
        r.gaps@ == first_shown(
            sorted(Seq::new(gaps@.len(), |i: int| gap_diagnostic(gaps@[i]))),
        ),
        r.latest_rate_limit_samples@ == first_shown(
            sorted(Seq::new(rate_limits@.len(), |i: int| shown_rate_limit(rate_limits@[i]))),
        ),
        r.latest_token_samples@ == first_shown(
            sorted(
                Seq::new(
                    samples@.len(),
                    |i: int| shown_token_sample(samples@[samples@.len() - 1 - i]),
                ),
            ),
        ),
{
    CollectorDataHealth {
        collector,
        sources: list_sources(sources),
        unresolved_source_count: count_unresolved(sources),
        gaps: latest_gaps(gaps),
        latest_rate_limit_samples: latest_rate_limits(rate_limits),
        latest_token_samples: latest_token_samples(samples),
    }
}

/// A line ends at the first line feed of the stream, or with it.
pub proof fn lemma_line_ends_at_the_first_feed(bytes: Seq<u8>)
    ensures
        line_length(bytes) <= bytes.len(),
        forall|k: int| 0 <= k < line_length(bytes) ==> #[trigger] bytes[k] != 10,
        line_length(bytes) < bytes.len() ==> bytes[line_length(bytes) as int] == 10,
    decreases bytes.len(),
{
    if bytes.len() > 0 && bytes[0] != LINE_FEED {
        let rest = bytes.drop_first();
        lemma_line_ends_at_the_first_feed(rest);
        assert forall|k: int| 0 <= k < line_length(bytes) implies #[trigger] bytes[k] != 10 by {
            if k > 0 {
                assert(rest[k - 1] == bytes[k]);
            }
        }
    }
}

/// A line that is read has between one byte and as many as a message may have, none of them a
/// line feed, and is what stands before the first one. An empty line and one that is longer
/// are refused, each for its own reason.
pub proof fn lemma_read_line_stands_before_the_feed(stream: Seq<u8>)
    ensures
        match limited_line(stream) {
            Ok(line) => {
                &&& 1 <= line.len() <= 65_536
                &&& line.len() <= stream.len()
                &&& line == stream.subrange(0, line.len() as int)
                &&& forall|k: int| 0 <= k < line.len() ==> #[trigger] line[k] != 10
                &&& line.len() < stream.len() ==> stream[line.len() as int] == 10
            },
            Err(message) => {
                &&& stream.len() == 0 || stream[0] == 10 ==> message == REQUEST_EMPTY@
                &&& stream.len() > 0 && stream[0] != 10 ==> message == REQUEST_TOO_LONG@ && (
                forall|k: int| 0 <= k <= 65_536 && k < stream.len() ==> #[trigger] stream[k] != 10)
                    && stream.len() > 65_536
            },
        },
{
    lemma_line_ends_at_the_first_feed(stream);
    if let Ok(line) = limited_line(stream) {
        assert(line =~= stream.subrange(0, line.len() as int));
    }
}

/// Usage is asked for by the period that the request names, and by the day where it names none.
pub proof fn lemma_period_is_the_day_by_default(params: JsonView)
    ensures
        text_of(field(params, "period"@)) matches Some(period) ==> asked_period(params) == period,
        text_of(field(params, "period"@)) is None ==> asked_period(params) == "day"@,
{
}

/// A mode is open to others where any of its last six bits is set.
pub proof fn lemma_own_modes_end_in_zero_bits(own: u32)
    requires
        own < 0x400_0000,
    ensures
        !open_to_others((own * 64) as u32),
        forall|rest: u32| 1 <= rest < 64 ==> #[trigger] open_to_others((own * 64 + rest) as u32),
{
}

/// A collector that registered is held to run exactly as long as it says so and its last sign
/// of life is no more than fifteen seconds old.
pub proof fn lemma_collector_runs_while_it_gives_signs(state: RegisteredCollector, now_ms: int)
    requires
        i64::MIN <= state.heartbeat_at * 1000 <= i64::MAX,
        i64::MIN <= now_ms <= i64::MAX,
        i64::MIN <= now_ms - state.heartbeat_at * 1000 <= i64::MAX,
    ensures
        standing(Some(state), now_ms) == "running"@ <==> state.status@ == "running"@ && now_ms
            - state.heartbeat_at * 1000 <= 15_000,
        standing(Some(state), now_ms) != "running"@ ==> standing(Some(state), now_ms)
            == "reconnecting"@,
        standing(None, now_ms) == "unavailable"@,
        now_ms >= state.heartbeat_at * 1000 ==> heartbeat_age(state.heartbeat_at as int, now_ms)
            == now_ms - state.heartbeat_at * 1000,
        now_ms < state.heartbeat_at * 1000 ==> heartbeat_age(state.heartbeat_at as int, now_ms)
            == 0,
{
    reveal_strlit("running");
    reveal_strlit("reconnecting");
    assert("running"@.len() != "reconnecting"@.len());
}

/// What is shown of a list are its first twenty rows, in their order.
pub proof fn lemma_twenty_rows_are_shown<T>(rows: Seq<T>)
    ensures
        first_shown(rows).len() <= 20,
        rows.len() <= 20 ==> first_shown(rows).len() == rows.len(),
        rows.len() > 20 ==> first_shown(rows).len() == 20,
        forall|i: int| 0 <= i < first_shown(rows).len() ==> #[trigger] first_shown(rows)[i]
            == rows[i],
{
}

/// The gaps that are shown are the latest: none that is left out ended later than one that is
/// shown.
pub proof fn lemma_latest_gaps_are_shown(gaps: Seq<CollectorGap>, at: int)
    requires
        0 <= at < gaps.len(),
    ensures
        ({
            let shown = first_shown(
                sorted(Seq::new(gaps.len(), |i: int| gap_diagnostic(gaps[i]))),
            );
            let row = gap_diagnostic(gaps[at]);
            &&& row.start_at == gaps[at].start_at && row.end_at == gaps[at].end_at
                && row.duration_ms == gaps[at].duration_ms && row.reason == gaps[at].reason
            &&& !shown.contains(row) ==> forall|k: int|
                0 <= k < shown.len() ==> (#[trigger] shown[k]).end_at >= gaps[at].end_at
            &&& forall|j: int, k: int|
                0 <= j < k < shown.len() ==> (#[trigger] shown[j]).end_at >= (
                #[trigger] shown[k]).end_at
        }),
{
    let rows = Seq::new(gaps.len(), |i: int| gap_diagnostic(gaps[i]));
    let all = sorted(rows);
    lemma_sorted(rows);
    let shown = first_shown(all);
    let row = gap_diagnostic(gaps[at]);
    let place = lemma_sorted_keeps(rows, at);
    assert(all[place] == row);
    assert forall|k: int| 0 <= k < shown.len() implies #[trigger] shown[k] == all[k] by {}
    if !shown.contains(row) {
        assert forall|k: int| 0 <= k < shown.len() implies (#[trigger] shown[k]).end_at
            >= gaps[at].end_at by {
            if place < shown.len() {
                assert(shown[place] == row);
            }
            assert(!all[k].behind(all[place]));
        }
    }
    assert forall|j: int, k: int| 0 <= j < k < shown.len() implies (#[trigger] shown[j]).end_at >= (
    #[trigger] shown[k]).end_at by {
        assert(!all[j].behind(all[k]));
    }
}

/// The observations that are shown are the latest: none that is left out is later than one
/// that is shown, and each says what was observed.
pub proof fn lemma_latest_observations_are_shown(rows: Seq<RateLimitRow>, at: int)
    requires
        0 <= at < rows.len(),
    ensures
        ({
            let shown = first_shown(
                sorted(Seq::new(rows.len(), |i: int| shown_rate_limit(rows[i]))),
            );
            let row = shown_rate_limit(rows[at]);
            &&& row.account_key == rows[at].account_key
            &&& row.limit_id == rows[at].limit_id
            &&& row.window == rows[at].window
            &&& row.used_percent == rows[at].sample.used_percent
            &&& row.resets_at == rows[at].sample.resets_at
            &&& row.sampled_at == rows[at].sample.sampled_at
            &&& !shown.contains(row) ==> forall|k: int|
                0 <= k < shown.len() ==> (#[trigger] shown[k]).sampled_at
                    >= rows[at].sample.sampled_at
        }),
{
    let listed = Seq::new(rows.len(), |i: int| shown_rate_limit(rows[i]));
    let all = sorted(listed);
    lemma_sorted(listed);
    let shown = first_shown(all);
    let row = shown_rate_limit(rows[at]);
    let place = lemma_sorted_keeps(listed, at);
    assert(all[place] == row);
    assert forall|k: int| 0 <= k < shown.len() implies #[trigger] shown[k] == all[k] by {}
    if !shown.contains(row) {
        assert forall|k: int| 0 <= k < shown.len() implies (#[trigger] shown[k]).sampled_at
            >= rows[at].sample.sampled_at by {
            if place < shown.len() {
                assert(shown[place] == row);
            }
            assert(!all[k].behind(all[place]));
        }
    }
}

/// The increases that are shown are the latest: none that is left out is later than one that
/// is shown, and each says what was recorded.
pub proof fn lemma_latest_increases_are_shown(samples: Seq<TurnTokenSample>, at: int)
    requires
        0 <= at < samples.len(),
    ensures
        ({
            let shown = first_shown(
                sorted(
                    Seq::new(
                        samples.len(),
                        |i: int| shown_token_sample(samples[samples.len() - 1 - i]),
                    ),
                ),
            );
            let row = shown_token_sample(samples[at]);
            &&& row.account_key == samples[at].account_key
            &&& row.thread_id == samples[at].thread_id
            &&& row.turn_id == samples[at].turn_id
            &&& row.delta_tokens == samples[at].delta_tokens
            &&& row.cumulative_tokens == samples[at].cumulative_tokens
            &&& row.sampled_at == samples[at].sampled_at
            &&& !shown.contains(row) ==> forall|k: int|
                0 <= k < shown.len() ==> (#[trigger] shown[k]).sampled_at >= samples[at].sampled_at
        }),
{
    let listed = Seq::new(
        samples.len(),
        |i: int| shown_token_sample(samples[samples.len() - 1 - i]),
    );
    let all = sorted(listed);
    lemma_sorted(listed);
    let shown = first_shown(all);
    let row = shown_token_sample(samples[at]);
    assert(listed[samples.len() - 1 - at] == row);
    let place = lemma_sorted_keeps(listed, samples.len() - 1 - at);
    assert(all[place] == row);
    assert forall|k: int| 0 <= k < shown.len() implies #[trigger] shown[k] == all[k] by {}
    if !shown.contains(row) {
        assert forall|k: int| 0 <= k < shown.len() implies (#[trigger] shown[k]).sampled_at
            >= samples[at].sampled_at by {
            if place < shown.len() {
                assert(shown[place] == row);
            }
            assert(!all[k].behind(all[place]));
        }
    }
}

/// Every source is shown as it stands, the last changed first.
pub proof fn lemma_every_source_is_shown(sources: Seq<RolloutSource>, at: int)
    requires
        0 <= at < sources.len(),
    ensures
        ({
            let shown = sorted(Seq::new(sources.len(), |i: int| source_health(sources[i])));
            &&& shown.len() == sources.len()
            &&& exists|k: int|
                {
                    let row = #[trigger] shown[k];
                    let source = sources[at];
                    &&& 0 <= k < shown.len()
                    &&& row.source_id == source.source_id
                    &&& row.path == source.canonical_path
                    &&& row.account_key == source.account_key
                    &&& row.binding_status == source.binding_status
                    &&& row.binding_source == source.binding_source
                    &&& row.condition == source.condition
                    &&& row.last_offset == source.last_offset
                    &&& row.last_size == source.last_size
                    &&& row.last_activity_at == source.last_activity_at
                    &&& row.last_error == source.last_error
                    &&& row.updated_at == source.updated_at
                }
            &&& forall|j: int, k: int|
                0 <= j < k < shown.len() ==> (#[trigger] shown[j]).updated_at >= (
                #[trigger] shown[k]).updated_at
        }),
{
    let listed = Seq::new(sources.len(), |i: int| source_health(sources[i]));
    let shown = sorted(listed);
    lemma_sorted(listed);
    let place = lemma_sorted_keeps(listed, at);
    assert(shown[place] == source_health(sources[at]));
    assert forall|j: int, k: int| 0 <= j < k < shown.len() implies (
    #[trigger] shown[j]).updated_at >= (#[trigger] shown[k]).updated_at by {
        assert(!shown[j].behind(shown[k]));
    }
}

/// As many sources have no account yet as are unresolved.
pub proof fn lemma_unresolved_are_counted(sources: Seq<RolloutSource>)
    ensures
        unresolved_of(sources) == count_where(
            sources,
            |source: RolloutSource| source.binding_status == BindingStatus::Unresolved,
        ),
    decreases sources.len(),
{
    if sources.len() > 0 {
        lemma_unresolved_are_counted(sources.drop_last());
    }
}

} // verus!
