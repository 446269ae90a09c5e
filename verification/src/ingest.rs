//! How incoming data becomes trace events: the wire messages of the gRPC ingest stream, the
//! agents' heartbeats and the adaptive-sampling answer to them, and OTLP/HTTP spans.

use crate::models::{AgentHealth, AgentLanguage, DbQuery, EventType, HttpRequest, LocalVar, TraceEvent, TracingMode};
use crate::text::hex_lower;
use std::collections::HashMap;
use vstd::prelude::*;
use vstd::string::StrSliceExecFns;

verus! {

// ── UUIDs and numbers in text ────────────────────────────────────────────────

/// What `uuid::Uuid::parse_str` makes of a text: the UUID's 128-bit value, or `None` when the
/// text is not a UUID in one of the forms that crate reads.
pub uninterp spec fn uuid_parse(s: Seq<char>) -> Option<u128>;

/// Calls `uuid::Uuid::parse_str` and keeps the value of the UUID (`Uuid::as_u128`).
/// Claimed: the result is `uuid_parse(s@)`; parsing depends on the text alone.
#[verifier::external_body]
pub(crate) fn parse_uuid(s: &str) -> (r: Option<u128>)
    ensures
        r == uuid_parse(s@),
{
    match uuid::Uuid::parse_str(s) {
        Ok(u) => Some(u.as_u128()),
        Err(_) => None,
    }
}

// ── Hexadecimal ids (OpenTelemetry) ──────────────────────────────────────────

/// The value of a hexadecimal digit (either case), or `None` for any other character.
pub open spec fn hex_val(c: char) -> Option<int> {
    if '0' <= c <= '9' {
        Some(c as int - '0' as int)
    } else if 'a' <= c <= 'f' {
        Some(c as int - 'a' as int + 10)
    } else if 'A' <= c <= 'F' {
        Some(c as int - 'A' as int + 10)
    } else {
        None
    }
}

/// Every character is a hexadecimal digit.
pub open spec fn all_hex(s: Seq<char>) -> bool {
    forall|i: int| 0 <= i < s.len() ==> (#[trigger] hex_val(s[i])) is Some
}

/// The value of a text of hexadecimal digits, most significant first.
pub open spec fn hex_value(s: Seq<char>) -> int
    decreases s.len(),
{
    if s.len() == 0 {
        0
    } else {
        hex_value(s.drop_last()) * 16 + hex_val(s.last()).unwrap_or(0)
    }
}

/// `16` to the power `n`.
pub open spec fn pow16(n: nat) -> int
    decreases n,
{
    if n == 0 {
        1
    } else {
        16 * pow16((n - 1) as nat)
    }
}

/// An id as OpenTelemetry writes it: one to thirty-two hexadecimal digits (a trace id has
/// thirty-two, a span id sixteen), read as a number.
pub open spec fn hex_id_spec(s: Seq<char>) -> Option<u128> {
    if 0 < s.len() <= 32 && all_hex(s) {
        Some(hex_value(s) as u128)
    } else {
        None
    }
}

proof fn lemma_hex_bound(s: Seq<char>)
    requires
        all_hex(s),
    ensures
        0 <= hex_value(s) < pow16(s.len()),
    decreases s.len(),
{
    if s.len() > 0 {
        assert(all_hex(s.drop_last())) by {
            assert forall|i: int| 0 <= i < s.drop_last().len() implies (#[trigger] hex_val(s.drop_last()[i])) is Some by {
                assert(s.drop_last()[i] == s[i]);
            }
        }
        lemma_hex_bound(s.drop_last());
        assert(hex_val(s[s.len() - 1]) is Some);
    }
}

proof fn lemma_pow16_grows(a: nat, b: nat)
    requires
        a <= b,
    ensures
        pow16(a) <= pow16(b),
        pow16(a) >= 1,
    decreases b,
{
    if b > 0 {
        if a < b {
            lemma_pow16_grows(a, (b - 1) as nat);
        } else {
            lemma_pow16_grows((a - 1) as nat, (b - 1) as nat);
        }
    }
}

proof fn lemma_pow16_32()
    ensures
        pow16(32) == u128::MAX + 1,
{
    reveal_with_fuel(pow16, 33);
    assert(pow16(32) == 0x1_0000_0000_0000_0000_0000_0000_0000_0000int);
}

fn hex_val_exec(c: char) -> (r: Option<u8>)
    ensures
        match hex_val(c) {
            Some(v) => r == Some(v as u8),
            None => r is None,
        },
{
    if '0' <= c && c <= '9' {
        Some((c as u32 - '0' as u32) as u8)
    } else if 'a' <= c && c <= 'f' {
        Some((c as u32 - 'a' as u32 + 10) as u8)
    } else if 'A' <= c && c <= 'F' {
        Some((c as u32 - 'A' as u32 + 10) as u8)
    } else {
        None
    }
}

/// Reads an OpenTelemetry id: one to thirty-two hexadecimal digits.
pub fn parse_hex_id(s: &str) -> (r: Option<u128>)
    ensures
        r == hex_id_spec(s@),
{
    let n = s.unicode_len();
    if n == 0 || n > 32 {
        return None;
    }
    let mut v: u128 = 0;
    let mut i: usize = 0;
    while i < n
        invariant
            n == s@.len(),
            0 < n <= 32,
            i <= n,
            all_hex(s@.take(i as int)),
            v as int == hex_value(s@.take(i as int)),
        decreases n - i,
    {
        let c = s.get_char(i);
        match hex_val_exec(c) {
            Some(d) => {
                let ghost t = s@.take(i as int);
                proof {
                    lemma_hex_bound(t);
                    lemma_pow16_grows((i + 1) as nat, 32);
                    lemma_pow16_32();
                    assert(pow16((i + 1) as nat) == 16 * pow16(i as nat));
                    assert(s@.take(i + 1).drop_last() =~= t);
                    assert(s@.take(i + 1).last() == c);
                    assert forall|j: int| 0 <= j < i + 1 implies (#[trigger] hex_val(s@.take(i + 1)[j])) is Some by {
                        if j < i {
                            assert(s@.take(i + 1)[j] == t[j]);
                        }
                    }
                }
                v = v * 16 + d as u128;
                i = i + 1;
            },
            None => {
                proof {
                    assert(!all_hex(s@)) by {
                        assert(s@[i as int] == c);
                    }
                }
                return None;
            },
        }
    }
    assert(s@.take(n as int) =~= s@);
    Some(v)
}

/// The value of an id in an OTLP span: its hexadecimal form, or else a UUID.
pub open spec fn otlp_id(s: Seq<char>) -> Option<u128> {
    match hex_id_spec(s) {
        Some(v) => Some(v),
        None => uuid_parse(s),
    }
}

fn otlp_id_exec(s: &str) -> (r: Option<u128>)
    ensures
        r == otlp_id(s@),
{
    match parse_hex_id(s) {
        Some(v) => Some(v),
        None => parse_uuid(s),
    }
}

/// The value of a text of decimal digits.
pub open spec fn digits_value(s: Seq<char>) -> int
    decreases s.len(),
{
    if s.len() == 0 {
        0
    } else {
        digits_value(s.drop_last()) * 10 + (s.last() as int - '0' as int)
    }
}

/// Every character is a decimal digit.
pub open spec fn all_digits(s: Seq<char>) -> bool {
    forall|i: int| 0 <= i < s.len() ==> '0' <= #[trigger] s[i] <= '9'
}

/// What `str::parse::<u64>` gives: an optional `+` followed by at least one decimal digit, of
/// a value that fits in a `u64`.
pub open spec fn parse_u64_spec(s: Seq<char>) -> Option<u64> {
    let d = if s.len() > 0 && s[0] == '+' {
        s.drop_first()
    } else {
        s
    };
    if d.len() > 0 && all_digits(d) && digits_value(d) <= u64::MAX {
        Some(digits_value(d) as u64)
    } else {
        None
    }
}

proof fn lemma_digits_nonneg(s: Seq<char>)
    requires
        all_digits(s),
    ensures
        digits_value(s) >= 0,
    decreases s.len(),
{
    if s.len() > 0 {
        assert(all_digits(s.drop_last())) by {
            assert forall|i: int| 0 <= i < s.drop_last().len() implies '0' <= #[trigger] s.drop_last()[i] <= '9' by {
                assert(s.drop_last()[i] == s[i]);
            }
        }
        lemma_digits_nonneg(s.drop_last());
        assert('0' <= s[s.len() - 1] <= '9');
    }
}

proof fn lemma_digits_grow(s: Seq<char>, i: nat)
    requires
        i <= s.len(),
        all_digits(s),
    ensures
        digits_value(s.take(i as int)) <= digits_value(s),
    decreases s.len() - i,
{
    if i < s.len() {
        lemma_digits_grow(s, i + 1);
        assert(s.take(i + 1 as int).drop_last() =~= s.take(i as int));
        assert('0' <= s[i as int] <= '9');
        lemma_digits_nonneg(s.take(i as int));
    } else {
        assert(s.take(i as int) =~= s);
    }
}

/// Reads an unsigned decimal number as `str::parse::<u64>` does.
pub fn parse_u64(s: &str) -> (r: Option<u64>)
    ensures
        r == parse_u64_spec(s@),
{
    let n = s.unicode_len();
    let mut start: usize = 0;
    if n > 0 && s.get_char(0) == '+' {
        start = 1;
    }
    let ghost d = if s@.len() > 0 && s@[0] == '+' {
        s@.drop_first()
    } else {
        s@
    };
    assert(d =~= s@.skip(start as int));
    if start >= n {
        return None;
    }
    let mut value: u64 = 0;
    let mut i: usize = start;
    while i < n
        invariant
            start <= i <= n,
            n == s@.len(),
            d == s@.skip(start as int),
            parse_u64_spec(s@) == (if d.len() > 0 && all_digits(d) && digits_value(d) <= u64::MAX {
                Some(digits_value(d) as u64)
            } else {
                None
            }),
            all_digits(d.take(i - start)),
            value == digits_value(d.take(i - start)),
        decreases n - i,
    {
        let c = s.get_char(i);
        let ghost k = (i - start) as int;
        assert(d[k] == c);
        if c < '0' || c > '9' {
            assert(!all_digits(d));
            assert(parse_u64_spec(s@) is None);
            return None;
        }
        assert(d.take(k + 1).drop_last() =~= d.take(k));
        assert(d.take(k + 1).last() == c);
        assert(all_digits(d.take(k + 1))) by {
            assert forall|j: int| 0 <= j < k + 1 implies '0' <= #[trigger] d.take(k + 1)[j] <= '9' by {
                if j < k {
                    assert(d.take(k + 1)[j] == d.take(k)[j]);
                }
            }
        }
        let digit = (c as u32 - '0' as u32) as u64;
        assert(digits_value(d.take(k + 1)) == value * 10 + digit);
        match value.checked_mul(10) {
            Some(m) => match m.checked_add(digit) {
                Some(v) => {
                    value = v;
                },
                None => {
                    proof {
                        if all_digits(d) {
                            lemma_digits_grow(d, (k + 1) as nat);
                        }
                    }
                    return None;
                },
            },
            None => {
                proof {
                    if all_digits(d) {
                        lemma_digits_grow(d, (k + 1) as nat);
                    }
                }
                return None;
            },
        }
        i = i + 1;
    }
    assert(d.take(n - start) =~= d);
    Some(value)
}

// ── gRPC ingest stream ───────────────────────────────────────────────────────

/// A local variable as the wire format carries it.
pub struct ProtoLocalVar {
    pub name: String,
    pub value: String,
    pub var_type: String,
}

/// An HTTP request as the wire format carries it (an empty body stands for none).
pub struct ProtoHttpRequest {
    pub method: String,
    pub url: String,
    pub headers: HashMap<String, String>,
    pub body: Vec<u8>,
}

/// A database query as the wire format carries it.
pub struct ProtoDbQuery {
    pub query: String,
    pub driver: String,
    pub duration_us: u64,
}

/// A trace event as the wire format carries it: ids as text, event type and language as
/// numeric codes, and empty texts where the engine's model has no value.
pub struct ProtoTraceEvent {
    pub trace_id: String,
    pub span_id: String,
    pub parent_span_id: String,
    pub timestamp_ms: u64,
    pub event_type: i32,
    pub function_name: String,
    pub module: String,
    pub file: String,
    pub line: u32,
    pub locals: Vec<ProtoLocalVar>,
    pub error_message: String,
    pub duration_us: Option<u64>,
    pub language: i32,
    pub thread_id: String,
    pub tenant_id: String,
    pub http_request: Option<ProtoHttpRequest>,
    pub db_query: Option<ProtoDbQuery>,
    pub event_id: String,
    pub memory_usage_bytes: Option<u64>,
}

/// The event type a wire code stands for; other codes are ignored.
pub open spec fn proto_event_type(code: i32) -> Option<EventType> {
    if code == 1 {
        Some(EventType::FunctionEnter)
    } else if code == 2 {
        Some(EventType::FunctionExit)
    } else if code == 3 {
        Some(EventType::Exception)
    } else if code == 4 {
        Some(EventType::AsyncSpawn)
    } else if code == 5 {
        Some(EventType::AsyncResume)
    } else if code == 6 {
        Some(EventType::HttpRequest)
    } else if code == 7 {
        Some(EventType::HttpResponse)
    } else if code == 8 {
        Some(EventType::DbQuery)
    } else {
        None
    }
}

/// Decoding tells event types apart: two codes that decode to the same event type are the same
/// code, and every event type has a code.
pub proof fn lemma_proto_event_type_one_to_one(a: i32, b: i32, t: EventType)
    ensures
        proto_event_type(a) is Some && proto_event_type(a) == proto_event_type(b) ==> a == b,
        exists|c: i32| #[trigger] proto_event_type(c) == Some(t),
{
    match t {
        EventType::FunctionEnter => assert(proto_event_type(1) == Some(t)),
        EventType::FunctionExit => assert(proto_event_type(2) == Some(t)),
        EventType::Exception => assert(proto_event_type(3) == Some(t)),
        EventType::AsyncSpawn => assert(proto_event_type(4) == Some(t)),
        EventType::AsyncResume => assert(proto_event_type(5) == Some(t)),
        EventType::HttpRequest => assert(proto_event_type(6) == Some(t)),
        EventType::HttpResponse => assert(proto_event_type(7) == Some(t)),
        EventType::DbQuery => assert(proto_event_type(8) == Some(t)),
    }
}

/// The language of an event's wire code: Python for unknown codes.
pub open spec fn proto_language(code: i32) -> AgentLanguage {
    if code == 2 {
        AgentLanguage::Go
    } else if code == 3 {
        AgentLanguage::Rust
    } else if code == 4 {
        AgentLanguage::Cpp
    } else {
        AgentLanguage::Python
    }
}

/// The language of a heartbeat's wire code: Unknown for unknown codes.
pub open spec fn health_language(code: i32) -> AgentLanguage {
    if code == 1 {
        AgentLanguage::Python
    } else if code == 2 {
        AgentLanguage::Go
    } else if code == 3 {
        AgentLanguage::Rust
    } else if code == 4 {
        AgentLanguage::Cpp
    } else {
        AgentLanguage::Unknown
    }
}

fn event_type_of(code: i32) -> (r: Option<EventType>)
    ensures
        r == proto_event_type(code),
{
    match code {
        1 => Some(EventType::FunctionEnter),
        2 => Some(EventType::FunctionExit),
        3 => Some(EventType::Exception),
        4 => Some(EventType::AsyncSpawn),
        5 => Some(EventType::AsyncResume),
        6 => Some(EventType::HttpRequest),
        7 => Some(EventType::HttpResponse),
        8 => Some(EventType::DbQuery),
        _ => None,
    }
}

fn language_of(code: i32) -> (r: AgentLanguage)
    ensures
        r == proto_language(code),
{
    match code {
        2 => AgentLanguage::Go,
        3 => AgentLanguage::Rust,
        4 => AgentLanguage::Cpp,
        _ => AgentLanguage::Python,
    }
}

/// A text, or `None` when it is empty.
pub open spec fn nonempty(s: String) -> Option<String> {
    if s@.len() == 0 {
        None
    } else {
        Some(s)
    }
}

fn nonempty_exec(s: String) -> (r: Option<String>)
    ensures
        r == nonempty(s),
{
    if s.as_str().is_empty() {
        None
    } else {
        Some(s)
    }
}

/// A wire local variable in the engine's model.
pub open spec fn local_from_proto(l: ProtoLocalVar) -> LocalVar {
    LocalVar { name: l.name, value: l.value, var_type: l.var_type }
}

/// The wire HTTP request in the engine's model; an empty body is none.
pub open spec fn http_from_proto(h: ProtoHttpRequest) -> HttpRequest {
    HttpRequest {
        method: h.method,
        url: h.url,
        headers: h.headers,
        body: if h.body@.len() == 0 {
            None
        } else {
            Some(h.body)
        },
    }
}

/// The event a wire message describes, before its event id is computed, given the event type
/// and the ids read from the message.
pub open spec fn proto_event_base(
    msg: ProtoTraceEvent,
    t: EventType,
    trace_id: u128,
    span_id: u128,
    parent_span_id: Option<u128>,
    locals: Option<Vec<LocalVar>>,
) -> TraceEvent {
    TraceEvent {
        trace_id,
        span_id,
        parent_span_id,
        timestamp_ms: msg.timestamp_ms,
        event_type: t,
        function_name: msg.function_name,
        module: msg.module,
        file: msg.file,
        line: msg.line,
        locals,
        error_message: nonempty(msg.error_message),
        duration_us: msg.duration_us,
        language: proto_language(msg.language),
        thread_id: nonempty(msg.thread_id),
        http_request: match msg.http_request {
            Some(h) => Some(http_from_proto(h)),
            None => None,
        },
        db_query: match msg.db_query {
            Some(q) => Some(DbQuery { query: q.query, driver: q.driver, duration_us: q.duration_us }),
            None => None,
        },
        tenant_id: nonempty(msg.tenant_id),
        event_id: nonempty(msg.event_id),
        memory_usage_bytes: msg.memory_usage_bytes,
        fingerprint: None,
        is_folded: None,
        fold_count: None,
        version: None,
        environment: None,
    }
}

/// `r` is the event of the wire message `msg` with the given ids: `None` for an unknown event
/// type; else the message's fields in the engine's model (its locals each converted, none when
/// there are none), with the event id computed by `calculate_event_id`.
pub open spec fn proto_event_matches(
    r: Option<TraceEvent>,
    msg: ProtoTraceEvent,
    trace_id: u128,
    span_id: u128,
    parent_span_id: Option<u128>,
) -> bool {
    match proto_event_type(msg.event_type) {
        None => r is None,
        Some(t) => r is Some && {
            let e = r.unwrap();
            let locals = e.locals;
            &&& e == (TraceEvent {
                event_id: e.event_id,
                ..proto_event_base(msg, t, trace_id, span_id, parent_span_id, locals)
            })
            &&& if msg.locals@.len() == 0 {
                locals is None
            } else {
                locals is Some && locals.unwrap()@ == msg.locals@.map_values(|l: ProtoLocalVar| local_from_proto(l))
            }
            &&& e.event_id is Some
            &&& exists|h: u64| e.event_id.unwrap()@ == hex_lower(h as nat)
        },
    }
}

/// Builds the event of a wire message once its ids are read: see `proto_event_matches`.
pub fn event_from_proto(msg: ProtoTraceEvent, trace_id: u128, span_id: u128, parent_span_id: Option<u128>) -> (r: Option<
    TraceEvent,
>)
    ensures
        proto_event_matches(r, msg, trace_id, span_id, parent_span_id),
{
    let ghost m = msg;
    let t = match event_type_of(msg.event_type) {
        Some(t) => t,
        None => {
            return None;
        },
    };
    let language = language_of(msg.language);
    let locals = if msg.locals.len() == 0 {
        None
    } else {
        let ghost src = msg.locals@;
        let mut out: Vec<LocalVar> = Vec::new();
        for l in it: msg.locals.into_iter()
            invariant
                it.seq() == src,
                out@ == src.take(it.index() as int).map_values(|l: ProtoLocalVar| local_from_proto(l)),
        {
            let ghost i = it.index() as int;
            out.push(LocalVar { name: l.name, value: l.value, var_type: l.var_type });
            assert(out@ =~= src.take(i + 1).map_values(|l: ProtoLocalVar| local_from_proto(l)));
        }
        assert(src.take(src.len() as int) =~= src);
        Some(out)
    };
    let http_request = match msg.http_request {
        Some(h) => {
            let body = if h.body.len() == 0 {
                None
            } else {
                Some(h.body)
            };
            Some(HttpRequest { method: h.method, url: h.url, headers: h.headers, body })
        },
        None => None,
    };
    let db_query = match msg.db_query {
        Some(q) => Some(DbQuery { query: q.query, driver: q.driver, duration_us: q.duration_us }),
        None => None,
    };
    let mut ev = TraceEvent {
        trace_id,
        span_id,
        parent_span_id,
        timestamp_ms: msg.timestamp_ms,
        event_type: t,
        function_name: msg.function_name,
        module: msg.module,
        file: msg.file,
        line: msg.line,
        locals,
        error_message: nonempty_exec(msg.error_message),
        duration_us: msg.duration_us,
        language,
        thread_id: nonempty_exec(msg.thread_id),
        http_request,
        db_query,
        tenant_id: nonempty_exec(msg.tenant_id),
        event_id: nonempty_exec(msg.event_id),
        memory_usage_bytes: msg.memory_usage_bytes,
        fingerprint: None,
        is_folded: None,
        fold_count: None,
        version: None,
        environment: None,
    };
    assert(ev == proto_event_base(m, t, trace_id, span_id, parent_span_id, ev.locals));
    ev.calculate_event_id();
    Some(ev)
}

/// The ids of a wire message: its trace and span ids as UUIDs (the nil UUID when they are not
/// UUIDs), and its parent span id when it is a UUID (none when empty).
pub open spec fn proto_ids(msg: ProtoTraceEvent) -> (u128, u128, Option<u128>) {
    (
        match uuid_parse(msg.trace_id@) {
            Some(u) => u,
            None => 0,
        },
        match uuid_parse(msg.span_id@) {
            Some(u) => u,
            None => 0,
        },
        if msg.parent_span_id@.len() == 0 {
            None
        } else {
            uuid_parse(msg.parent_span_id@)
        },
    )
}

/// Converts a wire message of the ingest stream into an event, or `None` when its event type
/// is unknown (such messages are skipped).
pub fn proto_to_event(msg: ProtoTraceEvent) -> (r: Option<TraceEvent>)
    ensures
        proto_event_matches(r, msg, proto_ids(msg).0, proto_ids(msg).1, proto_ids(msg).2),
{
    let trace_id = match parse_uuid(msg.trace_id.as_str()) {
        Some(u) => u,
        None => 0,
    };
    let span_id = match parse_uuid(msg.span_id.as_str()) {
        Some(u) => u,
        None => 0,
    };
    let parent_span_id = if msg.parent_span_id.as_str().is_empty() {
        None
    } else {
        parse_uuid(msg.parent_span_id.as_str())
    };
    event_from_proto(msg, trace_id, span_id, parent_span_id)
}

// ── Heartbeats and adaptive sampling ─────────────────────────────────────────

/// An agent's heartbeat as the wire format carries it.
pub struct ProtoHeartbeat {
    pub agent_id: String,
    pub hostname: String,
    pub language: i32,
    pub buffer_usage_percent: u64,
    pub events_dropped: u64,
    pub active_spans: u64,
    pub pid: String,
}

/// What the engine tells an agent after a heartbeat.
#[derive(Debug, Clone, Copy, PartialEq, Eq, Structural)]
pub struct ControlCommand {
    pub mode: TracingMode,
    pub sampling_rate_percent: u32,
    pub kill_switch: bool,
}

/// Ingestion permits below which the engine is under backpressure.
pub const LOW_PERMITS: usize = 50;

/// Buffer usage (in percent) above which an agent is nearly full.
pub const HIGH_BUFFER_PERCENT: u64 = 80;

/// Adaptive sampling: full capture at 100%, unless the engine is under backpressure (safe mode
/// at 50%) or, taking precedence, the agent's buffer is nearly full (safe mode at 20%).
pub fn sampling_command(available_permits: usize, buffer_usage_percent: u64) -> (r: ControlCommand)
    ensures
        r.kill_switch == false,
        buffer_usage_percent > HIGH_BUFFER_PERCENT ==> r.mode == TracingMode::Safe && r.sampling_rate_percent == 20,
        buffer_usage_percent <= HIGH_BUFFER_PERCENT && available_permits < LOW_PERMITS ==> r.mode == TracingMode::Safe
            && r.sampling_rate_percent == 50,
        buffer_usage_percent <= HIGH_BUFFER_PERCENT && available_permits >= LOW_PERMITS ==> r.mode == TracingMode::Dev
            && r.sampling_rate_percent == 100,
{
    let mut mode = TracingMode::Dev;
    let mut rate: u32 = 100;
    if available_permits < LOW_PERMITS {
        mode = TracingMode::Safe;
        rate = 50;
    }
    if buffer_usage_percent > HIGH_BUFFER_PERCENT {
        mode = TracingMode::Safe;
        rate = 20;
    }
    ControlCommand { mode, sampling_rate_percent: rate, kill_switch: false }
}

/// The health record of an agent from its heartbeat, received at `now_secs`.
pub fn agent_health(hb: ProtoHeartbeat, now_secs: u64) -> (r: AgentHealth)
    ensures
        r == (AgentHealth {
            agent_id: hb.agent_id,
            hostname: hb.hostname,
            language: health_language(hb.language),
            buffer_usage_percent: hb.buffer_usage_percent,
            events_dropped: hb.events_dropped,
            active_spans: hb.active_spans,
            pid: hb.pid,
            last_heartbeat: now_secs,
        }),
{
    let language = match hb.language {
        1 => AgentLanguage::Python,
        2 => AgentLanguage::Go,
        3 => AgentLanguage::Rust,
        4 => AgentLanguage::Cpp,
        _ => AgentLanguage::Unknown,
    };
    AgentHealth {
        agent_id: hb.agent_id,
        hostname: hb.hostname,
        language,
        buffer_usage_percent: hb.buffer_usage_percent,
        events_dropped: hb.events_dropped,
        active_spans: hb.active_spans,
        pid: hb.pid,
        last_heartbeat: now_secs,
    }
}

// ── OTLP/HTTP spans ──────────────────────────────────────────────────────────

/// An OTLP/HTTP span, as much of it as the engine reads. Absent ids read as empty texts; the
/// timestamps are the decimal texts of nanoseconds, when present.
pub struct OtlpSpan {
    pub trace_id: String,
    pub span_id: String,
    pub parent_span_id: String,
    pub start_time_unix_nano: Option<String>,
    pub end_time_unix_nano: Option<String>,
    pub name: Option<String>,
}

/// A timestamp in nanoseconds from its optional decimal text: 0 when absent or unreadable.
pub open spec fn nanos(t: Option<String>) -> u64 {
    match t {
        Some(s) => match parse_u64_spec(s@) {
            Some(v) => v,
            None => 0,
        },
        None => 0,
    }
}

fn nanos_exec(t: &Option<String>) -> (r: u64)
    ensures
        r == nanos(*t),
{
    match t {
        Some(s) => match parse_u64(s.as_str()) {
            Some(v) => v,
            None => 0,
        },
        None => 0,
    }
}

/// The text of an optional string, or `default` when absent.
pub open spec fn text_or(o: Option<String>, default: Seq<char>) -> Seq<char> {
    match o {
        Some(s) => s@,
        None => default,
    }
}

/// `r` is the entry event an OTLP span becomes, with the given ids, for the service named
/// `service` (if the resource names one).
pub open spec fn otlp_event_matches(
    r: TraceEvent,
    span: OtlpSpan,
    service: Option<String>,
    trace_id: u128,
    span_id: u128,
    parent_span_id: Option<u128>,
) -> bool {
    let start = nanos(span.start_time_unix_nano);
    let end = nanos(span.end_time_unix_nano);
    &&& r.trace_id == trace_id
    &&& r.span_id == span_id
    &&& r.parent_span_id == parent_span_id
    &&& r.timestamp_ms == start / 1_000_000
    &&& r.event_type == EventType::FunctionEnter
    &&& r.function_name@ == text_or(span.name, "otel-span"@)
    &&& r.module@ == text_or(service, "otel-service"@)
    &&& r.file@ == "otel"@
    &&& r.line == 0
    &&& r.locals is None
    &&& r.error_message is None
    &&& r.duration_us == Some(((end - start) / 1000) as u64)
    &&& r.language == AgentLanguage::Unknown
    &&& r.thread_id is None
    &&& r.http_request is None
    &&& r.db_query is None
    &&& r.tenant_id is None
    &&& r.event_id is None
    &&& r.memory_usage_bytes is None
    &&& r.fingerprint is None
    &&& r.is_folded is None
    &&& r.fold_count is None
    &&& r.version is None
    &&& r.environment is None
}

/// Builds the entry event of an OTLP span once its ids are read; the span must not end
/// before it starts.
pub fn otlp_span_event(
    span: OtlpSpan,
    service: Option<String>,
    trace_id: u128,
    span_id: u128,
    parent_span_id: Option<u128>,
) -> (r: TraceEvent)
    requires
        nanos(span.start_time_unix_nano) <= nanos(span.end_time_unix_nano),
    ensures
        otlp_event_matches(r, span, service, trace_id, span_id, parent_span_id),
{
    let start = nanos_exec(&span.start_time_unix_nano);
    let end = nanos_exec(&span.end_time_unix_nano);
    let function_name = match span.name {
        Some(n) => n,
        None => "otel-span".to_owned(),
    };
    let module = match service {
        Some(m) => m,
        None => "otel-service".to_owned(),
    };
    TraceEvent {
        trace_id,
        span_id,
        parent_span_id,
        timestamp_ms: start / 1_000_000,
        event_type: EventType::FunctionEnter,
        function_name,
        module,
        file: "otel".to_owned(),
        line: 0,
        locals: None,
        error_message: None,
        duration_us: Some((end - start) / 1000),
        language: AgentLanguage::Unknown,
        thread_id: None,
        http_request: None,
        db_query: None,
        tenant_id: None,
        event_id: None,
        memory_usage_bytes: None,
        fingerprint: None,
        is_folded: None,
        fold_count: None,
        version: None,
        environment: None,
    }
}

/// Converts an OTLP span into an entry event. Ids are read as OpenTelemetry writes them
/// (hexadecimal) or as UUIDs; a trace or span id that is neither is replaced by a fresh one
/// (`fresh_trace_id`, `fresh_span_id`), and a parent id that is neither is dropped. The span
/// must not end before it starts.
pub fn otlp_to_event(span: OtlpSpan, service: Option<String>, fresh_trace_id: u128, fresh_span_id: u128) -> (r: TraceEvent)
    requires
        nanos(span.start_time_unix_nano) <= nanos(span.end_time_unix_nano),
    ensures
        otlp_event_matches(
            r,
            span,
            service,
            match otlp_id(span.trace_id@) {
                Some(u) => u,
                None => fresh_trace_id,
            },
            match otlp_id(span.span_id@) {
                Some(u) => u,
                None => fresh_span_id,
            },
            otlp_id(span.parent_span_id@),
        ),
{
    let trace_id = match otlp_id_exec(span.trace_id.as_str()) {
        Some(u) => u,
        None => fresh_trace_id,
    };
    let span_id = match otlp_id_exec(span.span_id.as_str()) {
        Some(u) => u,
        None => fresh_span_id,
    };
    let parent = otlp_id_exec(span.parent_span_id.as_str());
    otlp_span_event(span, service, trace_id, span_id, parent)
}

} // verus!
