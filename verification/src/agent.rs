//! The Rust agent's logic: its event records, the bounded send buffer with retry and backoff,
//! how send outcomes are classified, and W3C `traceparent` propagation. Sending, clocks and
//! thread-local state belong to the caller.

use crate::ingest::{proto_event_type, ProtoLocalVar, ProtoTraceEvent};
use std::collections::HashMap;
use std::collections::VecDeque;
use vstd::prelude::*;
use vstd::string::{StrSliceExecFns, StringExecFns, StringSliceAdditionalSpecFns};
use vstd::utf8::{decode_utf8, encode_utf8, is_char_boundary};

verus! {

/// The type of an event the agent records.
#[derive(Debug, Clone, Copy, PartialEq, Eq, Structural)]
pub enum EventType {
    FunctionEnter,
    FunctionExit,
    Exception,
}

/// A captured local variable.
#[derive(Debug, Clone)]
pub struct LocalVar {
    pub name: String,
    pub value: String,
    pub var_type: String,
}

/// A captured outgoing HTTP request.
#[derive(Debug, Clone)]
pub struct HttpRequest {
    pub method: String,
    pub url: String,
    pub headers: HashMap<String, String>,
}

/// An event as the agent records and sends it.
#[derive(Debug, Clone)]
pub struct TraceEvent {
    pub trace_id: String,
    pub span_id: String,
    pub parent_span_id: Option<String>,
    pub timestamp_ms: u64,
    pub event_type: EventType,
    pub function_name: String,
    pub module: String,
    pub file: String,
    pub line: u32,
    pub locals: Option<Vec<LocalVar>>,
    pub error_message: Option<String>,
    pub duration_us: Option<u64>,
    pub language: String,
    pub thread_id: String,
    pub http_request: Option<HttpRequest>,
    pub event_id: Option<String>,
    pub memory_usage_bytes: Option<u64>,
}

/// How a send attempt ended.
#[derive(Debug, Clone, Copy, PartialEq, Eq, Structural)]
pub enum SendResult {
    Success,
    /// Worth retrying: the engine is overloaded or unreachable.
    RetryableError,
    /// Not worth retrying: the engine refused the data.
    FatalError,
}

/// Most events the agent buffers; when full, the oldest is dropped.
pub const MAX_BUFFER_SIZE: usize = 10000;

/// The longest backoff after failed sends, in milliseconds.
pub const MAX_BACKOFF_MS: u64 = 10000;

/// The agent's state: where it sends, the buffered events and the retry backoff.
pub struct Agent {
    pub engine_url: String,
    pub grpc_url: String,
    pub use_grpc: bool,
    /// The buffered events, oldest first.
    pub batch: VecDeque<TraceEvent>,
    /// Until when sending is suspended, in milliseconds since the epoch.
    pub backoff_until_ms: Option<u64>,
    /// How many sends in a row have failed with a retryable error.
    pub backoff_count: u32,
}

/// `2` to the power `n`.
pub open spec fn pow2(n: nat) -> nat
    decreases n,
{
    if n == 0 {
        1
    } else {
        2 * pow2((n - 1) as nat)
    }
}

/// The backoff after the `count`-th consecutive failed send (counting from 0): 100 ms,
/// doubling each time, at most 10 s.
pub open spec fn backoff_delay_spec(count: u32) -> u64 {
    let e: nat = if count < 10 {
        count as nat
    } else {
        10
    };
    if 100 * pow2(e) < MAX_BACKOFF_MS {
        (100 * pow2(e)) as u64
    } else {
        MAX_BACKOFF_MS
    }
}

/// The buffer after a failed batch is handed back: as many of the batch's last events as fit
/// go back in front of what was buffered meanwhile, in their order.
pub open spec fn requeue_spec(events: Seq<TraceEvent>, buffered: Seq<TraceEvent>) -> Seq<TraceEvent> {
    let room: int = if buffered.len() < MAX_BUFFER_SIZE {
        MAX_BUFFER_SIZE - buffered.len()
    } else {
        0
    };
    let k: int = if events.len() < room {
        events.len() as int
    } else {
        room
    };
    events.subrange(events.len() - k, events.len() as int) + buffered
}

impl Agent {
    /// The buffer never holds more than `MAX_BUFFER_SIZE` events.
    pub open spec fn wf(&self) -> bool {
        self.batch@.len() <= MAX_BUFFER_SIZE
    }

    /// A fresh agent for an engine: nothing buffered, no backoff.
    pub fn new(engine_url: &str, grpc_url: &str, use_grpc: bool) -> (r: Agent)
        ensures
            r.wf(),
            r.engine_url@ == engine_url@,
            r.grpc_url@ == grpc_url@,
            r.use_grpc == use_grpc,
            r.batch@ == Seq::<TraceEvent>::empty(),
            r.backoff_until_ms is None,
            r.backoff_count == 0,
    {
        Agent {
            engine_url: engine_url.to_owned(),
            grpc_url: grpc_url.to_owned(),
            use_grpc,
            batch: VecDeque::new(),
            backoff_until_ms: None,
            backoff_count: 0,
        }
    }

    /// How many events are buffered.
    pub fn buffered_len(&self) -> (r: usize)
        ensures
            r == self.batch@.len(),
    {
        self.batch.len()
    }

    /// Buffers an event; when the buffer is full, its oldest event is dropped first.
    pub fn enqueue(&mut self, ev: TraceEvent)
        requires
            old(self).wf(),
        ensures
            final(self).wf(),
            final(self).batch@ == if old(self).batch@.len() >= MAX_BUFFER_SIZE {
                old(self).batch@.drop_first().push(ev)
            } else {
                old(self).batch@.push(ev)
            },
            final(self).backoff_until_ms == old(self).backoff_until_ms,
            final(self).backoff_count == old(self).backoff_count,
            final(self).engine_url == old(self).engine_url,
            final(self).grpc_url == old(self).grpc_url,
            final(self).use_grpc == old(self).use_grpc,
    {
        if self.batch.len() >= MAX_BUFFER_SIZE {
            let _ = self.batch.pop_front();
        }
        self.batch.push_back(ev);
    }

    /// Starts a flush at time `now_ms`: unless sending is suspended until a later time or
    /// nothing is buffered, takes every buffered event out, oldest first, to be sent.
    pub fn begin_flush(&mut self, now_ms: u64) -> (r: Option<Vec<TraceEvent>>)
        requires
            old(self).wf(),
        ensures
            final(self).wf(),
            r is None <==> (match old(self).backoff_until_ms {
                Some(until) => now_ms < until,
                None => false,
            } || old(self).batch@.len() == 0),
            r is Some ==> r.unwrap()@ == old(self).batch@ && final(self).batch@ == Seq::<TraceEvent>::empty(),
            r is None ==> final(self).batch@ == old(self).batch@,
            final(self).backoff_until_ms == old(self).backoff_until_ms,
            final(self).backoff_count == old(self).backoff_count,
            final(self).engine_url == old(self).engine_url,
            final(self).grpc_url == old(self).grpc_url,
            final(self).use_grpc == old(self).use_grpc,
    {
        if let Some(until) = self.backoff_until_ms {
            if now_ms < until {
                return None;
            }
        }
        if self.batch.len() == 0 {
            return None;
        }
        let mut out: Vec<TraceEvent> = Vec::new();
        let ghost all = self.batch@;
        while self.batch.len() > 0
            invariant
                out@ + self.batch@ == all,
                self.backoff_until_ms == old(self).backoff_until_ms,
                self.backoff_count == old(self).backoff_count,
                self.engine_url == old(self).engine_url,
                self.grpc_url == old(self).grpc_url,
                self.use_grpc == old(self).use_grpc,
            decreases self.batch@.len(),
        {
            let ghost b = self.batch@;
            match self.batch.pop_front() {
                Some(e) => {
                    out.push(e);
                    assert(out@ + self.batch@ =~= all);
                },
                None => {},
            }
        }
        assert(out@ =~= all);
        Some(out)
    }

    /// Ends a flush with the outcome of sending `events` (what `begin_flush` took out) at time
    /// `now_ms`. Success clears the backoff. A retryable error hands the events back to the
    /// buffer (those that fit, see `requeue_spec`) and suspends sending for the next backoff
    /// delay. A fatal error drops them.
    pub fn complete_flush(&mut self, result: SendResult, events: Vec<TraceEvent>, now_ms: u64)
        requires
            old(self).wf(),
            result is RetryableError ==> now_ms + backoff_delay_spec(old(self).backoff_count) <= u64::MAX,
        ensures
            final(self).wf(),
            final(self).engine_url == old(self).engine_url,
            final(self).grpc_url == old(self).grpc_url,
            final(self).use_grpc == old(self).use_grpc,
            match result {
                SendResult::Success => {
                    &&& final(self).batch@ == old(self).batch@
                    &&& final(self).backoff_count == 0
                    &&& final(self).backoff_until_ms is None
                },
                SendResult::RetryableError => {
                    &&& final(self).batch@ == requeue_spec(events@, old(self).batch@)
                    &&& final(self).backoff_count == (old(self).backoff_count as int + 1) % 0x1_0000_0000
                    &&& final(self).backoff_until_ms == Some(
                        (now_ms + backoff_delay_spec(old(self).backoff_count)) as u64,
                    )
                },
                SendResult::FatalError => {
                    &&& final(self).batch@ == old(self).batch@
                    &&& final(self).backoff_count == old(self).backoff_count
                    &&& final(self).backoff_until_ms == old(self).backoff_until_ms
                },
            },
    {
        match result {
            SendResult::Success => {
                self.backoff_count = 0;
                self.backoff_until_ms = None;
            },
            SendResult::RetryableError => {
                let ghost buffered = self.batch@;
                let ghost ev = events@;
                let n = events.len();
                let mut events = events;
                let mut i = n;
                while i > 0
                    invariant
                        events@ == ev.take(i as int),
                        i <= n,
                        n == ev.len(),
                        buffered.len() <= MAX_BUFFER_SIZE,
                        self.batch@ == requeue_spec(ev.skip(i as int), buffered),
                        self.backoff_until_ms == old(self).backoff_until_ms,
                        self.backoff_count == old(self).backoff_count,
                        self.engine_url == old(self).engine_url,
                        self.grpc_url == old(self).grpc_url,
                        self.use_grpc == old(self).use_grpc,
                    decreases i,
                {
                    let ghost before = self.batch@;
                    let e = events.pop().unwrap();
                    assert(ev.take(i as int).last() == e);
                    assert(ev.skip(i - 1) =~= seq![e] + ev.skip(i as int));
                    if self.batch.len() < MAX_BUFFER_SIZE {
                        self.batch.push_front(e);
                        assert(self.batch@ =~= requeue_spec(ev.skip(i - 1), buffered));
                    } else {
                        assert(self.batch@ =~= requeue_spec(ev.skip(i - 1), buffered));
                    }
                    assert(events@ =~= ev.take(i - 1));
                    i = i - 1;
                }
                assert(ev.skip(0) =~= ev);
                let count = self.backoff_count;
                self.backoff_count = count.wrapping_add(1);
                let delay = backoff_delay_ms(count);
                self.backoff_until_ms = Some(now_ms + delay);
            },
            SendResult::FatalError => {},
        }
    }
}

/// The backoff after the `count`-th consecutive failed send.
pub fn backoff_delay_ms(count: u32) -> (r: u64)
    ensures
        r == backoff_delay_spec(count),
        r <= MAX_BACKOFF_MS,
{
    let e: u32 = if count < 10 {
        count
    } else {
        10
    };
    let mut p: u64 = 1;
    let mut i: u32 = 0;
    while i < e
        invariant
            i <= e,
            e <= 10,
            p == pow2(i as nat),
            p <= 1024,
        decreases e - i,
    {
        proof {
            assert(pow2((i + 1) as nat) == 2 * pow2(i as nat));
            lemma_pow2_bound(i as nat);
        }
        p = p * 2;
        i = i + 1;
    }
    let d = 100 * p;
    if d < MAX_BACKOFF_MS {
        d
    } else {
        MAX_BACKOFF_MS
    }
}

proof fn lemma_pow2_bound(n: nat)
    requires
        n < 10,
    ensures
        pow2(n) <= 512,
    decreases n,
{
    if n > 0 {
        lemma_pow2_bound((n - 1) as nat);
        assert(pow2(n) == 2 * pow2((n - 1) as nat));
        if n == 9 {
            reveal_with_fuel(pow2, 10);
        } else {
            lemma_pow2_small((n - 1) as nat);
        }
    }
}

proof fn lemma_pow2_small(n: nat)
    requires
        n < 9,
    ensures
        pow2(n) <= 256,
    decreases n,
{
    reveal_with_fuel(pow2, 10);
}

proof fn lemma_pow2_monotone(a: nat, b: nat)
    requires
        a <= b,
    ensures
        pow2(a) <= pow2(b),
    decreases b - a,
{
    if a < b {
        lemma_pow2_monotone(a, (b - 1) as nat);
    }
}

/// The backoff never shrinks as failures pile up: after more consecutive failed sends the
/// agent waits at least as long.
pub proof fn lemma_backoff_monotone(a: u32, b: u32)
    requires
        a <= b,
    ensures
        backoff_delay_spec(a) <= backoff_delay_spec(b),
{
    let ea: nat = if a < 10 { a as nat } else { 10 };
    let eb: nat = if b < 10 { b as nat } else { 10 };
    lemma_pow2_monotone(ea, eb);
}

// ── Outcome classification ───────────────────────────────────────────────────

/// What came of sending a batch over HTTP.
#[derive(Debug, Clone, Copy, PartialEq, Eq, Structural)]
pub enum HttpOutcome {
    /// The engine accepted the batch.
    Delivered,
    /// The engine answered with this error status.
    Status(u16),
    /// No answer: the connection or the transport failed.
    Transport,
}

/// What came of sending a batch over gRPC.
#[derive(Debug, Clone, Copy, PartialEq, Eq, Structural)]
pub enum GrpcOutcome {
    /// The runtime for the call could not be started.
    RuntimeFailed,
    /// The engine could not be reached.
    ConnectFailed,
    /// The engine accepted the stream.
    Delivered,
    /// The engine ended the stream with this status code.
    Status(i32),
    /// No outcome within the time limit.
    TimedOut,
}

/// The gRPC status code for an exhausted resource.
pub const GRPC_RESOURCE_EXHAUSTED: i32 = 8;

/// The gRPC status code for an unavailable service.
pub const GRPC_UNAVAILABLE: i32 = 14;

/// Classifies an HTTP send: 503 and 429 answers and transport failures are worth retrying,
/// any other error status is not.
pub fn classify_http(outcome: HttpOutcome) -> (r: SendResult)
    ensures
        r == match outcome {
            HttpOutcome::Delivered => SendResult::Success,
            HttpOutcome::Status(code) => if code == 503 || code == 429 {
                SendResult::RetryableError
            } else {
                SendResult::FatalError
            },
            HttpOutcome::Transport => SendResult::RetryableError,
        },
{
    match outcome {
        HttpOutcome::Delivered => SendResult::Success,
        HttpOutcome::Status(code) => if code == 503 || code == 429 {
            SendResult::RetryableError
        } else {
            SendResult::FatalError
        },
        HttpOutcome::Transport => SendResult::RetryableError,
    }
}

/// Classifies a gRPC send: an unreachable engine, an exhausted resource, an unavailable
/// service and a timeout are worth retrying; a failed runtime and any other status are not.
pub fn classify_grpc(outcome: GrpcOutcome) -> (r: SendResult)
    ensures
        r == match outcome {
            GrpcOutcome::RuntimeFailed => SendResult::FatalError,
            GrpcOutcome::ConnectFailed => SendResult::RetryableError,
            GrpcOutcome::Delivered => SendResult::Success,
            GrpcOutcome::Status(code) => if code == GRPC_RESOURCE_EXHAUSTED || code == GRPC_UNAVAILABLE {
                SendResult::RetryableError
            } else {
                SendResult::FatalError
            },
            GrpcOutcome::TimedOut => SendResult::RetryableError,
        },
{
    match outcome {
        GrpcOutcome::RuntimeFailed => SendResult::FatalError,
        GrpcOutcome::ConnectFailed => SendResult::RetryableError,
        GrpcOutcome::Delivered => SendResult::Success,
        GrpcOutcome::Status(code) => if code == GRPC_RESOURCE_EXHAUSTED || code == GRPC_UNAVAILABLE {
            SendResult::RetryableError
        } else {
            SendResult::FatalError
        },
        GrpcOutcome::TimedOut => SendResult::RetryableError,
    }
}

// ── Trace context propagation ────────────────────────────────────────────────

/// The entries of a map of HTTP headers, by their texts.
pub uninterp spec fn header_entries(m: HashMap<String, String>) -> Map<Seq<char>, Seq<char>>;

/// Calls `HashMap::insert`: afterwards the map holds `value` under `key`, and every other entry
/// as before (a `String` key is found by its text).
#[verifier::external_body]
fn header_insert(m: &mut HashMap<String, String>, key: String, value: String)
    ensures
        header_entries(*final(m)) == header_entries(*old(m)).insert(key@, value@),
{
    m.insert(key, value);
}

/// Calls `HashMap::get`: the value stored under the text `key`, if any.
#[verifier::external_body]
fn header_get<'a>(m: &'a HashMap<String, String>, key: &str) -> (r: Option<&'a String>)
    ensures
        match r {
            Some(v) => header_entries(*m).contains_key(key@) && header_entries(*m)[key@] == v@,
            None => !header_entries(*m).contains_key(key@),
        },
{
    m.get(key)
}

/// The name of the W3C trace-context header.
pub open spec fn traceparent_key() -> Seq<char> {
    seq!['t', 'r', 'a', 'c', 'e', 'p', 'a', 'r', 'e', 'n', 't']
}

/// The text without its dashes.
pub open spec fn without_dashes(s: Seq<char>) -> Seq<char>
    decreases s.len(),
{
    if s.len() == 0 {
        seq![]
    } else {
        let p = without_dashes(s.drop_last());
        if s.last() == '-' {
            p
        } else {
            p.push(s.last())
        }
    }
}

/// The `traceparent` value that carries a trace id: version `00`, the id without its dashes,
/// a zero parent id and the sampled flag.
pub open spec fn traceparent_text(trace_id: Seq<char>) -> Seq<char> {
    seq!['0', '0', '-'] + without_dashes(trace_id) + seq!['-'] + Seq::new(16, |i: int| '0') + seq!['-', '0', '1']
}

fn strip_dashes(s: &str) -> (r: String)
    ensures
        r@ == without_dashes(s@),
{
    let n = s.unicode_len();
    let mut out = String::new();
    for i in 0..n
        invariant
            n == s@.len(),
            out@ == without_dashes(s@.take(i as int)),
    {
        assert(s@.take(i + 1).drop_last() =~= s@.take(i as int));
        assert(s@.take(i + 1).last() == s@[i as int]);
        let c = s.get_char(i);
        if c != '-' {
            let one = s.substring_char(i, i + 1);
            out.append(one);
            assert(one@ =~= seq![c]);
        }
    }
    assert(s@.take(n as int) =~= s@);
    out
}

/// Writes the `traceparent` header that propagates the trace `trace_id` to the callee.
pub fn inject_trace_headers(headers: &mut HashMap<String, String>, trace_id: &str)
    ensures
        header_entries(*final(headers)) == header_entries(*old(headers)).insert(
            traceparent_key(),
            traceparent_text(trace_id@),
        ),
{
    let mut value = String::new();
    let head = "00-";
    let tail = "-0000000000000000-01";
    let key = "traceparent";
    proof {
        reveal_strlit("00-");
        reveal_strlit("-0000000000000000-01");
        reveal_strlit("traceparent");
    }
    value.append(head);
    let id = strip_dashes(trace_id);
    value.append(id.as_str());
    value.append(tail);
    assert(value@ =~= traceparent_text(trace_id@));
    assert(key@ =~= traceparent_key());
    header_insert(headers, key.to_owned(), value);
}

/// The text of the UTF-8 bytes `from..to` of `tp`.
pub open spec fn byte_piece(tp: Seq<char>, from: int, to: int) -> Seq<char> {
    decode_utf8(encode_utf8(tp).subrange(from, to))
}

/// The byte offsets where a `traceparent` value long enough to carry a trace id is cut all
/// fall on character boundaries.
pub open spec fn traceparent_cuttable(tp: Seq<char>) -> bool {
    let b = encode_utf8(tp);
    b.len() >= 55 ==> {
        &&& is_char_boundary(b, 3)
        &&& is_char_boundary(b, 11)
        &&& is_char_boundary(b, 15)
        &&& is_char_boundary(b, 19)
        &&& is_char_boundary(b, 23)
        &&& is_char_boundary(b, 35)
    }
}

/// The trace id a `traceparent` value carries: for a value of at least 55 bytes, its bytes
/// 3 to 35 (the 32 hexadecimal digits of the id), cut 8-4-4-4-12 and joined with dashes.
pub open spec fn traceparent_trace_id(tp: Seq<char>) -> Option<Seq<char>> {
    if encode_utf8(tp).len() >= 55 {
        Some(
            byte_piece(tp, 3, 11) + seq!['-'] + byte_piece(tp, 11, 15) + seq!['-'] + byte_piece(tp, 15, 19)
                + seq!['-'] + byte_piece(tp, 19, 23) + seq!['-'] + byte_piece(tp, 23, 35),
        )
    } else {
        None
    }
}

fn cut(s: &str, from: usize, to: usize) -> (r: &str)
    requires
        from <= to <= s.spec_bytes().len(),
        is_char_boundary(s.spec_bytes(), from as int),
        is_char_boundary(s.spec_bytes(), to as int),
    ensures
        r@ == decode_utf8(s.spec_bytes().subrange(from as int, to as int)),
{
    let ghost b = s.spec_bytes();
    proof {
        vstd::utf8::encode_utf8_valid_utf8(s@);
    }
    let (a, _) = s.split_at(to);
    let ghost ab = a.spec_bytes();
    proof {
        vstd::utf8::encode_utf8_valid_utf8(a@);
        assert(ab =~= b.subrange(0, to as int));
        if from == to {
            vstd::utf8::is_char_boundary_start_end_of_seq(ab);
        } else if from > 0 {
            vstd::utf8::is_char_boundary_iff_not_is_continuation_byte(b, from as int);
            vstd::utf8::is_char_boundary_iff_not_is_continuation_byte(ab, from as int);
        }
    }
    let (_, c) = a.split_at(from);
    proof {
        assert(c.spec_bytes() =~= b.subrange(from as int, to as int));
        vstd::utf8::encode_utf8_decode_utf8(c@);
    }
    c
}

fn cut_traceparent(tp: &str) -> (r: String)
    requires
        tp.spec_bytes().len() >= 55,
        traceparent_cuttable(tp@),
    ensures
        Some(r@) == traceparent_trace_id(tp@),
{
    let dash = "-";
    proof {
        reveal_strlit("-");
    }
    let mut out = String::new();
    out.append(cut(tp, 3, 11));
    out.append(dash);
    out.append(cut(tp, 11, 15));
    out.append(dash);
    out.append(cut(tp, 15, 19));
    out.append(dash);
    out.append(cut(tp, 19, 23));
    out.append(dash);
    out.append(cut(tp, 23, 35));
    assert(out@ =~= traceparent_trace_id(tp@).unwrap());
    out
}

/// The trace id that the `traceparent` header propagates, if the header is there and long
/// enough to carry one; the caller continues that trace.
pub fn extract_trace_headers(headers: &HashMap<String, String>) -> (r: Option<String>)
    requires
        header_entries(*headers).contains_key(traceparent_key()) ==> traceparent_cuttable(
            header_entries(*headers)[traceparent_key()],
        ),
    ensures
        match r {
            Some(id) => header_entries(*headers).contains_key(traceparent_key()) && traceparent_trace_id(
                header_entries(*headers)[traceparent_key()],
            ) == Some(id@),
            None => !header_entries(*headers).contains_key(traceparent_key()) || traceparent_trace_id(
                header_entries(*headers)[traceparent_key()],
            ) is None,
        },
{
    let key = "traceparent";
    proof {
        reveal_strlit("traceparent");
        assert(key@ =~= traceparent_key());
    }
    match header_get(headers, key) {
        Some(tp) => {
            let tps = tp.as_str();
            if tps.as_bytes().len() >= 55 {
                Some(cut_traceparent(tps))
            } else {
                None
            }
        },
        None => None,
    }
}

/// Where the trace context comes from in a request's headers: `Err(())` when a `traceparent`
/// header is there but cannot be cut at the places a trace id is read from (reading it would
/// split a character), else what `extract_trace_headers` reads.
pub fn extract_trace_headers_checked(headers: &HashMap<String, String>) -> (r: Result<Option<String>, ()>)
    ensures
        match r {
            Err(()) => header_entries(*headers).contains_key(traceparent_key()) && !traceparent_cuttable(
                header_entries(*headers)[traceparent_key()],
            ),
            Ok(id) => (header_entries(*headers).contains_key(traceparent_key()) ==> traceparent_cuttable(
                header_entries(*headers)[traceparent_key()],
            )) && match id {
                Some(id) => header_entries(*headers).contains_key(traceparent_key()) && traceparent_trace_id(
                    header_entries(*headers)[traceparent_key()],
                ) == Some(id@),
                None => !header_entries(*headers).contains_key(traceparent_key()) || traceparent_trace_id(
                    header_entries(*headers)[traceparent_key()],
                ) is None,
            },
        },
{
    let key = "traceparent";
    proof {
        reveal_strlit("traceparent");
        assert(key@ =~= traceparent_key());
    }
    match header_get(headers, key) {
        Some(tp) => {
            if !traceparent_is_cuttable(tp.as_str()) {
                return Err(());
            }
        },
        None => {},
    }
    Ok(extract_trace_headers(headers))
}

/// Whether a `traceparent` value can be cut where a trace id is read from it.
pub fn traceparent_is_cuttable(tp: &str) -> (r: bool)
    ensures
        r == traceparent_cuttable(tp@),
{
    if tp.as_bytes().len() < 55 {
        return true;
    }
    proof {
        vstd::utf8::encode_utf8_valid_utf8(tp@);
    }
    tp.is_char_boundary(3) && tp.is_char_boundary(11) && tp.is_char_boundary(15) && tp.is_char_boundary(19)
        && tp.is_char_boundary(23) && tp.is_char_boundary(35)
}

/// A trace id in the canonical text form of a UUID: 36 ASCII characters with dashes at
/// positions 8, 13, 18 and 23 and nowhere else.
pub open spec fn canonical_trace_id(t: Seq<char>) -> bool {
    &&& t.len() == 36
    &&& forall|i: int|
        0 <= i < 36 ==> if i == 8 || i == 13 || i == 18 || i == 23 {
            t[i] == '-'
        } else {
            #[trigger] t[i] != '-' && '\0' <= t[i] <= '\u{7f}'
        }
}

proof fn lemma_without_dashes_concat(a: Seq<char>, b: Seq<char>)
    ensures
        without_dashes(a + b) == without_dashes(a) + without_dashes(b),
    decreases b.len(),
{
    if b.len() == 0 {
        assert(a + b =~= a);
        assert(without_dashes(a) + without_dashes(b) =~= without_dashes(a));
    } else {
        assert((a + b).drop_last() =~= a + b.drop_last());
        assert((a + b).last() == b.last());
        lemma_without_dashes_concat(a, b.drop_last());
        if b.last() != '-' {
            assert(without_dashes(a) + without_dashes(b.drop_last()).push(b.last()) =~= (without_dashes(a)
                + without_dashes(b.drop_last())).push(b.last()));
        }
    }
}

proof fn lemma_without_dashes_plain(a: Seq<char>)
    requires
        forall|i: int| 0 <= i < a.len() ==> a[i] != '-',
    ensures
        without_dashes(a) == a,
    decreases a.len(),
{
    if a.len() > 0 {
        lemma_without_dashes_plain(a.drop_last());
        assert(a.drop_last().push(a.last()) =~= a);
    }
}

proof fn lemma_ascii_piece(tp: Seq<char>, a: int, b: int)
    requires
        vstd::utf8::is_ascii_chars(tp),
        0 <= a <= b <= tp.len(),
    ensures
        byte_piece(tp, a, b) == tp.subrange(a, b),
        encode_utf8(tp).len() == tp.len(),
{
    vstd::utf8::is_ascii_chars_encode_utf8(tp);
    let x = tp.subrange(a, b);
    assert(vstd::utf8::is_ascii_chars(x)) by {
        assert forall|i: int| 0 <= i < x.len() implies '\0' <= #[trigger] x[i] <= '\u{7f}' by {
            assert(x[i] == tp[a + i]);
        }
    }
    vstd::utf8::is_ascii_chars_encode_utf8(x);
    assert(encode_utf8(tp).subrange(a, b) =~= encode_utf8(x)) by {
        assert forall|i: int| 0 <= i < x.len() implies encode_utf8(tp).subrange(a, b)[i] == encode_utf8(x)[i] by {
            assert(x[i] == tp[a + i]);
            assert(tp[a + i] as u8 == encode_utf8(tp)[a + i]);
            assert(x[i] as u8 == encode_utf8(x)[i]);
        }
    }
    vstd::utf8::encode_utf8_decode_utf8(x);
}

proof fn lemma_ascii_boundary(tp: Seq<char>, k: int)
    requires
        vstd::utf8::is_ascii_chars(tp),
        0 <= k < tp.len(),
    ensures
        is_char_boundary(encode_utf8(tp), k),
{
    vstd::utf8::is_ascii_chars_encode_utf8(tp);
    vstd::utf8::encode_utf8_valid_utf8(tp);
    vstd::utf8::is_ascii_chars_nat_bound(tp);
    assert(tp[k] as u8 == encode_utf8(tp)[k]);
    assert((tp[k] as nat) < 128);
    vstd::utf8::is_char_boundary_iff_not_is_continuation_byte(encode_utf8(tp), k);
}

/// A canonical trace id survives the trip through the `traceparent` header: the value that
/// `inject_trace_headers` writes can be cut, and `extract_trace_headers` reads the same id back.
pub proof fn lemma_traceparent_round_trip(t: Seq<char>)
    requires
        canonical_trace_id(t),
    ensures
        traceparent_cuttable(traceparent_text(t)),
        traceparent_trace_id(traceparent_text(t)) == Some(t),
{
    let p0 = t.subrange(0, 8);
    let p1 = t.subrange(9, 13);
    let p2 = t.subrange(14, 18);
    let p3 = t.subrange(19, 23);
    let p4 = t.subrange(24, 36);
    let d = seq!['-'];
    assert(t =~= p0 + d + p1 + d + p2 + d + p3 + d + p4) by {
        assert(t[8] == '-' && t[13] == '-' && t[18] == '-' && t[23] == '-');
    }
    assert(without_dashes(d) =~= Seq::<char>::empty()) by {
        assert(d.drop_last() =~= Seq::<char>::empty());
        assert(without_dashes(d.drop_last()) =~= Seq::<char>::empty());
        assert(d.last() == '-');
    }
    assert forall|i: int| 0 <= i < 8 implies p0[i] != '-' by { assert(p0[i] == t[i]); }
    assert forall|i: int| 0 <= i < 4 implies p1[i] != '-' by { assert(p1[i] == t[9 + i]); }
    assert forall|i: int| 0 <= i < 4 implies p2[i] != '-' by { assert(p2[i] == t[14 + i]); }
    assert forall|i: int| 0 <= i < 4 implies p3[i] != '-' by { assert(p3[i] == t[19 + i]); }
    assert forall|i: int| 0 <= i < 12 implies p4[i] != '-' by { assert(p4[i] == t[24 + i]); }
    lemma_without_dashes_plain(p0);
    lemma_without_dashes_plain(p1);
    lemma_without_dashes_plain(p2);
    lemma_without_dashes_plain(p3);
    lemma_without_dashes_plain(p4);
    lemma_without_dashes_concat(p0, d);
    lemma_without_dashes_concat(p0 + d, p1);
    lemma_without_dashes_concat(p0 + d + p1, d);
    lemma_without_dashes_concat(p0 + d + p1 + d, p2);
    lemma_without_dashes_concat(p0 + d + p1 + d + p2, d);
    lemma_without_dashes_concat(p0 + d + p1 + d + p2 + d, p3);
    lemma_without_dashes_concat(p0 + d + p1 + d + p2 + d + p3, d);
    lemma_without_dashes_concat(p0 + d + p1 + d + p2 + d + p3 + d, p4);
    let w = without_dashes(t);
    assert(w =~= p0 + p1 + p2 + p3 + p4);
    let tp = traceparent_text(t);
    assert(tp.len() == 55);
    assert(vstd::utf8::is_ascii_chars(tp)) by {
        assert forall|i: int| 0 <= i < tp.len() implies '\0' <= #[trigger] tp[i] <= '\u{7f}' by {
            if 3 <= i < 11 {
                assert(tp[i] == t[i - 3]);
            } else if 11 <= i < 15 {
                assert(tp[i] == t[i - 2]);
            } else if 15 <= i < 19 {
                assert(tp[i] == t[i - 1]);
            } else if 19 <= i < 23 {
                assert(tp[i] == t[i]);
            } else if 23 <= i < 35 {
                assert(tp[i] == t[i + 1]);
            }
        }
    }
    lemma_ascii_piece(tp, 3, 11);
    lemma_ascii_piece(tp, 11, 15);
    lemma_ascii_piece(tp, 15, 19);
    lemma_ascii_piece(tp, 19, 23);
    lemma_ascii_piece(tp, 23, 35);
    lemma_ascii_boundary(tp, 3);
    lemma_ascii_boundary(tp, 11);
    lemma_ascii_boundary(tp, 15);
    lemma_ascii_boundary(tp, 19);
    lemma_ascii_boundary(tp, 23);
    lemma_ascii_boundary(tp, 35);
    assert(tp.subrange(3, 11) =~= p0);
    assert(tp.subrange(11, 15) =~= p1);
    assert(tp.subrange(15, 19) =~= p2);
    assert(tp.subrange(19, 23) =~= p3);
    assert(tp.subrange(23, 35) =~= p4);
}

// ── Events the agent records ─────────────────────────────────────────────────

/// The wire code of an agent event type.
pub open spec fn event_type_code(t: EventType) -> i32 {
    match t {
        EventType::FunctionEnter => 1,
        EventType::FunctionExit => 2,
        EventType::Exception => 3,
    }
}

/// The engine's event type of the same name as an agent event type.
pub open spec fn engine_event_type(t: EventType) -> crate::models::EventType {
    match t {
        EventType::FunctionEnter => crate::models::EventType::FunctionEnter,
        EventType::FunctionExit => crate::models::EventType::FunctionExit,
        EventType::Exception => crate::models::EventType::Exception,
    }
}

/// The engine decodes what the agent encodes: the wire code of every agent event type decodes,
/// on the engine, to the event type of the same name, and different types get different codes.
pub proof fn lemma_event_type_codes_round_trip(t: EventType, u: EventType)
    ensures
        proto_event_type(event_type_code(t)) == Some(engine_event_type(t)),
        event_type_code(t) == event_type_code(u) ==> t == u,
{
}

/// The wire code of the Rust language.
pub const LANG_RUST: i32 = 3;

/// A text, or the empty text for none.
pub open spec fn text_or_empty(o: Option<String>) -> Seq<char> {
    match o {
        Some(s) => s@,
        None => Seq::empty(),
    }
}

fn string_or_empty(o: Option<String>) -> (r: String)
    ensures
        r@ == text_or_empty(o),
{
    match o {
        Some(s) => s,
        None => String::new(),
    }
}

/// An agent local variable as the wire format carries it.
pub open spec fn local_to_proto(l: LocalVar) -> ProtoLocalVar {
    ProtoLocalVar { name: l.name, value: l.value, var_type: l.var_type }
}

/// The wire message for an event the agent sends over gRPC: absent texts become empty, the
/// language is Rust, and neither tenant, HTTP request nor query is sent.
pub fn to_proto_event(ev: TraceEvent) -> (r: ProtoTraceEvent)
    ensures
        r.trace_id == ev.trace_id,
        r.span_id == ev.span_id,
        r.parent_span_id@ == text_or_empty(ev.parent_span_id),
        r.timestamp_ms == ev.timestamp_ms,
        r.event_type == event_type_code(ev.event_type),
        r.function_name == ev.function_name,
        r.module == ev.module,
        r.file == ev.file,
        r.line == ev.line,
        r.locals@ == match ev.locals {
            Some(l) => l@.map_values(|x: LocalVar| local_to_proto(x)),
            None => Seq::empty(),
        },
        r.error_message@ == text_or_empty(ev.error_message),
        r.duration_us == ev.duration_us,
        r.language == LANG_RUST,
        r.thread_id == ev.thread_id,
        r.tenant_id@ == Seq::<char>::empty(),
        r.http_request is None,
        r.db_query is None,
        r.event_id@ == text_or_empty(ev.event_id),
        r.memory_usage_bytes == ev.memory_usage_bytes,
{
    let event_type: i32 = match ev.event_type {
        EventType::FunctionEnter => 1,
        EventType::FunctionExit => 2,
        EventType::Exception => 3,
    };
    let mut locals: Vec<ProtoLocalVar> = Vec::new();
    let ghost src: Seq<LocalVar> = match ev.locals {
        Some(ref l) => l@,
        None => Seq::empty(),
    };
    match ev.locals {
        Some(ls) => {
            for l in it: ls.into_iter()
                invariant
                    it.seq() == src,
                    locals@ == src.take(it.index() as int).map_values(|x: LocalVar| local_to_proto(x)),
            {
                let ghost i = it.index() as int;
                locals.push(ProtoLocalVar { name: l.name, value: l.value, var_type: l.var_type });
                assert(locals@ =~= src.take(i + 1).map_values(|x: LocalVar| local_to_proto(x)));
            }
            assert(src.take(src.len() as int) =~= src);
        },
        None => {
            assert(locals@ =~= src.map_values(|x: LocalVar| local_to_proto(x)));
        },
    }
    ProtoTraceEvent {
        trace_id: ev.trace_id,
        span_id: ev.span_id,
        parent_span_id: string_or_empty(ev.parent_span_id),
        timestamp_ms: ev.timestamp_ms,
        event_type,
        function_name: ev.function_name,
        module: ev.module,
        file: ev.file,
        line: ev.line,
        locals,
        error_message: string_or_empty(ev.error_message),
        duration_us: ev.duration_us,
        language: LANG_RUST,
        thread_id: ev.thread_id,
        tenant_id: String::new(),
        http_request: None,
        db_query: None,
        event_id: string_or_empty(ev.event_id),
        memory_usage_bytes: ev.memory_usage_bytes,
    }
}

/// An instrumented function's span: its id and where it was entered. Its entry event is
/// recorded when it opens and its exit event when it closes.
pub struct SpanGuard {
    pub span_id: String,
    pub fn_name: String,
    pub module: String,
    pub file: String,
    pub line: u32,
}

/// The fields every event of the Rust agent shares: no locals, error, request or event id, and
/// the language `rust`.
pub open spec fn rust_event(e: TraceEvent) -> bool {
    &&& e.locals is None
    &&& e.http_request is None
    &&& e.event_id is None
    &&& e.language@ == "rust"@
}

impl SpanGuard {
    /// `e` is this span's entry event: an entry of the span's own id, with no parent, at the
    /// guard's function and place.
    pub open spec fn opened_by(&self, e: TraceEvent) -> bool {
        &&& e.event_type == EventType::FunctionEnter
        &&& e.span_id == self.span_id
        &&& e.parent_span_id is None
        &&& e.function_name == self.fn_name
        &&& e.module == self.module
        &&& e.file == self.file
        &&& e.line == self.line
    }

    /// `e` is this span's exit event: an exit hanging from the span, at the guard's function and
    /// place, with the elapsed time.
    pub open spec fn closed_by(&self, e: TraceEvent) -> bool {
        &&& e.event_type == EventType::FunctionExit
        &&& e.parent_span_id == Some(self.span_id)
        &&& e.function_name == self.fn_name
        &&& e.module == self.module
        &&& e.file == self.file
        &&& e.line == self.line
        &&& e.duration_us is Some
    }

    /// Opens the span `span_id` of function `fn_name`.
    pub fn new(span_id: String, fn_name: &str, module: &str, file: &str, line: u32) -> (r: SpanGuard)
        ensures
            r.span_id == span_id,
            r.fn_name@ == fn_name@,
            r.module@ == module@,
            r.file@ == file@,
            r.line == line,
    {
        SpanGuard { span_id, fn_name: fn_name.to_owned(), module: module.to_owned(), file: file.to_owned(), line }
    }

    /// The entry event of the span, in trace `trace_id`, recorded at `now_ms` on `thread_id`.
    pub fn enter_event(&self, trace_id: String, now_ms: u64, thread_id: String, memory: Option<u64>) -> (r: TraceEvent)
        ensures
            rust_event(r),
            r.trace_id == trace_id,
            r.span_id == self.span_id,
            r.parent_span_id is None,
            r.timestamp_ms == now_ms,
            r.event_type == EventType::FunctionEnter,
            r.function_name == self.fn_name,
            r.module == self.module,
            r.file == self.file,
            r.line == self.line,
            r.error_message is None,
            r.duration_us is None,
            r.thread_id == thread_id,
            r.memory_usage_bytes == memory,
            self.opened_by(r),
    {
        TraceEvent {
            trace_id,
            span_id: self.span_id.clone(),
            parent_span_id: None,
            timestamp_ms: now_ms,
            event_type: EventType::FunctionEnter,
            function_name: self.fn_name.clone(),
            module: self.module.clone(),
            file: self.file.clone(),
            line: self.line,
            locals: None,
            error_message: None,
            duration_us: None,
            language: "rust".to_owned(),
            thread_id,
            http_request: None,
            event_id: None,
            memory_usage_bytes: memory,
        }
    }

    /// The exit event of the span: a new event `exit_span_id` whose parent is the span, recorded
    /// at `now_ms` after `elapsed_us` microseconds in the span.
    pub fn exit_event(
        &self,
        trace_id: String,
        exit_span_id: String,
        now_ms: u64,
        elapsed_us: u64,
        thread_id: String,
        memory: Option<u64>,
    ) -> (r: TraceEvent)
        ensures
            rust_event(r),
            r.trace_id == trace_id,
            r.span_id == exit_span_id,
            r.parent_span_id == Some(self.span_id),
            r.timestamp_ms == now_ms,
            r.event_type == EventType::FunctionExit,
            r.function_name == self.fn_name,
            r.module == self.module,
            r.file == self.file,
            r.line == self.line,
            r.error_message is None,
            r.duration_us == Some(elapsed_us),
            r.thread_id == thread_id,
            r.memory_usage_bytes == memory,
            self.closed_by(r),
    {
        TraceEvent {
            trace_id,
            span_id: exit_span_id,
            parent_span_id: Some(self.span_id.clone()),
            timestamp_ms: now_ms,
            event_type: EventType::FunctionExit,
            function_name: self.fn_name.clone(),
            module: self.module.clone(),
            file: self.file.clone(),
            line: self.line,
            locals: None,
            error_message: None,
            duration_us: Some(elapsed_us),
            language: "rust".to_owned(),
            thread_id,
            http_request: None,
            event_id: None,
            memory_usage_bytes: memory,
        }
    }
}

/// A span guard's exit matches its entry: in the same trace, the exit hangs from the entry's
/// span and names the same function, module, file and line.
pub proof fn lemma_span_guard_pairs(g: SpanGuard, enter: TraceEvent, exit: TraceEvent)
    requires
        g.opened_by(enter),
        g.closed_by(exit),
        enter.trace_id == exit.trace_id,
    ensures
        exit.parent_span_id == Some(enter.span_id),
        exit.trace_id == enter.trace_id,
        exit.function_name == enter.function_name,
        exit.module == enter.module,
        exit.file == enter.file,
        exit.line == enter.line,
        enter.event_type == EventType::FunctionEnter && exit.event_type == EventType::FunctionExit,
{
}

/// The exception event recorded for a panic with `message`, raised at `file`:`line`.
pub fn panic_event(
    trace_id: String,
    span_id: String,
    now_ms: u64,
    module: String,
    file: String,
    line: u32,
    message: String,
    thread_id: String,
    memory: Option<u64>,
) -> (r: TraceEvent)
    ensures
        rust_event(r),
        r.trace_id == trace_id,
        r.span_id == span_id,
        r.parent_span_id is None,
        r.timestamp_ms == now_ms,
        r.event_type == EventType::Exception,
        r.function_name@ == "panic"@,
        r.module == module,
        r.file == file,
        r.line == line,
        r.error_message == Some(message),
        r.duration_us is None,
        r.thread_id == thread_id,
        r.memory_usage_bytes == memory,
{
    TraceEvent {
        trace_id,
        span_id,
        parent_span_id: None,
        timestamp_ms: now_ms,
        event_type: EventType::Exception,
        function_name: "panic".to_owned(),
        module,
        file,
        line,
        locals: None,
        error_message: Some(message),
        duration_us: None,
        language: "rust".to_owned(),
        thread_id,
        http_request: None,
        event_id: None,
        memory_usage_bytes: memory,
    }
}

} // verus!
