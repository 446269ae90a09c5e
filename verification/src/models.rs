//! The engine's data model: trace events, summaries, cluster nodes and the other records
//! that flow between agents, the engine and its storage.
//!
//! Identifiers that the wire format writes as UUIDs are held here as their 128-bit value
//! (`u128`, the big-endian reading of the UUID's sixteen bytes).

use crate::hashing::{default_str_hash, hash_str};
use crate::text::{decimal, hex_lower, to_decimal, to_hex, to_hex128};
use std::collections::HashMap;
use vstd::prelude::*;

verus! {

/// The type of runtime event captured by an agent.
#[derive(Debug, Clone, Copy, PartialEq, Eq, Structural)]
pub enum EventType {
    FunctionEnter,
    FunctionExit,
    Exception,
    AsyncSpawn,
    AsyncResume,
    HttpRequest,
    HttpResponse,
    DbQuery,
}

/// A serialized local variable captured at a trace point.
#[derive(Debug, Clone)]
pub struct LocalVar {
    pub name: String,
    pub value: String,
    pub var_type: String,
}

/// Environment snapshot captured at the start of a trace session.
#[derive(Debug, Clone)]
pub struct EnvSnapshot {
    pub os: String,
    pub arch: String,
    pub hostname: String,
    pub env_vars: Vec<(String, String)>,
    pub working_dir: String,
    pub captured_at: u64,
}

/// The atomic unit of trace data. Every agent emits trace events.
#[derive(Debug, Clone)]
pub struct TraceEvent {
    pub trace_id: u128,
    pub span_id: u128,
    pub parent_span_id: Option<u128>,
    pub timestamp_ms: u64,
    pub event_type: EventType,
    pub function_name: String,
    pub module: String,
    pub file: String,
    pub line: u32,
    pub locals: Option<Vec<LocalVar>>,
    pub error_message: Option<String>,
    pub duration_us: Option<u64>,
    pub language: AgentLanguage,
    pub thread_id: Option<String>,
    pub http_request: Option<HttpRequest>,
    pub db_query: Option<DbQuery>,
    pub tenant_id: Option<String>,
    pub event_id: Option<String>,
    pub memory_usage_bytes: Option<u64>,
    pub fingerprint: Option<String>,
    pub is_folded: Option<bool>,
    pub fold_count: Option<u32>,
    pub version: Option<String>,
    pub environment: Option<String>,
}

/// The name of an event type, as `{:?}` prints it.
pub open spec fn event_type_name(t: EventType) -> Seq<char> {
    match t {
        EventType::FunctionEnter => "FunctionEnter"@,
        EventType::FunctionExit => "FunctionExit"@,
        EventType::Exception => "Exception"@,
        EventType::AsyncSpawn => "AsyncSpawn"@,
        EventType::AsyncResume => "AsyncResume"@,
        EventType::HttpRequest => "HttpRequest"@,
        EventType::HttpResponse => "HttpResponse"@,
        EventType::DbQuery => "DbQuery"@,
    }
}

/// The name of an event type, as `{:?}` prints it.
pub fn event_type_str(t: EventType) -> (r: &'static str)
    ensures
        r@ == event_type_name(t),
{
    match t {
        EventType::FunctionEnter => "FunctionEnter",
        EventType::FunctionExit => "FunctionExit",
        EventType::Exception => "Exception",
        EventType::AsyncSpawn => "AsyncSpawn",
        EventType::AsyncResume => "AsyncResume",
        EventType::HttpRequest => "HttpRequest",
        EventType::HttpResponse => "HttpResponse",
        EventType::DbQuery => "DbQuery",
    }
}

/// The text an event id is hashed from: trace id and span id in lowercase hex, the timestamp in
/// decimal and the event-type name, separated by `:`. It is the same on every machine.
pub open spec fn event_key_text(trace_id: u128, span_id: u128, timestamp_ms: u64, t: EventType) -> Seq<char> {
    hex_lower(trace_id as nat) + seq![':'] + hex_lower(span_id as nat) + seq![':'] + decimal(timestamp_ms as nat)
        + seq![':'] + event_type_name(t)
}

/// The event id of an event with these fields: the lowercase hex of std's default hash of its
/// key text.
pub open spec fn event_id_spec(trace_id: u128, span_id: u128, timestamp_ms: u64, t: EventType) -> Seq<char> {
    hex_lower(default_str_hash(event_key_text(trace_id, span_id, timestamp_ms, t)) as nat)
}

impl TraceEvent {
    /// Sets the event id: the lowercase hex of std's default hash of the event's key text (trace
    /// id, span id, timestamp, event type). Nothing else of the event changes.
    pub fn calculate_event_id(&mut self)
        ensures
            final(self).event_id is Some,
            final(self).event_id.unwrap()@ == event_id_spec(
                old(self).trace_id,
                old(self).span_id,
                old(self).timestamp_ms,
                old(self).event_type,
            ),
            *final(self) == (TraceEvent { event_id: final(self).event_id, ..*old(self) }),
    {
        let mut key = to_hex128(self.trace_id);
        let sep = ":";
        proof {
            reveal_strlit(":");
        }
        key.append(sep);
        key.append(to_hex128(self.span_id).as_str());
        key.append(sep);
        key.append(to_decimal(self.timestamp_ms).as_str());
        key.append(sep);
        key.append(event_type_str(self.event_type));
        assert(key@ =~= event_key_text(self.trace_id, self.span_id, self.timestamp_ms, self.event_type));
        let id = to_hex(hash_str(key.as_str()));
        self.event_id = Some(id);
    }
}

/// Two events that agree on trace, span, timestamp and type get the same event id, whatever
/// else they carry: re-sending an event yields the id it was stored under.
pub proof fn lemma_event_id_idempotent(a: TraceEvent, b: TraceEvent)
    requires
        a.trace_id == b.trace_id,
        a.span_id == b.span_id,
        a.timestamp_ms == b.timestamp_ms,
        a.event_type == b.event_type,
    ensures
        event_id_spec(a.trace_id, a.span_id, a.timestamp_ms, a.event_type) == event_id_spec(
            b.trace_id,
            b.span_id,
            b.timestamp_ms,
            b.event_type,
        ),
{
}

/// An HTTP request captured by an agent.
#[derive(Debug, Clone)]
pub struct HttpRequest {
    pub method: String,
    pub url: String,
    pub headers: HashMap<String, String>,
    pub body: Option<Vec<u8>>,
}

/// A database query captured by an agent.
#[derive(Debug, Clone)]
pub struct DbQuery {
    pub query: String,
    pub driver: String,
    pub duration_us: u64,
}

/// Which language/runtime sent an event.
#[derive(Debug, Clone, Copy, PartialEq, Eq, Structural)]
pub enum AgentLanguage {
    Python,
    Go,
    Rust,
    Cpp,
    C,
    Java,
    Node,
    Unknown,
}

/// A complete trace: a logical unit of execution (one request, one test, one crash).
#[derive(Debug, Clone)]
pub struct Trace {
    pub trace_id: u128,
    pub name: String,
    pub started_at: u64,
    pub ended_at: Option<u64>,
    pub has_error: bool,
    pub language: AgentLanguage,
    pub env: Option<EnvSnapshot>,
    pub event_count: usize,
    pub tenant_id: Option<String>,
    pub version: Option<String>,
    pub environment: Option<String>,
}

/// Summary of a trace for the list view (metadata, no events).
#[derive(Debug, Clone)]
pub struct TraceSummary {
    pub trace_id: u128,
    pub name: String,
    pub started_at: u64,
    pub duration_ms: Option<u64>,
    pub has_error: bool,
    pub language: AgentLanguage,
    pub event_count: usize,
    pub thread_ids: Vec<String>,
    pub ai_cluster_key: Option<String>,
    pub ai_summary: Option<String>,
    pub tenant_id: Option<String>,
    pub tags: Vec<String>,
    pub assigned_to: Option<String>,
    pub structural_hash: Option<String>,
    pub integrity_score: Option<u8>,
    pub version: Option<String>,
    pub environment: Option<String>,
    pub ai_root_cause: Option<String>,
    pub ai_patch_suggestion: Option<String>,
}

/// Incoming payload from an agent: either a single event or a batch.
#[derive(Debug)]
pub enum IngestPayload {
    Single(TraceEvent),
    Batch(Vec<TraceEvent>),
}

/// The events that an ingest payload carries, in order.
pub open spec fn payload_events(p: IngestPayload) -> Seq<TraceEvent> {
    match p {
        IngestPayload::Single(e) => seq![e],
        IngestPayload::Batch(v) => v@,
    }
}

impl IngestPayload {
    /// Flattens the payload into a list of events.
    pub fn into_events(self) -> (events: Vec<TraceEvent>)
        ensures
            events@ == payload_events(self),
    {
        match self {
            IngestPayload::Single(e) => {
                let mut v = Vec::new();
                v.push(e);
                assert(v@ =~= seq![e]);
                v
            },
            IngestPayload::Batch(v) => v,
        }
    }
}

/// Information about a node in the Orionis cluster.
#[derive(Debug, Clone)]
pub struct ClusterNode {
    pub node_id: String,
    pub http_addr: String,
    pub grpc_addr: String,
    pub status: NodeStatus,
    pub last_seen: u64,
}

/// Liveness of a cluster node.
#[derive(Debug, Clone, Copy, PartialEq, Eq, Structural)]
pub enum NodeStatus {
    Active,
    Inactive,
    Diverged,
}

/// A comment or annotation left by a user on a trace or span.
#[derive(Debug, Clone)]
pub struct TraceComment {
    pub comment_id: u128,
    pub trace_id: u128,
    pub span_id: Option<u128>,
    pub user_id: String,
    pub text: String,
    pub timestamp_ms: u64,
    pub tenant_id: Option<String>,
}

/// State mutation measured between the entry and the exit of one span.
#[derive(Debug, Clone)]
pub struct MutationMetrics {
    pub mutation_count: usize,
    pub memory_delta_bytes: i64,
    pub changed_keys: Vec<String>,
}

/// Per-span mutation metrics of a trace, keyed by span id.
#[derive(Debug, Clone)]
pub struct StateHeatmap {
    pub metrics: HashMap<u128, MutationMetrics>,
}

/// How much an agent captures.
#[derive(Debug, Clone, Copy, PartialEq, Eq, Structural)]
pub enum TracingMode {
    Dev,
    Safe,
    Error,
}

/// Self-reported health of an agent.
#[derive(Debug, Clone)]
pub struct AgentHealth {
    pub agent_id: String,
    pub hostname: String,
    pub language: AgentLanguage,
    pub buffer_usage_percent: u64,
    pub events_dropped: u64,
    pub active_spans: u64,
    pub pid: String,
    pub last_heartbeat: u64,
}

/// A security finding raised on a trace.
#[derive(Debug, Clone)]
pub struct SecurityAlert {
    pub alert_id: u128,
    pub trace_id: u128,
    pub alert_type: String,
    pub severity: String,
    pub message: String,
    pub timestamp_ms: u64,
    pub tenant_id: Option<String>,
}

/// A failure to inject while replaying a tenant's traces.
#[derive(Debug, Clone)]
pub struct SimulationRule {
    pub rule_id: u128,
    pub tenant_id: Option<String>,
    /// The module and function the failure is injected into.
    pub target_module: String,
    pub target_function: String,
    /// The error the injected failure raises.
    pub error_message: String,
}

/// A plugin (analyzer or exporter) a tenant registered.
#[derive(Debug, Clone)]
pub struct PluginRegistration {
    pub plugin_id: u128,
    pub tenant_id: Option<String>,
    pub name: String,
    /// Where the plugin is reached.
    pub endpoint: String,
}

} // verus!
