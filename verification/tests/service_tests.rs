use std::hash::BuildHasher;
use orionis::aggregate::TraceCluster;
use orionis::analysis::{ai_summary, analyze_trace, IntelligenceEngine, MockResult, ReplayManager};
use orionis::auth::{authenticate, identity_from_claims, may_clear, AuthConfig, AuthOutcome, AuthStep, Claims, Identity};
use orionis::cluster::{ClusterManager, Route};
use orionis::ingest::{
    agent_health, otlp_to_event, parse_hex_id, parse_u64, proto_to_event, sampling_command, OtlpSpan, ProtoHeartbeat,
    ProtoLocalVar, ProtoTraceEvent,
};
use orionis::models::{
    AgentLanguage, ClusterNode, DbQuery, EventType, HttpRequest, IngestPayload, NodeStatus, TraceEvent, TraceSummary,
    TracingMode,
};
use orionis::text::{text_less, to_decimal, to_hex};
use orionis::timeline::calculate_structural_hash;
use orionis::wal::{wal_frame, wal_split_lines};
use std::collections::HashMap;

fn ev(span: u128, parent: Option<u128>, ts: u64, ty: EventType, module: &str, func: &str) -> TraceEvent {
    TraceEvent {
        trace_id: 1,
        span_id: span,
        parent_span_id: parent,
        timestamp_ms: ts,
        event_type: ty,
        function_name: func.to_string(),
        module: module.to_string(),
        file: "f.py".to_string(),
        line: 1,
        locals: None,
        error_message: None,
        duration_us: None,
        language: AgentLanguage::Python,
        thread_id: None,
        http_request: None,
        db_query: None,
        tenant_id: None,
        event_id: None,
        memory_usage_bytes: None,
        fingerprint: None,
        is_folded: None,
        fold_count: None,
        version: None,
        environment: None,
    }
}

fn proto(event_type: i32) -> ProtoTraceEvent {
    ProtoTraceEvent {
        trace_id: "550e8400-e29b-41d4-a716-446655440000".to_string(),
        span_id: "not-a-uuid".to_string(),
        parent_span_id: String::new(),
        timestamp_ms: 77,
        event_type,
        function_name: "f".to_string(),
        module: "m".to_string(),
        file: "x.go".to_string(),
        line: 3,
        locals: Vec::new(),
        error_message: String::new(),
        duration_us: Some(5),
        language: 2,
        thread_id: "th".to_string(),
        tenant_id: String::new(),
        http_request: None,
        db_query: None,
        event_id: String::new(),
        memory_usage_bytes: None,
    }
}

fn node(id: &str) -> ClusterNode {
    ClusterNode {
        node_id: id.to_string(),
        http_addr: format!("{}:7700", id),
        grpc_addr: format!("{}:7701", id),
        status: NodeStatus::Active,
        last_seen: 0,
    }
}

#[test]
fn numbers_as_text() {
    assert_eq!(to_decimal(0), "0");
    assert_eq!(to_decimal(1234), "1234");
    assert_eq!(to_hex(255), "ff");
    assert_eq!(to_hex(0), "0");
    assert_eq!(parse_u64("+42"), Some(42));
    assert_eq!(parse_u64("007"), Some(7));
    assert_eq!(parse_u64(""), None);
    assert_eq!(parse_u64("+"), None);
    assert_eq!(parse_u64("12a"), None);
    assert_eq!(parse_u64("-1"), None);
    assert_eq!(parse_u64("18446744073709551615"), Some(u64::MAX));
    assert_eq!(parse_u64("18446744073709551616"), None);
}

#[test]
fn text_order_is_byte_order() {
    assert!(text_less("1.10", "1.9"));
    assert!(!text_less("1.9", "1.10"));
    assert!(text_less("ab", "abc"));
    assert!(!text_less("abc", "abc"));
    assert!(text_less("Z", "a"));
}

#[test]
fn proto_messages_become_events() {
    let e = proto_to_event(proto(8)).unwrap();
    assert_eq!(e.trace_id, 0x550e8400e29b41d4a716446655440000);
    assert_eq!(e.span_id, 0);
    assert_eq!(e.parent_span_id, None);
    assert_eq!(e.event_type, EventType::DbQuery);
    assert_eq!(e.language, AgentLanguage::Go);
    assert_eq!(e.thread_id, Some("th".to_string()));
    assert_eq!(e.error_message, None);
    assert_eq!(e.locals.is_none(), true);
    assert!(e.event_id.is_some());
    assert!(proto_to_event(proto(0)).is_none());
    assert!(proto_to_event(proto(9)).is_none());
    let mut p = proto(1);
    p.language = 42;
    p.parent_span_id = "550e8400-e29b-41d4-a716-446655440001".to_string();
    p.locals = vec![ProtoLocalVar { name: "a".to_string(), value: "1".to_string(), var_type: "int".to_string() }];
    p.error_message = "oops".to_string();
    let e = proto_to_event(p).unwrap();
    assert_eq!(e.language, AgentLanguage::Python);
    assert_eq!(e.parent_span_id, Some(0x550e8400e29b41d4a716446655440001));
    assert_eq!(e.locals.unwrap()[0].name, "a");
    assert_eq!(e.error_message, Some("oops".to_string()));
}

#[test]
fn adaptive_sampling() {
    let c = sampling_command(100, 10);
    assert_eq!((c.mode, c.sampling_rate_percent, c.kill_switch), (TracingMode::Dev, 100, false));
    let c = sampling_command(49, 10);
    assert_eq!((c.mode, c.sampling_rate_percent), (TracingMode::Safe, 50));
    let c = sampling_command(100, 81);
    assert_eq!((c.mode, c.sampling_rate_percent), (TracingMode::Safe, 20));
    let c = sampling_command(0, 90);
    assert_eq!((c.mode, c.sampling_rate_percent), (TracingMode::Safe, 20));
    let c = sampling_command(50, 80);
    assert_eq!((c.mode, c.sampling_rate_percent), (TracingMode::Dev, 100));
}

#[test]
fn heartbeat_health() {
    let hb = ProtoHeartbeat {
        agent_id: "a1".to_string(),
        hostname: "h".to_string(),
        language: 7,
        buffer_usage_percent: 12,
        events_dropped: 3,
        active_spans: 4,
        pid: "99".to_string(),
    };
    let h = agent_health(hb, 1234);
    assert_eq!(h.language, AgentLanguage::Unknown);
    assert_eq!(h.last_heartbeat, 1234);
    assert_eq!(h.events_dropped, 3);
}

#[test]
fn otlp_spans_become_entry_events() {
    let span = OtlpSpan {
        trace_id: "0af7651916cd43dd8448eb211c80319c".to_string(),
        span_id: "b7ad6b7169203331".to_string(),
        parent_span_id: String::new(),
        start_time_unix_nano: Some("2000000000".to_string()),
        end_time_unix_nano: Some("2005000000".to_string()),
        name: None,
    };
    let e = otlp_to_event(span, Some("checkout".to_string()), 11, 22);
    assert_eq!(e.trace_id, 0x0af7651916cd43dd8448eb211c80319c);
    assert_eq!(e.span_id, 0xb7ad6b7169203331);
    assert_eq!(e.parent_span_id, None);
    assert_eq!(e.timestamp_ms, 2000);
    assert_eq!(e.duration_us, Some(5000));
    assert_eq!(e.function_name, "otel-span");
    assert_eq!(e.module, "checkout");
    assert_eq!(e.file, "otel");
    assert_eq!(e.event_type, EventType::FunctionEnter);
    assert_eq!(e.language, AgentLanguage::Unknown);
}

#[test]
fn flow_deviation_alerts() {
    let events = vec![ev(1, None, 1, EventType::FunctionEnter, "app", "main")];
    let hash = calculate_structural_hash(&events);
    let traces = |n: usize| -> Vec<TraceSummary> {
        (0..n)
            .map(|i| TraceSummary {
                trace_id: i as u128,
                name: "x".to_string(),
                started_at: 0,
                duration_ms: None,
                has_error: false,
                language: AgentLanguage::Rust,
                event_count: 0,
                thread_ids: Vec::new(),
                ai_cluster_key: None,
                ai_summary: None,
                tenant_id: None,
                tags: Vec::new(),
                assigned_to: None,
                structural_hash: None,
                integrity_score: None,
                version: None,
                environment: None,
                ai_root_cause: None,
                ai_patch_suggestion: None,
            })
            .collect()
    };
    let clusters = vec![
        TraceCluster { cluster_key: "other".to_string(), traces: traces(101) },
        TraceCluster { cluster_key: hash.clone(), traces: traces(3) },
    ];
    let alert = analyze_trace(9, &events, &clusters, 42, 1000, Some("acme".to_string())).unwrap();
    assert_eq!(alert.alert_id, 42);
    assert_eq!(alert.trace_id, 9);
    assert_eq!(alert.alert_type, "flow_deviation");
    assert_eq!(alert.severity, "medium");
    assert_eq!(alert.message, format!("New execution path detected (hash: {}) after 101 stable runs.", hash));
    let known = vec![
        TraceCluster { cluster_key: "other".to_string(), traces: traces(101) },
        TraceCluster { cluster_key: hash.clone(), traces: traces(6) },
    ];
    assert!(analyze_trace(9, &events, &known, 42, 1000, None).is_none());
    let small = vec![TraceCluster { cluster_key: "other".to_string(), traces: traces(100) }];
    assert!(analyze_trace(9, &events, &small, 42, 1000, None).is_none());
}

#[test]
fn root_cause_and_bottlenecks() {
    assert!(IntelligenceEngine::analyze_root_cause(&Vec::new()).is_none());
    let mut bad = ev(2, Some(1), 2, EventType::Exception, "pay", "charge");
    bad.error_message = Some("card declined".to_string());
    let events = vec![ev(1, None, 1, EventType::FunctionEnter, "app", "main"), bad];
    let rc = IntelligenceEngine::analyze_root_cause(&events).unwrap();
    assert_eq!(
        rc.root_cause,
        "Exception in pay.charge: card declined. The control flow reached this point after abnormal state mutation."
    );
    assert!(rc.suggested_patch.is_some());
    assert_eq!(rc.structural_hash, calculate_structural_hash(&events));
    let calm = IntelligenceEngine::analyze_root_cause(&vec![ev(1, None, 1, EventType::FunctionEnter, "a", "b")]).unwrap();
    assert!(calm.suggested_patch.is_none());
    assert!(calm.root_cause.starts_with("No explicit exception found"));
    let mut slow = ev(3, None, 3, EventType::FunctionExit, "a", "slow");
    slow.duration_us = Some(750000);
    let mut edge = ev(4, None, 4, EventType::FunctionExit, "a", "edge");
    edge.duration_us = Some(500000);
    let b = IntelligenceEngine::get_performance_tuning(&vec![slow, edge]);
    assert_eq!(b.len(), 1);
    assert_eq!(b[0].function, "slow");
    assert_eq!(b[0].duration_ms, 750);
}

#[test]
fn ai_summary_texts() {
    assert!(ai_summary(&Vec::new()).is_none());
    assert!(ai_summary(&vec![ev(1, None, 1, EventType::Exception, "a", "b")]).unwrap().starts_with("CRITICAL"));
    assert!(ai_summary(&vec![ev(1, None, 1, EventType::FunctionEnter, "a", "b")]).unwrap().starts_with("SUCCESS"));
}

#[test]
fn replay_snapshot_records_queries_and_responses() {
    let mut q = ev(1, None, 1, EventType::DbQuery, "db", "q");
    q.db_query = Some(DbQuery { query: "SELECT 1".to_string(), driver: "pg".to_string(), duration_us: 12 });
    let mut h = ev(2, None, 2, EventType::HttpResponse, "http", "r");
    h.http_request = Some(HttpRequest {
        method: "GET".to_string(),
        url: "http://x/y".to_string(),
        headers: HashMap::new(),
        body: None,
    });
    let plain_query = ev(3, None, 3, EventType::DbQuery, "db", "q");
    let snap = ReplayManager::create_snapshot(7, &vec![q, h, plain_query]);
    assert_eq!(snap.trace_id, 7);
    assert_eq!(snap.mocks.len(), 2);
    assert_eq!(snap.mocks[0].call_signature, "SQL:SELECT 1");
    assert_eq!(snap.mocks[1].call_signature, "HTTP:GET http://x/y");
    match &snap.mocks[0].result {
        MockResult::Db { query, duration_us, driver } => {
            assert_eq!((query.as_str(), *duration_us, driver.as_str()), ("SELECT 1", 12, "pg"));
        }
        MockResult::Http { .. } => panic!("expected a query"),
    }
}

fn identity(outcome: AuthStep) -> Option<Identity> {
    match outcome {
        AuthStep::Done(AuthOutcome::Pass(id)) => id,
        _ => panic!("expected a pass"),
    }
}

#[test]
fn authentication_paths() {
    let cfg = AuthConfig::new(None, None, false, true);
    assert_eq!(cfg.api_key, "secret-agent-key");
    assert_eq!(cfg.jwt_secret, "secret");
    let agent = identity(authenticate(&cfg, Some("secret-agent-key"), None, None)).unwrap();
    assert_eq!((agent.user_id.as_str(), agent.tenant_id.as_str(), agent.role.as_str()), ("agent", "default", "member"));
    let agent = identity(authenticate(&cfg, Some("secret-agent-key"), Some("acme"), None)).unwrap();
    assert_eq!(agent.tenant_id, "acme");
    assert!(identity(authenticate(&cfg, Some("wrong"), None, None)).is_none());
    let strict = AuthConfig::new(Some("k".to_string()), Some("s".to_string()), true, false);
    assert!(matches!(authenticate(&strict, None, None, None), AuthStep::Done(AuthOutcome::Unauthorized)));
    assert!(matches!(authenticate(&strict, None, None, Some("Basic abc")), AuthStep::Done(AuthOutcome::Unauthorized)));
    match authenticate(&strict, None, None, Some("Bearer eyJhbGciOiJIUzI1NiJ9.e30.sig")) {
        AuthStep::VerifyJwt(t) => assert_eq!(t, "eyJhbGciOiJIUzI1NiJ9.e30.sig"),
        _ => panic!("expected a token to verify"),
    }
    let with_kid = "Bearer eyJhbGciOiJIUzI1NiIsImtpZCI6ImsxIn0.e30.sig";
    let oidc = identity(authenticate(&cfg, None, None, Some(with_kid))).unwrap();
    assert_eq!((oidc.user_id.as_str(), oidc.tenant_id.as_str()), ("oidc-user", "oidc-tenant"));
    assert!(matches!(authenticate(&strict, None, None, Some(with_kid)), AuthStep::VerifyJwt(_)));
}

#[test]
fn claims_and_clearing_rights() {
    let claims = Claims { sub: "u1".to_string(), exp: 0, role: "admin".to_string(), tenant_id: "t".to_string() };
    match identity_from_claims(Some(claims)) {
        AuthOutcome::Pass(Some(id)) => assert_eq!((id.user_id.as_str(), id.role.as_str()), ("u1", "admin")),
        _ => panic!("expected a pass"),
    }
    assert!(matches!(identity_from_claims(None), AuthOutcome::Unauthorized));
    let admin = Some(Identity { user_id: "u".to_string(), tenant_id: "t".to_string(), role: "admin".to_string() });
    let viewer = Some(Identity { user_id: "u".to_string(), tenant_id: "t".to_string(), role: "viewer".to_string() });
    assert!(may_clear(&admin, true));
    assert!(!may_clear(&viewer, true));
    assert!(!may_clear(&None, true));
    assert!(may_clear(&None, false));
}

fn weight_of(id: &str, trace: u128) -> u64 {
    let key = format!("{}/{:x}/{:x}", id, (trace >> 64) as u64, trace as u64);
    std::hash::BuildHasherDefault::<std::collections::hash_map::DefaultHasher>::default().hash_one(key.as_str())
}

fn heaviest(ids: &[&str], trace: u128) -> String {
    let mut best: Option<(u64, &str)> = None;
    for id in ids {
        let w = weight_of(id, trace);
        best = match best {
            Some((bw, bid)) if bw > w || (bw == w && bid < *id) => Some((bw, bid)),
            _ => Some((w, id)),
        };
    }
    best.unwrap().1.to_string()
}

#[test]
fn owner_is_the_heaviest_node() {
    let me = ClusterManager::new("b".to_string(), "b:7700".to_string(), "b:7701".to_string());
    assert_eq!(me.node_id(), "b");
    assert_eq!(me.http_addr(), "b:7700");
    assert!(me.get_owner(Vec::new(), 5).is_none());
    for trace in [0x0102u128, 0xff01, 0x0104, 3, u128::MAX, 0x0af7651916cd43dd8448eb211c80319c] {
        let owner = me.get_owner(vec![node("c"), node("a"), node("b")], trace).unwrap();
        assert_eq!(owner.node_id, heaviest(&["a", "b", "c"], trace));
        let again = me.get_owner(vec![node("b"), node("c"), node("a")], trace).unwrap();
        assert_eq!(again.node_id, owner.node_id);
    }
    let rec = me.heartbeat_record(77);
    assert_eq!((rec.node_id.as_str(), rec.last_seen, rec.status), ("b", 77, NodeStatus::Active));
}

#[test]
fn a_joining_node_takes_traces_only_for_itself() {
    let me = ClusterManager::new("a".to_string(), "a:7700".to_string(), "a:7701".to_string());
    for trace in 0..200u128 {
        let before = me.get_owner(vec![node("a"), node("b")], trace).unwrap();
        let after = me.get_owner(vec![node("a"), node("c"), node("b")], trace).unwrap();
        assert!(after.node_id == before.node_id || after.node_id == "c");
    }
}

#[test]
fn routing_and_forwarding() {
    let me = ClusterManager::new("b".to_string(), "b:7700".to_string(), "b:7701".to_string());
    assert!(me.forward_url(&node("b")).is_none());
    assert_eq!(me.forward_url(&node("a")), Some("http://a:7700/api/ingest".to_string()));
    assert!(matches!(me.route(None), Route::Local));
    assert!(matches!(me.route(Some(node("b"))), Route::Local));
    match me.route(Some(node("c"))) {
        Route::Forward(n) => assert_eq!(n.node_id, "c"),
        Route::Local => panic!("expected forwarding"),
    }
}

#[test]
fn wal_lines_round_trip() {
    let mut log = Vec::new();
    log.extend(wal_frame(b"{\"a\":1}".to_vec()));
    log.extend(wal_frame(Vec::new()));
    log.extend(wal_frame(b"{\"b\":2}".to_vec()));
    let lines = wal_split_lines(&log);
    assert_eq!(lines, vec![b"{\"a\":1}".to_vec(), Vec::new(), b"{\"b\":2}".to_vec()]);
}

#[test]
fn wal_lines_like_buf_read() {
    let lines = wal_split_lines(&b"a\r\nb\n\nc".to_vec());
    assert_eq!(lines, vec![b"a".to_vec(), b"b".to_vec(), Vec::new(), b"c".to_vec()]);
    let lines = wal_split_lines(&b"x\r".to_vec());
    assert_eq!(lines, vec![b"x\r".to_vec()]);
    assert!(wal_split_lines(&Vec::new()).is_empty());
}

#[test]
fn payload_flattening() {
    let one = IngestPayload::Single(ev(1, None, 1, EventType::FunctionEnter, "a", "b"));
    assert_eq!(one.into_events().len(), 1);
    let many = IngestPayload::Batch(vec![
        ev(1, None, 1, EventType::FunctionEnter, "a", "b"),
        ev(2, None, 2, EventType::FunctionEnter, "a", "b"),
    ]);
    assert_eq!(many.into_events().len(), 2);
}

#[test]
fn otlp_child_keeps_its_parent() {
    let span = OtlpSpan {
        trace_id: "0AF7651916CD43DD8448EB211C80319C".to_string(),
        span_id: "00f067aa0ba902b7".to_string(),
        parent_span_id: "b7ad6b7169203331".to_string(),
        start_time_unix_nano: Some("1000000".to_string()),
        end_time_unix_nano: Some("1000000".to_string()),
        name: Some("GET /".to_string()),
    };
    let e = otlp_to_event(span, None, 11, 22);
    assert_eq!(e.trace_id, 0x0af7651916cd43dd8448eb211c80319c);
    assert_eq!(e.span_id, 0x00f067aa0ba902b7);
    assert_eq!(e.parent_span_id, Some(0xb7ad6b7169203331));
    assert_eq!(e.function_name, "GET /");
    assert_eq!(e.module, "otel-service");
    let bad = OtlpSpan {
        trace_id: "not-an-id".to_string(),
        span_id: "12345678901234567890123456789012345".to_string(),
        parent_span_id: "zz".to_string(),
        start_time_unix_nano: None,
        end_time_unix_nano: None,
        name: None,
    };
    let b = otlp_to_event(bad, None, 11, 22);
    assert_eq!((b.trace_id, b.span_id, b.parent_span_id), (11, 22, None));
}

#[test]
fn hex_ids_read_either_case() {
    assert_eq!(parse_hex_id("ff"), Some(255));
    assert_eq!(parse_hex_id("FF"), Some(255));
    assert_eq!(parse_hex_id("ffffffffffffffffffffffffffffffff"), Some(u128::MAX));
    assert_eq!(parse_hex_id(""), None);
    assert_eq!(parse_hex_id("fffffffffffffffffffffffffffffffff"), None);
    assert_eq!(parse_hex_id("0g"), None);
}
