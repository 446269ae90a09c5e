use orionis::agent::{
    backoff_delay_ms, classify_grpc, classify_http, extract_trace_headers, extract_trace_headers_checked, inject_trace_headers, panic_event,
    to_proto_event, traceparent_is_cuttable, Agent, EventType, GrpcOutcome, HttpOutcome, LocalVar, SendResult,
    SpanGuard, TraceEvent, MAX_BUFFER_SIZE,
};
use std::collections::HashMap;

fn event(n: u64) -> TraceEvent {
    TraceEvent {
        trace_id: "t".to_string(),
        span_id: format!("s{}", n),
        parent_span_id: None,
        timestamp_ms: n,
        event_type: EventType::FunctionEnter,
        function_name: "f".to_string(),
        module: "m".to_string(),
        file: "f.rs".to_string(),
        line: 1,
        locals: None,
        error_message: None,
        duration_us: None,
        language: "rust".to_string(),
        thread_id: "main".to_string(),
        http_request: None,
        event_id: None,
        memory_usage_bytes: None,
    }
}

#[test]
fn new_agent_is_empty() {
    let a = Agent::new("http://localhost:7700", "http://localhost:7701", true);
    assert_eq!(a.engine_url, "http://localhost:7700");
    assert_eq!(a.grpc_url, "http://localhost:7701");
    assert!(a.use_grpc);
    assert_eq!(a.buffered_len(), 0);
    assert_eq!(a.backoff_until_ms, None);
    assert_eq!(a.backoff_count, 0);
}

#[test]
fn enqueue_drops_oldest_when_full() {
    let mut a = Agent::new("e", "g", false);
    for i in 0..(MAX_BUFFER_SIZE as u64 + 1) {
        a.enqueue(event(i));
    }
    assert_eq!(a.buffered_len(), MAX_BUFFER_SIZE);
    assert_eq!(a.batch.front().unwrap().timestamp_ms, 1);
    assert_eq!(a.batch.back().unwrap().timestamp_ms, MAX_BUFFER_SIZE as u64);
}

#[test]
fn flush_takes_everything_in_order() {
    let mut a = Agent::new("e", "g", false);
    a.enqueue(event(1));
    a.enqueue(event(2));
    let taken = a.begin_flush(1000).unwrap();
    assert_eq!(taken.len(), 2);
    assert_eq!(taken[0].timestamp_ms, 1);
    assert_eq!(taken[1].timestamp_ms, 2);
    assert_eq!(a.buffered_len(), 0);
    assert!(a.begin_flush(1000).is_none());
}

#[test]
fn retryable_error_requeues_in_front_and_backs_off() {
    let mut a = Agent::new("e", "g", false);
    a.enqueue(event(1));
    a.enqueue(event(2));
    let taken = a.begin_flush(1000).unwrap();
    a.enqueue(event(3));
    a.complete_flush(SendResult::RetryableError, taken, 1000);
    let order: Vec<u64> = a.batch.iter().map(|e| e.timestamp_ms).collect();
    assert_eq!(order, vec![1, 2, 3]);
    assert_eq!(a.backoff_count, 1);
    assert_eq!(a.backoff_until_ms, Some(1100));
    assert!(a.begin_flush(1099).is_none());
    assert_eq!(a.buffered_len(), 3);
    let again = a.begin_flush(1100).unwrap();
    a.complete_flush(SendResult::RetryableError, again, 2000);
    assert_eq!(a.backoff_count, 2);
    assert_eq!(a.backoff_until_ms, Some(2200));
}

#[test]
fn requeue_keeps_only_what_fits() {
    let mut a = Agent::new("e", "g", false);
    a.enqueue(event(1));
    a.enqueue(event(2));
    let taken = a.begin_flush(0).unwrap();
    for i in 0..(MAX_BUFFER_SIZE as u64 - 1) {
        a.enqueue(event(100 + i));
    }
    a.complete_flush(SendResult::RetryableError, taken, 0);
    assert_eq!(a.buffered_len(), MAX_BUFFER_SIZE);
    assert_eq!(a.batch.front().unwrap().timestamp_ms, 2);
}

#[test]
fn success_clears_backoff_and_fatal_drops() {
    let mut a = Agent::new("e", "g", false);
    a.enqueue(event(1));
    let taken = a.begin_flush(0).unwrap();
    a.complete_flush(SendResult::RetryableError, taken, 0);
    let taken = a.begin_flush(500).unwrap();
    a.complete_flush(SendResult::Success, taken, 500);
    assert_eq!(a.backoff_count, 0);
    assert_eq!(a.backoff_until_ms, None);
    assert_eq!(a.buffered_len(), 0);
    a.enqueue(event(2));
    let taken = a.begin_flush(600).unwrap();
    a.complete_flush(SendResult::FatalError, taken, 600);
    assert_eq!(a.buffered_len(), 0);
    assert_eq!(a.backoff_until_ms, None);
}

#[test]
fn backoff_doubles_up_to_ten_seconds() {
    assert_eq!(backoff_delay_ms(0), 100);
    assert_eq!(backoff_delay_ms(1), 200);
    assert_eq!(backoff_delay_ms(6), 6400);
    assert_eq!(backoff_delay_ms(7), 10000);
    assert_eq!(backoff_delay_ms(10), 10000);
    assert_eq!(backoff_delay_ms(u32::MAX), 10000);
}

#[test]
fn http_outcomes_are_classified() {
    assert_eq!(classify_http(HttpOutcome::Delivered), SendResult::Success);
    assert_eq!(classify_http(HttpOutcome::Status(503)), SendResult::RetryableError);
    assert_eq!(classify_http(HttpOutcome::Status(429)), SendResult::RetryableError);
    assert_eq!(classify_http(HttpOutcome::Status(400)), SendResult::FatalError);
    assert_eq!(classify_http(HttpOutcome::Status(403)), SendResult::FatalError);
    assert_eq!(classify_http(HttpOutcome::Transport), SendResult::RetryableError);
}

#[test]
fn grpc_outcomes_are_classified() {
    assert_eq!(classify_grpc(GrpcOutcome::Delivered), SendResult::Success);
    assert_eq!(classify_grpc(GrpcOutcome::RuntimeFailed), SendResult::FatalError);
    assert_eq!(classify_grpc(GrpcOutcome::ConnectFailed), SendResult::RetryableError);
    assert_eq!(classify_grpc(GrpcOutcome::Status(8)), SendResult::RetryableError);
    assert_eq!(classify_grpc(GrpcOutcome::Status(14)), SendResult::RetryableError);
    assert_eq!(classify_grpc(GrpcOutcome::Status(3)), SendResult::FatalError);
    assert_eq!(classify_grpc(GrpcOutcome::TimedOut), SendResult::RetryableError);
}

#[test]
fn inject_writes_traceparent() {
    let mut headers: HashMap<String, String> = HashMap::new();
    headers.insert("accept".to_string(), "*/*".to_string());
    inject_trace_headers(&mut headers, "550e8400-e29b-41d4-a716-446655440000");
    assert_eq!(
        headers.get("traceparent").unwrap(),
        "00-550e8400e29b41d4a716446655440000-0000000000000000-01"
    );
    assert_eq!(headers.get("accept").unwrap(), "*/*");
    assert_eq!(headers.len(), 2);
}

#[test]
fn traceparent_round_trip() {
    let id = "550e8400-e29b-41d4-a716-446655440000";
    let mut headers: HashMap<String, String> = HashMap::new();
    inject_trace_headers(&mut headers, id);
    assert_eq!(extract_trace_headers(&headers), Some(id.to_string()));
}

#[test]
fn extract_needs_a_long_enough_header() {
    let mut headers: HashMap<String, String> = HashMap::new();
    assert_eq!(extract_trace_headers(&headers), None);
    headers.insert("traceparent".to_string(), "00-abc-01".to_string());
    assert_eq!(extract_trace_headers(&headers), None);
    headers.insert(
        "traceparent".to_string(),
        "00-0af7651916cd43dd8448eb211c80319c-b7ad6b7169203331-01".to_string(),
    );
    assert_eq!(
        extract_trace_headers(&headers),
        Some("0af76519-16cd-43dd-8448-eb211c80319c".to_string())
    );
}

#[test]
fn cuttable_traceparent_values() {
    assert!(traceparent_is_cuttable("short"));
    assert!(traceparent_is_cuttable("00-0af7651916cd43dd8448eb211c80319c-b7ad6b7169203331-01"));
    assert!(!traceparent_is_cuttable("00é0af7651916cd43dd8448eb211c80319c-b7ad6b7169203331-01"));
}

#[test]
fn proto_event_of_agent_event() {
    let mut e = event(5);
    e.parent_span_id = Some("p".to_string());
    e.event_type = EventType::FunctionExit;
    e.locals = Some(vec![LocalVar { name: "x".to_string(), value: "1".to_string(), var_type: "i32".to_string() }]);
    let p = to_proto_event(e);
    assert_eq!(p.parent_span_id, "p");
    assert_eq!(p.event_type, 2);
    assert_eq!(p.language, 3);
    assert_eq!(p.locals.len(), 1);
    assert_eq!(p.locals[0].name, "x");
    assert_eq!(p.error_message, "");
    assert_eq!(p.event_id, "");
    assert_eq!(p.tenant_id, "");
    assert!(p.http_request.is_none());
}

#[test]
fn span_guard_events() {
    let g = SpanGuard::new("span-1".to_string(), "work", "app", "main.rs", 10);
    let enter = g.enter_event("trace".to_string(), 100, "main".to_string(), Some(5));
    assert_eq!(enter.span_id, "span-1");
    assert_eq!(enter.event_type, EventType::FunctionEnter);
    assert_eq!(enter.parent_span_id, None);
    assert_eq!(enter.language, "rust");
    let exit = g.exit_event("trace".to_string(), "span-2".to_string(), 150, 42, "main".to_string(), None);
    assert_eq!(exit.span_id, "span-2");
    assert_eq!(exit.parent_span_id, Some("span-1".to_string()));
    assert_eq!(exit.event_type, EventType::FunctionExit);
    assert_eq!(exit.duration_us, Some(42));
    let p = panic_event(
        "trace".to_string(),
        "span-3".to_string(),
        200,
        "app".to_string(),
        "main.rs".to_string(),
        7,
        "boom".to_string(),
        "main".to_string(),
        None,
    );
    assert_eq!(p.function_name, "panic");
    assert_eq!(p.event_type, EventType::Exception);
    assert_eq!(p.error_message, Some("boom".to_string()));
}

#[test]
fn backoff_never_shrinks_and_is_capped() {
    assert_eq!(backoff_delay_ms(0), 100);
    assert_eq!(backoff_delay_ms(3), 800);
    let mut last = 0;
    for n in 0..40u32 {
        let d = backoff_delay_ms(n);
        assert!(d >= last);
        assert!(d <= 10_000);
        last = d;
    }
}

#[test]
fn checked_extract_refuses_a_header_that_cannot_be_cut() {
    let mut headers: HashMap<String, String> = HashMap::new();
    assert_eq!(extract_trace_headers_checked(&headers), Ok(None));
    // the two bytes of 'é' straddle byte 11, where the trace id is cut
    let mut bad = "00-aaaaaaa".to_string();
    bad.push('é');
    bad.push_str(&"a".repeat(50));
    headers.insert("traceparent".to_string(), bad);
    assert_eq!(extract_trace_headers_checked(&headers), Err(()));
    headers.insert(
        "traceparent".to_string(),
        "00-0af7651916cd43dd8448eb211c80319c-b7ad6b7169203331-01".to_string(),
    );
    assert_eq!(
        extract_trace_headers_checked(&headers),
        Ok(Some("0af76519-16cd-43dd-8448-eb211c80319c".to_string()))
    );
}
