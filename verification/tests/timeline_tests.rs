use orionis::models::{AgentLanguage, EventType, LocalVar, TraceEvent};
use orionis::timeline::{
    calculate_span_fingerprints, calculate_structural_hash, compress_timeline, integrity_counts, span_tree_is_finite,
    structural_pattern,
};
use orionis::models::StateHeatmap;
use std::collections::hash_map::DefaultHasher;
use std::hash::{Hash, Hasher};

fn ev(span: u128, parent: Option<u128>, ts: u64, ty: EventType, module: &str, func: &str) -> TraceEvent {
    TraceEvent {
        trace_id: 1,
        span_id: span,
        parent_span_id: parent,
        timestamp_ms: ts,
        event_type: ty,
        function_name: func.to_string(),
        module: module.to_string(),
        file: "f.py".to_string(),
        line: 1,
        locals: None,
        error_message: None,
        duration_us: None,
        language: AgentLanguage::Python,
        thread_id: None,
        http_request: None,
        db_query: None,
        tenant_id: None,
        event_id: None,
        memory_usage_bytes: None,
        fingerprint: None,
        is_folded: None,
        fold_count: None,
        version: None,
        environment: None,
    }
}

fn std_hash_hex(s: &str) -> String {
    let mut h = DefaultHasher::new();
    s.hash(&mut h);
    format!("{:x}", h.finish())
}

fn sample_tree() -> Vec<TraceEvent> {
    vec![
        ev(1, None, 10, EventType::FunctionEnter, "app", "main"),
        ev(3, Some(1), 30, EventType::FunctionEnter, "db", "query"),
        ev(2, Some(1), 20, EventType::FunctionEnter, "app", "load"),
        ev(4, Some(2), 25, EventType::FunctionEnter, "io", "read"),
        ev(1, None, 40, EventType::FunctionExit, "app", "main"),
    ]
}

#[test]
fn structural_pattern_orders_children_by_time() {
    let p = structural_pattern(&sample_tree());
    assert_eq!(p, "app.main(app.load(io.read)db.query)");
}

#[test]
fn structural_hash_is_std_hash_of_pattern() {
    let events = sample_tree();
    assert_eq!(calculate_structural_hash(&events), std_hash_hex("app.main(app.load(io.read)db.query)"));
    assert_eq!(calculate_structural_hash(&Vec::new()), std_hash_hex(""));
}

#[test]
fn span_tree_with_a_cycle_is_not_finite() {
    assert!(span_tree_is_finite(&sample_tree()));
    let cyclic = vec![
        ev(1, None, 1, EventType::FunctionEnter, "a", "root"),
        ev(2, Some(1), 2, EventType::FunctionEnter, "a", "x"),
        ev(1, Some(2), 3, EventType::FunctionEnter, "a", "y"),
    ];
    assert!(!span_tree_is_finite(&cyclic));
    assert!(span_tree_is_finite(&Vec::new()));
}

#[test]
fn fingerprints_mark_the_entry_event_of_each_span() {
    let mut events = sample_tree();
    calculate_span_fingerprints(&mut events);
    // the exit of span 1 keeps no fingerprint; its entry carries it
    assert!(events[4].fingerprint.is_none());
    let leaf = std_hash_hex("io.read");
    assert_eq!(events[3].fingerprint, Some(leaf.clone()));
    let load = std_hash_hex(&format!("app.load({})", leaf));
    let query = std_hash_hex("db.query");
    assert_eq!(events[2].fingerprint, Some(load.clone()));
    assert_eq!(events[1].fingerprint, Some(query.clone()));
    assert_eq!(events[0].fingerprint, Some(std_hash_hex(&format!("app.main({}|{})", query, load))));
    assert_eq!(events[2].span_id, 2);
}

#[test]
fn spans_whose_parent_is_elsewhere_get_fingerprints_too() {
    let mut events = vec![
        ev(7, Some(99), 1, EventType::FunctionEnter, "svc", "handle"),
        ev(8, Some(7), 2, EventType::FunctionEnter, "svc", "step"),
        ev(7, Some(99), 3, EventType::FunctionExit, "svc", "handle"),
    ];
    assert!(span_tree_is_finite(&events));
    calculate_span_fingerprints(&mut events);
    let step = std_hash_hex("svc.step");
    assert_eq!(events[1].fingerprint, Some(step.clone()));
    assert_eq!(events[0].fingerprint, Some(std_hash_hex(&format!("svc.handle({})", step))));
    assert!(events[2].fingerprint.is_none());
}

#[test]
fn spans_in_a_loop_of_parents_get_no_fingerprint() {
    let mut events = vec![
        ev(1, None, 1, EventType::FunctionEnter, "a", "root"),
        ev(2, Some(3), 2, EventType::FunctionEnter, "a", "x"),
        ev(3, Some(2), 3, EventType::FunctionEnter, "a", "y"),
    ];
    // no root reaches the loop, so the trace is ingested as the original engine does
    assert!(span_tree_is_finite(&events));
    calculate_span_fingerprints(&mut events);
    assert_eq!(events[0].fingerprint, Some(std_hash_hex("a.root")));
    assert!(events[1].fingerprint.is_none());
    assert!(events[2].fingerprint.is_none());
}

#[test]
fn compression_folds_repeated_sibling_calls() {
    let mut events = vec![
        ev(1, None, 1, EventType::FunctionEnter, "app", "main"),
        ev(2, Some(1), 2, EventType::FunctionEnter, "app", "step"),
        ev(3, Some(1), 3, EventType::FunctionEnter, "app", "step"),
        ev(4, Some(1), 4, EventType::FunctionEnter, "app", "step"),
        ev(5, Some(1), 5, EventType::FunctionEnter, "app", "done"),
    ];
    calculate_span_fingerprints(&mut events);
    let out = compress_timeline(events.clone());
    let spans: Vec<u128> = out.iter().map(|e| e.span_id).collect();
    assert_eq!(spans, vec![1, 2, 3, 4, 5]);
    assert_eq!(out[1].is_folded, Some(true));
    assert_eq!(out[1].fold_count, Some(3));
    assert_eq!((out[2].is_folded, out[2].fold_count), (Some(true), None));
    assert_eq!((out[3].is_folded, out[3].fold_count), (Some(true), None));
    assert_eq!(out[0].is_folded, None);
    assert_eq!(out[4].is_folded, None);
    // nothing is lost: clearing the marks gives the timeline back
    let restored: Vec<TraceEvent> = out
        .into_iter()
        .map(|mut e| {
            e.is_folded = None;
            e.fold_count = None;
            e
        })
        .collect();
    assert_eq!(format!("{:?}", restored), format!("{:?}", events));
}

#[test]
fn compression_keeps_timelines_without_fingerprints() {
    let events = sample_tree();
    let out = compress_timeline(events.clone());
    assert_eq!(out.len(), events.len());
    assert!(out.iter().all(|e| e.is_folded.is_none()));
}

#[test]
fn integrity_counts_of_sample() {
    let mut events = sample_tree();
    events[1].locals = Some(vec![LocalVar { name: "q".to_string(), value: "1".to_string(), var_type: "int".to_string() }]);
    let c = integrity_counts(&events);
    assert_eq!(c.total_spans, 4);
    assert_eq!(c.matched_pairs, 1);
    assert_eq!(c.spans_with_locals, 1);
    assert_eq!(c.connected_spans, 4);
    assert_eq!(c.out_of_order, 0);
}

#[test]
fn integrity_counts_see_an_exit_before_its_entry() {
    let enter = ev(5, None, 1, EventType::FunctionEnter, "m", "f");
    let exit = ev(5, None, 2, EventType::FunctionExit, "m", "f");
    let ordered = integrity_counts(&vec![enter.clone(), exit.clone()]);
    let reversed = integrity_counts(&vec![exit, enter]);
    assert_eq!(ordered.out_of_order, 0);
    assert_eq!(reversed.out_of_order, 1);
    assert_eq!(ordered.matched_pairs, reversed.matched_pairs);
}

#[test]
fn heatmap_of_a_paired_span() {
    let mut enter = ev(7, None, 1, EventType::FunctionEnter, "m", "f");
    enter.locals = Some(vec![
        LocalVar { name: "a".to_string(), value: "1".to_string(), var_type: "int".to_string() },
        LocalVar { name: "b".to_string(), value: "x".to_string(), var_type: "str".to_string() },
    ]);
    enter.memory_usage_bytes = Some(1000);
    let mut exit = ev(7, None, 2, EventType::FunctionExit, "m", "f");
    exit.locals = Some(vec![
        LocalVar { name: "a".to_string(), value: "2".to_string(), var_type: "int".to_string() },
        LocalVar { name: "b".to_string(), value: "x".to_string(), var_type: "str".to_string() },
        LocalVar { name: "c".to_string(), value: "new".to_string(), var_type: "str".to_string() },
    ]);
    exit.memory_usage_bytes = Some(400);
    let lonely = ev(8, None, 3, EventType::FunctionEnter, "m", "g");
    let h = StateHeatmap::calculate(&vec![enter, exit, lonely]);
    assert_eq!(h.metrics.len(), 1);
    let m = h.metrics.get(&7).unwrap();
    assert_eq!(m.mutation_count, 2);
    assert_eq!(m.changed_keys, vec!["a".to_string(), "c".to_string()]);
    assert_eq!(m.memory_delta_bytes, -600);
}

#[test]
fn event_id_is_hex_of_its_key() {
    let mut e = ev(5, None, 99, EventType::Exception, "m", "f");
    e.calculate_event_id();
    let id = e.event_id.clone().unwrap();
    assert_eq!(id, std_hash_hex("1:5:99:Exception"));
    let mut same = ev(5, None, 99, EventType::Exception, "other", "g");
    same.calculate_event_id();
    assert_eq!(same.event_id, Some(id));
}

#[test]
fn compressing_twice_is_compressing_once() {
    let mut events = vec![
        ev(1, None, 1, EventType::FunctionEnter, "app", "main"),
        ev(2, Some(1), 2, EventType::FunctionEnter, "app", "step"),
        ev(3, Some(1), 3, EventType::FunctionEnter, "app", "step"),
        ev(4, Some(1), 5, EventType::FunctionEnter, "app", "done"),
    ];
    calculate_span_fingerprints(&mut events);
    let once = compress_timeline(events);
    let twice = compress_timeline(once.clone());
    assert_eq!(format!("{:?}", twice), format!("{:?}", once));
}

#[test]
fn structural_hash_ignores_arrival_order() {
    let events = sample_tree();
    let mut shuffled = events.clone();
    shuffled.reverse();
    shuffled.swap(0, 2);
    assert_eq!(calculate_structural_hash(&shuffled), calculate_structural_hash(&events));
}

#[test]
fn structural_hash_ignores_values() {
    let events = sample_tree();
    let mut other = events.clone();
    other[1].locals = Some(vec![LocalVar { name: "q".to_string(), value: "9".to_string(), var_type: "int".to_string() }]);
    other[2].error_message = Some("boom".to_string());
    other[4].duration_us = Some(77);
    assert_eq!(calculate_structural_hash(&other), calculate_structural_hash(&events));
}
