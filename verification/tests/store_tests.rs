use orionis::aggregate::{get_clusters, get_failure_stats, get_regressions, group_summaries, GroupKey};
use orionis::graph::get_service_graph;
use orionis::models::{
    AgentLanguage, EventType, PluginRegistration, SecurityAlert, SimulationRule, TraceComment, TraceEvent, TraceSummary,
};
use orionis::store::{
    apply_ai_summary, apply_intel, apply_metadata, batch_summaries, event_by_span, group_by_tenant, events_to_clear, expired_trace_ids, group_by_trace,
    list_comments, list_security_alerts, list_traces, plan_trace_ingest, plugins_for_tenant, simulation_rules_for_tenant, retention_cutoff, summarize_trace,
    traces_to_clear, trace_events_for_tenant, TenantTier, TenantUsage, DAY_MS, LIST_LIMIT,
};

fn ev(trace: u128, span: u128, parent: Option<u128>, ts: u64, ty: EventType, module: &str, func: &str) -> TraceEvent {
    TraceEvent {
        trace_id: trace,
        span_id: span,
        parent_span_id: parent,
        timestamp_ms: ts,
        event_type: ty,
        function_name: func.to_string(),
        module: module.to_string(),
        file: "f.py".to_string(),
        line: 12,
        locals: None,
        error_message: None,
        duration_us: None,
        language: AgentLanguage::Python,
        thread_id: None,
        http_request: None,
        db_query: None,
        tenant_id: None,
        event_id: None,
        memory_usage_bytes: None,
        fingerprint: None,
        is_folded: None,
        fold_count: None,
        version: None,
        environment: None,
    }
}

fn summary(trace: u128, started: u64, tenant: Option<&str>) -> TraceSummary {
    TraceSummary {
        trace_id: trace,
        name: format!("t{}", trace),
        started_at: started,
        duration_ms: Some(0),
        has_error: false,
        language: AgentLanguage::Go,
        event_count: 1,
        thread_ids: Vec::new(),
        ai_cluster_key: None,
        ai_summary: None,
        tenant_id: tenant.map(|t| t.to_string()),
        tags: Vec::new(),
        assigned_to: None,
        structural_hash: None,
        integrity_score: None,
        version: None,
        environment: None,
        ai_root_cause: None,
        ai_patch_suggestion: None,
    }
}

fn acme() -> Option<String> {
    Some("acme".to_string())
}

#[test]
fn list_traces_filters_by_tenant_and_sorts_newest_first() {
    let all = vec![summary(1, 10, None), summary(2, 30, Some("acme")), summary(3, 20, Some("acme")), summary(4, 30, Some("acme")), summary(5, 99, Some("other"))];
    let ids: Vec<u128> = list_traces(all.clone(), &acme()).iter().map(|s| s.trace_id).collect();
    assert_eq!(ids, vec![2, 4, 3]);
    let anon: Vec<u128> = list_traces(all, &None).iter().map(|s| s.trace_id).collect();
    assert_eq!(anon, vec![1]);
}

#[test]
fn list_traces_returns_at_most_five_hundred() {
    let all: Vec<TraceSummary> = (0..600u64).map(|i| summary(i as u128, i, None)).collect();
    let out = list_traces(all, &None);
    assert_eq!(out.len(), LIST_LIMIT);
    assert_eq!(out[0].started_at, 599);
    assert_eq!(out[499].started_at, 100);
}

#[test]
fn events_and_comments_per_tenant() {
    let mut a = ev(1, 1, None, 1, EventType::FunctionEnter, "m", "f");
    a.tenant_id = acme();
    let b = ev(1, 2, None, 2, EventType::FunctionEnter, "m", "f");
    let kept = trace_events_for_tenant(vec![a.clone(), b.clone()], &acme());
    assert_eq!(kept.len(), 1);
    assert_eq!(kept[0].span_id, 1);
    let c = |id: u128, trace: u128, ts: u64, tenant: Option<String>| TraceComment {
        comment_id: id,
        trace_id: trace,
        span_id: None,
        user_id: "u".to_string(),
        text: "hi".to_string(),
        timestamp_ms: ts,
        tenant_id: tenant,
    };
    let comments = vec![c(1, 7, 30, acme()), c(2, 7, 10, acme()), c(3, 8, 5, acme()), c(4, 7, 20, None)];
    let ids: Vec<u128> = list_comments(comments, 7, &acme()).iter().map(|x| x.comment_id).collect();
    assert_eq!(ids, vec![2, 1]);
}

#[test]
fn alerts_newest_first() {
    let a = |id: u128, ts: u64| SecurityAlert {
        alert_id: id,
        trace_id: 1,
        alert_type: "flow_deviation".to_string(),
        severity: "medium".to_string(),
        message: "m".to_string(),
        timestamp_ms: ts,
        tenant_id: None,
    };
    let ids: Vec<u128> = list_security_alerts(vec![a(1, 5), a(2, 50), a(3, 20)], &None).iter().map(|x| x.alert_id).collect();
    assert_eq!(ids, vec![2, 3, 1]);
}

#[test]
fn event_by_span_respects_tenant_of_first_match() {
    let mut a = ev(1, 9, None, 1, EventType::FunctionEnter, "m", "f");
    a.tenant_id = acme();
    let b = ev(1, 9, None, 2, EventType::FunctionExit, "m", "f");
    assert!(event_by_span(vec![a.clone(), b.clone()], 9, &None).is_none());
    assert_eq!(event_by_span(vec![a.clone(), b.clone()], 9, &acme()).unwrap().timestamp_ms, 1);
    assert!(event_by_span(vec![a, b], 10, &acme()).is_none());
}

#[test]
fn summary_updates() {
    let s = summary(1, 0, Some("acme"));
    let s = apply_ai_summary(s, "sum".to_string(), None);
    assert_eq!(s.ai_summary, Some("sum".to_string()));
    assert_eq!(s.ai_cluster_key, None);
    let s = apply_ai_summary(s, "sum2".to_string(), Some("key".to_string()));
    assert_eq!(s.ai_cluster_key, Some("key".to_string()));
    let s = apply_intel(s, Some("rc".to_string()), None);
    assert_eq!(s.ai_root_cause, Some("rc".to_string()));
    assert_eq!(s.ai_patch_suggestion, None);
    assert!(apply_metadata(s.clone(), Some(vec!["x".to_string()]), None, &None).is_none());
    let t = apply_metadata(s, Some(vec!["x".to_string()]), Some("bob".to_string()), &acme()).unwrap();
    assert_eq!(t.tags, vec!["x".to_string()]);
    assert_eq!(t.assigned_to, Some("bob".to_string()));
}

#[test]
fn retention_and_clearing() {
    assert_eq!(retention_cutoff(10 * DAY_MS, 7), 3 * DAY_MS);
    let all = vec![summary(1, 5, None), summary(2, 50, Some("acme")), summary(3, 1, Some("acme"))];
    assert_eq!(expired_trace_ids(&all, 10), vec![1, 3]);
    assert_eq!(traces_to_clear(&all, &acme()), vec![2, 3]);
    assert_eq!(traces_to_clear(&all, &None), vec![1]);
    let mut e1 = ev(1, 1, None, 1, EventType::FunctionEnter, "m", "f");
    e1.tenant_id = acme();
    let e2 = ev(1, 2, None, 1, EventType::FunctionEnter, "m", "f");
    assert_eq!(events_to_clear(&vec![e1, e2], &None), vec![1]);
}

#[test]
fn tenant_usage_counts_and_resets_daily() {
    let u = TenantUsage::fresh("acme", 1000);
    assert_eq!(u.tier, TenantTier::Free);
    assert_eq!(u.traces_ingested_today, 0);
    let u = u.record_trace(2000);
    assert_eq!(u.traces_ingested_today, 1);
    let u = u.record_trace(3000);
    assert_eq!(u.traces_ingested_today, 2);
    assert_eq!(u.last_reset_timestamp, 1000);
    let u = u.record_trace(1000 + DAY_MS + 1);
    assert_eq!(u.traces_ingested_today, 1);
    assert_eq!(u.last_reset_timestamp, 1000 + DAY_MS + 1);
}

#[test]
fn grouping_by_trace_keeps_first_appearance_order() {
    let events = vec![
        ev(2, 1, None, 1, EventType::FunctionEnter, "m", "f"),
        ev(1, 2, None, 2, EventType::FunctionEnter, "m", "f"),
        ev(2, 3, None, 3, EventType::FunctionEnter, "m", "f"),
    ];
    let groups = group_by_trace(events);
    assert_eq!(groups.len(), 2);
    assert_eq!(groups[0].0, 2);
    assert_eq!(groups[0].1.iter().map(|e| e.span_id).collect::<Vec<u128>>(), vec![1, 3]);
    assert_eq!(groups[1].0, 1);
}

#[test]
fn ingest_plan_for_a_new_trace() {
    let mut a = ev(5, 1, None, 100, EventType::FunctionEnter, "app", "main");
    a.thread_id = Some("t1".to_string());
    a.version = Some("1.0".to_string());
    let mut b = ev(5, 2, Some(1), 150, EventType::Exception, "app", "work");
    b.thread_id = Some("t2".to_string());
    b.error_message = Some("boom".to_string());
    let mut c = ev(5, 1, None, 180, EventType::FunctionExit, "app", "main");
    c.thread_id = Some("t1".to_string());
    let plan = plan_trace_ingest(None, Vec::new(), 5, vec![a, b, c], &acme()).unwrap();
    let s = &plan.summary;
    assert_eq!(s.trace_id, 5);
    assert_eq!(s.name, "main");
    assert_eq!(s.started_at, 100);
    assert_eq!(s.duration_ms, Some(80));
    assert!(s.has_error);
    assert_eq!(s.event_count, 3);
    assert_eq!(s.thread_ids, vec!["t1".to_string(), "t2".to_string()]);
    assert_eq!(s.ai_cluster_key, Some("boom:f.py:12".to_string()));
    assert_eq!(s.tenant_id, acme());
    assert_eq!(s.version, Some("1.0".to_string()));
    assert!(s.structural_hash.is_some());
    assert!(plan.events.iter().all(|e| e.tenant_id == acme()));
    assert_eq!(plan.new_from, 0);
    assert_eq!(plan.events.len(), 3);
    let counts = plan.integrity.unwrap();
    assert_eq!(counts.total_spans, 1);
    assert_eq!(counts.matched_pairs, 1);
}

#[test]
fn ingesting_a_batch_twice_changes_nothing() {
    let mut a = ev(5, 1, None, 100, EventType::FunctionEnter, "app", "main");
    a.event_id = Some("e1".to_string());
    let mut b = ev(5, 1, None, 140, EventType::FunctionExit, "app", "main");
    b.event_id = Some("e2".to_string());
    let batch = vec![a, b];
    let first = plan_trace_ingest(None, Vec::new(), 5, batch.clone(), &acme()).unwrap();
    assert_eq!(first.summary.event_count, 2);
    let second =
        plan_trace_ingest(Some(first.summary.clone()), first.events.clone(), 5, batch, &acme()).unwrap();
    assert_eq!(second.new_from, second.events.len());
    assert_eq!(second.events.len(), 2);
    assert_eq!(second.summary.event_count, 2);
    assert_eq!(second.summary.duration_ms, first.summary.duration_ms);
    assert_eq!(second.summary.structural_hash, first.summary.structural_hash);
    assert_eq!(second.integrity, first.integrity);
}

#[test]
fn per_trace_metrics_cover_earlier_batches() {
    let mut a = ev(5, 1, None, 100, EventType::FunctionEnter, "app", "main");
    a.event_id = Some("e1".to_string());
    let first = plan_trace_ingest(None, Vec::new(), 5, vec![a], &None).unwrap();
    let mut b = ev(5, 2, Some(1), 120, EventType::FunctionEnter, "app", "work");
    b.event_id = Some("e2".to_string());
    let second = plan_trace_ingest(Some(first.summary.clone()), first.events, 5, vec![b], &None).unwrap();
    assert_eq!(second.new_from, 1);
    assert_eq!(second.events.len(), 2);
    let counts = second.integrity.unwrap();
    assert_eq!(counts.total_spans, 2);
    assert_eq!(counts.connected_spans, 2);
    assert_ne!(second.summary.structural_hash, first.summary.structural_hash);
    // the hash of the whole trace, not of the last batch
    let whole = second.events.clone();
    assert_eq!(second.summary.structural_hash, Some(orionis::timeline::calculate_structural_hash(&whole)));
}

#[test]
fn ingest_plan_extends_an_existing_summary() {
    let mut existing = summary(5, 100, None);
    existing.event_count = 4;
    existing.duration_ms = Some(10);
    existing.ai_cluster_key = Some("old".to_string());
    existing.structural_hash = Some("h".to_string());
    let mut e = ev(5, 9, None, 130, EventType::Exception, "app", "x");
    e.error_message = Some("bad".to_string());
    let s = summarize_trace(Some(existing.clone()), 5, Vec::new(), vec![e], &None).summary;
    assert_eq!(s.event_count, 5);
    assert_eq!(s.duration_ms, Some(30));
    assert_eq!(s.ai_cluster_key, Some("old".to_string()));
    assert!(s.has_error);
    let unchanged = summarize_trace(Some(existing), 5, Vec::new(), Vec::new(), &None);
    assert_eq!(unchanged.summary.structural_hash, Some("h".to_string()));
    assert!(unchanged.integrity.is_none());
}

#[test]
fn clusters_and_failure_stats() {
    let mut a = summary(1, 1, None);
    a.structural_hash = Some("h1".to_string());
    a.has_error = true;
    let mut b = summary(2, 2, None);
    b.structural_hash = Some("h2".to_string());
    let mut c = summary(3, 3, None);
    c.structural_hash = Some("h1".to_string());
    let mut d = summary(4, 4, None);
    d.ai_cluster_key = Some("err".to_string());
    d.structural_hash = Some("h2".to_string());
    let e = summary(5, 5, None);
    let clusters = get_clusters(vec![a.clone(), b.clone(), c.clone(), d.clone(), e.clone()], &None);
    let keys: Vec<&str> = clusters.iter().map(|c| c.cluster_key.as_str()).collect();
    assert_eq!(keys, vec!["h1", "h2", "err"]);
    assert_eq!(clusters[0].traces.iter().map(|t| t.trace_id).collect::<Vec<u128>>(), vec![1, 3]);
    assert_eq!(clusters[2].traces[0].trace_id, 4);
    let stats = get_failure_stats(vec![a, b, c, d, e], &None);
    assert_eq!(stats.len(), 2);
    assert_eq!(stats[0].structural_hash, "h1");
    assert_eq!((stats[0].failed_runs, stats[0].total_runs), (1, 2));
    assert_eq!((stats[1].failed_runs, stats[1].total_runs), (0, 2));
    let groups = group_summaries(Vec::new(), GroupKey::Version);
    assert!(groups.is_empty());
}

#[test]
fn regressions_between_sorted_versions() {
    let s = |id: u128, v: &str, h: &str| {
        let mut x = summary(id, id as u64, None);
        x.version = Some(v.to_string());
        x.structural_hash = Some(h.to_string());
        x
    };
    let all = vec![s(1, "1.9", "a"), s(2, "1.10", "a"), s(3, "1.10", "b"), s(4, "1.9", "c"), s(5, "2.0", "a"), s(6, "2.0", "d")];
    let r = get_regressions(all, &None);
    assert_eq!(r.len(), 2);
    assert_eq!((r[0].from_version.as_str(), r[0].to_version.as_str()), ("1.10", "1.9"));
    assert_eq!(r[0].hashes, vec!["c".to_string()]);
    assert_eq!((r[1].from_version.as_str(), r[1].to_version.as_str()), ("1.9", "2.0"));
    assert_eq!(r[1].hashes, vec!["d".to_string()]);
}

#[test]
fn service_graph_links_modules() {
    let mut a = ev(1, 1, None, 1, EventType::FunctionEnter, "api", "handle");
    a.duration_us = Some(9000);
    let mut b = ev(1, 2, Some(1), 2, EventType::FunctionEnter, "db", "query");
    b.duration_us = Some(4500);
    let mut c = ev(1, 3, Some(1), 3, EventType::FunctionEnter, "db", "query");
    c.duration_us = Some(2999);
    let d = ev(1, 4, Some(1), 4, EventType::FunctionEnter, "api", "helper");
    let e = ev(1, 5, Some(99), 5, EventType::FunctionEnter, "cache", "get");
    let g = get_service_graph(vec![a, b, c, d, e], &None);
    assert_eq!(g.nodes, vec!["api".to_string(), "db".to_string(), "cache".to_string()]);
    assert_eq!(g.links.len(), 1);
    assert_eq!(g.links[0].source, "api");
    assert_eq!(g.links[0].target, "db");
    assert_eq!(g.links[0].count, 2);
    assert_eq!(g.links[0].latency, 3);
}

#[test]
fn batch_summaries_one_per_trace() {
    let mut late = ev(7, 2, Some(1), 130, EventType::Exception, "m", "g");
    late.error_message = Some("boom".to_string());
    late.thread_id = Some("t1".to_string());
    let events = vec![
        ev(7, 1, None, 100, EventType::FunctionEnter, "m", "main"),
        ev(9, 5, None, 50, EventType::FunctionEnter, "n", "other"),
        late,
    ];
    let out = batch_summaries(events, &acme());
    assert_eq!(out.len(), 2);
    assert_eq!(out[0].trace_id, 7);
    assert_eq!(out[0].name, "main");
    assert_eq!(out[0].started_at, 100);
    assert_eq!(out[0].event_count, 2);
    assert_eq!(out[0].duration_ms, Some(30));
    assert!(out[0].has_error);
    assert_eq!(out[0].thread_ids, vec!["t1".to_string()]);
    assert_eq!(out[0].tenant_id, acme());
    assert_eq!(out[1].trace_id, 9);
    assert_eq!(out[1].event_count, 1);
    assert_eq!(out[1].duration_ms, Some(0));
    assert!(!out[1].has_error);
}

#[test]
fn grouping_by_tenant_keeps_first_appearance_order() {
    let entries = vec![
        (ev(1, 1, None, 1, EventType::FunctionEnter, "m", "f"), acme()),
        (ev(2, 2, None, 2, EventType::FunctionEnter, "m", "f"), None),
        (ev(3, 3, None, 3, EventType::FunctionEnter, "m", "f"), acme()),
    ];
    let groups = group_by_tenant(entries);
    assert_eq!(groups.len(), 2);
    assert_eq!(groups[0].0, acme());
    assert_eq!(groups[0].1.iter().map(|e| e.span_id).collect::<Vec<u128>>(), vec![1, 3]);
    assert_eq!(groups[1].0, None);
    assert_eq!(groups[1].1.len(), 1);
}

#[test]
fn simulation_rules_and_plugins_per_tenant() {
    let rule = |id: u128, t: Option<String>| SimulationRule {
        rule_id: id,
        tenant_id: t,
        target_module: "db".to_string(),
        target_function: "query".to_string(),
        error_message: "timeout".to_string(),
    };
    let rules = vec![rule(1, acme()), rule(2, None), rule(3, acme()), rule(4, Some("other".to_string()))];
    let mine: Vec<u128> = simulation_rules_for_tenant(rules.clone(), &acme()).iter().map(|r| r.rule_id).collect();
    assert_eq!(mine, vec![1, 3]);
    let shared: Vec<u128> = simulation_rules_for_tenant(rules, &None).iter().map(|r| r.rule_id).collect();
    assert_eq!(shared, vec![2]);
    let plugin = |id: u128, t: Option<String>| PluginRegistration {
        plugin_id: id,
        tenant_id: t,
        name: "exporter".to_string(),
        endpoint: "http://x".to_string(),
    };
    let plugins = vec![plugin(7, None), plugin(8, acme())];
    let mine: Vec<u128> = plugins_for_tenant(plugins, &acme()).iter().map(|p| p.plugin_id).collect();
    assert_eq!(mine, vec![8]);
}

#[test]
fn clearing_a_tenant_leaves_the_others() {
    let summaries = vec![summary(1, 10, Some("acme")), summary(2, 20, Some("other")), summary(3, 30, None)];
    assert_eq!(traces_to_clear(&summaries, &acme()), vec![1]);
    assert_eq!(traces_to_clear(&summaries, &None), vec![3]);
    let mut a = ev(1, 1, None, 1, EventType::FunctionEnter, "m", "f");
    a.tenant_id = acme();
    let mut b = ev(2, 2, None, 2, EventType::FunctionEnter, "m", "f");
    b.tenant_id = Some("other".to_string());
    let c = ev(3, 3, None, 3, EventType::FunctionEnter, "m", "f");
    assert_eq!(events_to_clear(&vec![a, b, c], &acme()), vec![0]);
}

#[test]
fn a_loop_of_parents_no_root_reaches_is_ingested() {
    let mut a = ev(5, 1, None, 100, EventType::FunctionEnter, "app", "main");
    a.event_id = Some("e1".to_string());
    let mut b = ev(5, 2, Some(3), 110, EventType::FunctionEnter, "app", "x");
    b.event_id = Some("e2".to_string());
    let mut c = ev(5, 3, Some(2), 120, EventType::FunctionEnter, "app", "y");
    c.event_id = Some("e3".to_string());
    let batch = vec![a, b, c];
    let first = plan_trace_ingest(None, Vec::new(), 5, batch.clone(), &None).unwrap();
    assert_eq!(first.events.len(), 3);
    assert!(first.events[0].fingerprint.is_some());
    assert!(first.events[1].fingerprint.is_none());
    assert!(first.events[2].fingerprint.is_none());
    let second = plan_trace_ingest(Some(first.summary.clone()), first.events.clone(), 5, batch, &None).unwrap();
    assert_eq!(second.events.len(), 3);
    assert_eq!(second.summary.event_count, 3);
}

#[test]
fn an_event_with_a_known_id_but_another_timestamp_is_new() {
    let mut a = ev(5, 1, None, 100, EventType::FunctionEnter, "app", "main");
    a.event_id = Some("e1".to_string());
    let first = plan_trace_ingest(None, Vec::new(), 5, vec![a.clone()], &None).unwrap();
    let mut later = a;
    later.timestamp_ms = 200;
    let second = plan_trace_ingest(Some(first.summary.clone()), first.events, 5, vec![later], &None).unwrap();
    assert_eq!(second.new_from, 1);
    assert_eq!(second.events.len(), 2);
}
