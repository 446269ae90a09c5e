//! The storage engine's logic: tenant isolation, trace listing, clustering, regression and
//! failure statistics, the service graph, and how an ingested batch updates trace summaries.
//! Reading and writing the database stay with the caller; everything here works on the
//! records that were read and returns what is to be written.

use crate::hashing::default_str_hash;
use crate::models::{PluginRegistration, SecurityAlert, SimulationRule, TraceComment, TraceEvent, TraceSummary};
use crate::timeline::{
    calculate_span_fingerprints, calculate_structural_hash, compress_spec, compress_timeline,
    fingerprints_applied, integrity_counts, lemma_compress_lossless, lemma_compress_shapes, unmarked, lemma_finite_subset,
    lemma_fingerprints_shapes, lemma_shapes_trans, has_shape, same_shape,
    shapes_within, span_tree_finite, structural_pattern_spec, integrity_spec, IntegrityCounts,
};
use crate::sorting::{lemma_sort_pairs_members, sort_pairs_by_key, stable_sort_pairs};
use crate::text::{clone_opt_string, decimal, hex_lower, opt_str_eq, opt_str_view, to_decimal};
use vstd::prelude::*;

verus! {

/// Most trace summaries a listing returns.
pub const LIST_LIMIT: usize = 500;

/// A record stored under tenant `record` is visible to a request made for tenant `tenant`:
/// both name the same tenant, or neither names one.
pub open spec fn visible(record: Option<String>, tenant: Option<String>) -> bool {
    opt_str_view(record) == opt_str_view(tenant)
}

/// Whether a record of tenant `record` is visible to a request for tenant `tenant`.
pub fn tenant_matches(record: &Option<String>, tenant: &Option<String>) -> (r: bool)
    ensures
        r == visible(*record, *tenant),
{
    opt_str_eq(record, tenant)
}

/// The summaries visible to `tenant`, in stored order.
pub open spec fn visible_summaries(s: Seq<TraceSummary>, tenant: Option<String>) -> Seq<TraceSummary> {
    s.filter(|x: TraceSummary| visible(x.tenant_id, tenant))
}

/// `(started_at, summary)` for each summary.
pub open spec fn by_start(s: Seq<TraceSummary>) -> Seq<(u64, TraceSummary)> {
    s.map_values(|x: TraceSummary| (x.started_at, x))
}

/// The second components of a list of pairs.
pub open spec fn seconds<T>(s: Seq<(u64, T)>) -> Seq<T> {
    s.map_values(|p: (u64, T)| p.1)
}

/// What a trace listing returns: the summaries visible to the tenant, newest first (ties keep
/// their stored order), at most 500 of them.
pub open spec fn list_traces_spec(s: Seq<TraceSummary>, tenant: Option<String>) -> Seq<TraceSummary> {
    let sorted = seconds(stable_sort_pairs(by_start(visible_summaries(s, tenant)), true));
    if sorted.len() <= LIST_LIMIT {
        sorted
    } else {
        sorted.take(LIST_LIMIT as int)
    }
}

/// Lists the traces a tenant may see: newest first, at most 500.
pub fn list_traces(summaries: Vec<TraceSummary>, tenant: &Option<String>) -> (r: Vec<TraceSummary>)
    ensures
        r@ == list_traces_spec(summaries@, *tenant),
        r@.len() <= LIST_LIMIT,
        forall|i: int| 0 <= i < r@.len() ==> visible(#[trigger] r@[i].tenant_id, *tenant),
{
    let ghost all = summaries@;
    let ghost pred = |x: TraceSummary| visible(x.tenant_id, *tenant);
    let mut pairs: Vec<(u64, TraceSummary)> = Vec::new();
    for x in it: summaries.into_iter()
        invariant
            it.seq() == all,
            pred == (|x: TraceSummary| visible(x.tenant_id, *tenant)),
            pairs@ == by_start(all.take(it.index() as int).filter(pred)),
    {
        let ghost i = it.index() as int;
        proof {
            reveal_with_fuel(Seq::<TraceSummary>::filter, 1);
            assert(all.take(i + 1).drop_last() =~= all.take(i));
        }
        if tenant_matches(&x.tenant_id, tenant) {
            let key = x.started_at;
            pairs.push((key, x));
            proof {
                assert(all.take(i + 1).filter(pred) == all.take(i).filter(pred).push(x));
            }
        } else {
            proof {
                assert(all.take(i + 1).filter(pred) == all.take(i).filter(pred));
            }
        }
        assert(pairs@ =~= by_start(all.take(i + 1).filter(pred)));
    }
    assert(all.take(all.len() as int) =~= all);
    let sorted = sort_pairs_by_key(pairs, true);
    let ghost srt = sorted@;
    let mut out: Vec<TraceSummary> = Vec::new();
    for p in it: sorted.into_iter()
        invariant
            it.seq() == srt,
            out@ == seconds(srt).take(it.index() as int) || (it.index() > LIST_LIMIT && out@
                == seconds(srt).take(LIST_LIMIT as int)),
            out@.len() <= LIST_LIMIT,
            out@.len() == if it.index() <= LIST_LIMIT { it.index() as nat } else { LIST_LIMIT as nat },
    {
        if out.len() < LIST_LIMIT {
            out.push(p.1);
            assert(out@ =~= seconds(srt).take(it.index() + 1));
        }
    }
    proof {
        if srt.len() <= LIST_LIMIT {
            assert(seconds(srt).take(srt.len() as int) =~= seconds(srt));
        }
        let v = visible_summaries(all, *tenant);
        lemma_sort_pairs_members(by_start(v), true);
        assert forall|i: int| 0 <= i < out@.len() implies visible(#[trigger] out@[i].tenant_id, *tenant) by {
            let q = srt[i];
            assert(out@[i] == q.1);
            assert(by_start(v).contains(q));
            let w = choose|w: int| 0 <= w < by_start(v).len() && by_start(v)[w] == q;
            assert(q.1 == v[w]);
            all.lemma_filter_pred(pred, w);
        }
    }
    out
}


/// Keeps the summaries that `tenant` may see, in order.
pub fn summaries_for_tenant(summaries: Vec<TraceSummary>, tenant: &Option<String>) -> (r: Vec<TraceSummary>)
    ensures
        r@ == visible_summaries(summaries@, *tenant),
{
    let ghost all = summaries@;
    let ghost pred = |x: TraceSummary| visible(x.tenant_id, *tenant);
    let mut out: Vec<TraceSummary> = Vec::new();
    for x in it: summaries.into_iter()
        invariant
            it.seq() == all,
            pred == (|x: TraceSummary| visible(x.tenant_id, *tenant)),
            out@ == all.take(it.index() as int).filter(pred),
    {
        let ghost i = it.index() as int;
        proof {
            reveal_with_fuel(Seq::<TraceSummary>::filter, 1);
            assert(all.take(i + 1).drop_last() =~= all.take(i));
        }
        if tenant_matches(&x.tenant_id, tenant) {
            out.push(x);
        }
    }
    assert(all.take(all.len() as int) =~= all);
    out
}

/// The events visible to `tenant`, in stored order.
pub open spec fn visible_events(events: Seq<TraceEvent>, tenant: Option<String>) -> Seq<TraceEvent> {
    events.filter(|e: TraceEvent| visible(e.tenant_id, tenant))
}

/// Keeps the events that `tenant` may see, in order (the events of one trace, as read from
/// storage in key order).
pub fn trace_events_for_tenant(events: Vec<TraceEvent>, tenant: &Option<String>) -> (r: Vec<TraceEvent>)
    ensures
        r@ == visible_events(events@, *tenant),
{
    let ghost all = events@;
    let ghost pred = |e: TraceEvent| visible(e.tenant_id, *tenant);
    let mut out: Vec<TraceEvent> = Vec::new();
    for x in it: events.into_iter()
        invariant
            it.seq() == all,
            pred == (|e: TraceEvent| visible(e.tenant_id, *tenant)),
            out@ == all.take(it.index() as int).filter(pred),
    {
        let ghost i = it.index() as int;
        proof {
            reveal_with_fuel(Seq::<TraceEvent>::filter, 1);
            assert(all.take(i + 1).drop_last() =~= all.take(i));
        }
        if tenant_matches(&x.tenant_id, tenant) {
            out.push(x);
        }
    }
    assert(all.take(all.len() as int) =~= all);
    out
}

/// What a comment listing returns: the comments on `trace_id` visible to the tenant, oldest first
/// (ties keep their stored order).
pub open spec fn comments_spec(c: Seq<TraceComment>, trace_id: u128, tenant: Option<String>) -> Seq<TraceComment> {
    let kept = c.filter(|x: TraceComment| x.trace_id == trace_id && visible(x.tenant_id, tenant));
    seconds(stable_sort_pairs(kept.map_values(|x: TraceComment| (x.timestamp_ms, x)), false))
}

/// Lists the comments of a trace that a tenant may see, oldest first.
pub fn list_comments(comments: Vec<TraceComment>, trace_id: u128, tenant: &Option<String>) -> (r: Vec<TraceComment>)
    ensures
        r@ == comments_spec(comments@, trace_id, *tenant),
{
    let ghost all = comments@;
    let ghost pred = |x: TraceComment| x.trace_id == trace_id && visible(x.tenant_id, *tenant);
    let mut pairs: Vec<(u64, TraceComment)> = Vec::new();
    for x in it: comments.into_iter()
        invariant
            it.seq() == all,
            pred == (|x: TraceComment| x.trace_id == trace_id && visible(x.tenant_id, *tenant)),
            pairs@ == all.take(it.index() as int).filter(pred).map_values(|x: TraceComment| (x.timestamp_ms, x)),
    {
        let ghost i = it.index() as int;
        proof {
            reveal_with_fuel(Seq::<TraceComment>::filter, 1);
            assert(all.take(i + 1).drop_last() =~= all.take(i));
        }
        if x.trace_id == trace_id && tenant_matches(&x.tenant_id, tenant) {
            let key = x.timestamp_ms;
            pairs.push((key, x));
        }
        assert(pairs@ =~= all.take(i + 1).filter(pred).map_values(|x: TraceComment| (x.timestamp_ms, x)));
    }
    assert(all.take(all.len() as int) =~= all);
    let sorted = sort_pairs_by_key(pairs, false);
    let ghost srt = sorted@;
    let mut out: Vec<TraceComment> = Vec::new();
    for p in it: sorted.into_iter()
        invariant
            it.seq() == srt,
            out@ == seconds(srt).take(it.index() as int),
    {
        out.push(p.1);
        assert(out@ =~= seconds(srt).take(it.index() + 1));
    }
    assert(seconds(srt).take(srt.len() as int) =~= seconds(srt));
    out
}

/// The simulation rules a tenant may see, in stored order.
pub fn simulation_rules_for_tenant(rules: Vec<SimulationRule>, tenant: &Option<String>) -> (r: Vec<SimulationRule>)
    ensures
        r@ == rules@.filter(|x: SimulationRule| visible(x.tenant_id, *tenant)),
{
    let ghost all = rules@;
    let ghost pred = |x: SimulationRule| visible(x.tenant_id, *tenant);
    let mut out: Vec<SimulationRule> = Vec::new();
    for x in it: rules.into_iter()
        invariant
            it.seq() == all,
            pred == (|x: SimulationRule| visible(x.tenant_id, *tenant)),
            out@ == all.take(it.index() as int).filter(pred),
    {
        let ghost i = it.index() as int;
        proof {
            reveal_with_fuel(Seq::<SimulationRule>::filter, 1);
            assert(all.take(i + 1).drop_last() =~= all.take(i));
        }
        if tenant_matches(&x.tenant_id, tenant) {
            out.push(x);
        }
        assert(out@ =~= all.take(i + 1).filter(pred));
    }
    assert(all.take(all.len() as int) =~= all);
    out
}

/// The plugins a tenant registered and may see, in stored order.
pub fn plugins_for_tenant(plugins: Vec<PluginRegistration>, tenant: &Option<String>) -> (r: Vec<PluginRegistration>)
    ensures
        r@ == plugins@.filter(|x: PluginRegistration| visible(x.tenant_id, *tenant)),
{
    let ghost all = plugins@;
    let ghost pred = |x: PluginRegistration| visible(x.tenant_id, *tenant);
    let mut out: Vec<PluginRegistration> = Vec::new();
    for x in it: plugins.into_iter()
        invariant
            it.seq() == all,
            pred == (|x: PluginRegistration| visible(x.tenant_id, *tenant)),
            out@ == all.take(it.index() as int).filter(pred),
    {
        let ghost i = it.index() as int;
        proof {
            reveal_with_fuel(Seq::<PluginRegistration>::filter, 1);
            assert(all.take(i + 1).drop_last() =~= all.take(i));
        }
        if tenant_matches(&x.tenant_id, tenant) {
            out.push(x);
        }
        assert(out@ =~= all.take(i + 1).filter(pred));
    }
    assert(all.take(all.len() as int) =~= all);
    out
}

/// What an alert listing returns: the alerts visible to the tenant, newest first (ties keep
/// their stored order).
pub open spec fn alerts_spec(a: Seq<SecurityAlert>, tenant: Option<String>) -> Seq<SecurityAlert> {
    let kept = a.filter(|x: SecurityAlert| visible(x.tenant_id, tenant));
    seconds(stable_sort_pairs(kept.map_values(|x: SecurityAlert| (x.timestamp_ms, x)), true))
}

/// Lists the security alerts that a tenant may see, newest first.
pub fn list_security_alerts(alerts: Vec<SecurityAlert>, tenant: &Option<String>) -> (r: Vec<SecurityAlert>)
    ensures
        r@ == alerts_spec(alerts@, *tenant),
{
    let ghost all = alerts@;
    let ghost pred = |x: SecurityAlert| visible(x.tenant_id, *tenant);
    let mut pairs: Vec<(u64, SecurityAlert)> = Vec::new();
    for x in it: alerts.into_iter()
        invariant
            it.seq() == all,
            pred == (|x: SecurityAlert| visible(x.tenant_id, *tenant)),
            pairs@ == all.take(it.index() as int).filter(pred).map_values(|x: SecurityAlert| (x.timestamp_ms, x)),
    {
        let ghost i = it.index() as int;
        proof {
            reveal_with_fuel(Seq::<SecurityAlert>::filter, 1);
            assert(all.take(i + 1).drop_last() =~= all.take(i));
        }
        if tenant_matches(&x.tenant_id, tenant) {
            let key = x.timestamp_ms;
            pairs.push((key, x));
        }
        assert(pairs@ =~= all.take(i + 1).filter(pred).map_values(|x: SecurityAlert| (x.timestamp_ms, x)));
    }
    assert(all.take(all.len() as int) =~= all);
    let sorted = sort_pairs_by_key(pairs, true);
    let ghost srt = sorted@;
    let mut out: Vec<SecurityAlert> = Vec::new();
    for p in it: sorted.into_iter()
        invariant
            it.seq() == srt,
            out@ == seconds(srt).take(it.index() as int),
    {
        out.push(p.1);
        assert(out@ =~= seconds(srt).take(it.index() + 1));
    }
    assert(seconds(srt).take(srt.len() as int) =~= seconds(srt));
    out
}

/// The position of the first event of span `s` at or after `i`, or -1.
pub open spec fn first_span_from(events: Seq<TraceEvent>, s: u128, i: int) -> int
    decreases events.len() - i,
{
    if i < 0 || i >= events.len() {
        -1
    } else if events[i].span_id == s {
        i
    } else {
        first_span_from(events, s, i + 1)
    }
}

/// What a lookup by span returns: the first stored event of the span, unless no event has it or
/// that event is not visible to the tenant.
pub open spec fn event_by_span_spec(events: Seq<TraceEvent>, s: u128, tenant: Option<String>) -> Option<TraceEvent> {
    let i = first_span_from(events, s, 0);
    if i < 0 || !visible(events[i].tenant_id, tenant) {
        None
    } else {
        Some(events[i])
    }
}

/// Finds the first stored event of a span, if the tenant may see it.
pub fn event_by_span(events: Vec<TraceEvent>, span_id: u128, tenant: &Option<String>) -> (r: Option<TraceEvent>)
    ensures
        r == event_by_span_spec(events@, span_id, *tenant),
{
    let ghost all = events@;
    for x in it: events.into_iter()
        invariant
            it.seq() == all,
            first_span_from(all, span_id, 0) == first_span_from(all, span_id, it.index() as int),
    {
        let ghost i = it.index() as int;
        if x.span_id == span_id {
            assert(first_span_from(all, span_id, i) == i);
            if tenant_matches(&x.tenant_id, tenant) {
                return Some(x);
            } else {
                return None;
            }
        }
    }
    None
}

/// The summary after an AI summary was recorded: the summary text is set, and the cluster key
/// too when one is given.
pub fn apply_ai_summary(s: TraceSummary, summary: String, cluster_key: Option<String>) -> (r: TraceSummary)
    ensures
        r == (TraceSummary {
            ai_summary: Some(summary),
            ai_cluster_key: if cluster_key is Some { cluster_key } else { s.ai_cluster_key },
            ..s
        }),
{
    let mut s = s;
    s.ai_summary = Some(summary);
    if cluster_key.is_some() {
        s.ai_cluster_key = cluster_key;
    }
    s
}

/// The summary after a root-cause analysis was recorded: each part that is given replaces the
/// stored one.
pub fn apply_intel(s: TraceSummary, root_cause: Option<String>, patch: Option<String>) -> (r: TraceSummary)
    ensures
        r == (TraceSummary {
            ai_root_cause: if root_cause is Some { root_cause } else { s.ai_root_cause },
            ai_patch_suggestion: if patch is Some { patch } else { s.ai_patch_suggestion },
            ..s
        }),
{
    let mut s = s;
    if let Some(rc) = root_cause {
        s.ai_root_cause = Some(rc);
    }
    if let Some(p) = patch {
        s.ai_patch_suggestion = Some(p);
    }
    s
}

/// The summary after tags or an assignee were set: `None` (nothing is written) when the summary
/// is not visible to the tenant; else each part that is given replaces the stored one.
pub fn apply_metadata(
    s: TraceSummary,
    tags: Option<Vec<String>>,
    assigned_to: Option<String>,
    tenant: &Option<String>,
) -> (r: Option<TraceSummary>)
    ensures
        !visible(s.tenant_id, *tenant) ==> r is None,
        visible(s.tenant_id, *tenant) ==> r == Some(
            TraceSummary {
                tags: if tags is Some { tags.unwrap() } else { s.tags },
                assigned_to: if assigned_to is Some { assigned_to } else { s.assigned_to },
                ..s
            },
        ),
{
    if !tenant_matches(&s.tenant_id, tenant) {
        return None;
    }
    let mut s = s;
    if let Some(t) = tags {
        s.tags = t;
    }
    if let Some(a) = assigned_to {
        s.assigned_to = Some(a);
    }
    Some(s)
}

/// Milliseconds in a day.
pub const DAY_MS: u64 = 86400000;

/// The instant before which data expires: `retention_days` days before `now_ms`.
pub fn retention_cutoff(now_ms: u64, retention_days: u32) -> (r: u64)
    requires
        now_ms >= retention_days as u64 * DAY_MS,
    ensures
        r == now_ms - retention_days as u64 * DAY_MS,
{
    now_ms - (retention_days as u64) * DAY_MS
}

/// The ids of the traces of the first `n` summaries that satisfy `keep`, in order.
pub open spec fn trace_ids_where(s: Seq<TraceSummary>, keep: spec_fn(TraceSummary) -> bool) -> Seq<u128> {
    s.filter(keep).map_values(|x: TraceSummary| x.trace_id)
}

/// The traces that started before `cutoff_ms`, whose data is to be removed.
pub fn expired_trace_ids(summaries: &Vec<TraceSummary>, cutoff_ms: u64) -> (r: Vec<u128>)
    ensures
        r@ == trace_ids_where(summaries@, |x: TraceSummary| x.started_at < cutoff_ms),
{
    let ghost pred = |x: TraceSummary| x.started_at < cutoff_ms;
    let mut r: Vec<u128> = Vec::new();
    let n = summaries.len();
    for i in 0..n
        invariant
            n == summaries@.len(),
            pred == (|x: TraceSummary| x.started_at < cutoff_ms),
            r@ == trace_ids_where(summaries@.take(i as int), pred),
    {
        proof {
            reveal_with_fuel(Seq::<TraceSummary>::filter, 1);
            assert(summaries@.take(i + 1).drop_last() =~= summaries@.take(i as int));
        }
        if summaries[i].started_at < cutoff_ms {
            r.push(summaries[i].trace_id);
        }
        assert(r@ =~= trace_ids_where(summaries@.take(i + 1), pred));
    }
    assert(summaries@.take(n as int) =~= summaries@);
    r
}

/// The ids of the traces whose summaries are visible to `tenant`, in order.
pub open spec fn cleared_traces(summaries: Seq<TraceSummary>, tenant: Option<String>) -> Seq<u128> {
    trace_ids_where(summaries, |x: TraceSummary| visible(x.tenant_id, tenant))
}

/// The traces that clearing a tenant's data removes: those visible to the tenant.
pub fn traces_to_clear(summaries: &Vec<TraceSummary>, tenant: &Option<String>) -> (r: Vec<u128>)
    ensures
        r@ == cleared_traces(summaries@, *tenant),
{
    let ghost pred = |x: TraceSummary| visible(x.tenant_id, *tenant);
    let mut r: Vec<u128> = Vec::new();
    let n = summaries.len();
    for i in 0..n
        invariant
            n == summaries@.len(),
            pred == (|x: TraceSummary| visible(x.tenant_id, *tenant)),
            r@ == trace_ids_where(summaries@.take(i as int), pred),
    {
        proof {
            reveal_with_fuel(Seq::<TraceSummary>::filter, 1);
            assert(summaries@.take(i + 1).drop_last() =~= summaries@.take(i as int));
        }
        if tenant_matches(&summaries[i].tenant_id, tenant) {
            r.push(summaries[i].trace_id);
        }
        assert(r@ =~= trace_ids_where(summaries@.take(i + 1), pred));
    }
    assert(summaries@.take(n as int) =~= summaries@);
    r
}

/// The positions below `n` of the events visible to `tenant`, in order.
pub open spec fn visible_positions(events: Seq<TraceEvent>, tenant: Option<String>, n: nat) -> Seq<usize>
    decreases n,
{
    if n == 0 {
        seq![]
    } else {
        let prev = visible_positions(events, tenant, (n - 1) as nat);
        if visible(events[n - 1].tenant_id, tenant) {
            prev.push((n - 1) as usize)
        } else {
            prev
        }
    }
}

/// The positions of the events that clearing a tenant's data removes: those visible to it.
pub fn events_to_clear(events: &Vec<TraceEvent>, tenant: &Option<String>) -> (r: Vec<usize>)
    ensures
        r@ == visible_positions(events@, *tenant, events@.len()),
{
    let mut r: Vec<usize> = Vec::new();
    let n = events.len();
    for i in 0..n
        invariant
            n == events@.len(),
            r@ == visible_positions(events@, *tenant, i as nat),
    {
        if tenant_matches(&events[i].tenant_id, tenant) {
            r.push(i);
        }
    }
    r
}

proof fn lemma_visible_positions(events: Seq<TraceEvent>, tenant: Option<String>, n: nat)
    requires
        n <= events.len(),
        events.len() <= usize::MAX,
    ensures
        forall|k: int|
            0 <= k < events.len() ==> (visible_positions(events, tenant, n).contains(k as usize) <==> (k < n
                && visible(#[trigger] events[k].tenant_id, tenant))),
    decreases n,
{
    if n > 0 {
        lemma_visible_positions(events, tenant, (n - 1) as nat);
        let prev = visible_positions(events, tenant, (n - 1) as nat);
        let cur = visible_positions(events, tenant, n);
        assert forall|k: int| 0 <= k < events.len() implies (cur.contains(k as usize) <==> (k < n && visible(
            #[trigger] events[k].tenant_id,
            tenant,
        ))) by {
            if visible(events[n - 1].tenant_id, tenant) {
                assert(cur == prev.push((n - 1) as usize));
                if prev.contains(k as usize) {
                    let j = choose|j: int| 0 <= j < prev.len() && prev[j] == k as usize;
                    assert(cur[j] == k as usize);
                }
                if cur.contains(k as usize) && k != n - 1 {
                    let j = choose|j: int| 0 <= j < cur.len() && cur[j] == k as usize;
                    assert(cur[prev.len() as int] == (n - 1) as usize);
                    assert(j < prev.len());
                    assert(prev[j] == k as usize);
                }
                if k == n - 1 {
                    assert(cur[prev.len() as int] == k as usize);
                }
            }
        }
    }
}

/// Clearing one tenant's data leaves the other tenants' data alone: exactly the events visible
/// to the tenant are removed, and a trace is removed only when a summary visible to the tenant
/// has its id.
pub proof fn lemma_clear_isolated(summaries: Seq<TraceSummary>, events: Seq<TraceEvent>, tenant: Option<String>)
    requires
        events.len() <= usize::MAX,
    ensures
        forall|k: int|
            0 <= k < events.len() ==> (visible_positions(events, tenant, events.len()).contains(k as usize)
                <==> visible(#[trigger] events[k].tenant_id, tenant)),
        forall|id: u128|
            #[trigger] cleared_traces(summaries, tenant).contains(id)
                <==> exists|i: int| 0 <= i < summaries.len() && summaries[i].trace_id == id && visible(
                #[trigger] summaries[i].tenant_id,
                tenant,
            ),
{
    lemma_visible_positions(events, tenant, events.len());
    let pred = |x: TraceSummary| visible(x.tenant_id, tenant);
    let f = summaries.filter(pred);
    summaries.filter_lemma(pred);
    assert forall|id: u128|
        #[trigger] cleared_traces(summaries, tenant).contains(id) <==> exists|i: int|
            0 <= i < summaries.len() && summaries[i].trace_id == id && visible(#[trigger] summaries[i].tenant_id, tenant) by {
        let ids = cleared_traces(summaries, tenant);
        assert(ids == trace_ids_where(summaries, pred));
        if ids.contains(id) {
            let j = choose|j: int| 0 <= j < ids.len() && ids[j] == id;
            assert(f.contains(f[j]));
            summaries.lemma_filter_contains_rev(pred, f[j]);
            let i = choose|i: int| 0 <= i < summaries.len() && summaries[i] == f[j];
            assert(pred(f[j]));
            assert(summaries[i].trace_id == id && visible(summaries[i].tenant_id, tenant));
        }
        if exists|i: int| 0 <= i < summaries.len() && summaries[i].trace_id == id && visible(summaries[i].tenant_id, tenant) {
            let i = choose|i: int| 0 <= i < summaries.len() && summaries[i].trace_id == id && visible(summaries[i].tenant_id, tenant);
            assert(pred(summaries[i]));
            assert(f.contains(summaries[i]));
            let j = choose|j: int| 0 <= j < f.len() && f[j] == summaries[i];
            assert(ids[j] == id);
        }
    }
}

/// Usage tiers of a tenant.
#[derive(Debug, Clone, Copy, PartialEq, Eq, Structural)]
pub enum TenantTier {
    Free,
    Pro,
    Enterprise,
}

/// How many traces a tenant ingested since its counter was last reset.
#[derive(Debug, Clone)]
pub struct TenantUsage {
    pub tenant_id: String,
    pub tier: TenantTier,
    pub traces_ingested_today: u64,
    pub last_reset_timestamp: u64,
}

impl TenantUsage {
    /// The usage record of a tenant seen for the first time.
    pub fn fresh(tenant_id: &str, now_ms: u64) -> (r: TenantUsage)
        ensures
            r.tenant_id@ == tenant_id@,
            r.tier == TenantTier::Free,
            r.traces_ingested_today == 0,
            r.last_reset_timestamp == now_ms,
    {
        TenantUsage { tenant_id: crate::text::string_of(tenant_id), tier: TenantTier::Free, traces_ingested_today: 0, last_reset_timestamp: now_ms }
    }

    /// Counts one more ingested trace; the counter restarts first when more than a day has
    /// passed since its last reset.
    pub fn record_trace(self, now_ms: u64) -> (r: TenantUsage)
        requires
            now_ms >= self.last_reset_timestamp,
            now_ms - self.last_reset_timestamp > DAY_MS || self.traces_ingested_today < u64::MAX,
        ensures
            now_ms - self.last_reset_timestamp > DAY_MS ==> r == (TenantUsage {
                traces_ingested_today: 1,
                last_reset_timestamp: now_ms,
                ..self
            }),
            now_ms - self.last_reset_timestamp <= DAY_MS ==> r == (TenantUsage {
                traces_ingested_today: (self.traces_ingested_today + 1) as u64,
                ..self
            }),
    {
        let mut u = self;
        if now_ms - u.last_reset_timestamp > DAY_MS {
            u.traces_ingested_today = 0;
            u.last_reset_timestamp = now_ms;
        }
        u.traces_ingested_today = u.traces_ingested_today + 1;
        u
    }
}


// ── Ingestion ────────────────────────────────────────────────────────────────

/// The distinct trace ids among the first `n` events, in order of first appearance.
pub open spec fn distinct_traces(events: Seq<TraceEvent>, n: nat) -> Seq<u128>
    decreases n,
{
    if n == 0 {
        seq![]
    } else {
        let prev = distinct_traces(events, (n - 1) as nat);
        if prev.contains(events[n - 1].trace_id) {
            prev
        } else {
            prev.push(events[n - 1].trace_id)
        }
    }
}

/// The events of trace `t`, in order.
pub open spec fn events_of_trace(events: Seq<TraceEvent>, t: u128) -> Seq<TraceEvent> {
    events.filter(|e: TraceEvent| e.trace_id == t)
}

fn index_of_u128(v: &Vec<u128>, x: u128) -> (r: Option<usize>)
    ensures
        match r {
            Some(i) => i < v@.len() && v@[i as int] == x,
            None => !v@.contains(x),
        },
{
    let n = v.len();
    for i in 0..n
        invariant
            n == v@.len(),
            forall|j: int| 0 <= j < i ==> v@[j] != x,
    {
        if v[i] == x {
            return Some(i);
        }
    }
    None
}

/// Splits a batch into one group per trace: trace ids in order of first appearance, each with
/// its events in batch order.
pub fn group_by_trace(events: Vec<TraceEvent>) -> (r: Vec<(u128, Vec<TraceEvent>)>)
    ensures
        r@.len() == distinct_traces(events@, events@.len()).len(),
        forall|i: int|
            0 <= i < r@.len() ==> (#[trigger] r@[i]).0 == distinct_traces(events@, events@.len())[i]
                && r@[i].1@ == events_of_trace(events@, r@[i].0),
{
    let ghost all = events@;
    let mut ids: Vec<u128> = Vec::new();
    let mut groups: Vec<Vec<TraceEvent>> = Vec::new();
    for x in it: events.into_iter()
        invariant
            it.seq() == all,
            ids@ == distinct_traces(all, it.index() as nat),
            groups@.len() == ids@.len(),
            forall|j: int| 0 <= j < groups@.len() ==> (#[trigger] groups@[j])@ == all.take(it.index() as int).filter(
                |e: TraceEvent| e.trace_id == ids@[j],
            ),
    {
        let ghost i = it.index() as int;
        let ghost g0 = groups@;
        let ghost ids0 = ids@;
        proof {
            reveal_with_fuel(Seq::<TraceEvent>::filter, 1);
            assert(all.take(i + 1).drop_last() =~= all.take(i));
            assert(all.take(i + 1).last() == x);
        }
        let t = x.trace_id;
        match index_of_u128(&ids, t) {
            Some(gi) => {
                let mut g = groups.remove(gi);
                g.push(x);
                groups.insert(gi, g);
                proof {
                    lemma_distinct_traces_unique(all, i as nat);
                }
                assert forall|j: int| 0 <= j < groups@.len() implies (#[trigger] groups@[j])@ == all.take(i + 1).filter(
                    |e: TraceEvent| e.trace_id == ids@[j],
                ) by {
                    let pj = |e: TraceEvent| e.trace_id == ids@[j];
                    assert(all.take(i + 1).filter(pj) == if pj(x) {
                        all.take(i).filter(pj).push(x)
                    } else {
                        all.take(i).filter(pj)
                    });
                    if j == gi {
                        assert(groups@[j]@ == g0[j]@.push(x));
                    } else {
                        assert(groups@[j] == g0[j]);
                        assert(ids@[j] != ids@[gi as int]);
                    }
                }
            },
            None => {
                ids.push(t);
                let mut g: Vec<TraceEvent> = Vec::new();
                g.push(x);
                groups.push(g);
                assert forall|j: int| 0 <= j < groups@.len() implies (#[trigger] groups@[j])@ == all.take(i + 1).filter(
                    |e: TraceEvent| e.trace_id == ids@[j],
                ) by {
                    let pj = |e: TraceEvent| e.trace_id == ids@[j];
                    assert(all.take(i + 1).filter(pj) == if pj(x) {
                        all.take(i).filter(pj).push(x)
                    } else {
                        all.take(i).filter(pj)
                    });
                    if j < g0.len() {
                        assert(groups@[j] == g0[j]);
                        assert(ids@[j] == ids0[j]);
                        assert(ids0.contains(ids0[j]));
                        assert(ids0[j] != t);
                    } else {
                        lemma_no_trace_before(all, i, t);
                        assert(all.take(i).filter(|e: TraceEvent| e.trace_id == ids@[j]) =~= Seq::<TraceEvent>::empty());
                        assert(groups@[j]@ =~= seq![x]);
                    }
                }
            },
        }
    }
    assert(all.take(all.len() as int) =~= all);
    let ghost fin = groups@;
    let m = ids.len();
    let mut r: Vec<(u128, Vec<TraceEvent>)> = Vec::new();
    let mut k: usize = 0;
    for g in it: groups.into_iter()
        invariant
            it.seq() == fin,
            k == it.index(),
            m == fin.len(),
            fin.len() == ids@.len(),
            ids@ == distinct_traces(all, all.len()),
            forall|j: int| 0 <= j < fin.len() ==> (#[trigger] fin[j])@ == all.filter(|e: TraceEvent| e.trace_id == ids@[j]),
            r@.len() == k,
            forall|j: int|
                0 <= j < r@.len() ==> (#[trigger] r@[j]).0 == ids@[j] && r@[j].1@ == events_of_trace(all, r@[j].0),
    {
        r.push((ids[k], g));
        k = k + 1;
    }
    r
}

proof fn lemma_distinct_traces_unique(all: Seq<TraceEvent>, n: nat)
    requires
        n <= all.len(),
    ensures
        forall|a: int, b: int|
            0 <= a < b < distinct_traces(all, n).len() ==> distinct_traces(all, n)[a] != distinct_traces(all, n)[b],
    decreases n,
{
    if n > 0 {
        lemma_distinct_traces_unique(all, (n - 1) as nat);
        let prev = distinct_traces(all, (n - 1) as nat);
        if !prev.contains(all[n - 1].trace_id) {
            let cur = distinct_traces(all, n);
            assert forall|a: int, b: int| 0 <= a < b < cur.len() implies cur[a] != cur[b] by {
                if b == prev.len() {
                    assert(cur[b] == all[n - 1].trace_id);
                    assert(cur[a] == prev[a]);
                } else {
                    assert(cur[a] == prev[a] && cur[b] == prev[b]);
                }
            }
        }
    }
}

proof fn lemma_no_trace_before(all: Seq<TraceEvent>, i: int, t: u128)
    requires
        0 <= i <= all.len(),
        !distinct_traces(all, i as nat).contains(t),
    ensures
        all.take(i).filter(|e: TraceEvent| e.trace_id == t) =~= Seq::<TraceEvent>::empty(),
    decreases i,
{
    reveal_with_fuel(Seq::<TraceEvent>::filter, 1);
    if i > 0 {
        let prev = distinct_traces(all, (i - 1) as nat);
        if prev.contains(t) {
            assert(distinct_traces(all, i as nat).contains(t)) by {
                let w = choose|w: int| 0 <= w < prev.len() && prev[w] == t;
                if prev.contains(all[i - 1].trace_id) {
                    assert(distinct_traces(all, i as nat) == prev);
                } else {
                    assert(distinct_traces(all, i as nat)[w] == t);
                }
            }
        }
        if all[i - 1].trace_id == t {
            if !prev.contains(t) {
                assert(distinct_traces(all, i as nat) == prev.push(t));
                assert(distinct_traces(all, i as nat)[prev.len() as int] == t);
            }
        }
        lemma_no_trace_before(all, i - 1, t);
        assert(all.take(i).drop_last() =~= all.take(i - 1));
    }
}

/// `error:file:line`, the key that groups failures by where they were raised.
pub open spec fn error_key(err: Seq<char>, e: TraceEvent) -> Seq<char> {
    err + seq![':'] + e.file@ + seq![':'] + decimal(e.line as nat)
}

/// The thread ids after one more event: its thread is appended unless already listed.
pub open spec fn thread_step(p: Seq<Seq<char>>, e: TraceEvent) -> Seq<Seq<char>> {
    match e.thread_id {
        Some(t) => if p.contains(t@) {
            p
        } else {
            p.push(t@)
        },
        None => p,
    }
}

/// The thread ids after absorbing `ev`: each new one is appended once.
pub open spec fn threads_after(ts: Seq<Seq<char>>, ev: Seq<TraceEvent>) -> Seq<Seq<char>>
    decreases ev.len(),
{
    if ev.len() == 0 {
        ts
    } else {
        thread_step(threads_after(ts, ev.drop_last()), ev.last())
    }
}

/// Whether the trace has an error after absorbing `ev`.
pub open spec fn error_after(b: bool, ev: Seq<TraceEvent>) -> bool
    decreases ev.len(),
{
    if ev.len() == 0 {
        b
    } else {
        error_after(b, ev.drop_last()) || ev.last().error_message is Some
    }
}

/// The cluster key after one more event: the key of its error, unless one was set before.
pub open spec fn key_step(p: Option<Seq<char>>, e: TraceEvent) -> Option<Seq<char>> {
    match e.error_message {
        Some(err) => if p is None {
            Some(error_key(err@, e))
        } else {
            p
        },
        None => p,
    }
}

/// The cluster key after absorbing `ev`: the first error's key, unless one was set before.
pub open spec fn key_after(k: Option<Seq<char>>, ev: Seq<TraceEvent>) -> Option<Seq<char>>
    decreases ev.len(),
{
    if ev.len() == 0 {
        k
    } else {
        key_step(key_after(k, ev.drop_last()), ev.last())
    }
}

/// The duration after one more event: it grows to reach the event.
pub open spec fn dur_step(start: u64, p: Option<u64>, e: TraceEvent) -> Option<u64> {
    if e.timestamp_ms > start + dur0(p) {
        Some((e.timestamp_ms - start) as u64)
    } else {
        p
    }
}

/// The duration after absorbing `ev`: it grows to reach the latest event.
pub open spec fn duration_after(start: u64, d: Option<u64>, ev: Seq<TraceEvent>) -> Option<u64>
    decreases ev.len(),
{
    if ev.len() == 0 {
        d
    } else {
        dur_step(start, duration_after(start, d, ev.drop_last()), ev.last())
    }
}

/// The texts of a list of strings.
pub open spec fn texts(v: Seq<String>) -> Seq<Seq<char>> {
    v.map_values(|x: String| x@)
}

/// The duration of a summary, 0 when unknown.
pub open spec fn dur0(d: Option<u64>) -> int {
    match d {
        Some(x) => x as int,
        None => 0,
    }
}

/// Absorbing events never shrinks a trace's duration: it ends as the previous duration or the
/// time from the start to one of the absorbed events, reaches every absorbed event that came
/// after the start, and is no less than before.
pub proof fn lemma_duration_grows(start: u64, d: Option<u64>, ev: Seq<TraceEvent>)
    ensures
        dur0(duration_after(start, d, ev)) >= dur0(d),
        forall|k: int|
            0 <= k < ev.len() && (#[trigger] ev[k]).timestamp_ms > start ==> dur0(duration_after(start, d, ev))
                >= ev[k].timestamp_ms - start,
        duration_after(start, d, ev) == d || exists|k: int|
            0 <= k < ev.len() && (#[trigger] ev[k]).timestamp_ms > start && duration_after(start, d, ev) == Some(
                (ev[k].timestamp_ms - start) as u64,
            ),
    decreases ev.len(),
{
    if ev.len() > 0 {
        let init = ev.drop_last();
        lemma_duration_grows(start, d, init);
        let p = duration_after(start, d, init);
        let e = ev.last();
        assert forall|k: int|
            0 <= k < ev.len() && (#[trigger] ev[k]).timestamp_ms > start implies dur0(duration_after(start, d, ev))
                >= ev[k].timestamp_ms - start by {
            if k < ev.len() - 1 {
                assert(ev[k] == init[k]);
            }
        }
        if duration_after(start, d, ev) != d {
            if duration_after(start, d, ev) == p {
                let k = choose|k: int|
                    0 <= k < init.len() && (#[trigger] init[k]).timestamp_ms > start && p == Some(
                        (init[k].timestamp_ms - start) as u64,
                    );
                assert(ev[k] == init[k]);
            } else {
                assert(ev[ev.len() - 1] == e);
            }
        }
    }
}

proof fn lemma_duration_fits(start: u64, d: Option<u64>, ev: Seq<TraceEvent>)
    requires
        start + dur0(d) <= u64::MAX,
    ensures
        start + dur0(duration_after(start, d, ev)) <= u64::MAX,
    decreases ev.len(),
{
    if ev.len() > 0 {
        lemma_duration_fits(start, d, ev.drop_last());
    }
}

pub(crate) fn contains_text(v: &Vec<String>, x: &String) -> (r: bool)
    ensures
        r == texts(v@).contains(x@),
{
    let n = v.len();
    for i in 0..n
        invariant
            n == v@.len(),
            forall|j: int| 0 <= j < i ==> v@[j]@ != x@,
    {
        if v[i] == *x {
            assert(texts(v@)[i as int] == x@);
            return true;
        }
    }
    assert forall|j: int| 0 <= j < texts(v@).len() implies texts(v@)[j] != x@ by {
        assert(texts(v@)[j] == v@[j]@);
    }
    false
}

/// `error:file:line` for an event that carries an error.
fn make_error_key(err: &String, e: &TraceEvent) -> (r: String)
    ensures
        r@ == error_key(err@, *e),
{
    let colon = ":";
    proof {
        reveal_strlit(":");
    }
    let mut k = String::new();
    k.append(err.as_str());
    k.append(colon);
    k.append(e.file.as_str());
    k.append(colon);
    let line = to_decimal(e.line as u64);
    k.append(line.as_str());
    assert(k@ =~= error_key(err@, *e));
    k
}

/// Updates a trace summary with one more of its events.
fn absorb_event(s: &mut TraceSummary, e: &TraceEvent)
    requires
        old(s).event_count < usize::MAX,
        old(s).started_at + dur0(old(s).duration_ms) <= u64::MAX,
    ensures
        final(s).event_count == old(s).event_count + 1,
        texts(final(s).thread_ids@) == thread_step(texts(old(s).thread_ids@), *e),
        final(s).has_error == (old(s).has_error || e.error_message is Some),
        opt_str_view(final(s).ai_cluster_key) == key_step(opt_str_view(old(s).ai_cluster_key), *e),
        final(s).duration_ms == dur_step(old(s).started_at, old(s).duration_ms, *e),
        *final(s) == (TraceSummary {
            event_count: final(s).event_count,
            thread_ids: final(s).thread_ids,
            has_error: final(s).has_error,
            ai_cluster_key: final(s).ai_cluster_key,
            duration_ms: final(s).duration_ms,
            ..*old(s)
        }),
{
    let ghost one = seq![*e];
    assert(one.drop_last() =~= Seq::<TraceEvent>::empty());
    assert(one.last() == *e);
    s.event_count = s.event_count + 1;
    if let Some(tid) = &e.thread_id {
        if !contains_text(&s.thread_ids, tid) {
            s.thread_ids.push(tid.clone());
            assert(texts(s.thread_ids@) =~= texts(old(s).thread_ids@).push(tid@));
        }
    }
    if let Some(err) = &e.error_message {
        s.has_error = true;
        if s.ai_cluster_key.is_none() {
            s.ai_cluster_key = Some(make_error_key(err, e));
        }
    }
    let cur = match s.duration_ms {
        Some(x) => x,
        None => 0,
    };
    if e.timestamp_ms > s.started_at + cur {
        s.duration_ms = Some(e.timestamp_ms - s.started_at);
    }
}

/// What ingesting one trace's events gives: its new summary, all its events afterwards (those
/// stored before, then the new ones, each marked with the tenant; the new ones, from
/// `new_from` on, are to be written), and the counts its integrity score is computed from over
/// all of them (none when the trace has no event).
pub struct TracePlan {
    pub summary: TraceSummary,
    pub events: Vec<TraceEvent>,
    pub new_from: usize,
    pub integrity: Option<IntegrityCounts>,
}

/// The summary fields that ingestion does not touch are those of `base`.
pub open spec fn untouched_fields(r: TraceSummary, base: TraceSummary) -> bool {
    &&& r.trace_id == base.trace_id
    &&& r.name == base.name
    &&& r.started_at == base.started_at
    &&& r.language == base.language
    &&& r.ai_summary == base.ai_summary
    &&& r.tenant_id == base.tenant_id
    &&& r.tags == base.tags
    &&& r.assigned_to == base.assigned_to
    &&& r.integrity_score == base.integrity_score
    &&& r.version == base.version
    &&& r.environment == base.environment
    &&& r.ai_root_cause == base.ai_root_cause
    &&& r.ai_patch_suggestion == base.ai_patch_suggestion
}

/// The summary fields of a trace seen for the first time, taken from its first event.
pub open spec fn fresh_fields(r: TraceSummary, trace_id: u128, first: TraceEvent, tenant: Option<String>) -> bool {
    &&& r.trace_id == trace_id
    &&& r.name@ == first.function_name@
    &&& r.started_at == first.timestamp_ms
    &&& r.language == first.language
    &&& r.ai_summary is None
    &&& r.tenant_id == tenant
    &&& r.tags@.len() == 0
    &&& r.assigned_to is None
    &&& r.integrity_score is None
    &&& r.version == first.version
    &&& r.environment == first.environment
    &&& r.ai_root_cause is None
    &&& r.ai_patch_suggestion is None
}

/// The events as stored: each marked with the tenant.
pub open spec fn stored_events(ev: Seq<TraceEvent>, tenant: Option<String>) -> Seq<TraceEvent> {
    ev.map_values(|e: TraceEvent| TraceEvent { tenant_id: tenant, ..e })
}

/// How the running summary fields end up after absorbing `ev` into a summary whose fields were
/// `count`, `threads`, `err`, `key` and `dur`.
pub open spec fn absorbed_fields(
    r: TraceSummary,
    count: nat,
    threads: Seq<Seq<char>>,
    err: bool,
    key: Option<Seq<char>>,
    dur: Option<u64>,
    ev: Seq<TraceEvent>,
) -> bool {
    &&& r.event_count == count + ev.len()
    &&& texts(r.thread_ids@) == threads_after(threads, ev)
    &&& r.has_error == error_after(err, ev)
    &&& opt_str_view(r.ai_cluster_key) == key_after(key, ev)
    &&& r.duration_ms == duration_after(r.started_at, dur, ev)
}

/// How the dynamic summary fields end up after absorbing `ev` into a summary whose fields were
/// `count`, `threads`, `err`, `key`, `dur` and `hash`, when the trace's events are then `all`:
/// the structural hash is that of all of them.
pub open spec fn absorbed(
    r: TraceSummary,
    count: nat,
    threads: Seq<Seq<char>>,
    err: bool,
    key: Option<Seq<char>>,
    dur: Option<u64>,
    hash: Option<String>,
    ev: Seq<TraceEvent>,
    all: Seq<TraceEvent>,
) -> bool {
    &&& absorbed_fields(r, count, threads, err, key, dur, ev)
    &&& if all.len() > 0 {
        &&& r.structural_hash is Some
        &&& r.structural_hash.unwrap()@ == hex_lower(default_str_hash(structural_pattern_spec(all)) as nat)
    } else {
        r.structural_hash == hash
    }
}

/// `r` is what ingesting the new (fingerprinted, compressed) events `ev` of trace `trace_id`
/// gives, when `stored` are its events stored before, starting from the stored summary
/// `existing` if there is one, else from the first event.
pub open spec fn trace_plan(
    r: TracePlan,
    existing: Option<TraceSummary>,
    stored: Seq<TraceEvent>,
    trace_id: u128,
    ev: Seq<TraceEvent>,
    tenant: Option<String>,
) -> bool {
    let all = stored + stored_events(ev, tenant);
    &&& r.events@ == all
    &&& r.new_from == stored.len()
    &&& existing is Some ==> untouched_fields(r.summary, existing.unwrap()) && absorbed(
        r.summary,
        existing.unwrap().event_count as nat,
        texts(existing.unwrap().thread_ids@),
        existing.unwrap().has_error,
        opt_str_view(existing.unwrap().ai_cluster_key),
        existing.unwrap().duration_ms,
        existing.unwrap().structural_hash,
        ev,
        all,
    )
    &&& existing is None ==> fresh_fields(r.summary, trace_id, ev[0], tenant) && absorbed(
        r.summary,
        0,
        seq![],
        false,
        None,
        Some(0),
        None,
        ev,
        all,
    )
    &&& r.integrity == if all.len() > 0 {
        Some(integrity_spec(all))
    } else {
        None
    }
}

/// Builds what ingesting the new (fingerprinted, compressed) events of one trace gives, after
/// the events `stored` before, starting from the stored summary if there is one, else from the
/// first event.
pub fn summarize_trace(
    existing: Option<TraceSummary>,
    trace_id: u128,
    stored: Vec<TraceEvent>,
    events: Vec<TraceEvent>,
    tenant: &Option<String>,
) -> (r: TracePlan)
    requires
        existing is Some || events@.len() > 0,
        span_tree_finite(stored@ + events@),
        existing is Some ==> existing.unwrap().event_count + events@.len() <= usize::MAX,
        existing is Some ==> existing.unwrap().started_at + dur0(existing.unwrap().duration_ms) <= u64::MAX,
    ensures
        trace_plan(r, existing, stored@, trace_id, events@, *tenant),
{
    let ghost ev = events@;
    let ghost old_events = stored@;
    let _batch_len = events.len();
    let mut summary = match existing {
        Some(s) => s,
        None => {
            let first = &events[0];
            TraceSummary {
                trace_id,
                name: first.function_name.clone(),
                started_at: first.timestamp_ms,
                duration_ms: Some(0),
                has_error: false,
                language: first.language,
                event_count: 0,
                thread_ids: Vec::new(),
                ai_cluster_key: None,
                ai_summary: None,
                tenant_id: clone_opt_string(tenant),
                tags: Vec::new(),
                assigned_to: None,
                structural_hash: None,
                integrity_score: None,
                version: clone_opt_string(&first.version),
                environment: clone_opt_string(&first.environment),
                ai_root_cause: None,
                ai_patch_suggestion: None,
            }
        },
    };
    let ghost base = summary;
    proof {
        if existing is None {
            assert(texts(base.thread_ids@) =~= Seq::<Seq<char>>::empty());
            assert(fresh_fields(base, trace_id, ev[0], *tenant));
        }
    }
    let mut all = stored;
    let new_from = all.len();
    for e in it: events.into_iter()
        invariant
            it.seq() == ev,
            new_from == old_events.len(),
            base.event_count + ev.len() <= usize::MAX,
            base.started_at + dur0(base.duration_ms) <= u64::MAX,
            summary.event_count == base.event_count + it.index(),
            texts(summary.thread_ids@) == threads_after(texts(base.thread_ids@), ev.take(it.index() as int)),
            summary.has_error == error_after(base.has_error, ev.take(it.index() as int)),
            opt_str_view(summary.ai_cluster_key) == key_after(opt_str_view(base.ai_cluster_key), ev.take(it.index() as int)),
            summary.duration_ms == duration_after(base.started_at, base.duration_ms, ev.take(it.index() as int)),
            summary == (TraceSummary {
                event_count: summary.event_count,
                thread_ids: summary.thread_ids,
                has_error: summary.has_error,
                ai_cluster_key: summary.ai_cluster_key,
                duration_ms: summary.duration_ms,
                ..base
            }),
            all@ == old_events + stored_events(ev.take(it.index() as int), *tenant),
    {
        let ghost i = it.index() as int;
        assert(ev.take(i + 1).drop_last() =~= ev.take(i));
        assert(ev.take(i + 1).last() == e);
        proof {
            lemma_duration_fits(base.started_at, base.duration_ms, ev.take(i));
        }
        absorb_event(&mut summary, &e);
        assert(threads_after(texts(base.thread_ids@), ev.take(i + 1)) == thread_step(
            threads_after(texts(base.thread_ids@), ev.take(i)),
            e,
        ));
        assert(error_after(base.has_error, ev.take(i + 1)) == (error_after(base.has_error, ev.take(i))
            || e.error_message is Some));
        assert(duration_after(base.started_at, base.duration_ms, ev.take(i + 1)) == dur_step(
            base.started_at,
            duration_after(base.started_at, base.duration_ms, ev.take(i)),
            e,
        ));
        assert(key_after(opt_str_view(base.ai_cluster_key), ev.take(i + 1)) == key_step(
            key_after(opt_str_view(base.ai_cluster_key), ev.take(i)),
            e,
        ));
        let mut e = e;
        e.tenant_id = clone_opt_string(tenant);
        all.push(e);
        assert(all@ =~= old_events + stored_events(ev.take(i + 1), *tenant));
    }
    assert(ev.take(ev.len() as int) =~= ev);
    let integrity = if all.len() > 0 {
        proof {
            let src = old_events + ev;
            assert forall|j: int| 0 <= j < all@.len() implies #[trigger] has_shape(src, all@[j]) by {
                assert(same_shape(all@[j], src[j]));
            }
            lemma_finite_subset(src, all@);
        }
        summary.structural_hash = Some(calculate_structural_hash(&all));
        Some(integrity_counts(&all))
    } else {
        None
    };
    proof {
        if existing is None {
            assert(fresh_fields(summary, trace_id, ev[0], *tenant));
        }
    }
    TracePlan { summary, events: all, new_from, integrity }
}

} // verus!

verus! {

/// Some event of `v` has the timestamp `ts` and the event id `id`: the key under which an event
/// is stored.
pub open spec fn has_event_key(v: Seq<TraceEvent>, ts: u64, id: Seq<char>) -> bool {
    exists|i: int|
        0 <= i < v.len() && (#[trigger] v[i]).timestamp_ms == ts && v[i].event_id is Some && v[i].event_id.unwrap()@
            == id
}

/// The first `n` events of a batch without those already stored: an event whose key (timestamp
/// and event id) is that of a stored event, or of an event kept before it, is left out; events
/// without an id are kept.
pub open spec fn new_events_upto(stored: Seq<TraceEvent>, ev: Seq<TraceEvent>, n: nat) -> Seq<TraceEvent>
    decreases n,
{
    if n == 0 {
        seq![]
    } else {
        let prev = new_events_upto(stored, ev, (n - 1) as nat);
        let e = ev[n - 1];
        match e.event_id {
            Some(id) => if has_event_key(stored, e.timestamp_ms, id@) || has_event_key(prev, e.timestamp_ms, id@) {
                prev
            } else {
                prev.push(e)
            },
            None => prev.push(e),
        }
    }
}

/// The events of a batch that are not stored yet.
pub open spec fn new_events(stored: Seq<TraceEvent>, ev: Seq<TraceEvent>) -> Seq<TraceEvent> {
    new_events_upto(stored, ev, ev.len())
}

/// What ingesting the events `ev` of trace `trace_id`, after its stored events `stored`, gives:
/// the events not stored yet get their span fingerprints and their timeline compressed, and the
/// result is absorbed into the trace's summary. There is nothing to write (`None`) only when the
/// trace has no stored summary and no new event, so that no summary can be started from a first
/// event.
pub open spec fn ingest_plan(
    r: Option<TracePlan>,
    existing: Option<TraceSummary>,
    stored: Seq<TraceEvent>,
    trace_id: u128,
    ev: Seq<TraceEvent>,
    tenant: Option<String>,
) -> bool {
    let fresh = new_events(stored, ev);
    exists|fp: Seq<TraceEvent>|
        #[trigger] fingerprints_applied(fresh, fp) && (r is None <==> (existing is None && fresh.len() == 0))
            && (r is Some ==> trace_plan(r.unwrap(), existing, stored, trace_id, compress_spec(fp), tenant))
}

fn has_event_key_exec(v: &Vec<TraceEvent>, ts: u64, id: &String) -> (r: bool)
    ensures
        r == has_event_key(v@, ts, id@),
{
    let n = v.len();
    for i in 0..n
        invariant
            n == v@.len(),
            forall|j: int|
                0 <= j < i ==> !((#[trigger] v@[j]).timestamp_ms == ts && v@[j].event_id is Some
                    && v@[j].event_id.unwrap()@ == id@),
    {
        let hit = v[i].timestamp_ms == ts && match &v[i].event_id {
            Some(x) => x.eq(id),
            None => false,
        };
        if hit {
            return true;
        }
    }
    false
}

proof fn lemma_new_events_shapes(stored: Seq<TraceEvent>, ev: Seq<TraceEvent>, n: nat)
    requires
        n <= ev.len(),
    ensures
        new_events_upto(stored, ev, n).len() <= n,
        forall|j: int| 0 <= j < new_events_upto(stored, ev, n).len() ==> exists|i: int| 0 <= i < n && #[trigger] new_events_upto(stored, ev, n)[j] == ev[i],
    decreases n,
{
    if n > 0 {
        lemma_new_events_shapes(stored, ev, (n - 1) as nat);
        let prev = new_events_upto(stored, ev, (n - 1) as nat);
        let cur = new_events_upto(stored, ev, n);
        assert forall|j: int| 0 <= j < cur.len() implies exists|i: int| 0 <= i < n && #[trigger] cur[j] == ev[i] by {
            if j < prev.len() {
                assert(cur[j] == prev[j]);
                let i = choose|i: int| 0 <= i < n - 1 && #[trigger] prev[j] == ev[i];
                assert(cur[j] == ev[i]);
            } else {
                assert(cur[j] == ev[n - 1]);
            }
        }
    }
}

/// The batch's events that are not stored yet, in order.
fn select_new_events(stored: &Vec<TraceEvent>, events: Vec<TraceEvent>) -> (r: Vec<TraceEvent>)
    ensures
        r@ == new_events(stored@, events@),
{
    let ghost ev = events@;
    let mut out: Vec<TraceEvent> = Vec::new();
    for e in it: events.into_iter()
        invariant
            it.seq() == ev,
            out@ == new_events_upto(stored@, ev, it.index() as nat),
    {
        let keep = match &e.event_id {
            Some(id) => !has_event_key_exec(stored, e.timestamp_ms, id) && !has_event_key_exec(&out, e.timestamp_ms, id),
            None => true,
        };
        if keep {
            out.push(e);
        }
    }
    out
}

proof fn lemma_concat_shapes(s: Seq<TraceEvent>, b: Seq<TraceEvent>, a: Seq<TraceEvent>)
    requires
        shapes_within(b, a),
    ensures
        shapes_within(s + b, s + a),
        shapes_within(b, s + a),
{
    assert forall|k: int| 0 <= k < (s + b).len() implies #[trigger] has_shape(s + a, (s + b)[k]) by {
        if k < s.len() {
            assert(same_shape((s + b)[k], (s + a)[k]));
        } else {
            assert(has_shape(a, b[k - s.len()]));
            let i = choose|i: int| 0 <= i < a.len() && #[trigger] same_shape(b[k - s.len()], a[i]);
            assert(same_shape((s + b)[k], (s + a)[s.len() + i]));
        }
    }
    assert forall|k: int| 0 <= k < b.len() implies #[trigger] has_shape(s + a, b[k]) by {
        assert(has_shape(a, b[k]));
        let i = choose|i: int| 0 <= i < a.len() && #[trigger] same_shape(b[k], a[i]);
        assert(same_shape(b[k], (s + a)[s.len() + i]));
    }
}

proof fn lemma_new_events_cover(stored: Seq<TraceEvent>, ev: Seq<TraceEvent>, n: nat)
    requires
        n <= ev.len(),
    ensures
        forall|k: int|
            0 <= k < n && (#[trigger] ev[k]).event_id is Some ==> has_event_key(stored, ev[k].timestamp_ms, ev[k].event_id.unwrap()@)
                || has_event_key(new_events_upto(stored, ev, n), ev[k].timestamp_ms, ev[k].event_id.unwrap()@),
    decreases n,
{
    if n > 0 {
        lemma_new_events_cover(stored, ev, (n - 1) as nat);
        let prev = new_events_upto(stored, ev, (n - 1) as nat);
        let cur = new_events_upto(stored, ev, n);
        assert forall|k: int|
            0 <= k < n && (#[trigger] ev[k]).event_id is Some implies has_event_key(stored, ev[k].timestamp_ms, ev[k].event_id.unwrap()@)
                || has_event_key(cur, ev[k].timestamp_ms, ev[k].event_id.unwrap()@) by {
            let id = ev[k].event_id.unwrap()@;
            let ts = ev[k].timestamp_ms;
            if has_event_key(prev, ts, id) && cur != prev {
                let i = choose|i: int| 0 <= i < prev.len() && (#[trigger] prev[i]).timestamp_ms == ts && prev[i].event_id is Some && prev[i].event_id.unwrap()@ == id;
                assert(cur[i] == prev[i]);
            }
            if k == n - 1 && !has_event_key(stored, ts, id) && !has_event_key(prev, ts, id) {
                assert(cur[prev.len() as int] == ev[k]);
            }
        }
    }
}

proof fn lemma_no_new_events(stored: Seq<TraceEvent>, ev: Seq<TraceEvent>, n: nat)
    requires
        n <= ev.len(),
        forall|k: int|
            0 <= k < ev.len() ==> (#[trigger] ev[k]).event_id is Some && has_event_key(stored, ev[k].timestamp_ms, ev[k].event_id.unwrap()@),
    ensures
        new_events_upto(stored, ev, n) == Seq::<TraceEvent>::empty(),
    decreases n,
{
    if n > 0 {
        lemma_no_new_events(stored, ev, (n - 1) as nat);
        assert(ev[n - 1].event_id is Some);
    }
}

/// Two summaries agree field by field, strings by their text.
pub open spec fn same_summary(a: TraceSummary, b: TraceSummary) -> bool {
    &&& untouched_fields(a, b)
    &&& a.event_count == b.event_count
    &&& texts(a.thread_ids@) == texts(b.thread_ids@)
    &&& a.has_error == b.has_error
    &&& opt_str_view(a.ai_cluster_key) == opt_str_view(b.ai_cluster_key)
    &&& a.duration_ms == b.duration_ms
    &&& opt_str_view(a.structural_hash) == opt_str_view(b.structural_hash)
}

/// Storage is idempotent: ingesting again a batch whose events all carry an event id, after what
/// the first ingest of it gave, adds no event, keeps the trace's events and leaves its summary
/// and integrity counts as they were.
pub proof fn lemma_ingest_idempotent(
    existing: Option<TraceSummary>,
    stored: Seq<TraceEvent>,
    trace_id: u128,
    ev: Seq<TraceEvent>,
    tenant: Option<String>,
    first: TracePlan,
    second: Option<TracePlan>,
)
    requires
        forall|k: int| 0 <= k < ev.len() ==> (#[trigger] ev[k]).event_id is Some,
        ingest_plan(Some(first), existing, stored, trace_id, ev, tenant),
        ingest_plan(second, Some(first.summary), first.events@, trace_id, ev, tenant),
    ensures
        second is Some,
        second.unwrap().events@ == first.events@,
        second.unwrap().new_from == first.events@.len(),
        same_summary(second.unwrap().summary, first.summary),
        second.unwrap().integrity == first.integrity,
{
    let fresh = new_events(stored, ev);
    let fp = choose|fp: Seq<TraceEvent>|
        #[trigger] fingerprints_applied(fresh, fp) && (Some(first) is None <==> (existing is None && fresh.len() == 0))
            && (Some(first) is Some ==> trace_plan(first, existing, stored, trace_id, compress_spec(fp), tenant));
    let c = compress_spec(fp);
    let all = first.events@;
    lemma_compress_lossless(fp);
    lemma_new_events_cover(stored, ev, ev.len());
    assert forall|k: int| 0 <= k < ev.len() implies (#[trigger] ev[k]).event_id is Some && has_event_key(
        all,
        ev[k].timestamp_ms,
        ev[k].event_id.unwrap()@,
    ) by {
        let id = ev[k].event_id.unwrap()@;
        let ts = ev[k].timestamp_ms;
        if has_event_key(stored, ts, id) {
            let i = choose|i: int| 0 <= i < stored.len() && (#[trigger] stored[i]).timestamp_ms == ts && stored[i].event_id is Some && stored[i].event_id.unwrap()@ == id;
            assert(all[i] == stored[i]);
        } else {
            let i = choose|i: int| 0 <= i < fresh.len() && (#[trigger] fresh[i]).timestamp_ms == ts && fresh[i].event_id is Some && fresh[i].event_id.unwrap()@ == id;
            assert(unmarked(c[i]) == unmarked(fp[i]));
            assert(fp[i].event_id == fresh[i].event_id && fp[i].timestamp_ms == fresh[i].timestamp_ms);
            assert(all[stored.len() + i] == stored_events(c, tenant)[i]);
            assert(all[stored.len() + i].event_id == fresh[i].event_id);
            assert(all[stored.len() + i].timestamp_ms == ts);
        }
    }
    lemma_no_new_events(all, ev, ev.len());
    let fresh2 = new_events(all, ev);
    assert(fresh2.len() == 0);
    let fp2 = choose|fp2: Seq<TraceEvent>|
        #[trigger] fingerprints_applied(fresh2, fp2) && (second is None <==> (Some(first.summary) is None
            && fresh2.len() == 0)) && (second is Some ==> trace_plan(
            second.unwrap(),
            Some(first.summary),
            all,
            trace_id,
            compress_spec(fp2),
            tenant,
        ));
    lemma_compress_lossless(fp2);
    let c2 = compress_spec(fp2);
    assert(c2.len() == 0);
    assert(stored_events(c2, tenant) =~= Seq::<TraceEvent>::empty());
    assert(all + stored_events(c2, tenant) =~= all);
    assert(c2 =~= Seq::<TraceEvent>::empty());
}

/// Plans the ingestion of a batch of one trace's events, after its stored events `stored`: the
/// events already stored (by timestamp and event id) are skipped, the rest get their span fingerprints and
/// their timeline compressed, and the summary, all events and the integrity counts over them
/// are built.
pub fn plan_trace_ingest(
    existing: Option<TraceSummary>,
    stored: Vec<TraceEvent>,
    trace_id: u128,
    events: Vec<TraceEvent>,
    tenant: &Option<String>,
) -> (r: Option<TracePlan>)
    requires
        span_tree_finite(stored@ + events@),
        existing is Some ==> existing.unwrap().event_count + events@.len() <= usize::MAX,
        existing is Some ==> existing.unwrap().started_at + dur0(existing.unwrap().duration_ms) <= u64::MAX,
    ensures
        ingest_plan(r, existing, stored@, trace_id, events@, *tenant),
{
    let ghost ev = events@;
    let ghost st = stored@;
    let mut fresh = select_new_events(&stored, events);
    let ghost fr = fresh@;
    proof {
        lemma_new_events_shapes(st, ev, ev.len());
        assert forall|j: int| 0 <= j < fr.len() implies #[trigger] has_shape(ev, fr[j]) by {
            let i = choose|i: int| 0 <= i < ev.len() && #[trigger] fr[j] == ev[i];
            assert(same_shape(fr[j], ev[i]));
        }
    }
    calculate_span_fingerprints(&mut fresh);
    let ghost fp = fresh@;
    let compressed = compress_timeline(fresh);
    proof {
        lemma_fingerprints_shapes(fr, fp);
        lemma_compress_shapes(fp);
        lemma_shapes_trans(compressed@, fp, fr);
        lemma_shapes_trans(compressed@, fr, ev);
        lemma_concat_shapes(st, compressed@, ev);
        lemma_finite_subset(st + ev, st + compressed@);
    }
    if existing.is_none() && compressed.len() == 0 {
        return None;
    }
    let plan = summarize_trace(existing, trace_id, stored, compressed, tenant);
    Some(plan)
}

} // verus!

verus! {

/// The distinct tenants (by text) of the first `n` entries, in order of first appearance.
pub open spec fn tenants_upto(entries: Seq<(TraceEvent, Option<String>)>, n: nat) -> Seq<Option<Seq<char>>>
    decreases n,
{
    if n == 0 {
        seq![]
    } else {
        let p = tenants_upto(entries, (n - 1) as nat);
        let k = opt_str_view(entries[n - 1].1);
        if p.contains(k) {
            p
        } else {
            p.push(k)
        }
    }
}

/// The events among the first `n` entries whose tenant is `k`, in order.
pub open spec fn tenant_events_upto(entries: Seq<(TraceEvent, Option<String>)>, k: Option<Seq<char>>, n: nat) -> Seq<
    TraceEvent,
>
    decreases n,
{
    if n == 0 {
        seq![]
    } else {
        let p = tenant_events_upto(entries, k, (n - 1) as nat);
        if opt_str_view(entries[n - 1].1) == k {
            p.push(entries[n - 1].0)
        } else {
            p
        }
    }
}

/// The tenants of a list of groups, by text.
pub open spec fn group_tenants(g: Seq<(Option<String>, Vec<TraceEvent>)>) -> Seq<Option<Seq<char>>> {
    g.map_values(|p: (Option<String>, Vec<TraceEvent>)| opt_str_view(p.0))
}

proof fn lemma_tenants_distinct(entries: Seq<(TraceEvent, Option<String>)>, n: nat)
    ensures
        tenants_upto(entries, n).no_duplicates(),
    decreases n,
{
    if n > 0 {
        lemma_tenants_distinct(entries, (n - 1) as nat);
    }
}

proof fn lemma_tenants_grow(entries: Seq<(TraceEvent, Option<String>)>, k: Option<Seq<char>>, n: nat)
    requires
        tenants_upto(entries, n).contains(k),
    ensures
        tenants_upto(entries, n + 1).contains(k),
{
    let p = tenants_upto(entries, n);
    let i = choose|i: int| 0 <= i < p.len() && p[i] == k;
    let x = opt_str_view(entries[n as int].1);
    if !p.contains(x) {
        assert(p.push(x)[i] == k);
    }
}

proof fn lemma_no_tenant_events(entries: Seq<(TraceEvent, Option<String>)>, k: Option<Seq<char>>, n: nat)
    requires
        !tenants_upto(entries, n).contains(k),
    ensures
        tenant_events_upto(entries, k, n) == Seq::<TraceEvent>::empty(),
    decreases n,
{
    if n > 0 {
        let m = (n - 1) as nat;
        if tenants_upto(entries, m).contains(k) {
            lemma_tenants_grow(entries, k, m);
        }
        lemma_no_tenant_events(entries, k, m);
        if opt_str_view(entries[n - 1].1) == k {
            let p = tenants_upto(entries, m);
            assert(p.push(k)[p.len() as int] == k);
        }
    }
}

fn index_of_tenant(g: &Vec<(Option<String>, Vec<TraceEvent>)>, t: &Option<String>) -> (r: Option<usize>)
    ensures
        match r {
            Some(i) => i < g@.len() && opt_str_view(g@[i as int].0) == opt_str_view(*t),
            None => !group_tenants(g@).contains(opt_str_view(*t)),
        },
{
    let n = g.len();
    for i in 0..n
        invariant
            n == g@.len(),
            forall|j: int| 0 <= j < i ==> opt_str_view(g@[j].0) != opt_str_view(*t),
    {
        if opt_str_eq(&g[i].0, t) {
            return Some(i);
        }
    }
    proof {
        if group_tenants(g@).contains(opt_str_view(*t)) {
            let j = choose|j: int| 0 <= j < group_tenants(g@).len() && group_tenants(g@)[j] == opt_str_view(*t);
            assert(opt_str_view(g@[j].0) == opt_str_view(*t));
        }
    }
    None
}

/// Groups logged events by the tenant they were logged for: tenants in order of first
/// appearance, each with its events in order.
pub fn group_by_tenant(entries: Vec<(TraceEvent, Option<String>)>) -> (r: Vec<(Option<String>, Vec<TraceEvent>)>)
    ensures
        group_tenants(r@) == tenants_upto(entries@, entries@.len()),
        forall|j: int|
            0 <= j < r@.len() ==> (#[trigger] r@[j]).1@ == tenant_events_upto(
                entries@,
                opt_str_view(r@[j].0),
                entries@.len(),
            ),
{
    let ghost all = entries@;
    let mut out: Vec<(Option<String>, Vec<TraceEvent>)> = Vec::new();
    for x in it: entries.into_iter()
        invariant
            it.seq() == all,
            group_tenants(out@) == tenants_upto(all, it.index() as nat),
            forall|j: int|
                0 <= j < out@.len() ==> (#[trigger] out@[j]).1@ == tenant_events_upto(
                    all,
                    opt_str_view(out@[j].0),
                    it.index() as nat,
                ),
    {
        let ghost i = it.index() as nat;
        let ghost before = out@;
        let ghost k = opt_str_view(x.1);
        proof {
            lemma_tenants_distinct(all, i);
        }
        let (ev, tenant) = x;
        match index_of_tenant(&out, &tenant) {
            Some(j) => {
                let (name, mut g) = out.remove(j);
                g.push(ev);
                out.insert(j, (name, g));
                proof {
                    assert(group_tenants(before)[j as int] == k);
                    assert(out@ =~= before.update(j as int, out@[j as int]));
                    assert(group_tenants(out@) =~= group_tenants(before));
                    assert forall|q: int| 0 <= q < out@.len() implies (#[trigger] out@[q]).1@ == tenant_events_upto(
                        all,
                        opt_str_view(out@[q].0),
                        i + 1,
                    ) by {
                        if q != j {
                            assert(group_tenants(before)[q] != group_tenants(before)[j as int]);
                            assert(out@[q] == before[q]);
                        }
                    }
                }
            },
            None => {
                proof {
                    lemma_no_tenant_events(all, k, i);
                }
                let mut g: Vec<TraceEvent> = Vec::new();
                g.push(ev);
                out.push((tenant, g));
                proof {
                    assert(group_tenants(out@) =~= group_tenants(before).push(k));
                    assert(tenant_events_upto(all, k, i + 1) =~= seq![all[i as int].0]);
                    assert forall|q: int| 0 <= q < out@.len() implies (#[trigger] out@[q]).1@ == tenant_events_upto(
                        all,
                        opt_str_view(out@[q].0),
                        i + 1,
                    ) by {
                        if q < before.len() {
                            assert(out@[q] == before[q]);
                            assert(group_tenants(before)[q] == opt_str_view(before[q].0));
                        }
                    }
                }
            },
        }
    }
    out
}

} // verus!

verus! {

/// `r` is the summary of trace `trace_id` built from its events `ev` alone: started from the
/// first event and absorbing every one, with no structural hash.
pub open spec fn batch_summary(r: TraceSummary, trace_id: u128, ev: Seq<TraceEvent>, tenant: Option<String>) -> bool {
    &&& fresh_fields(r, trace_id, ev[0], tenant)
    &&& absorbed_fields(r, 0, seq![], false, None, Some(0), ev)
    &&& r.structural_hash is None
}

proof fn lemma_trace_has_events(events: Seq<TraceEvent>, t: u128, n: nat)
    requires
        n <= events.len(),
        distinct_traces(events, n).contains(t),
    ensures
        events_of_trace(events, t).len() > 0,
    decreases n,
{
    let prev = distinct_traces(events, (n - 1) as nat);
    if prev.contains(t) {
        lemma_trace_has_events(events, t, (n - 1) as nat);
    } else {
        assert(events[n - 1].trace_id == t);
        events.filter_lemma(|e: TraceEvent| e.trace_id == t);
        assert(events_of_trace(events, t).contains(events[n - 1]));
    }
}

fn summary_of_events(trace_id: u128, events: Vec<TraceEvent>, tenant: &Option<String>) -> (r: TraceSummary)
    requires
        events@.len() > 0,
    ensures
        batch_summary(r, trace_id, events@, *tenant),
{
    let ghost ev = events@;
    let first = &events[0];
    let mut summary = TraceSummary {
        trace_id,
        name: first.function_name.clone(),
        started_at: first.timestamp_ms,
        duration_ms: Some(0),
        has_error: false,
        language: first.language,
        event_count: 0,
        thread_ids: Vec::new(),
        ai_cluster_key: None,
        ai_summary: None,
        tenant_id: clone_opt_string(tenant),
        tags: Vec::new(),
        assigned_to: None,
        structural_hash: None,
        integrity_score: None,
        version: clone_opt_string(&first.version),
        environment: clone_opt_string(&first.environment),
        ai_root_cause: None,
        ai_patch_suggestion: None,
    };
    let ghost base = summary;
    assert(fresh_fields(base, trace_id, ev[0], *tenant));
    assert(texts(base.thread_ids@) =~= Seq::<Seq<char>>::empty());
    let n = events.len();
    for i in 0..n
        invariant
            n == ev.len(),
            events@ == ev,
            summary.event_count == i,
            texts(summary.thread_ids@) == threads_after(seq![], ev.take(i as int)),
            summary.has_error == error_after(false, ev.take(i as int)),
            opt_str_view(summary.ai_cluster_key) == key_after(None, ev.take(i as int)),
            summary.duration_ms == duration_after(base.started_at, Some(0), ev.take(i as int)),
            summary == (TraceSummary {
                event_count: summary.event_count,
                thread_ids: summary.thread_ids,
                has_error: summary.has_error,
                ai_cluster_key: summary.ai_cluster_key,
                duration_ms: summary.duration_ms,
                ..base
            }),
    {
        let e = &events[i];
        assert(ev.take(i + 1).drop_last() =~= ev.take(i as int));
        assert(ev.take(i + 1).last() == *e);
        proof {
            lemma_duration_fits(base.started_at, Some(0), ev.take(i as int));
        }
        absorb_event(&mut summary, e);
        assert(threads_after(seq![], ev.take(i + 1)) == thread_step(threads_after(seq![], ev.take(i as int)), *e));
        assert(error_after(false, ev.take(i + 1)) == (error_after(false, ev.take(i as int)) || e.error_message is Some));
        assert(key_after(None, ev.take(i + 1)) == key_step(key_after(None, ev.take(i as int)), *e));
        assert(duration_after(base.started_at, Some(0), ev.take(i + 1)) == dur_step(
            base.started_at,
            duration_after(base.started_at, Some(0), ev.take(i as int)),
            *e,
        ));
    }
    assert(ev.take(n as int) =~= ev);
    assert(fresh_fields(summary, trace_id, ev[0], *tenant));
    summary
}

/// The summaries a batch of events makes on its own, one per trace in order of first
/// appearance: each started from the trace's first event in the batch and absorbing all of
/// its events (an analytics store keeps the latest summary row of each trace).
pub fn batch_summaries(events: Vec<TraceEvent>, tenant: &Option<String>) -> (r: Vec<TraceSummary>)
    ensures
        r@.len() == distinct_traces(events@, events@.len()).len(),
        forall|j: int|
            0 <= j < r@.len() ==> batch_summary(
                #[trigger] r@[j],
                distinct_traces(events@, events@.len())[j],
                events_of_trace(events@, distinct_traces(events@, events@.len())[j]),
                *tenant,
            ),
{
    let ghost all = events@;
    let ghost ids = distinct_traces(all, all.len());
    let groups = group_by_trace(events);
    let ghost gs = groups@;
    let mut out: Vec<TraceSummary> = Vec::new();
    for g in it: groups.into_iter()
        invariant
            it.seq() == gs,
            gs.len() == ids.len(),
            ids == distinct_traces(all, all.len()),
            forall|i: int| 0 <= i < gs.len() ==> (#[trigger] gs[i]).0 == ids[i] && gs[i].1@ == events_of_trace(all, gs[i].0),
            out@.len() == it.index(),
            forall|j: int|
                0 <= j < out@.len() ==> batch_summary(#[trigger] out@[j], ids[j], events_of_trace(all, ids[j]), *tenant),
    {
        let ghost j = it.index() as int;
        proof {
            assert(gs[j] == g);
            assert(ids.contains(ids[j]));
            lemma_trace_has_events(all, ids[j], all.len());
        }
        let (tid, evs) = g;
        out.push(summary_of_events(tid, evs, tenant));
    }
    out
}

} // verus!
