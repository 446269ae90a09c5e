//! Analyses of a trace: control-flow deviation alerts, root cause and performance hints, the
//! AI summary text, and the replay snapshot of its recorded external calls.

use crate::aggregate::TraceCluster;
use crate::hashing::default_str_hash;
use crate::models::{EventType, SecurityAlert, TraceEvent};
use crate::text::{decimal, hex_lower, to_decimal};
use crate::timeline::{calculate_structural_hash, span_tree_finite, structural_pattern_spec};
use vstd::prelude::*;
use vstd::string::StringExecFns;

verus! {

/// The structural hash of a trace's events, as text.
pub open spec fn structural_hash_text(events: Seq<TraceEvent>) -> Seq<char> {
    hex_lower(default_str_hash(structural_pattern_spec(events)) as nat)
}

// ── Control-flow deviation ───────────────────────────────────────────────────

/// Runs above which a known execution path counts as stable.
pub const STABLE_PATH_RUNS: usize = 5;

/// Runs of other paths above which there is a baseline to compare with.
pub const BASELINE_RUNS: u64 = 100;

/// Some cluster of the path `hash` has more than five runs.
pub open spec fn path_known(hash: Seq<char>, clusters: Seq<TraceCluster>) -> bool {
    exists|i: int|
        0 <= i < clusters.len() && (#[trigger] clusters[i]).cluster_key@ == hash && clusters[i].traces@.len()
            > STABLE_PATH_RUNS
}

/// The runs of the first `n` clusters that are not of the path `hash`.
pub open spec fn baseline_runs(hash: Seq<char>, clusters: Seq<TraceCluster>, n: nat) -> nat
    decreases n,
{
    if n == 0 {
        0
    } else {
        baseline_runs(hash, clusters, (n - 1) as nat) + if clusters[n - 1].cluster_key@ == hash {
            0
        } else {
            clusters[n - 1].traces@.len()
        }
    }
}

/// The message of a flow-deviation alert.
pub open spec fn deviation_message(hash: Seq<char>, runs: nat) -> Seq<char> {
    "New execution path detected (hash: "@ + hash + ") after "@ + decimal(runs) + " stable runs."@
}

/// Checks a trace's execution path against the clusters the tenant already has: when its path
/// is not a stable known one (a cluster of the same hash with more than five runs) and the
/// other paths have more than 100 runs between them, raises a medium flow-deviation alert
/// `alert_id` at `now_ms`.
pub fn analyze_trace(
    trace_id: u128,
    events: &Vec<TraceEvent>,
    clusters: &Vec<TraceCluster>,
    alert_id: u128,
    now_ms: u64,
    tenant: Option<String>,
) -> (r: Option<SecurityAlert>)
    requires
        span_tree_finite(events@),
        baseline_runs(structural_hash_text(events@), clusters@, clusters@.len()) <= u64::MAX,
    ensures
        ({
            let hash = structural_hash_text(events@);
            let runs = baseline_runs(hash, clusters@, clusters@.len());
            &&& r is Some <==> !path_known(hash, clusters@) && runs > BASELINE_RUNS
            &&& r is Some ==> {
                let a = r.unwrap();
                &&& a.alert_id == alert_id
                &&& a.trace_id == trace_id
                &&& a.alert_type@ == "flow_deviation"@
                &&& a.severity@ == "medium"@
                &&& a.message@ == deviation_message(hash, runs)
                &&& a.timestamp_ms == now_ms
                &&& a.tenant_id == tenant
            }
        }),
{
    let hash = calculate_structural_hash(events);
    let n = clusters.len();
    let mut found = false;
    let mut total: u64 = 0;
    for i in 0..n
        invariant
            n == clusters@.len(),
            baseline_runs(hash@, clusters@, n as nat) <= u64::MAX,
            total == baseline_runs(hash@, clusters@, i as nat),
            found <==> exists|j: int|
                0 <= j < i && (#[trigger] clusters@[j]).cluster_key@ == hash@ && clusters@[j].traces@.len()
                    > STABLE_PATH_RUNS,
    {
        proof {
            lemma_baseline_grows(hash@, clusters@, (i + 1) as nat, n as nat);
        }
        let c = &clusters[i];
        if c.cluster_key == hash {
            if c.traces.len() > STABLE_PATH_RUNS {
                found = true;
            }
        } else {
            total = total + c.traces.len() as u64;
        }
    }
    if !found && total > BASELINE_RUNS {
        let mut message = String::from_str("New execution path detected (hash: ");
        message.append(hash.as_str());
        message.append(") after ");
        let runs = to_decimal(total);
        message.append(runs.as_str());
        message.append(" stable runs.");
        Some(
            SecurityAlert {
                alert_id,
                trace_id,
                alert_type: String::from_str("flow_deviation"),
                severity: String::from_str("medium"),
                message,
                timestamp_ms: now_ms,
                tenant_id: tenant,
            },
        )
    } else {
        None
    }
}

proof fn lemma_baseline_grows(hash: Seq<char>, clusters: Seq<TraceCluster>, i: nat, n: nat)
    requires
        i <= n,
    ensures
        baseline_runs(hash, clusters, i) <= baseline_runs(hash, clusters, n),
    decreases n,
{
    if i < n {
        lemma_baseline_grows(hash, clusters, i, (n - 1) as nat);
    }
}

// ── Root cause and performance ───────────────────────────────────────────────

/// The position of the first exception event among the first `n`, or -1.
pub open spec fn first_exception(events: Seq<TraceEvent>, n: nat) -> int
    decreases n,
{
    if n == 0 {
        -1
    } else {
        let p = first_exception(events, (n - 1) as nat);
        if p >= 0 {
            p
        } else if events[n - 1].event_type == EventType::Exception {
            n - 1
        } else {
            -1
        }
    }
}

/// The root cause is the earliest exception: the position `first_exception` reports among the
/// first `n` events is an exception with no exception before it, and it reports -1 exactly when
/// none of them is an exception.
pub proof fn lemma_first_exception_is_earliest(events: Seq<TraceEvent>, n: nat)
    requires
        n <= events.len(),
    ensures
        first_exception(events, n) == -1 <==> forall|j: int| 0 <= j < n ==> (#[trigger] events[j]).event_type
            != EventType::Exception,
        first_exception(events, n) >= 0 ==> {
            let p = first_exception(events, n);
            &&& p < n
            &&& events[p].event_type == EventType::Exception
            &&& forall|j: int| 0 <= j < p ==> (#[trigger] events[j]).event_type != EventType::Exception
        },
        first_exception(events, n) >= -1,
    decreases n,
{
    if n > 0 {
        lemma_first_exception_is_earliest(events, (n - 1) as nat);
        if first_exception(events, (n - 1) as nat) == -1 && events[n - 1].event_type != EventType::Exception {
            assert forall|j: int| 0 <= j < n implies (#[trigger] events[j]).event_type != EventType::Exception by {
                if j < n - 1 {
                    assert(events[j].event_type != EventType::Exception);
                }
            }
        }
    }
}

/// The error message of an event, or `Unknown error`.
pub open spec fn error_text(e: TraceEvent) -> Seq<char> {
    match e.error_message {
        Some(m) => m@,
        None => "Unknown error"@,
    }
}

/// The root-cause text: where the first exception was raised and with which message, or that
/// no exception was found.
pub open spec fn root_cause_text(events: Seq<TraceEvent>) -> Seq<char> {
    let p = first_exception(events, events.len());
    if p >= 0 {
        "Exception in "@ + events[p].module@ + "."@ + events[p].function_name@ + ": "@ + error_text(events[p])
            + ". The control flow reached this point after abnormal state mutation."@
    } else {
        "No explicit exception found, but structural analysis indicates potential logical divergence."@
    }
}

/// The patch suggested when a trace failed.
pub open spec fn patch_text() -> Seq<char> {
    "Add a boundary check before the failing call and implement a retry mechanism for transient dependencies."@
}

/// What the root-cause analysis of a trace finds.
pub struct RootCause {
    pub root_cause: String,
    pub suggested_patch: Option<String>,
    pub structural_hash: String,
}

/// Long-running calls: a function and how long it ran, in whole milliseconds.
pub struct Bottleneck {
    pub function: String,
    pub duration_ms: u64,
}

/// Runs longer than this, in microseconds, are bottlenecks.
pub const BOTTLENECK_US: u64 = 500000;

/// The bottlenecks among the first `n` events: those reporting more than half a second.
pub open spec fn bottlenecks_upto(events: Seq<TraceEvent>, n: nat) -> Seq<(Seq<char>, u64)>
    decreases n,
{
    if n == 0 {
        seq![]
    } else {
        let p = bottlenecks_upto(events, (n - 1) as nat);
        let e = events[n - 1];
        match e.duration_us {
            Some(d) => if d > BOTTLENECK_US {
                p.push((e.function_name@, d / 1000))
            } else {
                p
            },
            None => p,
        }
    }
}

/// A bottleneck as texts and numbers.
pub open spec fn bottleneck_view(b: Bottleneck) -> (Seq<char>, u64) {
    (b.function@, b.duration_ms)
}

/// The root-cause and performance analyses of a trace.
pub struct IntelligenceEngine;

impl IntelligenceEngine {
    /// Finds the root cause of a trace from its events: `None` when there are none (the trace is
    /// not found). Else the text of `root_cause_text`, a patch suggestion when the trace has an
    /// exception, and its structural hash.
    pub fn analyze_root_cause(events: &Vec<TraceEvent>) -> (r: Option<RootCause>)
        requires
            span_tree_finite(events@),
        ensures
            r is None <==> events@.len() == 0,
            r is Some ==> {
                let rc = r.unwrap();
                &&& rc.root_cause@ == root_cause_text(events@)
                &&& rc.suggested_patch is Some <==> first_exception(events@, events@.len()) >= 0
                &&& rc.suggested_patch is Some ==> rc.suggested_patch.unwrap()@ == patch_text()
                &&& rc.structural_hash@ == structural_hash_text(events@)
            },
    {
        let n = events.len();
        if n == 0 {
            return None;
        }
        let mut first: Option<usize> = None;
        for i in 0..n
            invariant
                n == events@.len(),
                match first {
                    Some(p) => p as int == first_exception(events@, i as nat) && p < n,
                    None => first_exception(events@, i as nat) == -1,
                },
        {
            if first.is_none() && events[i].event_type == EventType::Exception {
                first = Some(i);
            }
        }
        let structural_hash = calculate_structural_hash(events);
        let (root_cause, suggested_patch) = match first {
            Some(p) => {
                let e = &events[p];
                let mut t = String::from_str("Exception in ");
                t.append(e.module.as_str());
                t.append(".");
                t.append(e.function_name.as_str());
                t.append(": ");
                match &e.error_message {
                    Some(m) => t.append(m.as_str()),
                    None => t.append("Unknown error"),
                }
                t.append(". The control flow reached this point after abnormal state mutation.");
                let patch = String::from_str(
                    "Add a boundary check before the failing call and implement a retry mechanism for transient dependencies.",
                );
                (t, Some(patch))
            },
            None => (
                String::from_str(
                    "No explicit exception found, but structural analysis indicates potential logical divergence.",
                ),
                None,
            ),
        };
        Some(RootCause { root_cause, suggested_patch, structural_hash })
    }

    /// Lists the calls of a trace that ran longer than half a second, in order.
    pub fn get_performance_tuning(events: &Vec<TraceEvent>) -> (r: Vec<Bottleneck>)
        ensures
            r@.map_values(|b: Bottleneck| bottleneck_view(b)) == bottlenecks_upto(events@, events@.len()),
    {
        let n = events.len();
        let mut out: Vec<Bottleneck> = Vec::new();
        for i in 0..n
            invariant
                n == events@.len(),
                out@.map_values(|b: Bottleneck| bottleneck_view(b)) == bottlenecks_upto(events@, i as nat),
        {
            let ghost before = out@;
            if let Some(d) = events[i].duration_us {
                if d > BOTTLENECK_US {
                    out.push(Bottleneck { function: events[i].function_name.clone(), duration_ms: d / 1000 });
                    assert(out@.map_values(|b: Bottleneck| bottleneck_view(b)) =~= before.map_values(
                        |b: Bottleneck| bottleneck_view(b),
                    ).push(bottleneck_view(out@[before.len() as int])));
                }
            }
        }
        out
    }
}

/// The AI summary of a trace from its events: `None` when there are none (the trace is not
/// found); else a critical summary when some event is an exception, and a success summary
/// otherwise.
pub fn ai_summary(events: &Vec<TraceEvent>) -> (r: Option<String>)
    ensures
        r is None <==> events@.len() == 0,
        r is Some ==> r.unwrap()@ == if first_exception(events@, events@.len()) >= 0 {
            "CRITICAL: Trace contains unhandled exceptions. This execution likely failed during a core logic path. Root cause points to data inconsistency in the module."@
        } else {
            "SUCCESS: Trace completed within normal parameters. Execution flow shows standard request lifecycle with no significant bottlenecks or errors detected."@
        },
{
    let n = events.len();
    if n == 0 {
        return None;
    }
    let mut failed = false;
    for i in 0..n
        invariant
            n == events@.len(),
            failed <==> first_exception(events@, i as nat) >= 0,
    {
        if events[i].event_type == EventType::Exception {
            failed = true;
        }
    }
    if failed {
        Some(
            String::from_str(
                "CRITICAL: Trace contains unhandled exceptions. This execution likely failed during a core logic path. Root cause points to data inconsistency in the module.",
            ),
        )
    } else {
        Some(
            String::from_str(
                "SUCCESS: Trace completed within normal parameters. Execution flow shows standard request lifecycle with no significant bottlenecks or errors detected.",
            ),
        )
    }
}

// ── Replay snapshot ──────────────────────────────────────────────────────────

/// What was recorded of an external call.
pub enum MockResult {
    /// A database query: its text, duration and driver.
    Db { query: String, duration_us: u64, driver: String },
    /// An HTTP call: its URL and method.
    Http { url: String, method: String },
}

/// A recorded external call, to be answered from the recording on replay.
pub struct MockData {
    pub span_id: u128,
    pub call_signature: String,
    pub result: MockResult,
}

/// The recorded external calls of a trace.
pub struct ReplaySnapshot {
    pub trace_id: u128,
    pub mocks: Vec<MockData>,
}

/// A recorded result as plain values: for a query, `true`, its text, duration and driver; for
/// an HTTP call, `false`, its URL, 0 and its method.
pub open spec fn result_view(r: MockResult) -> (bool, Seq<char>, u64, Seq<char>) {
    match r {
        MockResult::Db { query, duration_us, driver } => (true, query@, duration_us, driver@),
        MockResult::Http { url, method } => (false, url@, 0, method@),
    }
}

/// The mock recorded for an event, if it is a query with its data (signature `SQL:` and the
/// query) or an HTTP response with its request (signature `HTTP:`, the method, a space and the
/// URL).
pub open spec fn mock_of(e: TraceEvent) -> Option<(u128, Seq<char>, (bool, Seq<char>, u64, Seq<char>))> {
    if e.event_type == EventType::DbQuery && e.db_query is Some {
        let q = e.db_query.unwrap();
        Some((e.span_id, "SQL:"@ + q.query@, (true, q.query@, q.duration_us, q.driver@)))
    } else if e.event_type == EventType::HttpResponse && e.http_request is Some {
        let h = e.http_request.unwrap();
        Some((e.span_id, "HTTP:"@ + h.method@ + " "@ + h.url@, (false, h.url@, 0, h.method@)))
    } else {
        None
    }
}

/// The mocks of the first `n` events, in order.
pub open spec fn mocks_upto(events: Seq<TraceEvent>, n: nat) -> Seq<(u128, Seq<char>, (bool, Seq<char>, u64, Seq<char>))>
    decreases n,
{
    if n == 0 {
        seq![]
    } else {
        let p = mocks_upto(events, (n - 1) as nat);
        match mock_of(events[n - 1]) {
            Some(m) => p.push(m),
            None => p,
        }
    }
}

/// A mock as plain values.
pub open spec fn mock_view(m: MockData) -> (u128, Seq<char>, (bool, Seq<char>, u64, Seq<char>)) {
    (m.span_id, m.call_signature@, result_view(m.result))
}

/// Replays traces from their recorded external calls.
pub struct ReplayManager;

impl ReplayManager {
    /// Records, in order, a mock for each database query and HTTP response of a trace.
    pub fn create_snapshot(trace_id: u128, events: &Vec<TraceEvent>) -> (r: ReplaySnapshot)
        ensures
            r.trace_id == trace_id,
            r.mocks@.map_values(|m: MockData| mock_view(m)) == mocks_upto(events@, events@.len()),
    {
        let n = events.len();
        let mut mocks: Vec<MockData> = Vec::new();
        for i in 0..n
            invariant
                n == events@.len(),
                mocks@.map_values(|m: MockData| mock_view(m)) == mocks_upto(events@, i as nat),
        {
            let ghost before = mocks@;
            let e = &events[i];
            let mut pushed = false;
            match e.event_type {
                EventType::DbQuery => {
                    if let Some(q) = &e.db_query {
                        let mut sig = String::from_str("SQL:");
                        sig.append(q.query.as_str());
                        mocks.push(
                            MockData {
                                span_id: e.span_id,
                                call_signature: sig,
                                result: MockResult::Db {
                                    query: q.query.clone(),
                                    duration_us: q.duration_us,
                                    driver: q.driver.clone(),
                                },
                            },
                        );
                        pushed = true;
                    }
                },
                EventType::HttpResponse => {
                    if let Some(req) = &e.http_request {
                        let mut sig = String::from_str("HTTP:");
                        sig.append(req.method.as_str());
                        sig.append(" ");
                        sig.append(req.url.as_str());
                        mocks.push(
                            MockData {
                                span_id: e.span_id,
                                call_signature: sig,
                                result: MockResult::Http { url: req.url.clone(), method: req.method.clone() },
                            },
                        );
                        pushed = true;
                    }
                },
                _ => {},
            }
            if pushed {
                assert(mocks@.map_values(|m: MockData| mock_view(m)) =~= before.map_values(|m: MockData| mock_view(m)).push(
                    mock_view(mocks@[before.len() as int]),
                ));
            }
        }
        ReplaySnapshot { trace_id, mocks }
    }
}

} // verus!
