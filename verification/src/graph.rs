//! The service graph: which modules call which, how often and how slowly.

use crate::models::TraceEvent;
use crate::store::{contains_text, texts, trace_events_for_tenant, visible_events};
use crate::timeline::{last_index, last_index_upto, lemma_last_index};
use vstd::prelude::*;

verus! {

/// The call edge that event `e` draws among `vis`: from the module of the last event of its
/// parent span to its own module, when its parent span is among the events and the two modules
/// differ.
pub open spec fn call_edge(vis: Seq<TraceEvent>, e: TraceEvent) -> Option<(Seq<char>, Seq<char>)> {
    match e.parent_span_id {
        Some(pid) => {
            let pi = last_index(vis, pid);
            if pi >= 0 && vis[pi].module@ != e.module@ {
                Some((vis[pi].module@, e.module@))
            } else {
                None
            }
        },
        None => None,
    }
}

/// The distinct modules of the first `n` events, in order of first appearance.
pub open spec fn modules_upto(vis: Seq<TraceEvent>, n: nat) -> Seq<Seq<char>>
    decreases n,
{
    if n == 0 {
        seq![]
    } else {
        let p = modules_upto(vis, (n - 1) as nat);
        if p.contains(vis[n - 1].module@) {
            p
        } else {
            p.push(vis[n - 1].module@)
        }
    }
}

/// The distinct call edges of the first `n` events, in order of first appearance.
pub open spec fn edges_upto(vis: Seq<TraceEvent>, n: nat) -> Seq<(Seq<char>, Seq<char>)>
    decreases n,
{
    if n == 0 {
        seq![]
    } else {
        let p = edges_upto(vis, (n - 1) as nat);
        match call_edge(vis, vis[n - 1]) {
            Some(k) => if p.contains(k) {
                p
            } else {
                p.push(k)
            },
            None => p,
        }
    }
}

/// How many of the first `n` events draw the edge `k`.
pub open spec fn edge_count(vis: Seq<TraceEvent>, k: (Seq<char>, Seq<char>), n: nat) -> nat
    decreases n,
{
    if n == 0 {
        0
    } else {
        edge_count(vis, k, (n - 1) as nat) + if call_edge(vis, vis[n - 1]) == Some(k) {
            1nat
        } else {
            0nat
        }
    }
}

/// The duration in whole milliseconds that an event reports, 0 when it reports none.
pub open spec fn event_ms(e: TraceEvent) -> nat {
    match e.duration_us {
        Some(d) => (d / 1000) as nat,
        None => 0,
    }
}

/// The summed durations, in whole milliseconds, of the first `n` events that draw the edge `k`.
pub open spec fn edge_ms(vis: Seq<TraceEvent>, k: (Seq<char>, Seq<char>), n: nat) -> nat
    decreases n,
{
    if n == 0 {
        0
    } else {
        edge_ms(vis, k, (n - 1) as nat) + if call_edge(vis, vis[n - 1]) == Some(k) {
            event_ms(vis[n - 1])
        } else {
            0nat
        }
    }
}

proof fn lemma_edges_distinct(vis: Seq<TraceEvent>, n: nat)
    ensures
        edges_upto(vis, n).no_duplicates(),
    decreases n,
{
    if n > 0 {
        lemma_edges_distinct(vis, (n - 1) as nat);
    }
}

proof fn lemma_edges_grow(vis: Seq<TraceEvent>, k: (Seq<char>, Seq<char>), n: nat)
    requires
        edges_upto(vis, n).contains(k),
    ensures
        edges_upto(vis, n + 1).contains(k),
{
    let p = edges_upto(vis, n);
    let i = choose|i: int| 0 <= i < p.len() && p[i] == k;
    match call_edge(vis, vis[n as int]) {
        Some(x) => if !p.contains(x) {
            assert(p.push(x)[i] == k);
        },
        None => {},
    }
}

proof fn lemma_no_edge(vis: Seq<TraceEvent>, k: (Seq<char>, Seq<char>), n: nat)
    requires
        !edges_upto(vis, n).contains(k),
    ensures
        edge_count(vis, k, n) == 0,
        edge_ms(vis, k, n) == 0,
    decreases n,
{
    if n > 0 {
        let m = (n - 1) as nat;
        if edges_upto(vis, m).contains(k) {
            lemma_edges_grow(vis, k, m);
        }
        lemma_no_edge(vis, k, m);
        if call_edge(vis, vis[n - 1]) == Some(k) {
            let p = edges_upto(vis, m);
            assert(p.push(k)[p.len() as int] == k);
        }
    }
}

proof fn lemma_edge_totals_grow(vis: Seq<TraceEvent>, k: (Seq<char>, Seq<char>), i: nat, n: nat)
    requires
        i <= n,
    ensures
        edge_ms(vis, k, i) <= edge_ms(vis, k, n),
        edge_count(vis, k, i) <= edge_count(vis, k, n),
        edge_count(vis, k, n) <= n,
    decreases n,
{
    if n > 0 {
        if i < n {
            lemma_edge_totals_grow(vis, k, i, (n - 1) as nat);
        } else {
            lemma_edge_totals_grow(vis, k, (n - 1) as nat, (n - 1) as nat);
        }
    }
}

/// One edge of the service graph: calls from `source` into `target`, how many, and their mean
/// duration in whole milliseconds (durations are summed in whole milliseconds first).
pub struct ServiceLink {
    pub source: String,
    pub target: String,
    pub count: u64,
    pub latency: u64,
}

/// The modules seen and the call edges between them.
pub struct ServiceGraph {
    pub nodes: Vec<String>,
    pub links: Vec<ServiceLink>,
}

fn parent_index(vis: &Vec<TraceEvent>, pid: u128) -> (r: Option<usize>)
    ensures
        match r {
            Some(i) => i as int == last_index(vis@, pid) && i < vis@.len(),
            None => last_index(vis@, pid) < 0,
        },
{
    let n = vis.len();
    let mut i = n;
    proof {
        lemma_last_index(vis@, pid, n as nat);
    }
    while i > 0
        invariant
            i <= n,
            n == vis@.len(),
            last_index(vis@, pid) == last_index_upto(vis@, pid, i as nat),
        decreases i,
    {
        if vis[i - 1].span_id == pid {
            return Some(i - 1);
        }
        i = i - 1;
    }
    None
}

fn edge_of(vis: &Vec<TraceEvent>, k: usize) -> (r: Option<(String, String)>)
    requires
        k < vis@.len(),
    ensures
        match r {
            Some(p) => call_edge(vis@, vis@[k as int]) == Some((p.0@, p.1@)),
            None => call_edge(vis@, vis@[k as int]) is None,
        },
{
    match vis[k].parent_span_id {
        Some(pid) => match parent_index(vis, pid) {
            Some(pi) => {
                if vis[pi].module != vis[k].module {
                    Some((vis[pi].module.clone(), vis[k].module.clone()))
                } else {
                    None
                }
            },
            None => None,
        },
        None => None,
    }
}

/// The edge keys of accumulated links.
pub open spec fn link_keys(acc: Seq<(String, String, u64, u64)>) -> Seq<(Seq<char>, Seq<char>)> {
    acc.map_values(|l: (String, String, u64, u64)| (l.0@, l.1@))
}

fn index_of_link(acc: &Vec<(String, String, u64, u64)>, s: &String, t: &String) -> (r: Option<usize>)
    ensures
        match r {
            Some(i) => i < acc@.len() && acc@[i as int].0@ == s@ && acc@[i as int].1@ == t@,
            None => !link_keys(acc@).contains((s@, t@)),
        },
{
    let n = acc.len();
    for i in 0..n
        invariant
            n == acc@.len(),
            forall|j: int| 0 <= j < i ==> !(acc@[j].0@ == s@ && acc@[j].1@ == t@),
    {
        if acc[i].0 == *s && acc[i].1 == *t {
            return Some(i);
        }
    }
    proof {
        if link_keys(acc@).contains((s@, t@)) {
            let j = choose|j: int| 0 <= j < link_keys(acc@).len() && link_keys(acc@)[j] == (s@, t@);
            assert(link_keys(acc@)[j] == (acc@[j].0@, acc@[j].1@));
        }
    }
    None
}

/// Builds the service graph of the events a tenant may see. Its nodes are the distinct modules
/// (in order of first appearance); its links are the distinct call edges (in order of first
/// appearance), each with how many events draw it and the mean of their durations.
pub fn get_service_graph(events: Vec<TraceEvent>, tenant: &Option<String>) -> (r: ServiceGraph)
    requires
        forall|k: (Seq<char>, Seq<char>)|
            #[trigger] edge_ms(visible_events(events@, *tenant), k, visible_events(events@, *tenant).len()) <= u64::MAX,
    ensures
        ({
            let vis = visible_events(events@, *tenant);
            let edges = edges_upto(vis, vis.len());
            &&& texts(r.nodes@) == modules_upto(vis, vis.len())
            &&& r.links@.len() == edges.len()
            &&& forall|j: int|
                0 <= j < r.links@.len() ==> {
                    &&& (#[trigger] r.links@[j]).source@ == edges[j].0
                    &&& r.links@[j].target@ == edges[j].1
                    &&& r.links@[j].count == edge_count(vis, edges[j], vis.len())
                    &&& r.links@[j].count > 0
                    &&& r.links@[j].latency == edge_ms(vis, edges[j], vis.len()) / edge_count(
                        vis,
                        edges[j],
                        vis.len(),
                    )
                }
        }),
{
    let vis = trace_events_for_tenant(events, tenant);
    let ghost v = vis@;
    let n = vis.len();
    let mut nodes: Vec<String> = Vec::new();
    let mut acc: Vec<(String, String, u64, u64)> = Vec::new();
    for i in 0..n
        invariant
            n == v.len(),
            vis@ == v,
            forall|k: (Seq<char>, Seq<char>)| #[trigger] edge_ms(v, k, v.len()) <= u64::MAX,
            texts(nodes@) == modules_upto(v, i as nat),
            link_keys(acc@) == edges_upto(v, i as nat),
            forall|j: int|
                0 <= j < acc@.len() ==> (#[trigger] acc@[j]).2 == edge_count(v, link_keys(acc@)[j], i as nat)
                    && acc@[j].3 == edge_ms(v, link_keys(acc@)[j], i as nat),
    {
        let ghost before = acc@;
        proof {
            lemma_edges_distinct(v, i as nat);
        }
        if !contains_text(&nodes, &vis[i].module) {
            nodes.push(vis[i].module.clone());
        }
        match edge_of(&vis, i) {
            Some(st) => {
                let ghost k = (st.0@, st.1@);
                let add: u64 = match vis[i].duration_us {
                    Some(d) => d / 1000,
                    None => 0,
                };
                assert(add == event_ms(v[i as int]));
                match index_of_link(&acc, &st.0, &st.1) {
                    Some(j) => {
                        proof {
                            assert(link_keys(before)[j as int] == k);
                            lemma_edge_totals_grow(v, k, (i + 1) as nat, v.len());
                            lemma_edge_totals_grow(v, k, (i + 1) as nat, (i + 1) as nat);
                        }
                        let (s, t, c, d) = acc.remove(j);
                        acc.insert(j, (s, t, c + 1, d + add));
                        proof {
                            assert(acc@ =~= before.update(j as int, acc@[j as int]));
                            assert(link_keys(acc@) =~= link_keys(before));
                            assert forall|q: int| 0 <= q < acc@.len() implies (#[trigger] acc@[q]).2 == edge_count(
                                v,
                                link_keys(acc@)[q],
                                (i + 1) as nat,
                            ) && acc@[q].3 == edge_ms(v, link_keys(acc@)[q], (i + 1) as nat) by {
                                if q != j {
                                    assert(link_keys(before)[q] != link_keys(before)[j as int]);
                                    assert(acc@[q] == before[q]);
                                }
                            }
                        }
                    },
                    None => {
                        proof {
                            lemma_no_edge(v, k, i as nat);
                            lemma_edge_totals_grow(v, k, (i + 1) as nat, v.len());
                        }
                        acc.push((st.0, st.1, 1, add));
                        proof {
                            assert(link_keys(acc@) =~= link_keys(before).push(k));
                            assert forall|q: int| 0 <= q < acc@.len() implies (#[trigger] acc@[q]).2 == edge_count(
                                v,
                                link_keys(acc@)[q],
                                (i + 1) as nat,
                            ) && acc@[q].3 == edge_ms(v, link_keys(acc@)[q], (i + 1) as nat) by {
                                if q < before.len() {
                                    assert(acc@[q] == before[q]);
                                    assert(link_keys(before)[q] == link_keys(acc@)[q]);
                                }
                            }
                        }
                    },
                }
            },
            None => {},
        }
        proof {
            assert(texts(nodes@) == modules_upto(v, (i + 1) as nat)) by {
                if modules_upto(v, i as nat).contains(v[i as int].module@) {
                } else {
                }
            }
        }
    }
    let ghost fin = acc@;
    let mut links: Vec<ServiceLink> = Vec::new();
    for l in it: acc.into_iter()
        invariant
            it.seq() == fin,
            link_keys(fin) == edges_upto(v, n as nat),
            n == v.len(),
            forall|j: int|
                0 <= j < fin.len() ==> (#[trigger] fin[j]).2 == edge_count(v, link_keys(fin)[j], n as nat)
                    && fin[j].3 == edge_ms(v, link_keys(fin)[j], n as nat),
            links@.len() == it.index(),
            forall|j: int|
                0 <= j < links@.len() ==> {
                    &&& (#[trigger] links@[j]).source@ == link_keys(fin)[j].0
                    &&& links@[j].target@ == link_keys(fin)[j].1
                    &&& links@[j].count == edge_count(v, link_keys(fin)[j], n as nat)
                    &&& links@[j].count > 0
                    &&& links@[j].latency == edge_ms(v, link_keys(fin)[j], n as nat) / edge_count(
                        v,
                        link_keys(fin)[j],
                        n as nat,
                    )
                },
    {
        let ghost j = it.index() as int;
        proof {
            assert(link_keys(fin)[j] == (fin[j].0@, fin[j].1@));
            assert(edges_upto(v, n as nat).contains(link_keys(fin)[j]));
            lemma_edge_count_positive(v, link_keys(fin)[j], n as nat);
        }
        let (s, t, c, d) = l;
        let latency = if c > 0 {
            d / c
        } else {
            0
        };
        links.push(ServiceLink { source: s, target: t, count: c, latency });
    }
    ServiceGraph { nodes, links }
}

proof fn lemma_edge_count_positive(vis: Seq<TraceEvent>, k: (Seq<char>, Seq<char>), n: nat)
    requires
        edges_upto(vis, n).contains(k),
    ensures
        edge_count(vis, k, n) > 0,
    decreases n,
{
    if n > 0 {
        let m = (n - 1) as nat;
        if edges_upto(vis, m).contains(k) {
            lemma_edge_count_positive(vis, k, m);
        }
    }
}

} // verus!
