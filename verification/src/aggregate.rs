//! Aggregations over the trace summaries a tenant can see: clusters of similar traces, failure
//! statistics per execution path and regressions between versions.

use crate::models::TraceSummary;
use crate::store::{contains_text, summaries_for_tenant, texts, visible_summaries};
use crate::text::{
    lemma_text_lt_irreflexive, lemma_text_lt_total, lemma_text_lt_transitive, opt_str_view, text_less, text_lt,
};
use vstd::prelude::*;

verus! {

/// What summaries are grouped by.
#[derive(Clone, Copy)]
pub enum GroupKey {
    /// The AI cluster key, else the structural hash.
    Cluster,
    /// The structural hash.
    Hash,
    /// The version, for summaries that have both a version and a structural hash.
    Version,
}

/// The key of a summary when grouping by `by`, if it has one.
pub open spec fn group_key(by: GroupKey, s: TraceSummary) -> Option<Seq<char>> {
    match by {
        GroupKey::Cluster => match s.ai_cluster_key {
            Some(k) => Some(k@),
            None => opt_str_view(s.structural_hash),
        },
        GroupKey::Hash => opt_str_view(s.structural_hash),
        GroupKey::Version => if s.structural_hash is Some {
            opt_str_view(s.version)
        } else {
            None
        },
    }
}

fn group_key_exec(by: GroupKey, s: &TraceSummary) -> (r: Option<String>)
    ensures
        opt_str_view(r) == group_key(by, *s),
{
    match by {
        GroupKey::Cluster => match &s.ai_cluster_key {
            Some(k) => Some(k.clone()),
            None => match &s.structural_hash {
                Some(h) => Some(h.clone()),
                None => None,
            },
        },
        GroupKey::Hash => match &s.structural_hash {
            Some(h) => Some(h.clone()),
            None => None,
        },
        GroupKey::Version => match (&s.version, &s.structural_hash) {
            (Some(v), Some(_)) => Some(v.clone()),
            _ => None,
        },
    }
}

/// The distinct keys of the first `n` summaries, in order of first appearance.
pub open spec fn keys_upto(v: Seq<TraceSummary>, by: GroupKey, n: nat) -> Seq<Seq<char>>
    decreases n,
{
    if n == 0 {
        seq![]
    } else {
        let p = keys_upto(v, by, (n - 1) as nat);
        match group_key(by, v[n - 1]) {
            Some(k) => if p.contains(k) {
                p
            } else {
                p.push(k)
            },
            None => p,
        }
    }
}

/// The summaries among the first `n` whose key is `k`, in order.
pub open spec fn members_upto(v: Seq<TraceSummary>, by: GroupKey, k: Seq<char>, n: nat) -> Seq<TraceSummary>
    decreases n,
{
    if n == 0 {
        seq![]
    } else {
        let p = members_upto(v, by, k, (n - 1) as nat);
        if group_key(by, v[n - 1]) == Some(k) {
            p.push(v[n - 1])
        } else {
            p
        }
    }
}

/// The distinct keys of all the summaries, in order of first appearance.
pub open spec fn group_keys(v: Seq<TraceSummary>, by: GroupKey) -> Seq<Seq<char>> {
    keys_upto(v, by, v.len())
}

/// The summaries whose key is `k`, in order.
pub open spec fn group_members(v: Seq<TraceSummary>, by: GroupKey, k: Seq<char>) -> Seq<TraceSummary> {
    members_upto(v, by, k, v.len())
}

proof fn lemma_keys_distinct(v: Seq<TraceSummary>, by: GroupKey, n: nat)
    ensures
        keys_upto(v, by, n).no_duplicates(),
    decreases n,
{
    if n > 0 {
        lemma_keys_distinct(v, by, (n - 1) as nat);
    }
}

proof fn lemma_keys_grow(v: Seq<TraceSummary>, by: GroupKey, k: Seq<char>, n: nat)
    requires
        keys_upto(v, by, n).contains(k),
    ensures
        keys_upto(v, by, n + 1).contains(k),
{
    let p = keys_upto(v, by, n);
    let i = choose|i: int| 0 <= i < p.len() && p[i] == k;
    match group_key(by, v[n as int]) {
        Some(x) => if !p.contains(x) {
            assert(p.push(x)[i] == k);
        },
        None => {},
    }
}

proof fn lemma_no_members(v: Seq<TraceSummary>, by: GroupKey, k: Seq<char>, n: nat)
    requires
        !keys_upto(v, by, n).contains(k),
    ensures
        members_upto(v, by, k, n) == Seq::<TraceSummary>::empty(),
    decreases n,
{
    if n > 0 {
        let m = (n - 1) as nat;
        if keys_upto(v, by, m).contains(k) {
            lemma_keys_grow(v, by, k, m);
        }
        lemma_no_members(v, by, k, m);
        if group_key(by, v[n - 1]) == Some(k) {
            let p = keys_upto(v, by, m);
            assert(p.push(k)[p.len() as int] == k);
        }
    }
}

/// The keys of a list of groups.
pub open spec fn group_names<T>(g: Seq<(String, T)>) -> Seq<Seq<char>> {
    g.map_values(|p: (String, T)| p.0@)
}

fn index_of_group<T>(g: &Vec<(String, T)>, x: &String) -> (r: Option<usize>)
    ensures
        match r {
            Some(i) => i < g@.len() && g@[i as int].0@ == x@,
            None => !group_names(g@).contains(x@),
        },
{
    let n = g.len();
    for i in 0..n
        invariant
            n == g@.len(),
            forall|j: int| 0 <= j < i ==> g@[j].0@ != x@,
    {
        if g[i].0 == *x {
            return Some(i);
        }
    }
    proof {
        if group_names(g@).contains(x@) {
            let j = choose|j: int| 0 <= j < group_names(g@).len() && group_names(g@)[j] == x@;
            assert(g@[j].0@ == x@);
        }
    }
    None
}

/// Groups summaries by key: the groups come in order of their key's first appearance, and
/// each holds its summaries in their order.
pub fn group_summaries(v: Vec<TraceSummary>, by: GroupKey) -> (r: Vec<(String, Vec<TraceSummary>)>)
    ensures
        group_names(r@) == group_keys(v@, by),
        forall|j: int| 0 <= j < r@.len() ==> (#[trigger] r@[j]).1@ == group_members(v@, by, r@[j].0@),
{
    let ghost all = v@;
    let mut out: Vec<(String, Vec<TraceSummary>)> = Vec::new();
    for x in it: v.into_iter()
        invariant
            it.seq() == all,
            group_names(out@) == keys_upto(all, by, it.index() as nat),
            forall|j: int|
                0 <= j < out@.len() ==> (#[trigger] out@[j]).1@ == members_upto(all, by, out@[j].0@, it.index() as nat),
    {
        let ghost i = it.index() as nat;
        let ghost before = out@;
        proof {
            lemma_keys_distinct(all, by, i);
        }
        let key = group_key_exec(by, &x);
        match key {
            Some(k) => {
                match index_of_group(&out, &k) {
                    Some(j) => {
                        let (name, mut g) = out.remove(j);
                        g.push(x);
                        out.insert(j, (name, g));
                        proof {
                            assert(keys_upto(all, by, i).contains(k@)) by {
                                assert(group_names(before)[j as int] == k@);
                            }
                            assert(out@ =~= before.update(j as int, out@[j as int]));
                            assert(group_names(out@) =~= group_names(before));
                            assert forall|q: int| 0 <= q < out@.len() implies (#[trigger] out@[q]).1@ == members_upto(
                                all,
                                by,
                                out@[q].0@,
                                i + 1,
                            ) by {
                                if q != j {
                                    assert(group_names(before)[q] != group_names(before)[j as int]);
                                    assert(out@[q] == before[q]);
                                }
                            }
                        }
                    },
                    None => {
                        proof {
                            lemma_no_members(all, by, k@, i);
                        }
                        let mut g: Vec<TraceSummary> = Vec::new();
                        g.push(x);
                        out.push((k, g));
                        proof {
                            assert(group_names(out@) =~= group_names(before).push(k@));
                            assert(members_upto(all, by, k@, i + 1) =~= seq![all[i as int]]);
                            assert forall|q: int| 0 <= q < out@.len() implies (#[trigger] out@[q]).1@ == members_upto(
                                all,
                                by,
                                out@[q].0@,
                                i + 1,
                            ) by {
                                if q < before.len() {
                                    assert(out@[q] == before[q]);
                                    assert(group_names(before)[q] == before[q].0@);
                                }
                            }
                        }
                    },
                }
            },
            None => {
                assert forall|q: int| 0 <= q < out@.len() implies (#[trigger] out@[q]).1@ == members_upto(
                    all,
                    by,
                    out@[q].0@,
                    i + 1,
                ) by {}
            },
        }
    }
    out
}

proof fn lemma_key_has_member(v: Seq<TraceSummary>, by: GroupKey, k: Seq<char>, n: nat)
    requires
        keys_upto(v, by, n).contains(k),
    ensures
        members_upto(v, by, k, n).len() > 0,
    decreases n,
{
    if n > 0 {
        let m = (n - 1) as nat;
        if keys_upto(v, by, m).contains(k) {
            lemma_key_has_member(v, by, k, m);
        }
    }
}

/// Traces that share a cluster key: their AI cluster key, else their structural hash.
pub struct TraceCluster {
    pub cluster_key: String,
    pub traces: Vec<TraceSummary>,
}

/// Groups the traces a tenant may see into clusters by cluster key (the AI cluster key, else
/// the structural hash; traces with neither are left out). Clusters come in order of their
/// key's first appearance, and each lists its traces in order; its first trace is its
/// representative.
pub fn get_clusters(summaries: Vec<TraceSummary>, tenant: &Option<String>) -> (r: Vec<TraceCluster>)
    ensures
        r@.len() == group_keys(visible_summaries(summaries@, *tenant), GroupKey::Cluster).len(),
        forall|j: int|
            0 <= j < r@.len() ==> {
                let v = visible_summaries(summaries@, *tenant);
                &&& (#[trigger] r@[j]).cluster_key@ == group_keys(v, GroupKey::Cluster)[j]
                &&& r@[j].traces@ == group_members(v, GroupKey::Cluster, r@[j].cluster_key@)
                &&& r@[j].traces@.len() > 0
            },
{
    let visible = summaries_for_tenant(summaries, tenant);
    let ghost v = visible@;
    let groups = group_summaries(visible, GroupKey::Cluster);
    let ghost gs = groups@;
    let mut out: Vec<TraceCluster> = Vec::new();
    for g in it: groups.into_iter()
        invariant
            it.seq() == gs,
            group_names(gs) == group_keys(v, GroupKey::Cluster),
            forall|j: int| 0 <= j < gs.len() ==> (#[trigger] gs[j]).1@ == group_members(v, GroupKey::Cluster, gs[j].0@),
            out@.len() == it.index(),
            forall|j: int|
                0 <= j < out@.len() ==> {
                    &&& (#[trigger] out@[j]).cluster_key@ == group_keys(v, GroupKey::Cluster)[j]
                    &&& out@[j].traces@ == group_members(v, GroupKey::Cluster, out@[j].cluster_key@)
                    &&& out@[j].traces@.len() > 0
                },
    {
        let ghost j = it.index() as int;
        proof {
            assert(group_names(gs)[j] == gs[j].0@);
            assert(group_keys(v, GroupKey::Cluster).contains(gs[j].0@));
            lemma_key_has_member(v, GroupKey::Cluster, gs[j].0@, v.len());
        }
        out.push(TraceCluster { cluster_key: g.0, traces: g.1 });
    }
    out
}

/// How many of the summaries are of failed traces.
pub open spec fn failed_count(s: Seq<TraceSummary>) -> nat
    decreases s.len(),
{
    if s.len() == 0 {
        0
    } else {
        failed_count(s.drop_last()) + if s.last().has_error {
            1nat
        } else {
            0nat
        }
    }
}

proof fn lemma_failed_count_bounded(s: Seq<TraceSummary>)
    ensures
        failed_count(s) <= s.len(),
    decreases s.len(),
{
    if s.len() > 0 {
        lemma_failed_count_bounded(s.drop_last());
    }
}

/// How often the traces of one execution path failed.
pub struct FailureStat {
    pub structural_hash: String,
    pub failed_runs: u64,
    pub total_runs: u64,
}

/// For each structural hash among the traces a tenant may see (in order of first
/// appearance): how many of its traces ran, and how many failed.
pub fn get_failure_stats(summaries: Vec<TraceSummary>, tenant: &Option<String>) -> (r: Vec<FailureStat>)
    ensures
        r@.len() == group_keys(visible_summaries(summaries@, *tenant), GroupKey::Hash).len(),
        forall|j: int|
            0 <= j < r@.len() ==> {
                let v = visible_summaries(summaries@, *tenant);
                let members = group_members(v, GroupKey::Hash, group_keys(v, GroupKey::Hash)[j]);
                &&& (#[trigger] r@[j]).structural_hash@ == group_keys(v, GroupKey::Hash)[j]
                &&& r@[j].total_runs == members.len()
                &&& r@[j].failed_runs == failed_count(members)
            },
{
    let visible = summaries_for_tenant(summaries, tenant);
    let ghost v = visible@;
    let groups = group_summaries(visible, GroupKey::Hash);
    let ghost gs = groups@;
    let mut out: Vec<FailureStat> = Vec::new();
    for g in it: groups.into_iter()
        invariant
            it.seq() == gs,
            group_names(gs) == group_keys(v, GroupKey::Hash),
            forall|j: int| 0 <= j < gs.len() ==> (#[trigger] gs[j]).1@ == group_members(v, GroupKey::Hash, gs[j].0@),
            out@.len() == it.index(),
            forall|j: int|
                0 <= j < out@.len() ==> {
                    let members = group_members(v, GroupKey::Hash, group_keys(v, GroupKey::Hash)[j]);
                    &&& (#[trigger] out@[j]).structural_hash@ == group_keys(v, GroupKey::Hash)[j]
                    &&& out@[j].total_runs == members.len()
                    &&& out@[j].failed_runs == failed_count(members)
                },
    {
        let ghost j = it.index() as int;
        proof {
            assert(group_names(gs)[j] == gs[j].0@);
        }
        let (hash, members) = g;
        let ghost ms = members@;
        let m = members.len();
        let mut failed: u64 = 0;
        for k in 0..m
            invariant
                m == ms.len(),
                members@ == ms,
                failed == failed_count(ms.take(k as int)),
        {
            proof {
                assert(ms.take(k + 1).drop_last() =~= ms.take(k as int));
                lemma_failed_count_bounded(ms.take(k as int));
            }
            if members[k].has_error {
                failed = failed + 1;
            }
        }
        assert(ms.take(m as int) =~= ms);
        out.push(FailureStat { structural_hash: hash, failed_runs: failed, total_runs: m as u64 });
    }
    out
}

/// The texts are in strictly ascending order.
pub open spec fn ascending(s: Seq<Seq<char>>) -> bool {
    forall|i: int, j: int| 0 <= i < j < s.len() ==> text_lt(#[trigger] s[i], #[trigger] s[j])
}

/// `a` and `b` hold the same elements, as many of them.
pub open spec fn same_elements<T>(a: Seq<T>, b: Seq<T>) -> bool {
    a.len() == b.len() && forall|x: T| a.contains(x) <==> b.contains(x)
}

fn sort_groups<T>(g: Vec<(String, T)>) -> (r: Vec<(String, T)>)
    requires
        group_names(g@).no_duplicates(),
    ensures
        ascending(group_names(r@)),
        same_elements(r@, g@),
{
    let ghost all = g@;
    let mut out: Vec<(String, T)> = Vec::new();
    for x in it: g.into_iter()
        invariant
            it.seq() == all,
            group_names(all).no_duplicates(),
            ascending(group_names(out@)),
            out@.len() == it.index(),
            forall|y: (String, T)| out@.contains(y) <==> all.take(it.index() as int).contains(y),
    {
        let ghost i = it.index() as int;
        let ghost before = out@;
        assert forall|a: int| 0 <= a < before.len() implies before[a].0@ != x.0@ by {
            assert(before.contains(before[a]));
            assert(all.take(i).contains(before[a]));
            let t = all.take(i);
            let b = choose|b: int| 0 <= b < t.len() && t[b] == before[a];
            assert(group_names(all)[b] == before[a].0@);
            assert(group_names(all)[i] == x.0@);
        }
        let n = out.len();
        let mut p: usize = 0;
        let mut stop = false;
        while !stop && p < n
            invariant
                n == out@.len(),
                out@ == before,
                p <= n,
                forall|a: int| 0 <= a < before.len() ==> before[a].0@ != x.0@,
                forall|a: int| 0 <= a < p ==> text_lt(#[trigger] before[a].0@, x.0@),
                stop ==> p < n && text_lt(x.0@, before[p as int].0@),
            decreases n - p + if stop {
                0int
            } else {
                1int
            },
        {
            if text_less(x.0.as_str(), out[p].0.as_str()) {
                stop = true;
            } else {
                proof {
                    lemma_text_lt_total(before[p as int].0@, x.0@);
                }
                p = p + 1;
            }
        }
        assert(p < n ==> text_lt(x.0@, before[p as int].0@));
        out.insert(p, x);
        proof {
            let names = group_names(out@);
            assert forall|a: int, b: int| 0 <= a < b < names.len() implies text_lt(#[trigger] names[a], #[trigger] names[b]) by {
                assert(names[a] == out@[a].0@ && names[b] == out@[b].0@);
                assert(group_names(before)[0] == before[0].0@ || before.len() == 0);
                if b < p {
                    assert(group_names(before)[a] == before[a].0@ && group_names(before)[b] == before[b].0@);
                } else if b == p {
                } else if a < p {
                    assert(group_names(before)[b - 1] == before[b - 1].0@);
                    if b - 1 > p {
                        assert(group_names(before)[p as int] == before[p as int].0@);
                        lemma_text_lt_transitive(x.0@, before[p as int].0@, before[b - 1].0@);
                    }
                    lemma_text_lt_transitive(before[a].0@, x.0@, before[b - 1].0@);
                } else if a == p {
                    assert(group_names(before)[b - 1] == before[b - 1].0@);
                    if b - 1 > p {
                        assert(group_names(before)[p as int] == before[p as int].0@);
                        lemma_text_lt_transitive(x.0@, before[p as int].0@, before[b - 1].0@);
                    }
                } else {
                    assert(group_names(before)[a - 1] == before[a - 1].0@ && group_names(before)[b - 1] == before[b - 1].0@);
                }
            }
            assert(all.take(i + 1) =~= all.take(i).push(x));
            assert forall|y: (String, T)| out@.contains(y) <==> all.take(i + 1).contains(y) by {
                let t = all.take(i + 1);
                if out@.contains(y) {
                    let a = choose|a: int| 0 <= a < out@.len() && out@[a] == y;
                    if a == p {
                        assert(t[i] == y);
                    } else {
                        let a2 = if a < p {
                            a
                        } else {
                            a - 1
                        };
                        assert(before[a2] == y);
                        assert(before.contains(y));
                        assert(all.take(i).contains(y));
                        let b = choose|b: int| 0 <= b < all.take(i).len() && all.take(i)[b] == y;
                        assert(t[b] == y);
                    }
                    assert(t.contains(y));
                }
                if t.contains(y) {
                    let b = choose|b: int| 0 <= b < t.len() && t[b] == y;
                    if b < i {
                        assert(all.take(i)[b] == y);
                        assert(all.take(i).contains(y));
                        assert(before.contains(y));
                        let a = choose|a: int| 0 <= a < before.len() && before[a] == y;
                        if a < p {
                            assert(out@[a] == y);
                        } else {
                            assert(out@[a + 1] == y);
                        }
                    } else {
                        assert(out@[p as int] == y);
                    }
                    assert(out@.contains(y));
                }
            }
        }
    }
    assert(all.take(all.len() as int) =~= all);
    out
}

/// The distinct structural hashes of the traces of version `ver`, in order of first appearance.
pub open spec fn version_hashes(v: Seq<TraceSummary>, ver: Seq<char>) -> Seq<Seq<char>> {
    group_keys(group_members(v, GroupKey::Version, ver), GroupKey::Hash)
}

/// The texts of `curr` that `prev` lacks, in order.
pub open spec fn missing_from(curr: Seq<Seq<char>>, prev: Seq<Seq<char>>) -> Seq<Seq<char>>
    decreases curr.len(),
{
    if curr.len() == 0 {
        seq![]
    } else {
        let p = missing_from(curr.drop_last(), prev);
        if prev.contains(curr.last()) {
            p
        } else {
            p.push(curr.last())
        }
    }
}

/// For each pair of consecutive versions among the first `n` of `vs`: the earlier one, the later
/// one and the structural hashes seen in the later but not in the earlier, when there are some.
pub open spec fn regressions_upto(v: Seq<TraceSummary>, vs: Seq<Seq<char>>, n: nat) -> Seq<
    (Seq<char>, Seq<char>, Seq<Seq<char>>),
>
    decreases n,
{
    if n < 2 {
        seq![]
    } else {
        let p = regressions_upto(v, vs, (n - 1) as nat);
        let fresh = missing_from(version_hashes(v, vs[n - 1]), version_hashes(v, vs[n - 2]));
        if fresh.len() > 0 {
            p.push((vs[n - 2], vs[n - 1], fresh))
        } else {
            p
        }
    }
}

proof fn lemma_missing_from(curr: Seq<Seq<char>>, prev: Seq<Seq<char>>)
    ensures
        forall|h: Seq<char>| #[trigger] missing_from(curr, prev).contains(h) <==> (curr.contains(h) && !prev.contains(h)),
    decreases curr.len(),
{
    if curr.len() > 0 {
        let d = curr.drop_last();
        lemma_missing_from(d, prev);
        let m = missing_from(curr, prev);
        let md = missing_from(d, prev);
        assert forall|h: Seq<char>| #[trigger] m.contains(h) <==> (curr.contains(h) && !prev.contains(h)) by {
            if m.contains(h) {
                let i = choose|i: int| 0 <= i < m.len() && m[i] == h;
                if i < md.len() && (m == md || m == md.push(curr.last())) {
                    assert(md[i] == h);
                    assert(md.contains(h));
                    let w = choose|w: int| 0 <= w < d.len() && d[w] == h;
                    assert(curr[w] == h);
                } else {
                    assert(curr[curr.len() - 1] == h);
                }
            }
            if curr.contains(h) && !prev.contains(h) {
                let w = choose|w: int| 0 <= w < curr.len() && curr[w] == h;
                if w < d.len() {
                    assert(d[w] == h);
                    assert(md.contains(h));
                    let i = choose|i: int| 0 <= i < md.len() && md[i] == h;
                    assert(m[i] == h);
                } else {
                    assert(m[md.len() as int] == h);
                }
            }
        }
    }
}

/// Every regression reports something new: it goes from a version to the next one in `vs`,
/// lists at least one structural hash, and lists exactly the hashes that occur in the later
/// version and not in the earlier one. A pair of consecutive versions with such a hash is reported.
pub proof fn lemma_regressions_report_new_paths(v: Seq<TraceSummary>, vs: Seq<Seq<char>>, n: nat)
    requires
        n <= vs.len(),
    ensures
        forall|j: int|
            0 <= j < regressions_upto(v, vs, n).len() ==> {
                let r = #[trigger] regressions_upto(v, vs, n)[j];
                &&& r.2.len() > 0
                &&& exists|i: int| 0 <= i && i + 1 < n && r.0 == #[trigger] vs[i] && r.1 == vs[i + 1]
                &&& forall|h: Seq<char>|
                    #[trigger] r.2.contains(h) <==> version_hashes(v, r.1).contains(h) && !version_hashes(
                        v,
                        r.0,
                    ).contains(h)
            },
        forall|i: int|
            0 <= i && i + 1 < n && (exists|h: Seq<char>|
                version_hashes(v, vs[i + 1]).contains(h) && !version_hashes(v, vs[i]).contains(h)) ==> exists|j: int|
                0 <= j < regressions_upto(v, vs, n).len() && (#[trigger] regressions_upto(v, vs, n)[j]).0 == vs[i]
                    && regressions_upto(v, vs, n)[j].1 == vs[#[trigger] (i + 1)],
    decreases n,
{
    if n >= 2 {
        let m = (n - 1) as nat;
        lemma_regressions_report_new_paths(v, vs, m);
        let p = regressions_upto(v, vs, m);
        let cur = regressions_upto(v, vs, n);
        let fresh = missing_from(version_hashes(v, vs[n - 1]), version_hashes(v, vs[n - 2]));
        lemma_missing_from(version_hashes(v, vs[n - 1]), version_hashes(v, vs[n - 2]));
        assert forall|j: int|
            0 <= j < cur.len() implies {
                let r = #[trigger] cur[j];
                &&& r.2.len() > 0
                &&& exists|i: int| 0 <= i && i + 1 < n && r.0 == #[trigger] vs[i] && r.1 == vs[i + 1]
                &&& forall|h: Seq<char>|
                    #[trigger] r.2.contains(h) <==> version_hashes(v, r.1).contains(h) && !version_hashes(
                        v,
                        r.0,
                    ).contains(h)
            } by {
            if j < p.len() {
                assert(cur[j] == p[j]);
                let r = p[j];
                let i = choose|i: int| 0 <= i && i + 1 < m && r.0 == #[trigger] vs[i] && r.1 == vs[i + 1];
                assert(0 <= i && i + 1 < n && r.0 == vs[i] && r.1 == vs[i + 1]);
            } else {
                assert(cur[j] == (vs[n - 2], vs[n - 1], fresh));
                assert(0 <= n - 2 && n - 2 + 1 < n && cur[j].0 == vs[n - 2] && cur[j].1 == vs[n - 2 + 1]);
            }
        }
        assert forall|i: int|
            0 <= i && i + 1 < n && (exists|h: Seq<char>|
                version_hashes(v, vs[i + 1]).contains(h) && !version_hashes(v, vs[i]).contains(h)) implies exists|j: int|
            0 <= j < cur.len() && (#[trigger] cur[j]).0 == vs[i] && cur[j].1 == vs[#[trigger] (i + 1)] by {
            if i + 1 < m {
                let j = choose|j: int| 0 <= j < p.len() && (#[trigger] p[j]).0 == vs[i] && p[j].1 == vs[i + 1];
                assert(cur[j] == p[j]);
            } else {
                let h = choose|h: Seq<char>| version_hashes(v, vs[i + 1]).contains(h) && !version_hashes(v, vs[i]).contains(h);
                assert(fresh.contains(h));
                assert(fresh.len() > 0);
                assert(cur[p.len() as int] == (vs[n - 2], vs[n - 1], fresh));
            }
        }
    }
}

/// Execution paths that appear in a version but not in the version before it.
pub struct Regression {
    pub from_version: String,
    pub to_version: String,
    pub hashes: Vec<String>,
}

/// A regression as texts: the two versions and the new hashes.
pub open spec fn regression_view(r: Regression) -> (Seq<char>, Seq<char>, Seq<Seq<char>>) {
    (r.from_version@, r.to_version@, texts(r.hashes@))
}

/// Regressions as texts.
pub open spec fn regression_views(r: Seq<Regression>) -> Seq<(Seq<char>, Seq<char>, Seq<Seq<char>>)> {
    r.map_values(|x: Regression| regression_view(x))
}

fn missing_exec(curr: &Vec<String>, prev: &Vec<String>) -> (r: Vec<String>)
    ensures
        texts(r@) == missing_from(texts(curr@), texts(prev@)),
{
    let n = curr.len();
    let mut out: Vec<String> = Vec::new();
    for k in 0..n
        invariant
            n == curr@.len(),
            texts(out@) == missing_from(texts(curr@).take(k as int), texts(prev@)),
    {
        let ghost t = texts(curr@);
        assert(t.take(k + 1).drop_last() =~= t.take(k as int));
        assert(t.take(k + 1).last() == curr@[k as int]@);
        if !contains_text(prev, &curr[k]) {
            out.push(curr[k].clone());
            assert(texts(out@) =~= missing_from(t.take(k as int), texts(prev@)).push(curr@[k as int]@));
        }
    }
    assert(texts(curr@).take(n as int) =~= texts(curr@));
    out
}

/// Finds, between each pair of consecutive versions (in ascending order) among the traces a
/// tenant may see, the execution paths (structural hashes) of the later version that the
/// earlier one did not have. Only traces with both a version and a structural hash count.
pub fn get_regressions(summaries: Vec<TraceSummary>, tenant: &Option<String>) -> (r: Vec<Regression>)
    ensures
        exists|vs: Seq<Seq<char>>|
            {
                let v = visible_summaries(summaries@, *tenant);
                &&& #[trigger] ascending(vs)
                &&& same_elements(vs, group_keys(v, GroupKey::Version))
                &&& regression_views(r@) == regressions_upto(v, vs, vs.len())
            },
{
    let visible = summaries_for_tenant(summaries, tenant);
    let ghost v = visible@;
    let groups = group_summaries(visible, GroupKey::Version);
    proof {
        lemma_keys_distinct(v, GroupKey::Version, v.len());
    }
    let ghost gs = groups@;
    let sorted = sort_groups(groups);
    let ghost ss = sorted@;
    let ghost vs = group_names(ss);
    proof {
        assert forall|x: Seq<char>| vs.contains(x) <==> group_keys(v, GroupKey::Version).contains(x) by {
            if vs.contains(x) {
                let j = choose|j: int| 0 <= j < vs.len() && vs[j] == x;
                assert(ss.contains(ss[j]));
                assert(gs.contains(ss[j]));
                let k = choose|k: int| 0 <= k < gs.len() && gs[k] == ss[j];
                assert(group_names(gs)[k] == x);
            }
            if group_keys(v, GroupKey::Version).contains(x) {
                let k = choose|k: int| 0 <= k < group_names(gs).len() && group_names(gs)[k] == x;
                assert(gs.contains(gs[k]));
                assert(ss.contains(gs[k]));
                let j = choose|j: int| 0 <= j < ss.len() && ss[j] == gs[k];
                assert(vs[j] == x);
            }
        }
    }
    let mut per_version: Vec<(String, Vec<String>)> = Vec::new();
    for g in it: sorted.into_iter()
        invariant
            it.seq() == ss,
            vs == group_names(ss),
            same_elements(ss, gs),
            forall|j: int| 0 <= j < gs.len() ==> (#[trigger] gs[j]).1@ == group_members(v, GroupKey::Version, gs[j].0@),
            per_version@.len() == it.index(),
            forall|j: int|
                0 <= j < per_version@.len() ==> (#[trigger] per_version@[j]).0@ == vs[j] && texts(per_version@[j].1@)
                    == version_hashes(v, vs[j]),
    {
        let ghost j = it.index() as int;
        proof {
            assert(ss.contains(ss[j]));
            assert(gs.contains(ss[j]));
            let k = choose|k: int| 0 <= k < gs.len() && gs[k] == ss[j];
            assert(gs[k].1@ == group_members(v, GroupKey::Version, gs[k].0@));
            assert(vs[j] == ss[j].0@);
        }
        let (ver, members) = g;
        let hs = group_summaries(members, GroupKey::Hash);
        let ghost hsv = hs@;
        let mut names: Vec<String> = Vec::new();
        for h in hit: hs.into_iter()
            invariant
                hit.seq() == hsv,
                texts(names@) == group_names(hsv).take(hit.index() as int),
        {
            let ghost q = hit.index() as int;
            let ghost before_names = names@;
            assert(hsv[q] == h);
            assert(group_names(hsv)[q] == h.0@);
            assert(group_names(hsv).take(q + 1) =~= group_names(hsv).take(q).push(h.0@));
            names.push(h.0);
            assert(texts(names@) =~= texts(before_names).push(h.0@));
            assert(texts(names@) =~= group_names(hsv).take(q + 1));
        }
        assert(group_names(hsv).take(hsv.len() as int) =~= group_names(hsv));
        per_version.push((ver, names));
    }
    let n = per_version.len();
    let mut out: Vec<Regression> = Vec::new();
    let mut j: usize = 1;
    while j < n
        invariant
            n == per_version@.len(),
            n == vs.len(),
            1 <= j <= n || n == 0,
            forall|q: int|
                0 <= q < per_version@.len() ==> (#[trigger] per_version@[q]).0@ == vs[q] && texts(per_version@[q].1@)
                    == version_hashes(v, vs[q]),
            regression_views(out@) == regressions_upto(v, vs, if n == 0 {
                0nat
            } else {
                j as nat
            }),
        decreases n - j,
    {
        let fresh = missing_exec(&per_version[j].1, &per_version[j - 1].1);
        let ghost before = out@;
        if fresh.len() > 0 {
            out.push(Regression {
                from_version: per_version[j - 1].0.clone(),
                to_version: per_version[j].0.clone(),
                hashes: fresh,
            });
            assert(regression_views(out@) =~= regression_views(before).push(regression_view(out@[before.len() as int])));
        }
        j = j + 1;
    }
    proof {
        if n == 0 {
            assert(regressions_upto(v, vs, vs.len()) == Seq::<(Seq<char>, Seq<char>, Seq<Seq<char>>)>::empty());
        }
        assert(same_elements(vs, group_keys(v, GroupKey::Version)));
    }
    out
}

} // verus!
