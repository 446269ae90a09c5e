//! Structural analysis of a trace's timeline: structural pattern and hash, span fingerprints,
//! timeline compression, integrity counts and the state heatmap.

use crate::hashing::{default_str_hash, hash_str};
use crate::models::{EventType, LocalVar, TraceEvent};
use crate::sorting::{
    indices_below, keys_ordered, lemma_sort_in_range, lemma_sort_members, lemma_sort_props, sort_indices_by_key,
    stable_sort_by_key,
};
use crate::text::{hex_lower, opt_str_eq, to_hex};
use vstd::prelude::*;

verus! {

/// `e` is an entry event whose parent span is `parent`.
pub open spec fn is_enter_child(e: TraceEvent, parent: Option<u128>) -> bool {
    e.parent_span_id == parent && e.event_type == EventType::FunctionEnter
}

/// Positions below `n`, in order, of the entry events whose parent span is `parent`.
pub open spec fn child_indices_upto(events: Seq<TraceEvent>, parent: Option<u128>, n: nat) -> Seq<usize>
    decreases n,
{
    if n == 0 {
        seq![]
    } else {
        let r = child_indices_upto(events, parent, (n - 1) as nat);
        if is_enter_child(events[n - 1], parent) {
            r.push((n - 1) as usize)
        } else {
            r
        }
    }
}

/// Positions, in event order, of the entry events whose parent span is `parent`.
pub open spec fn child_indices(events: Seq<TraceEvent>, parent: Option<u128>) -> Seq<usize> {
    child_indices_upto(events, parent, events.len())
}

/// The timestamps of the events, position by position.
pub open spec fn ts_keys(events: Seq<TraceEvent>) -> Seq<u64> {
    Seq::new(events.len(), |i: int| events[i].timestamp_ms)
}

/// The children of `parent`, stably sorted by timestamp.
pub open spec fn sorted_children(events: Seq<TraceEvent>, parent: Option<u128>) -> Seq<usize> {
    stable_sort_by_key(child_indices(events, parent), ts_keys(events), false)
}

/// `module.function` of an event.
pub open spec fn frame_label(e: TraceEvent) -> Seq<char> {
    e.module@ + seq!['.'] + e.function_name@
}

/// `(s)` when `s` is not empty, else nothing.
pub open spec fn wrap_nonempty(s: Seq<char>) -> Seq<char> {
    if s.len() == 0 {
        s
    } else {
        seq!['('] + s + seq![')']
    }
}

/// The structural pattern below `parent`, looking at most `fuel` levels deeper: each child in
/// timestamp order as `module.function`, followed by its own pattern in parentheses if that is
/// not empty.
pub open spec fn pattern(events: Seq<TraceEvent>, parent: Option<u128>, fuel: nat) -> Seq<char>
    decreases fuel, 0nat,
{
    if fuel == 0 {
        seq![]
    } else {
        kids_pattern(events, sorted_children(events, parent), (fuel - 1) as nat)
    }
}

/// The pattern of a list of sibling positions.
pub open spec fn kids_pattern(events: Seq<TraceEvent>, kids: Seq<usize>, fuel: nat) -> Seq<char>
    decreases fuel, kids.len() + 1,
{
    if kids.len() == 0 {
        seq![]
    } else {
        let k = kids.last();
        let sub = if k >= events.len() {
            seq![]
        } else {
            pattern(events, Some(events[k as int].span_id), fuel)
        };
        kids_pattern(events, kids.drop_last(), fuel) + frame_label(events[k as int]) + wrap_nonempty(sub)
    }
}

/// Every chain of entry events that starts at `parent` is at most `fuel` long, so that walking
/// the span tree from `parent` ends.
pub open spec fn chains_bounded(events: Seq<TraceEvent>, parent: Option<u128>, fuel: nat) -> bool
    decreases fuel,
{
    forall|i: int|
        0 <= i < events.len() && #[trigger] is_enter_child(events[i], parent) ==> fuel > 0
            && chains_bounded(events, Some(events[i].span_id), (fuel - 1) as nat)
}

/// The span tree of the events is finite: the chains of entry events starting at the roots
/// are of bounded length, so none revisits a span. (On other inputs the walk from the roots
/// never ends.)
pub open spec fn span_tree_finite(events: Seq<TraceEvent>) -> bool {
    exists|f: nat| chains_bounded(events, None, f)
}

/// A bound on the length of the chains from the roots (when the span tree is finite).
pub open spec fn tree_depth(events: Seq<TraceEvent>) -> nat {
    choose|f: nat| chains_bounded(events, None, f)
}

/// The structural pattern of a whole trace, from its root spans.
pub open spec fn structural_pattern_spec(events: Seq<TraceEvent>) -> Seq<char> {
    pattern(events, None, tree_depth(events))
}

fn opt_u128_eq(a: Option<u128>, b: Option<u128>) -> (r: bool)
    ensures
        r == (a == b),
{
    match (a, b) {
        (Some(x), Some(y)) => x == y,
        (None, None) => true,
        _ => false,
    }
}

proof fn lemma_child_indices_in_range(events: Seq<TraceEvent>, parent: Option<u128>, n: nat)
    requires
        n <= events.len(),
        events.len() <= usize::MAX,
    ensures
        indices_below(child_indices_upto(events, parent, n), n),
        forall|j: int|
            0 <= j < child_indices_upto(events, parent, n).len() ==> is_enter_child(
                events[#[trigger] child_indices_upto(events, parent, n)[j] as int],
                parent,
            ),
    decreases n,
{
    if n > 0 {
        lemma_child_indices_in_range(events, parent, (n - 1) as nat);
        let r0 = child_indices_upto(events, parent, (n - 1) as nat);
        let r = child_indices_upto(events, parent, n);
        assert forall|j: int| 0 <= j < r.len() implies is_enter_child(events[#[trigger] r[j] as int], parent) by {
            if is_enter_child(events[n - 1], parent) {
                assert(r == r0.push((n - 1) as usize));
                if j < r0.len() {
                    assert(r[j] == r0[j]);
                } else {
                    assert(r[j] == n - 1);
                }
            } else {
                assert(r == r0);
            }
        }
    }
}

/// Positions of the entry events whose parent span is `parent`.
fn child_indices_exec(events: &Vec<TraceEvent>, parent: Option<u128>) -> (r: Vec<usize>)
    ensures
        r@ == child_indices(events@, parent),
        indices_below(r@, events@.len()),
{
    let mut r: Vec<usize> = Vec::new();
    let n = events.len();
    for i in 0..n
        invariant
            n == events@.len(),
            r@ == child_indices_upto(events@, parent, i as nat),
    {
        if opt_u128_eq(events[i].parent_span_id, parent) && events[i].event_type == EventType::FunctionEnter {
            r.push(i);
        }
    }
    proof {
        lemma_child_indices_in_range(events@, parent, n as nat);
    }
    r
}

/// The timestamps of the events.
fn ts_keys_exec(events: &Vec<TraceEvent>) -> (r: Vec<u64>)
    ensures
        r@ == ts_keys(events@),
{
    let mut r: Vec<u64> = Vec::new();
    let n = events.len();
    for i in 0..n
        invariant
            n == events@.len(),
            r@.len() == i,
            forall|j: int| 0 <= j < i ==> r@[j] == events@[j].timestamp_ms,
    {
        r.push(events[i].timestamp_ms);
    }
    assert(r@ =~= ts_keys(events@));
    r
}

/// The children of `parent` sorted by timestamp.
fn sorted_children_exec(events: &Vec<TraceEvent>, keys: &Vec<u64>, parent: Option<u128>) -> (r: Vec<usize>)
    requires
        keys@ == ts_keys(events@),
    ensures
        r@ == sorted_children(events@, parent),
        indices_below(r@, events@.len()),
{
    let kids = child_indices_exec(events, parent);
    sort_indices_by_key(&kids, keys, false)
}

fn append_label(out: &mut String, e: &TraceEvent)
    ensures
        final(out)@ == old(out)@ + frame_label(*e),
{
    out.append(e.module.as_str());
    let dot = ".";
    proof {
        reveal_strlit(".");
    }
    out.append(dot);
    out.append(e.function_name.as_str());
    assert(final(out)@ =~= old(out)@ + frame_label(*e));
}

fn append_wrapped(out: &mut String, sub: &String)
    ensures
        final(out)@ == old(out)@ + wrap_nonempty(sub@),
{
    if sub.as_str().is_empty() {
        assert(final(out)@ =~= old(out)@ + wrap_nonempty(sub@));
    } else {
        let open = "(";
        let close = ")";
        proof {
            reveal_strlit("(");
            reveal_strlit(")");
        }
        out.append(open);
        out.append(sub.as_str());
        out.append(close);
        assert(final(out)@ =~= old(out)@ + wrap_nonempty(sub@));
    }
}

fn build_pattern(events: &Vec<TraceEvent>, keys: &Vec<u64>, parent: Option<u128>, Ghost(fuel): Ghost<nat>) -> (r: String)
    requires
        keys@ == ts_keys(events@),
        chains_bounded(events@, parent, fuel),
    ensures
        r@ == pattern(events@, parent, fuel),
    decreases fuel,
{
    let kids = sorted_children_exec(events, keys, parent);
    let ghost ci = child_indices(events@, parent);
    let n_events = events.len();
    proof {
        lemma_child_indices_in_range(events@, parent, events@.len());
        lemma_sort_members(ci, keys@, false);
        assert forall|q: int| 0 <= q < kids@.len() implies is_enter_child(events@[#[trigger] kids@[q] as int], parent) by {
            assert(ci.contains(kids@[q]));
            let w = choose|w: int| 0 <= w < ci.len() && ci[w] == kids@[q];
            assert(is_enter_child(events@[ci[w] as int], parent));
        }
    }
    let mut out = String::new();
    let m = kids.len();
    for j in 0..m
        invariant
            m == kids@.len(),
            kids@ == sorted_children(events@, parent),
            indices_below(kids@, events@.len()),
            keys@ == ts_keys(events@),
            chains_bounded(events@, parent, fuel),
            out@ == kids_pattern(events@, kids@.take(j as int), (fuel - 1) as nat),
            forall|q: int| 0 <= q < kids@.len() ==> is_enter_child(events@[#[trigger] kids@[q] as int], parent),
    {
        let k = kids[j];
        assert(kids@.take(j + 1).drop_last() =~= kids@.take(j as int));
        assert(kids@.take(j + 1).last() == k);
        assert(is_enter_child(events@[k as int], parent));
        append_label(&mut out, &events[k]);
        let sub = build_pattern(events, keys, Some(events[k].span_id), Ghost((fuel - 1) as nat));
        assert(fuel > 0);
        append_wrapped(&mut out, &sub);
    }
    assert(kids@.take(m as int) =~= kids@);
    out
}

/// The structural pattern of a trace: every root span in timestamp order as
/// `module.function`, each followed by the pattern of its children in parentheses.
pub fn structural_pattern(events: &Vec<TraceEvent>) -> (r: String)
    requires
        span_tree_finite(events@),
    ensures
        r@ == structural_pattern_spec(events@),
{
    let keys = ts_keys_exec(events);
    build_pattern(events, &keys, None, Ghost(tree_depth(events@)))
}

/// The structural hash of a trace: the lowercase hex of std's default hash of its structural
/// pattern. It depends on which functions called which, and in what order, not on any value.
pub fn calculate_structural_hash(events: &Vec<TraceEvent>) -> (r: String)
    requires
        span_tree_finite(events@),
    ensures
        r@ == hex_lower(default_str_hash(structural_pattern_spec(events@)) as nat),
{
    let p = structural_pattern(events);
    to_hex(hash_str(p.as_str()))
}


// ── Span fingerprints ────────────────────────────────────────────────────────

/// The position of the last event below `n` whose span id is `s`, or -1.
pub open spec fn last_index_upto(events: Seq<TraceEvent>, s: u128, n: nat) -> int
    decreases n,
{
    if n == 0 {
        -1
    } else if events[n - 1].span_id == s {
        n - 1
    } else {
        last_index_upto(events, s, (n - 1) as nat)
    }
}

/// The position of the last event whose span id is `s`, or -1.
pub open spec fn last_index(events: Seq<TraceEvent>, s: u128) -> int {
    last_index_upto(events, s, events.len())
}

/// The fingerprints of the spans at positions `kids`, joined by `|`.
pub open spec fn fp_join(events: Seq<TraceEvent>, kids: Seq<usize>, fuel: nat) -> Seq<char>
    decreases fuel, kids.len() + 1,
{
    if kids.len() == 0 {
        seq![]
    } else {
        let k = kids.last();
        let child = if fuel == 0 || k >= events.len() {
            seq![]
        } else {
            fingerprint_of(events, events[k as int].span_id, (fuel - 1) as nat)
        };
        if kids.len() == 1 {
            child
        } else {
            fp_join(events, kids.drop_last(), fuel) + seq!['|'] + child
        }
    }
}

/// The text that is hashed into the fingerprint of span `s`: `module.function` of the last entry
/// event of that span, followed, if the span has child entries, by their fingerprints in event
/// order, joined by `|`, in parentheses.
pub open spec fn fp_pattern(events: Seq<TraceEvent>, s: u128, fuel: nat) -> Seq<char>
    decreases fuel + 1, 0nat,
{
    let idx = last_of_type(events, s, EventType::FunctionEnter, events.len());
    let label = if 0 <= idx < events.len() {
        frame_label(events[idx])
    } else {
        seq![]
    };
    let kids = child_indices(events, Some(s));
    if kids.len() > 0 {
        label + seq!['('] + fp_join(events, kids, fuel) + seq![')']
    } else {
        label
    }
}

/// The fingerprint of span `s`: lowercase hex of std's default hash of its fingerprint text.
pub open spec fn fingerprint_of(events: Seq<TraceEvent>, s: u128, fuel: nat) -> Seq<char>
    decreases fuel + 1, 1nat,
{
    hex_lower(default_str_hash(fp_pattern(events, s, fuel)) as nat)
}

/// Span `s` is `span` or lies below it, at most `fuel` levels down.
pub open spec fn in_subtree(events: Seq<TraceEvent>, span: u128, fuel: nat, s: u128) -> bool
    decreases fuel, 0nat,
{
    s == span || (fuel > 0 && kids_cover(events, child_indices(events, Some(span)), (fuel - 1) as nat, s))
}

/// Span `s` lies in the subtree of one of the spans at positions `kids`.
pub open spec fn kids_cover(events: Seq<TraceEvent>, kids: Seq<usize>, fuel: nat, s: u128) -> bool
    decreases fuel, kids.len() + 1,
{
    kids.len() > 0 && (kids_cover(events, kids.drop_last(), fuel, s) || (kids.last() < events.len()
        && in_subtree(events, events[kids.last() as int].span_id, fuel, s)))
}

/// Event `k` is where its span's fingerprint goes: the (last) entry event of the span.
pub open spec fn fp_slot(events: Seq<TraceEvent>, k: int) -> bool {
    &&& events[k].event_type == EventType::FunctionEnter
    &&& last_of_type(events, events[k].span_id, EventType::FunctionEnter, events.len()) == k
}

/// The chains of entry events below span `s` are of bounded length.
pub open spec fn subtree_finite(events: Seq<TraceEvent>, s: u128) -> bool {
    exists|f: nat| chains_bounded(events, Some(s), f)
}

/// Event `k` receives a fingerprint: it is the (last) entry event of a span whose subtree is
/// finite. A span with a loop of parent links below it has no fingerprint.
pub open spec fn fingerprint_target(events: Seq<TraceEvent>, k: int) -> bool {
    &&& fp_slot(events, k)
    &&& subtree_finite(events, events[k].span_id)
}

proof fn lemma_in_subtree_finite(events: Seq<TraceEvent>, span: u128, f: nat, s: u128)
    requires
        in_subtree(events, span, f, s),
        chains_bounded(events, Some(span), f),
        events.len() <= usize::MAX,
    ensures
        subtree_finite(events, s),
    decreases f, 0nat,
{
    if s != span {
        let ci = child_indices(events, Some(span));
        lemma_child_indices_in_range(events, Some(span), events.len());
        lemma_kids_cover_finite(events, span, ci, (f - 1) as nat, s);
    }
}

proof fn lemma_kids_cover_finite(events: Seq<TraceEvent>, span: u128, kids: Seq<usize>, f: nat, s: u128)
    requires
        kids_cover(events, kids, f, s),
        chains_bounded(events, Some(span), f + 1),
        events.len() <= usize::MAX,
        indices_below(kids, events.len()),
        forall|q: int| 0 <= q < kids.len() ==> is_enter_child(events[#[trigger] kids[q] as int], Some(span)),
    ensures
        subtree_finite(events, s),
    decreases f, kids.len() + 1,
{
    let d = kids.drop_last();
    if kids_cover(events, d, f, s) {
        assert forall|q: int| 0 <= q < d.len() implies is_enter_child(events[#[trigger] d[q] as int], Some(span)) by {
            assert(d[q] == kids[q]);
        }
        lemma_kids_cover_finite(events, span, d, f, s);
    } else {
        let k = kids.last();
        assert(is_enter_child(events[kids[kids.len() - 1] as int], Some(span)));
        assert(chains_bounded(events, Some(events[k as int].span_id), f));
        lemma_in_subtree_finite(events, events[k as int].span_id, f, s);
    }
}

pub(crate) proof fn lemma_last_index(events: Seq<TraceEvent>, s: u128, n: nat)
    requires
        n <= events.len(),
    ensures
        -1 <= last_index_upto(events, s, n) < n,
        last_index_upto(events, s, n) >= 0 ==> events[last_index_upto(events, s, n)].span_id == s,
        (exists|i: int| 0 <= i < n && events[i].span_id == s) ==> last_index_upto(events, s, n) >= 0,
    decreases n,
{
    if n > 0 {
        lemma_last_index(events, s, (n - 1) as nat);
        if events[n - 1].span_id != s {
            if exists|i: int| 0 <= i < n && events[i].span_id == s {
                let i = choose|i: int| 0 <= i < n && events[i].span_id == s;
                assert(i < n - 1);
            }
        }
    }
}

proof fn lemma_fp_fuel(events: Seq<TraceEvent>, s: u128, f: nat, g: nat)
    requires
        chains_bounded(events, Some(s), f),
        f <= g,
        events.len() <= usize::MAX,
    ensures
        fingerprint_of(events, s, f) == fingerprint_of(events, s, g),
    decreases f + 1, 0nat,
{
    let kids = child_indices(events, Some(s));
    lemma_child_indices_in_range(events, Some(s), events.len());
    lemma_join_fuel(events, kids, f, g, s);
    assert(fp_pattern(events, s, f) == fp_pattern(events, s, g));
}

proof fn lemma_join_fuel(events: Seq<TraceEvent>, kids: Seq<usize>, f: nat, g: nat, s: u128)
    requires
        chains_bounded(events, Some(s), f),
        f <= g,
        events.len() <= usize::MAX,
        indices_below(kids, events.len()),
        forall|q: int| 0 <= q < kids.len() ==> is_enter_child(events[#[trigger] kids[q] as int], Some(s)),
    ensures
        fp_join(events, kids, f) == fp_join(events, kids, g),
    decreases f, kids.len(),
{
    if kids.len() > 0 {
        let k = kids.last();
        assert(is_enter_child(events[kids[kids.len() - 1] as int], Some(s)));
        assert(f > 0 && chains_bounded(events, Some(events[k as int].span_id), (f - 1) as nat));
        lemma_fp_fuel(events, events[k as int].span_id, (f - 1) as nat, (g - 1) as nat);
        let d = kids.drop_last();
        assert forall|q: int| 0 <= q < d.len() implies is_enter_child(events[#[trigger] d[q] as int], Some(s)) by {
            assert(d[q] == kids[q]);
        }
        lemma_join_fuel(events, d, f, g, s);
    }
}

fn compute_fp(
    events: &Vec<TraceEvent>,
    span: u128,
    fps: &mut Vec<Option<String>>,
    Ghost(f): Ghost<nat>,
    Ghost(big): Ghost<nat>,
) -> (r: String)
    requires
        chains_bounded(events@, Some(span), f),
        f <= big,
        old(fps)@.len() == events@.len(),
        exists|i: int| 0 <= i < events@.len() && events@[i].span_id == span && events@[i].event_type == EventType::FunctionEnter,
    ensures
        r@ == fingerprint_of(events@, span, f),
        final(fps)@.len() == events@.len(),
        forall|k: int|
            0 <= k < events@.len() ==> if in_subtree(events@, span, f, events@[k].span_id) && fp_slot(events@, k) {
                (#[trigger] final(fps)@[k]) is Some && final(fps)@[k].unwrap()@ == fingerprint_of(
                    events@,
                    events@[k].span_id,
                    big,
                )
            } else {
                final(fps)@[k] == old(fps)@[k]
            },
    decreases f,
{
    let n = events.len();
    proof {
        lemma_last_of_type(events@, span, EventType::FunctionEnter, events@.len());
    }
    let idx = match last_of_type_exec(events, span, EventType::FunctionEnter) {
        Some(i) => i,
        None => {
            assert(false);
            0
        },
    };
    let kids = child_indices_exec(events, Some(span));
    proof {
        lemma_child_indices_in_range(events@, Some(span), events@.len());
    }
    let mut pat = String::new();
    append_label(&mut pat, &events[idx]);
    let ghost label = frame_label(events@[idx as int]);
    let ghost fps0 = fps@;
    let mut joined = String::new();
    let m = kids.len();
    for j in 0..m
        invariant
            n == events@.len(),
            m == kids@.len(),
            kids@ == child_indices(events@, Some(span)),
            indices_below(kids@, events@.len()),
            forall|q: int| 0 <= q < kids@.len() ==> is_enter_child(events@[#[trigger] kids@[q] as int], Some(span)),
            chains_bounded(events@, Some(span), f),
            f <= big,
            joined@ == fp_join(events@, kids@.take(j as int), f),
            fps@.len() == n,
            forall|k: int|
                0 <= k < n ==> if kids_cover(events@, kids@.take(j as int), (f - 1) as nat, events@[k].span_id)
                    && fp_slot(events@, k) {
                    (#[trigger] fps@[k]) is Some && fps@[k].unwrap()@ == fingerprint_of(
                        events@,
                        events@[k].span_id,
                        big,
                    )
                } else {
                    fps@[k] == fps0[k]
                },
    {
        let k = kids[j];
        assert(kids@.take(j + 1).drop_last() =~= kids@.take(j as int));
        assert(kids@.take(j + 1).last() == k);
        assert(is_enter_child(events@[k as int], Some(span)));
        assert(f > 0);
        let ghost before = fps@;
        let child = compute_fp(events, events[k].span_id, fps, Ghost((f - 1) as nat), Ghost(big));
        if j > 0 {
            let bar = "|";
            proof {
                reveal_strlit("|");
            }
            joined.append(bar);
        }
        joined.append(child.as_str());
        assert(joined@ =~= fp_join(events@, kids@.take(j + 1), f));
    }
    assert(kids@.take(m as int) =~= kids@);
    if m > 0 {
        let open = "(";
        let close = ")";
        proof {
            reveal_strlit("(");
            reveal_strlit(")");
        }
        pat.append(open);
        pat.append(joined.as_str());
        pat.append(close);
    }
    assert(pat@ =~= fp_pattern(events@, span, f));
    let fp = to_hex(hash_str(pat.as_str()));
    proof {
        lemma_fp_fuel(events@, span, f, big);
    }
    fps.set(idx, Some(fp.clone()));
    fp
}

/// `after` is `before` with fingerprints applied: the (last) entry event of every span carries
/// that span's fingerprint, and nothing else differs.
pub open spec fn fingerprints_applied(before: Seq<TraceEvent>, after: Seq<TraceEvent>) -> bool {
    &&& after.len() == before.len()
    &&& forall|k: int|
        0 <= k < before.len() ==> if fingerprint_target(before, k) {
            &&& (#[trigger] after[k]).fingerprint is Some
            &&& after[k].fingerprint.unwrap()@ == fingerprint_of(before, before[k].span_id, before.len())
            &&& after[k] == (TraceEvent { fingerprint: after[k].fingerprint, ..before[k] })
        } else {
            after[k] == before[k]
        }
}

/// Applying fingerprints moves nothing in the span tree.
pub proof fn lemma_fingerprints_shapes(before: Seq<TraceEvent>, after: Seq<TraceEvent>)
    requires
        fingerprints_applied(before, after),
    ensures
        shapes_within(after, before),
        shapes_within(before, after),
{
    assert forall|j: int| 0 <= j < after.len() implies #[trigger] has_shape(before, after[j]) by {
        assert(same_shape(after[j], before[j]));
    }
    assert forall|j: int| 0 <= j < before.len() implies #[trigger] has_shape(after, before[j]) by {
        assert(same_shape(before[j], after[j]));
    }
}

/// Computes the fingerprint of every span of the trace whose subtree is finite and stores it on
/// the span's (last) entry event.
pub fn calculate_span_fingerprints(events: &mut Vec<TraceEvent>)
    ensures
        fingerprints_applied(old(events)@, final(events)@),
{
    let n = events.len();
    let ghost ev = events@;
    let mut fps: Vec<Option<String>> = Vec::new();
    for i in 0..n
        invariant
            fps@.len() == i,
            forall|k: int| 0 <= k < i ==> fps@[k] is None,
    {
        fps.push(None);
    }
    for i in 0..n
        invariant
            n == events@.len(),
            ev == events@,
            fps@.len() == n,
            forall|k: int|
                0 <= k < n ==> ((#[trigger] fps@[k]) is Some ==> fingerprint_target(events@, k) && fps@[k].unwrap()@
                    == fingerprint_of(events@, events@[k].span_id, n as nat)),
            forall|k: int| 0 <= k < i && fingerprint_target(events@, k) ==> (#[trigger] fps@[k]) is Some,
    {
        let span = events[i].span_id;
        proof {
            lemma_bounded_within_len(events@, Some(span));
        }
        if events[i].event_type == EventType::FunctionEnter && fps[i].is_none() && chains_bounded_exec(
            events,
            Some(span),
            n,
        ) {
            proof {
                lemma_last_of_type(events@, span, EventType::FunctionEnter, n as nat);
            }
            let ghost before = fps@;
            let _ = compute_fp(events, span, &mut fps, Ghost(n as nat), Ghost(n as nat));
            proof {
                assert forall|k: int| 0 <= k < n && (#[trigger] fps@[k]) is Some implies fingerprint_target(events@, k)
                    && fps@[k].unwrap()@ == fingerprint_of(events@, events@[k].span_id, n as nat) by {
                    if in_subtree(events@, span, n as nat, events@[k].span_id) && fp_slot(events@, k) {
                        lemma_in_subtree_finite(events@, span, n as nat, events@[k].span_id);
                    } else {
                        assert(fps@[k] == before[k]);
                    }
                }
                assert forall|k: int| 0 <= k < i + 1 && fingerprint_target(events@, k) implies (#[trigger] fps@[k]) is Some by {
                    if k == i {
                        assert(in_subtree(events@, span, n as nat, events@[k].span_id));
                    } else if !in_subtree(events@, span, n as nat, events@[k].span_id) {
                        assert(fps@[k] == before[k]);
                    }
                }
            }
        } else {
            proof {
                if fingerprint_target(events@, i as int) {
                    assert(fps@[i as int] is Some);
                }
            }
        }
    }
    let mut old_events: Vec<TraceEvent> = Vec::new();
    std::mem::swap(events, &mut old_events);
    let mut fps_iter = fps;
    let mut idx: usize = 0;
    for e in it: old_events.into_iter()
        invariant
            it.seq() == ev,
            idx == it.index(),
            n == ev.len(),
            fps_iter@.len() == n,
            events@.len() == idx,
            forall|k: int|
                0 <= k < idx ==> if fps_iter@[k] is Some {
                    #[trigger] events@[k] == (TraceEvent { fingerprint: fps_iter@[k], ..ev[k] })
                } else {
                    events@[k] == ev[k]
                },
    {
        let mut e = e;
        if fps_iter[idx].is_some() {
            e.fingerprint = fps_iter[idx].clone();
        }
        events.push(e);
        idx = idx + 1;
    }
}


// ── Finite span trees ────────────────────────────────────────────────────────

/// The parent span the `j`-th link of chain `c` hangs from: `p` for the first link, else the
/// span of the link before it.
pub open spec fn chain_parent(events: Seq<TraceEvent>, p: Option<u128>, c: Seq<int>, j: int) -> Option<u128> {
    if j == 0 {
        p
    } else {
        Some(events[c[j - 1]].span_id)
    }
}

/// The `j`-th link of `c` is an entry event that hangs from the link before it.
pub open spec fn chain_link(events: Seq<TraceEvent>, p: Option<u128>, c: Seq<int>, j: int) -> bool {
    0 <= c[j] < events.len() && is_enter_child(events[c[j]], chain_parent(events, p, c, j))
}

/// `c` lists the positions of a chain of entry events starting below `p`.
pub open spec fn is_chain(events: Seq<TraceEvent>, p: Option<u128>, c: Seq<int>) -> bool {
    forall|j: int| 0 <= j < c.len() ==> #[trigger] chain_link(events, p, c, j)
}

proof fn lemma_long_chain(events: Seq<TraceEvent>, p: Option<u128>, m: nat) -> (c: Seq<int>)
    requires
        !chains_bounded(events, p, m),
    ensures
        is_chain(events, p, c),
        c.len() == m + 1,
    decreases m,
{
    let i = choose|i: int|
        0 <= i < events.len() && #[trigger] is_enter_child(events[i], p) && !(m > 0 && chains_bounded(
            events,
            Some(events[i].span_id),
            (m - 1) as nat,
        ));
    if m == 0 {
        let c = seq![i];
        assert(chain_link(events, p, c, 0));
        c
    } else {
        let q = Some(events[i].span_id);
        let c2 = lemma_long_chain(events, q, (m - 1) as nat);
        let c = seq![i] + c2;
        assert forall|j: int| 0 <= j < c.len() implies #[trigger] chain_link(events, p, c, j) by {
            if j > 0 {
                assert(c[j] == c2[j - 1]);
                assert(chain_link(events, q, c2, j - 1));
                if j > 1 {
                    assert(c[j - 1] == c2[j - 2]);
                }
            }
        }
        c
    }
}

proof fn lemma_chain_within(events: Seq<TraceEvent>, p: Option<u128>, f: nat, c: Seq<int>)
    requires
        chains_bounded(events, p, f),
        is_chain(events, p, c),
    ensures
        c.len() <= f,
    decreases f,
{
    if c.len() > 0 {
        assert(chain_link(events, p, c, 0));
        let i = c[0];
        assert(is_enter_child(events[i], p));
        let q = Some(events[i].span_id);
        let d = c.drop_first();
        assert forall|j: int| 0 <= j < d.len() implies #[trigger] chain_link(events, q, d, j) by {
            assert(chain_link(events, p, c, j + 1));
            assert(d[j] == c[j + 1]);
            if j > 0 {
                assert(d[j - 1] == c[j]);
            }
        }
        lemma_chain_within(events, q, (f - 1) as nat, d);
    }
}

proof fn lemma_pump_chain(events: Seq<TraceEvent>, p: Option<u128>, c: Seq<int>, a: int, b: int, f: nat) -> (d: Seq<int>)
    requires
        is_chain(events, p, c),
        0 <= a < b < c.len(),
        c[a] == c[b],
    ensures
        is_chain(events, p, d),
        d.len() > f,
    decreases if c.len() <= f {
        f + 1 - c.len()
    } else {
        0
    },
{
    if c.len() > f {
        c
    } else {
        let d = c.take(b + 1) + c.skip(a + 1);
        assert forall|j: int| 0 <= j < d.len() implies #[trigger] chain_link(events, p, d, j) by {
            if j <= b {
                assert(d[j] == c[j]);
                assert(chain_link(events, p, c, j));
                if j > 0 {
                    assert(d[j - 1] == c[j - 1]);
                }
            } else {
                let k = j - b + a;
                assert(d[j] == c[k]);
                assert(chain_link(events, p, c, k));
                if j == b + 1 {
                    assert(d[j - 1] == c[b]);
                } else {
                    assert(d[j - 1] == c[k - 1]);
                }
            }
        }
        assert(d[a] == c[a] && d[b] == c[b]);
        assert(d.len() == c.len() + b - a);
        lemma_pump_chain(events, p, d, a, b, f)
    }
}

proof fn lemma_chain_repeats(events: Seq<TraceEvent>, p: Option<u128>, c: Seq<int>) -> (ab: (int, int))
    requires
        is_chain(events, p, c),
        c.len() > events.len(),
    ensures
        0 <= ab.0 < ab.1 < c.len(),
        c[ab.0] == c[ab.1],
{
    if c.no_duplicates() {
        c.unique_seq_to_set();
        vstd::set_lib::lemma_int_range(0, events.len() as int);
        assert forall|x: int| c.to_set().contains(x) implies vstd::set_lib::set_int_range(0, events.len() as int).contains(x) by {
            let j = choose|j: int| 0 <= j < c.len() && c[j] == x;
            assert(chain_link(events, p, c, j));
        }
        vstd::set_lib::lemma_len_subset(c.to_set(), vstd::set_lib::set_int_range(0, events.len() as int));
        assert(false);
        (0, 1)
    } else {
        let (i, j) = choose|i: int, j: int| 0 <= i < c.len() && 0 <= j < c.len() && i != j && c[i] == c[j];
        if i < j {
            (i, j)
        } else {
            (j, i)
        }
    }
}

/// The chains below `p` are of bounded length exactly when they are no longer than the number
/// of events.
proof fn lemma_bounded_within_len(events: Seq<TraceEvent>, p: Option<u128>)
    ensures
        (exists|f: nat| chains_bounded(events, p, f)) <==> chains_bounded(events, p, events.len()),
{
    if exists|f: nat| chains_bounded(events, p, f) {
        let f = choose|f: nat| chains_bounded(events, p, f);
        if !chains_bounded(events, p, events.len()) {
            let c = lemma_long_chain(events, p, events.len());
            let (a, b) = lemma_chain_repeats(events, p, c);
            let d = lemma_pump_chain(events, p, c, a, b, f);
            lemma_chain_within(events, p, f, d);
        }
    }
}

/// A span tree is finite exactly when its chains from the roots are no longer than the number
/// of events: a longer chain repeats an event, and the loop it closes can be walked forever.
pub proof fn lemma_finite_within_len(events: Seq<TraceEvent>)
    ensures
        span_tree_finite(events) <==> chains_bounded(events, None, events.len()),
{
    if span_tree_finite(events) && !chains_bounded(events, None, events.len()) {
        let f = tree_depth(events);
        let c = lemma_long_chain(events, None, events.len());
        let (a, b) = lemma_chain_repeats(events, None, c);
        let d = lemma_pump_chain(events, None, c, a, b, f);
        lemma_chain_within(events, None, f, d);
    }
}

fn chains_bounded_exec(events: &Vec<TraceEvent>, p: Option<u128>, f: usize) -> (r: bool)
    ensures
        r == chains_bounded(events@, p, f as nat),
    decreases f,
{
    let n = events.len();
    for i in 0..n
        invariant
            n == events@.len(),
            forall|k: int|
                0 <= k < i && #[trigger] is_enter_child(events@[k], p) ==> f > 0 && chains_bounded(
                    events@,
                    Some(events@[k].span_id),
                    (f - 1) as nat,
                ),
    {
        if events[i].event_type == EventType::FunctionEnter && opt_u128_eq(events[i].parent_span_id, p) {
            assert(is_enter_child(events@[i as int], p));
            if f == 0 {
                return false;
            }
            if !chains_bounded_exec(events, Some(events[i].span_id), f - 1) {
                return false;
            }
        }
    }
    true
}

/// Whether the span tree of the events is finite, so that walking it from its roots ends.
pub fn span_tree_is_finite(events: &Vec<TraceEvent>) -> (r: bool)
    ensures
        r == span_tree_finite(events@),
{
    proof {
        lemma_finite_within_len(events@);
    }
    chains_bounded_exec(events, None, events.len())
}

// ── Timeline compression ─────────────────────────────────────────────────────

/// The fingerprint of event `k`, by its text.
pub open spec fn fpv(events: Seq<TraceEvent>, k: usize) -> Option<Seq<char>> {
    match events[k as int].fingerprint {
        Some(f) => Some(f@),
        None => None,
    }
}

/// The events at sorted positions `a` and `b` of group `g` carry the same fingerprint.
pub open spec fn same_fp(events: Seq<TraceEvent>, g: Seq<usize>, a: int, b: int) -> bool {
    fpv(events, g[a]) == fpv(events, g[b])
}

/// Position `p` of the sorted sibling group `g` continues a run: it carries a fingerprint equal
/// to that of the sibling before it, so it is folded into the run's first event.
pub open spec fn folded_at(events: Seq<TraceEvent>, g: Seq<usize>, p: int) -> bool {
    1 <= p < g.len() && fpv(events, g[p]) is Some && same_fp(events, g, p, p - 1)
}

/// The end of the run of equal fingerprints that contains position `j - 1`, scanning from `j`.
pub open spec fn run_end(events: Seq<TraceEvent>, g: Seq<usize>, p: int, j: int) -> int
    decreases g.len() - j,
{
    if 0 <= j < g.len() && same_fp(events, g, j, p) {
        run_end(events, g, p, j + 1)
    } else {
        j
    }
}

/// Position `p` starts a run of at least two siblings with the same fingerprint.
pub open spec fn head_at(events: Seq<TraceEvent>, g: Seq<usize>, p: int) -> bool {
    &&& 0 <= p < g.len()
    &&& fpv(events, g[p]) is Some
    &&& (p == 0 || !same_fp(events, g, p, p - 1))
    &&& p + 1 < g.len()
    &&& same_fp(events, g, p + 1, p)
}

/// The (span, run length) of each run head among the first `p` positions of group `g`.
pub open spec fn group_heads(events: Seq<TraceEvent>, g: Seq<usize>, p: nat) -> Seq<(u128, u32)>
    decreases p,
{
    if p == 0 {
        seq![]
    } else {
        let prev = group_heads(events, g, (p - 1) as nat);
        let q = p - 1;
        if head_at(events, g, q) {
            prev.push((events[g[q] as int].span_id, (run_end(events, g, q, q + 1) - q) as u32))
        } else {
            prev
        }
    }
}

/// The spans folded away among the first `p` positions of group `g`.
pub open spec fn group_folded(events: Seq<TraceEvent>, g: Seq<usize>, p: nat) -> Seq<u128>
    decreases p,
{
    if p == 0 {
        seq![]
    } else {
        let prev = group_folded(events, g, (p - 1) as nat);
        if folded_at(events, g, p - 1) {
            prev.push(events[g[p - 1] as int].span_id)
        } else {
            prev
        }
    }
}

/// The distinct parent spans of the entry events among the first `n`, in order of first appearance.
pub open spec fn distinct_parents(events: Seq<TraceEvent>, n: nat) -> Seq<Option<u128>>
    decreases n,
{
    if n == 0 {
        seq![]
    } else {
        let prev = distinct_parents(events, (n - 1) as nat);
        let e = events[n - 1];
        if e.event_type == EventType::FunctionEnter && !prev.contains(e.parent_span_id) {
            prev.push(e.parent_span_id)
        } else {
            prev
        }
    }
}

/// The run heads of the groups of `parents`, group after group.
pub open spec fn all_heads(events: Seq<TraceEvent>, parents: Seq<Option<u128>>) -> Seq<(u128, u32)>
    decreases parents.len(),
{
    if parents.len() == 0 {
        seq![]
    } else {
        let g = sorted_children(events, parents.last());
        all_heads(events, parents.drop_last()) + group_heads(events, g, g.len())
    }
}

/// The folded spans of the groups of `parents`, group after group.
pub open spec fn all_folded(events: Seq<TraceEvent>, parents: Seq<Option<u128>>) -> Seq<u128>
    decreases parents.len(),
{
    if parents.len() == 0 {
        seq![]
    } else {
        let g = sorted_children(events, parents.last());
        all_folded(events, parents.drop_last()) + group_folded(events, g, g.len())
    }
}

/// The run length recorded last for span `s`, if any.
pub open spec fn last_count(entries: Seq<(u128, u32)>, s: u128) -> Option<u32>
    decreases entries.len(),
{
    if entries.len() == 0 {
        None
    } else if entries.last().0 == s {
        Some(entries.last().1)
    } else {
        last_count(entries.drop_last(), s)
    }
}

/// Event `e` marked as the representative of `count` folded repetitions.
pub open spec fn mark_folded(e: TraceEvent, count: u32) -> TraceEvent {
    TraceEvent { is_folded: Some(true), fold_count: Some(count), ..e }
}

/// Event `e` marked as one of the folded repetitions behind a run head.
pub open spec fn mark_repeat(e: TraceEvent) -> TraceEvent {
    TraceEvent { is_folded: Some(true), ..e }
}

/// Event `e` with its fold marks cleared.
pub open spec fn unmarked(e: TraceEvent) -> TraceEvent {
    TraceEvent { is_folded: None, fold_count: None, ..e }
}

/// The compressed form of the first `n` events: events whose span was folded are marked as
/// folded repetitions, run heads are marked with their run length, everything else is kept as
/// it is, in order.
pub open spec fn compress_upto(events: Seq<TraceEvent>, folded: Seq<u128>, heads: Seq<(u128, u32)>, n: nat) -> Seq<TraceEvent>
    decreases n,
{
    if n == 0 {
        seq![]
    } else {
        let prev = compress_upto(events, folded, heads, (n - 1) as nat);
        let e = events[n - 1];
        if folded.contains(e.span_id) {
            prev.push(mark_repeat(e))
        } else {
            match last_count(heads, e.span_id) {
                Some(c) => prev.push(mark_folded(e, c)),
                None => prev.push(e),
            }
        }
    }
}

/// The timeline of `events` with repeated sibling calls folded. Entry events are grouped by
/// parent span (groups in order of first appearance) and sorted by timestamp; a run of two or
/// more consecutive siblings with the same fingerprint is folded into its first span: that
/// span's events are marked with the run length, and every event of the other spans of the
/// run is marked as folded. Nothing is dropped, so the timeline can be replayed exactly.
pub open spec fn compress_spec(events: Seq<TraceEvent>) -> Seq<TraceEvent> {
    let parents = distinct_parents(events, events.len());
    compress_upto(events, all_folded(events, parents), all_heads(events, parents), events.len())
}

fn contains_u128(v: &Vec<u128>, x: u128) -> (r: bool)
    ensures
        r == v@.contains(x),
{
    let n = v.len();
    for i in 0..n
        invariant
            n == v@.len(),
            forall|j: int| 0 <= j < i ==> v@[j] != x,
    {
        if v[i] == x {
            assert(v@[i as int] == x);
            return true;
        }
    }
    false
}

fn contains_parent(v: &Vec<Option<u128>>, x: Option<u128>) -> (r: bool)
    ensures
        r == v@.contains(x),
{
    let n = v.len();
    for i in 0..n
        invariant
            n == v@.len(),
            forall|j: int| 0 <= j < i ==> v@[j] != x,
    {
        if opt_u128_eq(v[i], x) {
            assert(v@[i as int] == x);
            return true;
        }
    }
    false
}

fn lookup_count(entries: &Vec<(u128, u32)>, s: u128) -> (r: Option<u32>)
    ensures
        r == last_count(entries@, s),
{
    let mut i = entries.len();
    assert(entries@.take(i as int) =~= entries@);
    while i > 0
        invariant
            i <= entries@.len(),
            last_count(entries@, s) == last_count(entries@.take(i as int), s),
        decreases i,
    {
        assert(entries@.take(i as int).drop_last() =~= entries@.take(i - 1));
        if entries[i - 1].0 == s {
            return Some(entries[i - 1].1);
        }
        i = i - 1;
    }
    proof {
        assert(entries@.take(0) =~= Seq::<(u128, u32)>::empty());
    }
    None
}

proof fn lemma_run_end(events: Seq<TraceEvent>, g: Seq<usize>, p: int, j: int)
    requires
        0 <= p < j <= g.len(),
        forall|q: int| p <= q < j ==> same_fp(events, g, q, p),
    ensures
        j <= run_end(events, g, p, j) <= g.len(),
        forall|q: int| p <= q < run_end(events, g, p, j) ==> same_fp(events, g, q, p),
        run_end(events, g, p, j) < g.len() ==> !same_fp(events, g, run_end(events, g, p, j), p),
    decreases g.len() - j,
{
    if j < g.len() && same_fp(events, g, j, p) {
        lemma_run_end(events, g, p, j + 1);
    }
}

proof fn lemma_no_heads(events: Seq<TraceEvent>, g: Seq<usize>, a: nat, b: nat)
    requires
        a <= b,
        forall|r: int| a <= r < b ==> !head_at(events, g, r),
    ensures
        group_heads(events, g, b) == group_heads(events, g, a),
    decreases b - a,
{
    if b > a {
        lemma_no_heads(events, g, a, (b - 1) as nat);
    }
}

/// Scans one sorted sibling group as the engine does: returns its folded spans and run heads.
fn scan_group(events: &Vec<TraceEvent>, g: &Vec<usize>, folded: &mut Vec<u128>, heads: &mut Vec<(u128, u32)>)
    requires
        indices_below(g@, events@.len()),
    ensures
        final(folded)@ == old(folded)@ + group_folded(events@, g@, g@.len()),
        final(heads)@ == old(heads)@ + group_heads(events@, g@, g@.len()),
{
    let ghost f0 = folded@;
    let ghost h0 = heads@;
    let m = g.len();
    let mut i: usize = 0;
    assert(group_folded(events@, g@, 0) =~= Seq::<u128>::empty());
    assert(group_heads(events@, g@, 0) =~= Seq::<(u128, u32)>::empty());
    while i < m
        invariant
            m == g@.len(),
            i <= m,
            indices_below(g@, events@.len()),
            i == 0 || i == m || !folded_at(events@, g@, i as int),
            folded@ == f0 + group_folded(events@, g@, i as nat),
            heads@ == h0 + group_heads(events@, g@, i as nat),
        decreases m - i,
    {
        let gi = g[i];
        if events[gi].fingerprint.is_none() {
            assert(!head_at(events@, g@, i as int));
            assert(!folded_at(events@, g@, i as int));
            assert(group_folded(events@, g@, (i + 1) as nat) == group_folded(events@, g@, i as nat));
            assert(group_heads(events@, g@, (i + 1) as nat) == group_heads(events@, g@, i as nat));
            i = i + 1;
            continue;
        }
        let mut j = i + 1;
        proof {
            lemma_run_end(events@, g@, i as int, (i + 1) as int);
        }
        assert(i == 0 || !same_fp(events@, g@, i as int, i - 1));
        loop
            invariant
                m == g@.len(),
                i < j <= m,
                gi == g@[i as int],
                indices_below(g@, events@.len()),
                fpv(events@, g@[i as int]) is Some,
                i == 0 || !same_fp(events@, g@, i as int, i - 1),
                run_end(events@, g@, i as int, (i + 1) as int) == run_end(events@, g@, i as int, j as int),
                forall|q: int| i <= q < j ==> same_fp(events@, g@, q, i as int),
                folded@ == f0 + group_folded(events@, g@, j as nat),
                heads@ == h0 + group_heads(events@, g@, i as nat),
                forall|q: int| i < q < j ==> !head_at(events@, g@, q),
            ensures
                i < j <= m,
                j == m || !same_fp(events@, g@, j as int, i as int),
                run_end(events@, g@, i as int, (i + 1) as int) == run_end(events@, g@, i as int, j as int),
                forall|q: int| i <= q < j ==> same_fp(events@, g@, q, i as int),
                folded@ == f0 + group_folded(events@, g@, j as nat),
                heads@ == h0 + group_heads(events@, g@, i as nat),
                forall|q: int| i < q < j ==> !head_at(events@, g@, q),
            decreases m - j,
        {
            if j >= m {
                break;
            }
            let gj = g[j];
            assert(gj < events@.len());
            if !opt_str_eq(&events[gj].fingerprint, &events[gi].fingerprint) {
                assert(!same_fp(events@, g@, j as int, i as int));
                break;
            }
            assert(same_fp(events@, g@, j as int, i as int));
            assert(same_fp(events@, g@, j - 1, i as int));
            assert(folded_at(events@, g@, j as int));
            folded.push(events[gj].span_id);
            assert(folded@ =~= f0 + group_folded(events@, g@, (j + 1) as nat));
            assert(!head_at(events@, g@, j as int));
            j = j + 1;
        }
        assert(j == m || !folded_at(events@, g@, j as int)) by {
            if j < m {
                assert(same_fp(events@, g@, j - 1, i as int));
            }
        }
        proof {
            lemma_run_end(events@, g@, i as int, j as int);
            assert(run_end(events@, g@, i as int, j as int) == j);
        }
        if j > i + 1 {
            assert(head_at(events@, g@, i as int));
            heads.push((events[gi].span_id, (j - i) as u32));
        } else {
            assert(!head_at(events@, g@, i as int));
        }
        proof {
            assert(heads@ =~= h0 + group_heads(events@, g@, (i + 1) as nat));
            lemma_no_heads(events@, g@, (i + 1) as nat, j as nat);
        }
        i = j;
    }
}

/// The distinct parents of the entry events, in order of first appearance.
fn distinct_parents_exec(events: &Vec<TraceEvent>) -> (r: Vec<Option<u128>>)
    ensures
        r@ == distinct_parents(events@, events@.len()),
{
    let mut r: Vec<Option<u128>> = Vec::new();
    let n = events.len();
    for i in 0..n
        invariant
            n == events@.len(),
            r@ == distinct_parents(events@, i as nat),
    {
        if events[i].event_type == EventType::FunctionEnter && !contains_parent(&r, events[i].parent_span_id) {
            r.push(events[i].parent_span_id);
        }
    }
    r
}

/// Compresses a sequence of events by folding repetitive sibling calls (loops).
pub fn compress_timeline(events: Vec<TraceEvent>) -> (r: Vec<TraceEvent>)
    ensures
        r@ == compress_spec(events@),
{
    let ghost ev = events@;
    let parents = distinct_parents_exec(&events);
    let keys = ts_keys_exec(&events);
    let mut folded: Vec<u128> = Vec::new();
    let mut heads: Vec<(u128, u32)> = Vec::new();
    let pn = parents.len();
    for j in 0..pn
        invariant
            pn == parents@.len(),
            events@ == ev,
            keys@ == ts_keys(ev),
            folded@ == all_folded(ev, parents@.take(j as int)),
            heads@ == all_heads(ev, parents@.take(j as int)),
    {
        assert(parents@.take(j + 1).drop_last() =~= parents@.take(j as int));
        assert(parents@.take(j + 1).last() == parents@[j as int]);
        let g = sorted_children_exec(&events, &keys, parents[j]);
        scan_group(&events, &g, &mut folded, &mut heads);
    }
    assert(parents@.take(pn as int) =~= parents@);
    let ghost fs = folded@;
    let ghost hs = heads@;
    let mut out: Vec<TraceEvent> = Vec::new();
    for e in it: events.into_iter()
        invariant
            it.seq() == ev,
            folded@ == fs,
            heads@ == hs,
            out@ == compress_upto(ev, fs, hs, it.index() as nat),
    {
        if contains_u128(&folded, e.span_id) {
            let mut e = e;
            e.is_folded = Some(true);
            out.push(e);
        } else {
            match lookup_count(&heads, e.span_id) {
                Some(c) => {
                    let mut e = e;
                    e.is_folded = Some(true);
                    e.fold_count = Some(c);
                    out.push(e);
                },
                None => {
                    out.push(e);
                },
            }
        }
    }
    out
}


// ── Integrity counts ─────────────────────────────────────────────────────────

/// The counts from which a trace's integrity score is computed.
#[derive(Debug, Clone, Copy, PartialEq, Eq, Structural)]
pub struct IntegrityCounts {
    /// Number of entry events.
    pub total_spans: u64,
    /// Number of distinct entry span ids that also have an exit event.
    pub matched_pairs: u64,
    /// Number of entry events with at least one captured local.
    pub spans_with_locals: u64,
    /// Number of entry events that have a parent, plus the first entry event.
    pub connected_spans: u64,
    /// Number of exit events that come before every entry event of their span.
    pub out_of_order: u64,
}

/// The event has a non-empty list of captured locals.
pub open spec fn has_locals(e: TraceEvent) -> bool {
    match e.locals {
        Some(l) => l@.len() > 0,
        None => false,
    }
}

/// Some event of type `t` has span id `s`.
pub open spec fn has_span_of_type(events: Seq<TraceEvent>, s: u128, t: EventType) -> bool {
    exists|i: int| 0 <= i < events.len() && events[i].span_id == s && events[i].event_type == t
}

/// The distinct span ids of the entry events among the first `n`, in order of first appearance.
pub open spec fn distinct_enter_spans(events: Seq<TraceEvent>, n: nat) -> Seq<u128>
    decreases n,
{
    if n == 0 {
        seq![]
    } else {
        let prev = distinct_enter_spans(events, (n - 1) as nat);
        let e = events[n - 1];
        if e.event_type == EventType::FunctionEnter && !prev.contains(e.span_id) {
            prev.push(e.span_id)
        } else {
            prev
        }
    }
}

/// How many of the spans `spans` have an exit event.
pub open spec fn count_with_exit(events: Seq<TraceEvent>, spans: Seq<u128>) -> nat
    decreases spans.len(),
{
    if spans.len() == 0 {
        0
    } else {
        count_with_exit(events, spans.drop_last()) + if has_span_of_type(
            events,
            spans.last(),
            EventType::FunctionExit,
        ) {
            1nat
        } else {
            0nat
        }
    }
}

/// Number of entry events among the first `n`.
pub open spec fn enter_count(events: Seq<TraceEvent>, n: nat) -> nat
    decreases n,
{
    if n == 0 {
        0
    } else {
        enter_count(events, (n - 1) as nat) + if events[n - 1].event_type == EventType::FunctionEnter {
            1nat
        } else {
            0nat
        }
    }
}

/// Number of entry events among the first `n` with captured locals.
pub open spec fn locals_count(events: Seq<TraceEvent>, n: nat) -> nat
    decreases n,
{
    if n == 0 {
        0
    } else {
        locals_count(events, (n - 1) as nat) + if events[n - 1].event_type == EventType::FunctionEnter
            && has_locals(events[n - 1]) {
            1nat
        } else {
            0nat
        }
    }
}

/// Number of entry events among the first `n` that have a parent or are the first entry event.
pub open spec fn connected_count(events: Seq<TraceEvent>, n: nat) -> nat
    decreases n,
{
    if n == 0 {
        0
    } else {
        connected_count(events, (n - 1) as nat) + if events[n - 1].event_type == EventType::FunctionEnter
            && (events[n - 1].parent_span_id is Some || enter_count(events, (n - 1) as nat) == 0) {
            1nat
        } else {
            0nat
        }
    }
}

/// Number of exit events among the first `n` that come before every entry event of their span.
pub open spec fn out_of_order_count(events: Seq<TraceEvent>, n: nat) -> nat
    decreases n,
{
    if n == 0 {
        0
    } else {
        out_of_order_count(events, (n - 1) as nat) + if events[n - 1].event_type == EventType::FunctionExit
            && !distinct_enter_spans(events, (n - 1) as nat).contains(events[n - 1].span_id) {
            1nat
        } else {
            0nat
        }
    }
}

proof fn lemma_counts_bounded(events: Seq<TraceEvent>, n: nat)
    requires
        n <= events.len(),
    ensures
        locals_count(events, n) <= enter_count(events, n),
        connected_count(events, n) <= enter_count(events, n),
        enter_count(events, n) <= n,
        distinct_enter_spans(events, n).len() <= n,
        enter_count(events, n) + out_of_order_count(events, n) <= n,
    decreases n,
{
    if n > 0 {
        lemma_counts_bounded(events, (n - 1) as nat);
    }
}

proof fn lemma_count_with_exit_bounded(events: Seq<TraceEvent>, spans: Seq<u128>)
    ensures
        count_with_exit(events, spans) <= spans.len(),
    decreases spans.len(),
{
    if spans.len() > 0 {
        lemma_count_with_exit_bounded(events, spans.drop_last());
    }
}

fn has_exit_exec(events: &Vec<TraceEvent>, s: u128) -> (r: bool)
    ensures
        r == has_span_of_type(events@, s, EventType::FunctionExit),
{
    let n = events.len();
    for i in 0..n
        invariant
            n == events@.len(),
            forall|j: int| 0 <= j < i ==> !(events@[j].span_id == s && events@[j].event_type == EventType::FunctionExit),
    {
        if events[i].span_id == s && events[i].event_type == EventType::FunctionExit {
            return true;
        }
    }
    false
}

/// The integrity counts of a list of events.
pub open spec fn integrity_spec(events: Seq<TraceEvent>) -> IntegrityCounts {
    IntegrityCounts {
        total_spans: enter_count(events, events.len()) as u64,
        matched_pairs: count_with_exit(events, distinct_enter_spans(events, events.len())) as u64,
        spans_with_locals: locals_count(events, events.len()) as u64,
        connected_spans: connected_count(events, events.len()) as u64,
        out_of_order: out_of_order_count(events, events.len()) as u64,
    }
}

/// Counts what the integrity score of a trace is made of.
pub fn integrity_counts(events: &Vec<TraceEvent>) -> (r: IntegrityCounts)
    ensures
        r.total_spans == enter_count(events@, events@.len()),
        r.spans_with_locals == locals_count(events@, events@.len()),
        r.connected_spans == connected_count(events@, events@.len()),
        r.out_of_order == out_of_order_count(events@, events@.len()),
        r.matched_pairs == count_with_exit(events@, distinct_enter_spans(events@, events@.len())),
        r.spans_with_locals <= r.total_spans,
        r.connected_spans <= r.total_spans,
        r.matched_pairs <= r.total_spans,
        r == integrity_spec(events@),
{
    let n = events.len();
    let mut total: u64 = 0;
    let mut with_locals: u64 = 0;
    let mut connected: u64 = 0;
    let mut early_exits: u64 = 0;
    let mut spans: Vec<u128> = Vec::new();
    for i in 0..n
        invariant
            n == events@.len(),
            total == enter_count(events@, i as nat),
            with_locals == locals_count(events@, i as nat),
            connected == connected_count(events@, i as nat),
            early_exits == out_of_order_count(events@, i as nat),
            spans@ == distinct_enter_spans(events@, i as nat),
            total + early_exits <= i,
            total <= i,
            with_locals <= total,
            connected <= total,
            spans@.len() <= total,
    {
        proof {
            lemma_counts_bounded(events@, (i + 1) as nat);
        }
        let e = &events[i];
        if e.event_type == EventType::FunctionEnter {
            let first = total == 0;
            total = total + 1;
            let nonempty = match &e.locals {
                Some(l) => l.len() > 0,
                None => false,
            };
            if nonempty {
                with_locals = with_locals + 1;
            }
            if e.parent_span_id.is_some() || first {
                connected = connected + 1;
            }
            if !contains_u128(&spans, e.span_id) {
                spans.push(e.span_id);
            }
        } else if e.event_type == EventType::FunctionExit {
            if !contains_u128(&spans, e.span_id) {
                early_exits = early_exits + 1;
            }
        }
    }
    let mut matched: u64 = 0;
    let m = spans.len();
    for j in 0..m
        invariant
            m == spans@.len(),
            m <= total,
            matched == count_with_exit(events@, spans@.take(j as int)),
            matched <= j,
    {
        assert(spans@.take(j + 1).drop_last() =~= spans@.take(j as int));
        if has_exit_exec(events, spans[j]) {
            matched = matched + 1;
        }
    }
    assert(spans@.take(m as int) =~= spans@);
    IntegrityCounts {
        total_spans: total,
        matched_pairs: matched,
        spans_with_locals: with_locals,
        connected_spans: connected,
        out_of_order: early_exits,
    }
}


// ── State heatmap ────────────────────────────────────────────────────────────

/// The position of the last event of type `t` and span `s` among the first `n`, or -1.
pub open spec fn last_of_type(events: Seq<TraceEvent>, s: u128, t: EventType, n: nat) -> int
    decreases n,
{
    if n == 0 {
        -1
    } else if events[n - 1].span_id == s && events[n - 1].event_type == t {
        n - 1
    } else {
        last_of_type(events, s, t, (n - 1) as nat)
    }
}

/// The value of the last local named `name` among the first `n`, if any.
pub open spec fn local_value(locals: Seq<LocalVar>, name: Seq<char>, n: nat) -> Option<Seq<char>>
    decreases n,
{
    if n == 0 {
        None
    } else if locals[n - 1].name@ == name {
        Some(locals[n - 1].value@)
    } else {
        local_value(locals, name, (n - 1) as nat)
    }
}

/// The names, in exit order, of the first `n` exit locals that are new or changed against the
/// entry locals.
pub open spec fn changed_names(entry: Seq<LocalVar>, exit: Seq<LocalVar>, n: nat) -> Seq<Seq<char>>
    decreases n,
{
    if n == 0 {
        seq![]
    } else {
        let prev = changed_names(entry, exit, (n - 1) as nat);
        let l = exit[n - 1];
        if local_value(entry, l.name@, entry.len()) == Some(l.value@) {
            prev
        } else {
            prev.push(l.name@)
        }
    }
}

/// The changed variables between an entry and an exit event: none unless both captured locals.
pub open spec fn changed_keys_spec(enter: TraceEvent, exit: TraceEvent) -> Seq<Seq<char>> {
    match (enter.locals, exit.locals) {
        (Some(en), Some(ex)) => changed_names(en@, ex@, ex@.len()),
        _ => seq![],
    }
}

/// The memory growth between an entry and an exit event (each reading taken as `i64`), or 0
/// unless both carry a reading.
pub open spec fn memory_delta_spec(enter: TraceEvent, exit: TraceEvent) -> int {
    match (enter.memory_usage_bytes, exit.memory_usage_bytes) {
        (Some(en), Some(ex)) => (ex as i64) - (en as i64),
        _ => 0,
    }
}

/// The spans that have both an entry and an exit event.
pub open spec fn paired_span(events: Seq<TraceEvent>, s: u128) -> bool {
    has_span_of_type(events, s, EventType::FunctionEnter) && has_span_of_type(events, s, EventType::FunctionExit)
}

/// The last entry and the last exit event of span `s`.
pub open spec fn last_enter(events: Seq<TraceEvent>, s: u128) -> TraceEvent {
    events[last_of_type(events, s, EventType::FunctionEnter, events.len())]
}

pub open spec fn last_exit(events: Seq<TraceEvent>, s: u128) -> TraceEvent {
    events[last_of_type(events, s, EventType::FunctionExit, events.len())]
}

/// Every memory delta of the heatmap fits in an `i64` (else computing it overflows).
pub open spec fn heatmap_deltas_fit(events: Seq<TraceEvent>) -> bool {
    forall|s: u128|
        #[trigger] paired_span(events, s) ==> i64::MIN <= memory_delta_spec(last_enter(events, s), last_exit(events, s))
            <= i64::MAX
}

proof fn lemma_last_of_type(events: Seq<TraceEvent>, s: u128, t: EventType, n: nat)
    requires
        n <= events.len(),
    ensures
        -1 <= last_of_type(events, s, t, n) < n,
        last_of_type(events, s, t, n) >= 0 ==> events[last_of_type(events, s, t, n)].span_id == s
            && events[last_of_type(events, s, t, n)].event_type == t,
        (exists|i: int| 0 <= i < n && events[i].span_id == s && events[i].event_type == t) <==> last_of_type(
            events,
            s,
            t,
            n,
        ) >= 0,
    decreases n,
{
    if n > 0 {
        lemma_last_of_type(events, s, t, (n - 1) as nat);
        if !(events[n - 1].span_id == s && events[n - 1].event_type == t) {
            if exists|i: int| 0 <= i < n && events[i].span_id == s && events[i].event_type == t {
                let i = choose|i: int| 0 <= i < n && events[i].span_id == s && events[i].event_type == t;
                assert(i < n - 1);
            }
        } else {
            assert(events[n - 1].span_id == s && events[n - 1].event_type == t);
        }
    }
}

fn last_of_type_exec(events: &Vec<TraceEvent>, s: u128, t: EventType) -> (r: Option<usize>)
    ensures
        match r {
            Some(i) => i as int == last_of_type(events@, s, t, events@.len()) && i < events@.len(),
            None => last_of_type(events@, s, t, events@.len()) == -1,
        },
{
    let n = events.len();
    let mut i = n;
    proof {
        lemma_last_of_type(events@, s, t, n as nat);
    }
    while i > 0
        invariant
            i <= n,
            n == events@.len(),
            last_of_type(events@, s, t, n as nat) == last_of_type(events@, s, t, i as nat),
        decreases i,
    {
        if events[i - 1].span_id == s && events[i - 1].event_type == t {
            return Some(i - 1);
        }
        i = i - 1;
    }
    None
}

fn local_value_exec<'a>(locals: &'a Vec<LocalVar>, name: &String) -> (r: Option<&'a String>)
    ensures
        match r {
            Some(v) => local_value(locals@, name@, locals@.len()) == Some(v@),
            None => local_value(locals@, name@, locals@.len()) is None,
        },
{
    let mut i = locals.len();
    while i > 0
        invariant
            i <= locals@.len(),
            local_value(locals@, name@, locals@.len()) == local_value(locals@, name@, i as nat),
        decreases i,
    {
        if locals[i - 1].name == *name {
            return Some(&locals[i - 1].value);
        }
        i = i - 1;
    }
    None
}

fn changed_keys_exec(enter: &TraceEvent, exit: &TraceEvent) -> (r: Vec<String>)
    ensures
        r@.map_values(|x: String| x@) == changed_keys_spec(*enter, *exit),
{
    let mut r: Vec<String> = Vec::new();
    match (&enter.locals, &exit.locals) {
        (Some(en), Some(ex)) => {
            let m = ex.len();
            for j in 0..m
                invariant
                    m == ex@.len(),
                    r@.map_values(|x: String| x@) == changed_names(en@, ex@, j as nat),
            {
                let l = &ex[j];
                let same = match local_value_exec(en, &l.name) {
                    Some(v) => *v == l.value,
                    None => false,
                };
                if !same {
                    r.push(l.name.clone());
                }
                assert(r@.map_values(|x: String| x@) =~= changed_names(en@, ex@, (j + 1) as nat));
            }
        },
        _ => {
            assert(r@.map_values(|x: String| x@) =~= Seq::<Seq<char>>::empty());
        },
    }
    r
}

/// Span `s` is paired and its last entry event stands among the first `k` events.
pub open spec fn heat_prefix(events: Seq<TraceEvent>, s: u128, k: int) -> bool {
    paired_span(events, s) && 0 <= last_of_type(events, s, EventType::FunctionEnter, events.len()) < k
}

proof fn lemma_heat_step<V>(events: Seq<TraceEvent>, k: int, s: u128, inserted: bool, m0: Map<u128, V>, m1: Map<u128, V>)
    requires
        0 <= k < events.len(),
        events[k].span_id == s,
        forall|t: u128| m0.contains_key(t) <==> #[trigger] heat_prefix(events, t, k),
        inserted ==> m1 == m0.insert(s, m1[s]) && last_of_type(events, s, EventType::FunctionEnter, events.len()) == k
            && paired_span(events, s),
        !inserted ==> m1 == m0,
        !inserted && last_of_type(events, s, EventType::FunctionEnter, events.len()) == k ==> !paired_span(events, s),
    ensures
        forall|t: u128| m1.contains_key(t) <==> #[trigger] heat_prefix(events, t, k + 1),
{
    assert forall|t: u128| m1.contains_key(t) <==> #[trigger] heat_prefix(events, t, k + 1) by {
        lemma_last_of_type(events, t, EventType::FunctionEnter, events.len());
        assert(m0.contains_key(t) <==> heat_prefix(events, t, k));
        if last_of_type(events, t, EventType::FunctionEnter, events.len()) == k {
            assert(t == s);
        }
    }
}

impl crate::models::StateHeatmap {
    /// Measures, for every span with both an entry and an exit event, how many variables changed
    /// between its last entry and its last exit event, which ones, and how much memory grew.
    pub fn calculate(events: &Vec<TraceEvent>) -> (r: crate::models::StateHeatmap)
        requires
            heatmap_deltas_fit(events@),
        ensures
            forall|s: u128| r.metrics@.contains_key(s) <==> #[trigger] paired_span(events@, s),
            forall|s: u128|
                #[trigger] r.metrics@.contains_key(s) ==> {
                    &&& r.metrics@[s].changed_keys@.map_values(|x: String| x@) == changed_keys_spec(
                        last_enter(events@, s),
                        last_exit(events@, s),
                    )
                    &&& r.metrics@[s].mutation_count == r.metrics@[s].changed_keys@.len()
                    &&& r.metrics@[s].memory_delta_bytes == memory_delta_spec(last_enter(events@, s), last_exit(events@, s))
                },
    {
        broadcast use vstd::std_specs::hash::group_hash_axioms;
        let mut metrics: std::collections::HashMap<u128, crate::models::MutationMetrics> = std::collections::HashMap::new();
        let n = events.len();
        let mut k: usize = 0;
        while k < n
            invariant
                k <= n,
                n == events@.len(),
                heatmap_deltas_fit(events@),
                forall|s: u128| metrics@.contains_key(s) <==> #[trigger] heat_prefix(events@, s, k as int),
                forall|s: u128|
                    #[trigger] metrics@.contains_key(s) ==> {
                        &&& metrics@[s].changed_keys@.map_values(|x: String| x@) == changed_keys_spec(
                            last_enter(events@, s),
                            last_exit(events@, s),
                        )
                        &&& metrics@[s].mutation_count == metrics@[s].changed_keys@.len()
                        &&& metrics@[s].memory_delta_bytes == memory_delta_spec(
                            last_enter(events@, s),
                            last_exit(events@, s),
                        )
                    },
            decreases n - k,
        {
            let ghost m0 = metrics@;
            assert(m0 =~= metrics@);
            let e = &events[k];
            let s = e.span_id;
            proof {
                lemma_last_of_type(events@, s, EventType::FunctionEnter, n as nat);
                lemma_last_of_type(events@, s, EventType::FunctionExit, n as nat);
            }
            let mut inserted = false;
            if e.event_type == EventType::FunctionEnter {
                let le = last_of_type_exec(events, s, EventType::FunctionEnter);
                let lx = last_of_type_exec(events, s, EventType::FunctionExit);
                match (le, lx) {
                    (Some(ei), Some(xi)) => {
                        if ei == k {
                            let enter = &events[ei];
                            let exit = &events[xi];
                            assert(paired_span(events@, s));
                            assert(last_enter(events@, s) == *enter);
                            assert(last_exit(events@, s) == *exit);
                            let changed = changed_keys_exec(enter, exit);
                            let delta: i64 = match (enter.memory_usage_bytes, exit.memory_usage_bytes) {
                                (Some(en), Some(ex)) => {
                                    assert(memory_delta_spec(*enter, *exit) == (ex as i64) - (en as i64));
                                    assert(i64::MIN <= memory_delta_spec(last_enter(events@, s), last_exit(events@, s)) <= i64::MAX);
                                    (ex as i64) - (en as i64)
                                },
                                _ => 0,
                            };
                            let count = changed.len();
                            metrics.insert(
                                s,
                                crate::models::MutationMetrics { mutation_count: count, memory_delta_bytes: delta, changed_keys: changed },
                            );
                            inserted = true;
                        }
                    },
                    _ => {},
                }
            }
            assert(inserted ==> metrics@ == m0.insert(s, metrics@[s]) && last_of_type(events@, s, EventType::FunctionEnter, n as nat) == k && paired_span(events@, s));
            assert(!inserted ==> metrics@ == m0);
            assert(!inserted && last_of_type(events@, s, EventType::FunctionEnter, n as nat) == k ==> !paired_span(events@, s));
            proof {
                lemma_heat_step(events@, k as int, s, inserted, m0, metrics@);
            }
            k = k + 1;
        }
        proof {
            assert forall|s: u128| #[trigger] paired_span(events@, s) implies 0 <= last_of_type(
                events@,
                s,
                EventType::FunctionEnter,
                n as nat,
            ) < n by {
                lemma_last_of_type(events@, s, EventType::FunctionEnter, n as nat);
            }
            assert forall|s: u128| metrics@.contains_key(s) <==> #[trigger] paired_span(events@, s) by {
                lemma_last_of_type(events@, s, EventType::FunctionEnter, n as nat);
                assert(metrics@.contains_key(s) <==> heat_prefix(events@, s, n as int));
            }
        }
        crate::models::StateHeatmap { metrics }
    }
}


// ── Span-tree shape ──────────────────────────────────────────────────────────

/// Two events have the same place in the span tree: same span, same parent, same type.
pub open spec fn same_shape(a: TraceEvent, b: TraceEvent) -> bool {
    a.span_id == b.span_id && a.parent_span_id == b.parent_span_id && a.event_type == b.event_type
}

/// Some event of `a` has the place of `e` in the span tree.
pub open spec fn has_shape(a: Seq<TraceEvent>, e: TraceEvent) -> bool {
    exists|i: int| 0 <= i < a.len() && #[trigger] same_shape(e, a[i])
}

/// Every event of `b` has the place of some event of `a` in the span tree.
pub open spec fn shapes_within(b: Seq<TraceEvent>, a: Seq<TraceEvent>) -> bool {
    forall|j: int| 0 <= j < b.len() ==> #[trigger] has_shape(a, b[j])
}

/// Fewer tree edges keep the chains bounded.
pub proof fn lemma_chains_subset(a: Seq<TraceEvent>, b: Seq<TraceEvent>, p: Option<u128>, f: nat)
    requires
        chains_bounded(a, p, f),
        shapes_within(b, a),
    ensures
        chains_bounded(b, p, f),
    decreases f,
{
    assert forall|j: int| 0 <= j < b.len() && #[trigger] is_enter_child(b[j], p) implies f > 0
        && chains_bounded(b, Some(b[j].span_id), (f - 1) as nat) by {
        assert(has_shape(a, b[j]));
        let i = choose|i: int| 0 <= i < a.len() && #[trigger] same_shape(b[j], a[i]);
        assert(is_enter_child(a[i], p));
        lemma_chains_subset(a, b, Some(a[i].span_id), (f - 1) as nat);
    }
}

/// A finite span tree stays finite when events are dropped or changed off the tree.
pub proof fn lemma_finite_subset(a: Seq<TraceEvent>, b: Seq<TraceEvent>)
    requires
        span_tree_finite(a),
        shapes_within(b, a),
    ensures
        span_tree_finite(b),
{
    let f = tree_depth(a);
    lemma_chains_subset(a, b, None, f);
}

/// `shapes_within` is transitive.
pub proof fn lemma_shapes_trans(c: Seq<TraceEvent>, b: Seq<TraceEvent>, a: Seq<TraceEvent>)
    requires
        shapes_within(c, b),
        shapes_within(b, a),
    ensures
        shapes_within(c, a),
{
    assert forall|k: int| 0 <= k < c.len() implies #[trigger] has_shape(a, c[k]) by {
        assert(has_shape(b, c[k]));
        let j = choose|j: int| 0 <= j < b.len() && #[trigger] same_shape(c[k], b[j]);
        assert(has_shape(a, b[j]));
        let i = choose|i: int| 0 <= i < a.len() && #[trigger] same_shape(b[j], a[i]);
        assert(same_shape(c[k], a[i]));
    }
}

proof fn lemma_compress_upto_shapes(events: Seq<TraceEvent>, folded: Seq<u128>, heads: Seq<(u128, u32)>, n: nat)
    requires
        n <= events.len(),
    ensures
        shapes_within(compress_upto(events, folded, heads, n), events),
    decreases n,
{
    if n > 0 {
        lemma_compress_upto_shapes(events, folded, heads, (n - 1) as nat);
        let prev = compress_upto(events, folded, heads, (n - 1) as nat);
        let out = compress_upto(events, folded, heads, n);
        assert forall|j: int| 0 <= j < out.len() implies #[trigger] has_shape(events, out[j]) by {
            if j < prev.len() {
                assert(out[j] == prev[j]);
                assert(has_shape(events, prev[j]));
                let i = choose|i: int| 0 <= i < events.len() && #[trigger] same_shape(prev[j], events[i]);
                assert(same_shape(out[j], events[i]));
            } else {
                assert(same_shape(out[j], events[n - 1]));
            }
        }
    }
}

/// Compression only marks events; it moves nothing in the span tree.
pub proof fn lemma_compress_shapes(events: Seq<TraceEvent>)
    ensures
        shapes_within(compress_spec(events), events),
        compress_spec(events).len() == events.len(),
{
    let parents = distinct_parents(events, events.len());
    lemma_compress_upto_shapes(events, all_folded(events, parents), all_heads(events, parents), events.len());
    lemma_compress_upto_len(events, all_folded(events, parents), all_heads(events, parents), events.len());
}

proof fn lemma_compress_upto_len(events: Seq<TraceEvent>, folded: Seq<u128>, heads: Seq<(u128, u32)>, n: nat)
    requires
        n <= events.len(),
    ensures
        compress_upto(events, folded, heads, n).len() == n,
        forall|k: int| 0 <= k < n ==> unmarked(#[trigger] compress_upto(events, folded, heads, n)[k]) == unmarked(events[k]),
    decreases n,
{
    if n > 0 {
        lemma_compress_upto_len(events, folded, heads, (n - 1) as nat);
        let prev = compress_upto(events, folded, heads, (n - 1) as nat);
        let out = compress_upto(events, folded, heads, n);
        assert forall|k: int| 0 <= k < n implies unmarked(#[trigger] out[k]) == unmarked(events[k]) by {
            if k < n - 1 {
                assert(out[k] == prev[k]);
            }
        }
    }
}

/// Compression is lossless: the compressed timeline has one event for each event, in order,
/// differing from it in the fold marks alone.
pub proof fn lemma_compress_lossless(events: Seq<TraceEvent>)
    ensures
        compress_spec(events).len() == events.len(),
        forall|k: int| 0 <= k < events.len() ==> unmarked(#[trigger] compress_spec(events)[k]) == unmarked(events[k]),
{
    let parents = distinct_parents(events, events.len());
    lemma_compress_upto_len(events, all_folded(events, parents), all_heads(events, parents), events.len());
}

/// Two timelines that carry no fold marks compress alike only when they are the same: the
/// original is recovered from the compressed one by clearing the marks.
pub proof fn lemma_compress_injective(a: Seq<TraceEvent>, b: Seq<TraceEvent>)
    requires
        forall|k: int| 0 <= k < a.len() ==> #[trigger] unmarked(a[k]) == a[k],
        forall|k: int| 0 <= k < b.len() ==> #[trigger] unmarked(b[k]) == b[k],
        compress_spec(a) == compress_spec(b),
    ensures
        a == b,
{
    lemma_compress_lossless(a);
    lemma_compress_lossless(b);
    assert forall|k: int| 0 <= k < a.len() implies a[k] == b[k] by {
        assert(unmarked(compress_spec(a)[k]) == unmarked(a[k]));
        assert(unmarked(compress_spec(b)[k]) == unmarked(b[k]));
    }
    assert(a =~= b);
}

// ── Compression is idempotent ────────────────────────────────────────────────

/// `a` and `b` agree on everything folding reads: position by position the same span, parent,
/// type, timestamp and fingerprint.
pub open spec fn fold_agree(a: Seq<TraceEvent>, b: Seq<TraceEvent>) -> bool {
    &&& a.len() == b.len()
    &&& forall|i: int|
        0 <= i < a.len() ==> (#[trigger] a[i]).span_id == b[i].span_id && a[i].parent_span_id == b[i].parent_span_id
            && a[i].event_type == b[i].event_type && a[i].timestamp_ms == b[i].timestamp_ms && a[i].fingerprint
            == b[i].fingerprint
}

proof fn lemma_agree_children(a: Seq<TraceEvent>, b: Seq<TraceEvent>, p: Option<u128>, n: nat)
    requires
        fold_agree(a, b),
        n <= a.len(),
    ensures
        child_indices_upto(a, p, n) == child_indices_upto(b, p, n),
    decreases n,
{
    if n > 0 {
        lemma_agree_children(a, b, p, (n - 1) as nat);
        assert(a[n - 1].span_id == b[n - 1].span_id);
    }
}

proof fn lemma_agree_sorted(a: Seq<TraceEvent>, b: Seq<TraceEvent>, p: Option<u128>)
    requires
        fold_agree(a, b),
        a.len() <= usize::MAX,
    ensures
        sorted_children(a, p) == sorted_children(b, p),
        indices_below(sorted_children(a, p), a.len()),
{
    lemma_agree_children(a, b, p, a.len());
    assert forall|i: int| 0 <= i < a.len() implies ts_keys(a)[i] == ts_keys(b)[i] by {
        assert(a[i].span_id == b[i].span_id);
    }
    assert(ts_keys(a) =~= ts_keys(b));
    lemma_child_indices_in_range(a, p, a.len());
    lemma_sort_in_range(child_indices(a, p), ts_keys(a), false, a.len());
}

proof fn lemma_agree_run_end(a: Seq<TraceEvent>, b: Seq<TraceEvent>, g: Seq<usize>, p: int, j: int)
    requires
        fold_agree(a, b),
        indices_below(g, a.len()),
        0 <= p < g.len(),
    ensures
        run_end(a, g, p, j) == run_end(b, g, p, j),
    decreases g.len() - j,
{
    if 0 <= j < g.len() {
        assert(a[g[j] as int].span_id == b[g[j] as int].span_id);
        assert(a[g[p] as int].span_id == b[g[p] as int].span_id);
        assert(same_fp(a, g, j, p) == same_fp(b, g, j, p));
        if same_fp(a, g, j, p) {
            lemma_agree_run_end(a, b, g, p, j + 1);
        }
    }
}

proof fn lemma_agree_group(a: Seq<TraceEvent>, b: Seq<TraceEvent>, g: Seq<usize>, n: nat)
    requires
        fold_agree(a, b),
        indices_below(g, a.len()),
        n <= g.len(),
    ensures
        group_heads(a, g, n) == group_heads(b, g, n),
        group_folded(a, g, n) == group_folded(b, g, n),
    decreases n,
{
    if n > 0 {
        lemma_agree_group(a, b, g, (n - 1) as nat);
        let q = n - 1;
        assert(a[g[q] as int].span_id == b[g[q] as int].span_id);
        if q > 0 {
            assert(a[g[q - 1] as int].span_id == b[g[q - 1] as int].span_id);
        }
        if q + 1 < g.len() {
            assert(a[g[q + 1] as int].span_id == b[g[q + 1] as int].span_id);
        }
        assert(head_at(a, g, q) == head_at(b, g, q));
        assert(folded_at(a, g, q) == folded_at(b, g, q));
        if head_at(a, g, q) {
            lemma_agree_run_end(a, b, g, q, q + 1);
        }
    }
}

proof fn lemma_agree_parents(a: Seq<TraceEvent>, b: Seq<TraceEvent>, n: nat)
    requires
        fold_agree(a, b),
        n <= a.len(),
    ensures
        distinct_parents(a, n) == distinct_parents(b, n),
    decreases n,
{
    if n > 0 {
        lemma_agree_parents(a, b, (n - 1) as nat);
        assert(a[n - 1].span_id == b[n - 1].span_id);
    }
}

proof fn lemma_agree_all(a: Seq<TraceEvent>, b: Seq<TraceEvent>, parents: Seq<Option<u128>>)
    requires
        fold_agree(a, b),
        a.len() <= usize::MAX,
    ensures
        all_heads(a, parents) == all_heads(b, parents),
        all_folded(a, parents) == all_folded(b, parents),
    decreases parents.len(),
{
    if parents.len() > 0 {
        lemma_agree_all(a, b, parents.drop_last());
        lemma_agree_sorted(a, b, parents.last());
        let g = sorted_children(a, parents.last());
        lemma_agree_group(a, b, g, g.len());
    }
}

/// What compression does to one event, given the folded spans and the run heads.
pub open spec fn fold_step(e: TraceEvent, folded: Seq<u128>, heads: Seq<(u128, u32)>) -> TraceEvent {
    if folded.contains(e.span_id) {
        mark_repeat(e)
    } else {
        match last_count(heads, e.span_id) {
            Some(c) => mark_folded(e, c),
            None => e,
        }
    }
}

proof fn lemma_compress_upto_at(events: Seq<TraceEvent>, folded: Seq<u128>, heads: Seq<(u128, u32)>, n: nat)
    requires
        n <= events.len(),
    ensures
        compress_upto(events, folded, heads, n).len() == n,
        forall|k: int| 0 <= k < n ==> #[trigger] compress_upto(events, folded, heads, n)[k] == fold_step(events[k], folded, heads),
    decreases n,
{
    if n > 0 {
        lemma_compress_upto_at(events, folded, heads, (n - 1) as nat);
        let prev = compress_upto(events, folded, heads, (n - 1) as nat);
        assert forall|k: int| 0 <= k < n implies #[trigger] compress_upto(events, folded, heads, n)[k] == fold_step(
            events[k],
            folded,
            heads,
        ) by {
            if k < n - 1 {
                assert(compress_upto(events, folded, heads, n)[k] == prev[k]);
            }
        }
    }
}

/// Compressing a compressed timeline changes nothing.
pub proof fn lemma_compress_idempotent(events: Seq<TraceEvent>)
    requires
        events.len() <= usize::MAX,
    ensures
        compress_spec(compress_spec(events)) == compress_spec(events),
{
    let c = compress_spec(events);
    lemma_compress_lossless(events);
    assert forall|i: int| 0 <= i < c.len() implies (#[trigger] c[i]).span_id == events[i].span_id
        && c[i].parent_span_id == events[i].parent_span_id && c[i].event_type == events[i].event_type
        && c[i].timestamp_ms == events[i].timestamp_ms && c[i].fingerprint == events[i].fingerprint by {
        assert(unmarked(c[i]) == unmarked(events[i]));
    }
    assert(fold_agree(c, events));
    lemma_agree_parents(c, events, c.len());
    let parents = distinct_parents(events, events.len());
    lemma_agree_all(c, events, parents);
    let f = all_folded(events, parents);
    let h = all_heads(events, parents);
    lemma_compress_upto_at(events, f, h, events.len());
    lemma_compress_upto_at(c, f, h, c.len());
    assert forall|k: int| 0 <= k < c.len() implies compress_spec(c)[k] == c[k] by {
        assert(c[k] == fold_step(events[k], f, h));
        assert(compress_spec(c)[k] == fold_step(c[k], f, h));
        assert(c[k].span_id == events[k].span_id);
    }
    assert(compress_spec(c) =~= c);
}

// ── The structural hash does not depend on arrival order ─────────────────────

/// No two entry events with the same parent share a timestamp, so siblings have one order.
pub open spec fn siblings_untied(events: Seq<TraceEvent>) -> bool {
    forall|i: int, j: int|
        0 <= i < events.len() && 0 <= j < events.len() && i != j && (#[trigger] events[i]).event_type
            == EventType::FunctionEnter && (#[trigger] events[j]).event_type == EventType::FunctionEnter
            && events[i].parent_span_id == events[j].parent_span_id ==> events[i].timestamp_ms != events[j].timestamp_ms
}

/// The child entry events of `parent`, in timestamp order.
pub open spec fn kid_events(events: Seq<TraceEvent>, parent: Option<u128>) -> Seq<TraceEvent> {
    sorted_children(events, parent).map_values(|k: usize| events[k as int])
}

proof fn lemma_child_indices_exact(events: Seq<TraceEvent>, p: Option<u128>, n: nat)
    requires
        n <= events.len(),
        events.len() <= usize::MAX,
    ensures
        child_indices_upto(events, p, n).no_duplicates(),
        forall|k: int| 0 <= k < n && is_enter_child(#[trigger] events[k], p) ==> child_indices_upto(events, p, n).contains(k as usize),
    decreases n,
{
    if n > 0 {
        let m = (n - 1) as nat;
        lemma_child_indices_exact(events, p, m);
        lemma_child_indices_in_range(events, p, m);
        let prev = child_indices_upto(events, p, m);
        let cur = child_indices_upto(events, p, n);
        if is_enter_child(events[n - 1], p) {
            assert(cur == prev.push(m as usize));
            assert(!prev.contains(m as usize)) by {
                if prev.contains(m as usize) {
                    let w = choose|w: int| 0 <= w < prev.len() && prev[w] == m as usize;
                    assert(prev[w] < m);
                }
            }
            assert forall|i: int, j: int| 0 <= i < cur.len() && 0 <= j < cur.len() && i != j implies cur[i] != cur[j] by {
                if i < prev.len() && j < prev.len() {
                    assert(cur[i] == prev[i] && cur[j] == prev[j]);
                } else if i < prev.len() {
                    assert(cur[i] == prev[i]);
                    assert(prev.contains(prev[i]));
                } else if j < prev.len() {
                    assert(cur[j] == prev[j]);
                    assert(prev.contains(prev[j]));
                }
            }
            assert forall|k: int| 0 <= k < n && is_enter_child(#[trigger] events[k], p) implies cur.contains(k as usize) by {
                if k < m {
                    let w = choose|w: int| 0 <= w < prev.len() && prev[w] == k as usize;
                    assert(cur[w] == k as usize);
                } else {
                    assert(cur[prev.len() as int] == k as usize);
                }
            }
        }
    }
}

proof fn lemma_kid_events(events: Seq<TraceEvent>, p: Option<u128>)
    requires
        siblings_untied(events),
        events.len() <= usize::MAX,
    ensures
        forall|i: int, j: int|
            0 <= i < j < kid_events(events, p).len() ==> (#[trigger] kid_events(events, p)[i]).timestamp_ms
                < (#[trigger] kid_events(events, p)[j]).timestamp_ms,
        forall|e: TraceEvent| #[trigger] kid_events(events, p).contains(e) <==> (events.contains(e) && is_enter_child(e, p)),
        indices_below(sorted_children(events, p), events.len()),
{
    let ci = child_indices(events, p);
    let keys = ts_keys(events);
    let r = sorted_children(events, p);
    let ke = kid_events(events, p);
    lemma_child_indices_in_range(events, p, events.len());
    lemma_child_indices_exact(events, p, events.len());
    lemma_sort_in_range(ci, keys, false, events.len());
    lemma_sort_members(ci, keys, false);
    lemma_sort_props(ci, keys, false);
    assert forall|q: int| 0 <= q < r.len() implies is_enter_child(events[#[trigger] r[q] as int], p) by {
        assert(ci.contains(r[q]));
        let w = choose|w: int| 0 <= w < ci.len() && ci[w] == r[q];
        assert(is_enter_child(events[ci[w] as int], p));
    }
    assert forall|i: int, j: int| 0 <= i < j < ke.len() implies (#[trigger] ke[i]).timestamp_ms < (#[trigger] ke[j]).timestamp_ms by {
        assert(keys_ordered(r, keys, false));
        assert(keys[r[i] as int] <= keys[r[j] as int]);
        assert(r[i] != r[j]);
        assert(is_enter_child(events[r[i] as int], p));
        assert(is_enter_child(events[r[j] as int], p));
    }
    assert forall|e: TraceEvent| #[trigger] ke.contains(e) <==> (events.contains(e) && is_enter_child(e, p)) by {
        if ke.contains(e) {
            let q = choose|q: int| 0 <= q < ke.len() && ke[q] == e;
            assert(is_enter_child(events[r[q] as int], p));
            assert(events[r[q] as int] == e);
        }
        if events.contains(e) && is_enter_child(e, p) {
            let k = choose|k: int| 0 <= k < events.len() && events[k] == e;
            assert(ci.contains(k as usize));
            let w = choose|w: int| 0 <= w < ci.len() && ci[w] == k as usize;
            assert(r.contains(ci[w]));
            let q = choose|q: int| 0 <= q < r.len() && r[q] == ci[w];
            assert(ke[q] == e);
        }
    }
}

proof fn lemma_ascending_unique(s: Seq<TraceEvent>, t: Seq<TraceEvent>)
    requires
        forall|i: int, j: int| 0 <= i < j < s.len() ==> (#[trigger] s[i]).timestamp_ms < (#[trigger] s[j]).timestamp_ms,
        forall|i: int, j: int| 0 <= i < j < t.len() ==> (#[trigger] t[i]).timestamp_ms < (#[trigger] t[j]).timestamp_ms,
        forall|e: TraceEvent| s.contains(e) <==> t.contains(e),
    ensures
        s == t,
    decreases s.len(),
{
    if s.len() == 0 {
        if t.len() > 0 {
            assert(t.contains(t[0]));
        }
        assert(t.len() == 0);
    } else {
        assert(s.contains(s[0]));
        assert(t.len() > 0);
        assert(t.contains(t[0]));
        let k = choose|k: int| 0 <= k < s.len() && s[k] == t[0];
        let m = choose|m: int| 0 <= m < t.len() && t[m] == s[0];
        if k > 0 {
            assert(s[0].timestamp_ms < s[k].timestamp_ms);
            if m > 0 {
                assert(t[0].timestamp_ms < t[m].timestamp_ms);
            }
        }
        assert(s[0] == t[0]);
        let s1 = s.drop_first();
        let t1 = t.drop_first();
        assert forall|e: TraceEvent| s1.contains(e) <==> t1.contains(e) by {
            if s1.contains(e) {
                let i = choose|i: int| 0 <= i < s1.len() && s1[i] == e;
                assert(s[i + 1] == e);
                assert(s[0].timestamp_ms < s[i + 1].timestamp_ms);
                assert(t.contains(e));
                let j = choose|j: int| 0 <= j < t.len() && t[j] == e;
                assert(j != 0);
                assert(t1[j - 1] == e);
            }
            if t1.contains(e) {
                let i = choose|i: int| 0 <= i < t1.len() && t1[i] == e;
                assert(t[i + 1] == e);
                assert(t[0].timestamp_ms < t[i + 1].timestamp_ms);
                assert(s.contains(e));
                let j = choose|j: int| 0 <= j < s.len() && s[j] == e;
                assert(j != 0);
                assert(s1[j - 1] == e);
            }
        }
        assert forall|i: int, j: int| 0 <= i < j < s1.len() implies (#[trigger] s1[i]).timestamp_ms < (#[trigger] s1[j]).timestamp_ms by {
            assert(s1[i] == s[i + 1] && s1[j] == s[j + 1]);
        }
        assert forall|i: int, j: int| 0 <= i < j < t1.len() implies (#[trigger] t1[i]).timestamp_ms < (#[trigger] t1[j]).timestamp_ms by {
            assert(t1[i] == t[i + 1] && t1[j] == t[j + 1]);
        }
        lemma_ascending_unique(s1, t1);
        assert(s =~= seq![s[0]] + s1);
        assert(t =~= seq![t[0]] + t1);
    }
}

proof fn lemma_kids_pattern_same(a: Seq<TraceEvent>, b: Seq<TraceEvent>, ka: Seq<usize>, kb: Seq<usize>, f: nat)
    requires
        ka.len() == kb.len(),
        indices_below(ka, a.len()),
        indices_below(kb, b.len()),
        forall|i: int| 0 <= i < ka.len() ==> a[#[trigger] ka[i] as int] == b[kb[i] as int],
        forall|q: Option<u128>| #[trigger] pattern(a, q, f) == pattern(b, q, f),
    ensures
        kids_pattern(a, ka, f) == kids_pattern(b, kb, f),
    decreases ka.len(),
{
    if ka.len() > 0 {
        let i = ka.len() - 1;
        assert(a[ka[i] as int] == b[kb[i] as int]);
        assert(ka[i] < a.len() && kb[i] < b.len());
        assert(pattern(a, Some(a[ka[i] as int].span_id), f) == pattern(b, Some(a[ka[i] as int].span_id), f));
        let da = ka.drop_last();
        let db = kb.drop_last();
        assert forall|j: int| 0 <= j < da.len() implies a[#[trigger] da[j] as int] == b[db[j] as int] by {
            assert(da[j] == ka[j] && db[j] == kb[j]);
        }
        lemma_kids_pattern_same(a, b, da, db, f);
    }
}

proof fn lemma_pattern_same(a: Seq<TraceEvent>, b: Seq<TraceEvent>, f: nat)
    requires
        siblings_untied(a),
        siblings_untied(b),
        a.len() <= usize::MAX,
        b.len() <= usize::MAX,
        forall|e: TraceEvent| a.contains(e) <==> b.contains(e),
    ensures
        forall|q: Option<u128>| #[trigger] pattern(a, q, f) == pattern(b, q, f),
    decreases f,
{
    if f > 0 {
        lemma_pattern_same(a, b, (f - 1) as nat);
        assert forall|q: Option<u128>| #[trigger] pattern(a, q, f) == pattern(b, q, f) by {
            lemma_kid_events(a, q);
            lemma_kid_events(b, q);
            let ka = kid_events(a, q);
            let kb = kid_events(b, q);
            assert forall|e: TraceEvent| ka.contains(e) <==> kb.contains(e) by {
                assert(ka.contains(e) <==> (a.contains(e) && is_enter_child(e, q)));
                assert(kb.contains(e) <==> (b.contains(e) && is_enter_child(e, q)));
            }
            lemma_ascending_unique(ka, kb);
            let sa = sorted_children(a, q);
            let sb = sorted_children(b, q);
            assert forall|i: int| 0 <= i < sa.len() implies a[#[trigger] sa[i] as int] == b[sb[i] as int] by {
                assert(ka[i] == kb[i]);
            }
            lemma_kids_pattern_same(a, b, sa, sb, (f - 1) as nat);
        }
    }
}

/// The structural hash does not depend on the order in which a trace's events arrive: two lists
/// of the same events, in which no two sibling entries share a timestamp, have the same
/// structural pattern, and so the same hash.
pub proof fn lemma_structural_pattern_order_free(a: Seq<TraceEvent>, b: Seq<TraceEvent>)
    requires
        span_tree_finite(a),
        siblings_untied(a),
        siblings_untied(b),
        a.len() <= usize::MAX,
        b.len() <= usize::MAX,
        forall|e: TraceEvent| a.contains(e) <==> b.contains(e),
    ensures
        span_tree_finite(b),
        structural_pattern_spec(a) == structural_pattern_spec(b),
{
    assert forall|k: int| 0 <= k < b.len() implies #[trigger] has_shape(a, b[k]) by {
        assert(b.contains(b[k]));
        let i = choose|i: int| 0 <= i < a.len() && a[i] == b[k];
        assert(same_shape(b[k], a[i]));
    }
    assert forall|k: int| 0 <= k < a.len() implies #[trigger] has_shape(b, a[k]) by {
        assert(a.contains(a[k]));
        let i = choose|i: int| 0 <= i < b.len() && b[i] == a[k];
        assert(same_shape(a[k], b[i]));
    }
    assert forall|f: nat| chains_bounded(a, None, f) == chains_bounded(b, None, f) by {
        if chains_bounded(a, None, f) {
            lemma_chains_subset(a, b, None, f);
        }
        if chains_bounded(b, None, f) {
            lemma_chains_subset(b, a, None, f);
        }
    }
    let da = tree_depth(a);
    assert(chains_bounded(b, None, da));
    let db = tree_depth(b);
    assert(chains_bounded(a, None, db));
    let m = if da <= db { db } else { da };
    lemma_pattern_fuel(a, None, da, m);
    lemma_pattern_fuel(b, None, db, m);
    lemma_pattern_same(a, b, m);
    assert(pattern(a, None, m) == pattern(b, None, m));
}

proof fn lemma_pattern_fuel(events: Seq<TraceEvent>, p: Option<u128>, f: nat, g: nat)
    requires
        chains_bounded(events, p, f),
        f <= g,
        events.len() <= usize::MAX,
    ensures
        pattern(events, p, f) == pattern(events, p, g),
    decreases f, 1nat, 0nat,
{
    let ci = child_indices(events, p);
    let r = sorted_children(events, p);
    lemma_child_indices_in_range(events, p, events.len());
    lemma_sort_in_range(ci, ts_keys(events), false, events.len());
    lemma_sort_members(ci, ts_keys(events), false);
    assert forall|q: int| 0 <= q < r.len() implies is_enter_child(events[#[trigger] r[q] as int], p) by {
        assert(ci.contains(r[q]));
        let w = choose|w: int| 0 <= w < ci.len() && ci[w] == r[q];
        assert(is_enter_child(events[ci[w] as int], p));
    }
    if f == 0 {
        if g > 0 && r.len() > 0 {
            assert(is_enter_child(events[r[0] as int], p));
            assert(r[0] < events.len());
        }
        if g > 0 {
            assert(r.len() == 0);
        }
    } else {
        lemma_kids_fuel(events, p, r, (f - 1) as nat, (g - 1) as nat);
    }
}

proof fn lemma_kids_fuel(events: Seq<TraceEvent>, p: Option<u128>, kids: Seq<usize>, f: nat, g: nat)
    requires
        chains_bounded(events, p, f + 1),
        f <= g,
        events.len() <= usize::MAX,
        indices_below(kids, events.len()),
        forall|q: int| 0 <= q < kids.len() ==> is_enter_child(events[#[trigger] kids[q] as int], p),
    ensures
        kids_pattern(events, kids, f) == kids_pattern(events, kids, g),
    decreases f + 1, 0nat, kids.len(),
{
    if kids.len() > 0 {
        let k = kids.last();
        assert(is_enter_child(events[kids[kids.len() - 1] as int], p));
        assert(chains_bounded(events, Some(events[k as int].span_id), f));
        lemma_pattern_fuel(events, Some(events[k as int].span_id), f, g);
        let d = kids.drop_last();
        assert forall|q: int| 0 <= q < d.len() implies is_enter_child(events[#[trigger] d[q] as int], p) by {
            assert(d[q] == kids[q]);
        }
        lemma_kids_fuel(events, p, d, f, g);
    }
}

/// `a` and `b` have the same call structure position by position: the same span, parent, type,
/// timestamp, module and function; locals, durations, errors, ids and every other value may
/// differ.
pub open spec fn same_structure(a: Seq<TraceEvent>, b: Seq<TraceEvent>) -> bool {
    &&& a.len() == b.len()
    &&& forall|i: int|
        0 <= i < a.len() ==> (#[trigger] a[i]).span_id == b[i].span_id && a[i].parent_span_id == b[i].parent_span_id
            && a[i].event_type == b[i].event_type && a[i].timestamp_ms == b[i].timestamp_ms && a[i].module@
            == b[i].module@ && a[i].function_name@ == b[i].function_name@
}

proof fn lemma_structure_children(a: Seq<TraceEvent>, b: Seq<TraceEvent>, p: Option<u128>, n: nat)
    requires
        same_structure(a, b),
        n <= a.len(),
    ensures
        child_indices_upto(a, p, n) == child_indices_upto(b, p, n),
    decreases n,
{
    if n > 0 {
        lemma_structure_children(a, b, p, (n - 1) as nat);
        assert(a[n - 1].span_id == b[n - 1].span_id);
    }
}

proof fn lemma_structure_kids(a: Seq<TraceEvent>, b: Seq<TraceEvent>, kids: Seq<usize>, f: nat)
    requires
        same_structure(a, b),
        indices_below(kids, a.len()),
        forall|q: Option<u128>| #[trigger] pattern(a, q, f) == pattern(b, q, f),
    ensures
        kids_pattern(a, kids, f) == kids_pattern(b, kids, f),
    decreases kids.len(),
{
    if kids.len() > 0 {
        let k = kids[kids.len() - 1];
        assert(a[k as int].span_id == b[k as int].span_id);
        assert(frame_label(a[k as int]) == frame_label(b[k as int]));
        assert(pattern(a, Some(a[k as int].span_id), f) == pattern(b, Some(a[k as int].span_id), f));
        let d = kids.drop_last();
        assert(indices_below(d, a.len())) by {
            assert forall|i: int| 0 <= i < d.len() implies #[trigger] d[i] < a.len() by {
                assert(d[i] == kids[i]);
            }
        }
        lemma_structure_kids(a, b, d, f);
    }
}

proof fn lemma_structure_pattern(a: Seq<TraceEvent>, b: Seq<TraceEvent>, f: nat)
    requires
        same_structure(a, b),
        a.len() <= usize::MAX,
    ensures
        forall|q: Option<u128>| #[trigger] pattern(a, q, f) == pattern(b, q, f),
    decreases f,
{
    if f > 0 {
        lemma_structure_pattern(a, b, (f - 1) as nat);
        assert forall|q: Option<u128>| #[trigger] pattern(a, q, f) == pattern(b, q, f) by {
            lemma_structure_children(a, b, q, a.len());
            assert forall|i: int| 0 <= i < a.len() implies ts_keys(a)[i] == ts_keys(b)[i] by {
                assert(a[i].span_id == b[i].span_id);
            }
            assert(ts_keys(a) =~= ts_keys(b));
            lemma_child_indices_in_range(a, q, a.len());
            lemma_sort_in_range(child_indices(a, q), ts_keys(a), false, a.len());
            lemma_structure_kids(a, b, sorted_children(a, q), (f - 1) as nat);
        }
    }
}

/// The structural hash clusters executions by their paths alone: two traces with the same call
/// structure, event by event, have the same structural pattern (and hash), whatever values,
/// durations, errors or ids they carry.
pub proof fn lemma_structural_pattern_ignores_values(a: Seq<TraceEvent>, b: Seq<TraceEvent>)
    requires
        same_structure(a, b),
        span_tree_finite(a),
        a.len() <= usize::MAX,
    ensures
        span_tree_finite(b),
        structural_pattern_spec(a) == structural_pattern_spec(b),
{
    assert forall|k: int| 0 <= k < b.len() implies #[trigger] has_shape(a, b[k]) by {
        assert(same_shape(b[k], a[k]));
    }
    assert forall|k: int| 0 <= k < a.len() implies #[trigger] has_shape(b, a[k]) by {
        assert(same_shape(a[k], b[k]));
    }
    let da = tree_depth(a);
    lemma_chains_subset(a, b, None, da);
    let db = tree_depth(b);
    lemma_chains_subset(b, a, None, db);
    let m = if da <= db { db } else { da };
    lemma_pattern_fuel(a, None, da, m);
    lemma_pattern_fuel(b, None, db, m);
    lemma_structure_pattern(a, b, m);
    assert(pattern(a, None, m) == pattern(b, None, m));
}

} // verus!



