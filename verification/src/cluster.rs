//! Cluster membership and trace ownership: which node owns a trace, and whether an event is
//! stored here or forwarded to its owner. Ownership is consistent hashing by highest weight:
//! every node gets a weight for the trace, hashed from its id and the trace id, and the
//! heaviest node owns the trace, so a node that joins takes over only the traces it outweighs
//! the old owner on.

use crate::models::{ClusterNode, NodeStatus};
use crate::hashing::{default_str_hash, hash_str};
use crate::text::{hex_lower, lemma_text_lt_irreflexive, lemma_text_lt_total, lemma_text_lt_transitive, text_less, text_lt, to_hex};
use vstd::prelude::*;
use vstd::string::StringExecFns;

verus! {

/// The text a node's weight for a trace is hashed from: the node id, `/`, and the high and the
/// low 64 bits of the trace id in lowercase hex, separated by `/`.
pub open spec fn weight_key(node_id: Seq<char>, trace_id: u128) -> Seq<char> {
    node_id + seq!['/'] + hex_lower((trace_id / 0x1_0000_0000_0000_0000) as nat) + seq!['/'] + hex_lower(
        (trace_id % 0x1_0000_0000_0000_0000) as nat,
    )
}

/// A node's weight for a trace: std's default hash of its weight key.
pub open spec fn weight(n: ClusterNode, trace_id: u128) -> u64 {
    default_str_hash(weight_key(n.node_id@, trace_id))
}

/// Node `a` beats node `b` for a trace: a greater weight, or the same weight and an id that
/// comes first.
pub open spec fn outranks(a: ClusterNode, b: ClusterNode, trace_id: u128) -> bool {
    weight(a, trace_id) > weight(b, trace_id) || (weight(a, trace_id) == weight(b, trace_id) && text_lt(
        a.node_id@,
        b.node_id@,
    ))
}

/// The owner of a trace among the first `n` nodes: the first node that no later one beats.
pub open spec fn owner_upto(nodes: Seq<ClusterNode>, trace_id: u128, n: nat) -> Option<ClusterNode>
    decreases n,
{
    if n == 0 {
        None
    } else {
        match owner_upto(nodes, trace_id, (n - 1) as nat) {
            None => Some(nodes[n - 1]),
            Some(p) => if outranks(nodes[n - 1], p, trace_id) {
                Some(nodes[n - 1])
            } else {
                Some(p)
            },
        }
    }
}

/// The owner of a trace among `nodes`; `None` when there is no node.
pub open spec fn owner_of(nodes: Seq<ClusterNode>, trace_id: u128) -> Option<ClusterNode> {
    owner_upto(nodes, trace_id, nodes.len())
}

/// No two nodes share an id.
pub open spec fn distinct_ids(s: Seq<ClusterNode>) -> bool {
    forall|i: int, j: int| 0 <= i < s.len() && 0 <= j < s.len() && i != j ==> #[trigger] s[i].node_id@ != #[trigger] s[j].node_id@
}

proof fn lemma_outranks_irreflexive(a: ClusterNode, t: u128)
    ensures
        !outranks(a, a, t),
{
    lemma_text_lt_irreflexive(a.node_id@);
}

proof fn lemma_outranks_transitive(a: ClusterNode, b: ClusterNode, c: ClusterNode, t: u128)
    requires
        outranks(a, b, t),
        outranks(b, c, t),
    ensures
        outranks(a, c, t),
{
    if weight(a, t) == weight(b, t) && weight(b, t) == weight(c, t) {
        lemma_text_lt_transitive(a.node_id@, b.node_id@, c.node_id@);
    }
}

proof fn lemma_outranks_total(a: ClusterNode, b: ClusterNode, t: u128)
    requires
        a.node_id@ != b.node_id@,
    ensures
        outranks(a, b, t) || outranks(b, a, t),
{
    lemma_text_lt_total(a.node_id@, b.node_id@);
}

/// The owner among the first `n` nodes is one of them, and none of them beats it.
proof fn lemma_owner_upto(nodes: Seq<ClusterNode>, t: u128, n: nat)
    requires
        n <= nodes.len(),
    ensures
        n == 0 <==> owner_upto(nodes, t, n) is None,
        n > 0 ==> exists|k: int| 0 <= k < n && owner_upto(nodes, t, n) == Some(#[trigger] nodes[k]),
        n > 0 ==> forall|i: int| 0 <= i < n ==> !outranks(#[trigger] nodes[i], owner_upto(nodes, t, n).unwrap(), t),
    decreases n,
{
    if n > 0 {
        lemma_owner_upto(nodes, t, (n - 1) as nat);
        let x = nodes[n - 1];
        let r = owner_upto(nodes, t, n).unwrap();
        lemma_outranks_irreflexive(x, t);
        match owner_upto(nodes, t, (n - 1) as nat) {
            None => {
                assert(owner_upto(nodes, t, n) == Some(nodes[n - 1]));
            },
            Some(p) => {
                let k = choose|k: int| 0 <= k < n - 1 && Some(p) == Some(#[trigger] nodes[k]);
                if outranks(x, p, t) {
                    assert(owner_upto(nodes, t, n) == Some(nodes[n - 1]));
                    assert forall|i: int| 0 <= i < n implies !outranks(#[trigger] nodes[i], r, t) by {
                        if i < n - 1 && outranks(nodes[i], r, t) {
                            lemma_outranks_transitive(nodes[i], x, p, t);
                        }
                    }
                } else {
                    assert(owner_upto(nodes, t, n) == Some(nodes[k]));
                }
            },
        }
    }
}

/// Every node picks the same owner for a trace, whatever the order in which it lists the
/// registered nodes: two lists of the same nodes, no two with the same id, give the same owner.
pub proof fn lemma_owner_order_free(a: Seq<ClusterNode>, b: Seq<ClusterNode>, t: u128)
    requires
        distinct_ids(a),
        distinct_ids(b),
        forall|y: ClusterNode| a.contains(y) <==> b.contains(y),
    ensures
        owner_of(a, t) == owner_of(b, t),
{
    lemma_owner_upto(a, t, a.len());
    lemma_owner_upto(b, t, b.len());
    if a.len() == 0 {
        if b.len() > 0 {
            assert(b.contains(b[0]));
        }
    } else {
        assert(a.contains(a[0]));
        let ka = choose|k: int| 0 <= k < a.len() && owner_of(a, t) == Some(#[trigger] a[k]);
        let kb = choose|k: int| 0 <= k < b.len() && owner_of(b, t) == Some(#[trigger] b[k]);
        let ra = a[ka];
        let rb = b[kb];
        assert(b.contains(ra));
        assert(a.contains(rb));
        let ia = choose|i: int| 0 <= i < b.len() && b[i] == ra;
        let ib = choose|i: int| 0 <= i < a.len() && a[i] == rb;
        assert(!outranks(b[ia], rb, t));
        assert(!outranks(a[ib], ra, t));
        if ra != rb {
            assert(ka != ib);
            lemma_outranks_total(a[ka], a[ib], t);
        }
    }
}

/// Adding a node moves a trace only onto that node: with `x` registered besides the nodes
/// `a`, listed in any order `b`, the owner is the one among `a` or it is `x`.
pub proof fn lemma_owner_join(a: Seq<ClusterNode>, x: ClusterNode, b: Seq<ClusterNode>, t: u128)
    requires
        distinct_ids(a.push(x)),
        distinct_ids(b),
        forall|y: ClusterNode| a.push(x).contains(y) <==> b.contains(y),
    ensures
        owner_of(b, t) == owner_of(a, t) || owner_of(b, t) == Some(x),
{
    let c = a.push(x);
    assert forall|i: int| 0 <= i < a.len() implies c[i] == a[i] by {}
    assert(owner_upto(c, t, a.len()) == owner_upto(a, t, a.len())) by {
        lemma_owner_upto_prefix(a, c, t, a.len());
    }
    lemma_owner_order_free(c, b, t);
}

proof fn lemma_owner_upto_prefix(a: Seq<ClusterNode>, c: Seq<ClusterNode>, t: u128, n: nat)
    requires
        n <= a.len(),
        n <= c.len(),
        forall|i: int| 0 <= i < n ==> c[i] == a[i],
    ensures
        owner_upto(c, t, n) == owner_upto(a, t, n),
    decreases n,
{
    if n > 0 {
        lemma_owner_upto_prefix(a, c, t, (n - 1) as nat);
    }
}

fn weight_exec(node: &ClusterNode, trace_id: u128) -> (w: u64)
    ensures
        w == weight(*node, trace_id),
{
    let mut key = node.node_id.clone();
    let hi = (trace_id / 0x1_0000_0000_0000_0000) as u64;
    let lo = (trace_id % 0x1_0000_0000_0000_0000) as u64;
    let sep = "/";
    proof {
        reveal_strlit("/");
    }
    key.append(sep);
    key.append(to_hex(hi).as_str());
    key.append(sep);
    key.append(to_hex(lo).as_str());
    assert(key@ =~= weight_key(node.node_id@, trace_id));
    hash_str(key.as_str())
}

/// How an ingested event is handled.
pub enum Route {
    /// This node stores it.
    Local,
    /// It is sent to the node that owns its trace.
    Forward(ClusterNode),
}

/// This node's place in the cluster: its id and the addresses it serves on.
pub struct ClusterManager {
    node_id: String,
    http_addr: String,
    grpc_addr: String,
}

impl ClusterManager {
    /// The node's id.
    pub closed spec fn id_text(&self) -> Seq<char> {
        self.node_id@
    }

    /// The node's HTTP address.
    pub closed spec fn http_text(&self) -> Seq<char> {
        self.http_addr@
    }

    /// The node's gRPC address.
    pub closed spec fn grpc_text(&self) -> Seq<char> {
        self.grpc_addr@
    }

    /// A node with the given (fresh) id and addresses.
    pub fn new(node_id: String, http_addr: String, grpc_addr: String) -> (r: ClusterManager)
        ensures
            r.id_text() == node_id@,
            r.http_text() == http_addr@,
            r.grpc_text() == grpc_addr@,
    {
        ClusterManager { node_id, http_addr, grpc_addr }
    }

    /// Returns the unique ID of this node.
    pub fn node_id(&self) -> (r: &str)
        ensures
            r@ == self.id_text(),
    {
        self.node_id.as_str()
    }

    /// Returns the HTTP address this node is listening on.
    pub fn http_addr(&self) -> (r: &str)
        ensures
            r@ == self.http_text(),
    {
        self.http_addr.as_str()
    }

    /// The record this node registers itself with at `now_secs`: active, with its addresses.
    pub fn heartbeat_record(&self, now_secs: u64) -> (r: ClusterNode)
        ensures
            r.node_id@ == self.id_text(),
            r.http_addr@ == self.http_text(),
            r.grpc_addr@ == self.grpc_text(),
            r.status == NodeStatus::Active,
            r.last_seen == now_secs,
    {
        ClusterNode {
            node_id: self.node_id.clone(),
            http_addr: self.http_addr.clone(),
            grpc_addr: self.grpc_addr.clone(),
            status: NodeStatus::Active,
            last_seen: now_secs,
        }
    }

    /// The node that owns a trace, among the registered `nodes`: the one with the greatest
    /// weight for the trace (ties go to the id that comes first). `None` when no node is
    /// registered.
    pub fn get_owner(&self, nodes: Vec<ClusterNode>, trace_id: u128) -> (r: Option<ClusterNode>)
        ensures
            r == owner_of(nodes@, trace_id),
            r is None <==> nodes@.len() == 0,
            r is Some ==> nodes@.contains(r.unwrap()),
            r is Some ==> forall|i: int| 0 <= i < nodes@.len() ==> !outranks(#[trigger] nodes@[i], r.unwrap(), trace_id),
    {
        let ghost all = nodes@;
        let mut best: Option<ClusterNode> = None;
        let mut best_w: u64 = 0;
        for x in it: nodes.into_iter()
            invariant
                it.seq() == all,
                best == owner_upto(all, trace_id, it.index() as nat),
                best is Some ==> best_w == weight(best.unwrap(), trace_id),
        {
            let w = weight_exec(&x, trace_id);
            let take = match &best {
                None => true,
                Some(b) => w > best_w || (w == best_w && text_less(x.node_id.as_str(), b.node_id.as_str())),
            };
            if take {
                best = Some(x);
                best_w = w;
            }
        }
        proof {
            lemma_owner_upto(all, trace_id, all.len());
            if all.len() > 0 {
                let k = choose|k: int| 0 <= k < all.len() && owner_of(all, trace_id) == Some(#[trigger] all[k]);
                assert(all.contains(all[k]));
            }
        }
        best
    }

    /// Where to send an event owned by `node`: its ingest endpoint, or `None` when the owner
    /// is this node.
    pub fn forward_url(&self, node: &ClusterNode) -> (r: Option<String>)
        ensures
            node.node_id@ == self.id_text() ==> r is None,
            node.node_id@ != self.id_text() ==> r is Some && r.unwrap()@ == "http://"@ + node.http_addr@
                + "/api/ingest"@,
    {
        if node.node_id == self.node_id {
            return None;
        }
        let mut url = String::from_str("http://");
        url.append(node.http_addr.as_str());
        url.append("/api/ingest");
        Some(url)
    }

    /// How to handle an event whose trace is owned by `owner`: stored here when this node owns
    /// it or no node is known yet, else forwarded to the owner.
    pub fn route(&self, owner: Option<ClusterNode>) -> (r: Route)
        ensures
            match owner {
                None => r is Local,
                Some(o) => if o.node_id@ == self.id_text() {
                    r is Local
                } else {
                    r == Route::Forward(o)
                },
            },
    {
        match owner {
            None => Route::Local,
            Some(o) => if o.node_id == self.node_id {
                Route::Local
            } else {
                Route::Forward(o)
            },
        }
    }
}

} // verus!
