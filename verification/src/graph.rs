use vstd::prelude::*;

verus! {

/// Index into the node arena.
#[derive(Debug, Clone, Copy, PartialEq, Eq, Hash, Structural)]
pub struct NodeId(pub u32);

/// Index into the edge arena.
#[derive(Debug, Clone, Copy, PartialEq, Eq, Hash, Structural)]
pub struct EdgeId(pub u32);

/// A node stored in the arena.
struct Node {
    /// Head of the intrusive singly-linked list of outgoing edges.
    first_out: Option<EdgeId>,
    /// Head of the intrusive singly-linked list of incoming edges.
    first_in: Option<EdgeId>,
}

/// An edge stored in the arena.
struct Edge {
    source: NodeId,
    target: NodeId,
    weight: i64,
    /// Next outgoing edge from the same source (linked list through the arena).
    next_out: Option<EdgeId>,
    /// Next incoming edge into the same target (linked list through the arena).
    next_in: Option<EdgeId>,
}

/// Directed weighted graph backed by two flat arenas (nodes and edges).
///
/// Adjacency lists are intrusive linked lists threaded through the edge
/// arena. Abstractly a graph is a node count and the list of its edges
/// `(source, target, weight)` in insertion order; the linked lists are kept
/// in step with that list (see [`Graph::wf`]).
pub struct Graph {
    nodes: Vec<Node>,
    edges: Vec<Edge>,
}

/// The endpoint of an edge record on the side `out` selects: its source
/// when `out` holds, its target otherwise.
pub open spec fn endpoint(e: (u32, u32, i64), out: bool) -> int {
    if out {
        e.0 as int
    } else {
        e.1 as int
    }
}

/// The indices below `b` of the edges of `es` whose endpoint on side `out`
/// is `v`, highest index first: the order in which an adjacency list of the
/// arena hands them out.
pub open spec fn incident_below(es: Seq<(u32, u32, i64)>, v: int, b: int, out: bool) -> Seq<int>
    decreases b,
{
    if b <= 0 {
        Seq::empty()
    } else if endpoint(es[b - 1], out) == v {
        seq![b - 1] + incident_below(es, v, b - 1, out)
    } else {
        incident_below(es, v, b - 1, out)
    }
}

/// The outgoing (`out`) or incoming edges of `v` in `es`, latest first.
pub open spec fn incident(es: Seq<(u32, u32, i64)>, v: int, out: bool) -> Seq<int> {
    incident_below(es, v, es.len() as int, out)
}

/// The first element of an adjacency list as an edge id, if any.
pub open spec fn head_id(s: Seq<int>) -> Option<EdgeId> {
    if s.len() == 0 {
        None
    } else {
        Some(EdgeId(s[0] as u32))
    }
}

/// An adjacency list only depends on the edges below its bound.
pub proof fn lemma_incident_prefix(
    es1: Seq<(u32, u32, i64)>,
    es2: Seq<(u32, u32, i64)>,
    v: int,
    b: int,
    out: bool,
)
    requires
        b <= es1.len(),
        b <= es2.len(),
        forall|i: int| 0 <= i < b ==> es1[i] == es2[i],
    ensures
        incident_below(es1, v, b, out) == incident_below(es2, v, b, out),
    decreases b,
{
    if b > 0 {
        lemma_incident_prefix(es1, es2, v, b - 1, out);
    }
}

/// Below each member of an adjacency list lie exactly the members after it.
pub proof fn lemma_incident_chain(es: Seq<(u32, u32, i64)>, v: int, b: int, out: bool)
    requires
        0 <= b <= es.len(),
    ensures
        forall|k: int|
            0 <= k < incident_below(es, v, b, out).len() ==> incident_below(
                es,
                v,
                #[trigger] incident_below(es, v, b, out)[k],
                out,
            ) == incident_below(es, v, b, out).subrange(k + 1, incident_below(es, v, b, out).len() as int),
    decreases b,
{
    if b > 0 {
        lemma_incident_chain(es, v, b - 1, out);
        let l = incident_below(es, v, b, out);
        let t = incident_below(es, v, b - 1, out);
        if endpoint(es[b - 1], out) == v {
            assert forall|k: int| 0 <= k < l.len() implies incident_below(es, v, #[trigger] l[k], out) == l.subrange(
                k + 1,
                l.len() as int,
            ) by {
                if k == 0 {
                    assert(l.subrange(1, l.len() as int) =~= t);
                } else {
                    assert(l[k] == t[k - 1]);
                    assert(l.subrange(k + 1, l.len() as int) =~= t.subrange(k, t.len() as int));
                }
            }
        }
    }
}

/// Walking a node's outgoing edges with [`Graph::first_out_edge`] and then
/// [`Graph::next_out_edge`] visits exactly the edges that
/// [`Graph::out_edges`] hands out, in the same order: the chain starts at the
/// first of them, each step moves to the next one, and it ends after the
/// last.
pub proof fn lemma_out_edge_chain(es: Seq<(u32, u32, i64)>, v: int)
    ensures
        ({
            let l = incident(es, v, true);
            forall|k: int|
                0 <= k < l.len() ==> head_id(incident_below(es, es[#[trigger] l[k]].0 as int, l[k], true)) == (if k
                    + 1 < l.len() {
                    Some(EdgeId(l[k + 1] as u32))
                } else {
                    None
                })
        }),
{
    let l = incident(es, v, true);
    lemma_incident_chain(es, v, es.len() as int, true);
    lemma_incident_members(es, v, es.len() as int, true);
    assert forall|k: int| 0 <= k < l.len() implies head_id(incident_below(es, es[#[trigger] l[k]].0 as int, l[k], true))
        == (if k + 1 < l.len() {
        Some(EdgeId(l[k + 1] as u32))
    } else {
        None
    }) by {
        assert(es[l[k]].0 as int == v);
        let rest = l.subrange(k + 1, l.len() as int);
        assert(incident_below(es, v, l[k], true) == rest);
        if k + 1 < l.len() {
            assert(rest[0] == l[k + 1]);
        }
    }
}

/// The members of an adjacency list are exactly the incident edges below the
/// bound, listed in strictly decreasing order.
pub proof fn lemma_incident_members(es: Seq<(u32, u32, i64)>, v: int, b: int, out: bool)
    requires
        b <= es.len(),
    ensures
        forall|k: int|
            0 <= k < incident_below(es, v, b, out).len() ==> {
                let e = #[trigger] incident_below(es, v, b, out)[k];
                0 <= e < b && endpoint(es[e], out) == v
            },
        forall|k: int, l: int|
            0 <= k < l < incident_below(es, v, b, out).len() ==> incident_below(es, v, b, out)[l]
                < incident_below(es, v, b, out)[k],
        forall|e: int|
            0 <= e < b && endpoint(es[e], out) == v ==> #[trigger] incident_below(
                es,
                v,
                b,
                out,
            ).contains(e),
        incident_below(es, v, b, out).len() <= if b < 0 {
            0
        } else {
            b
        },
    decreases b,
{
    if b > 0 {
        lemma_incident_members(es, v, b - 1, out);
        let s = incident_below(es, v, b, out);
        let t = incident_below(es, v, b - 1, out);
        if endpoint(es[b - 1], out) == v {
            assert(s == seq![b - 1] + t);
            assert forall|e: int| 0 <= e < b && endpoint(es[e], out) == v implies s.contains(e) by {
                if e == b - 1 {
                    assert(s[0] == e);
                } else {
                    assert(t.contains(e));
                    let k = choose|k: int| 0 <= k < t.len() && t[k] == e;
                    assert(s[k + 1] == e);
                }
            }
        } else {
            assert(s == t);
        }
    }
}

/// A non-empty adjacency list starts at its highest member `h`, and the list
/// below any bound between `h + 1` and the original bound is the same.
pub proof fn lemma_incident_head(es: Seq<(u32, u32, i64)>, v: int, b: int, out: bool)
    requires
        b <= es.len(),
        incident_below(es, v, b, out).len() > 0,
    ensures
        ({
            let s = incident_below(es, v, b, out);
            &&& 0 <= s[0] < b
            &&& endpoint(es[s[0]], out) == v
            &&& incident_below(es, v, s[0] + 1, out) == s
            &&& s == seq![s[0]] + incident_below(es, v, s[0], out)
        }),
    decreases b,
{
    if b > 0 {
        if endpoint(es[b - 1], out) != v {
            lemma_incident_head(es, v, b - 1, out);
        } else {
            let s = incident_below(es, v, b, out);
            assert(s[0] == b - 1);
            assert(s == seq![s[0]] + incident_below(es, v, s[0], out));
        }
    }
}

/// With no incident edge below `b`, the adjacency list below `b` is empty.
pub proof fn lemma_incident_none(es: Seq<(u32, u32, i64)>, v: int, b: int, out: bool)
    requires
        b <= es.len(),
        forall|i: int| 0 <= i < b ==> endpoint(#[trigger] es[i], out) != v,
    ensures
        incident_below(es, v, b, out) == Seq::<int>::empty(),
    decreases b,
{
    if b > 0 {
        lemma_incident_none(es, v, b - 1, out);
    }
}

impl Graph {
    /// Number of nodes of the abstract graph.
    pub closed spec fn num_nodes(&self) -> nat {
        self.nodes@.len()
    }

    /// The edges `(source, target, weight)` of the abstract graph, in
    /// insertion order; the index of an edge is its `EdgeId`.
    pub closed spec fn edge_list(&self) -> Seq<(u32, u32, i64)> {
        self.edges@.map_values(|e: Edge| (e.source.0, e.target.0, e.weight))
    }

    /// Well-formedness: ids fit in `u32`, every edge joins two nodes of the
    /// graph, and the intrusive lists hand out, for each node, exactly its
    /// outgoing (incoming) edges, latest first.
    pub closed spec fn wf(&self) -> bool {
        let es = self.edge_list();
        let n = self.nodes@.len();
        let m = self.edges@.len();
        &&& n <= u32::MAX
        &&& m <= u32::MAX
        &&& forall|i: int|
            0 <= i < m ==> (#[trigger] self.edges@[i]).source.0 < n && self.edges@[i].target.0
                < n
        &&& forall|v: int|
            0 <= v < n ==> (#[trigger] self.nodes@[v]).first_out == head_id(
                incident_below(es, v, m as int, true),
            ) && self.nodes@[v].first_in == head_id(incident_below(es, v, m as int, false))
        &&& forall|i: int|
            0 <= i < m ==> (#[trigger] self.edges@[i]).next_out == head_id(
                incident_below(es, self.edges@[i].source.0 as int, i, true),
            ) && self.edges@[i].next_in == head_id(
                incident_below(es, self.edges@[i].target.0 as int, i, false),
            )
    }

    /// Every edge of a well-formed graph joins two of its nodes; ids fit in `u32`.
    pub proof fn lemma_wf_edges(&self)
        requires
            self.wf(),
        ensures
            self.num_nodes() <= u32::MAX,
            self.edge_list().len() <= u32::MAX,
            forall|i: int|
                0 <= i < self.edge_list().len() ==> (#[trigger] self.edge_list()[i]).0
                    < self.num_nodes() && self.edge_list()[i].1 < self.num_nodes(),
    {
        assert forall|i: int| 0 <= i < self.edge_list().len() implies (
        #[trigger] self.edge_list()[i]).0 < self.num_nodes() && self.edge_list()[i].1
            < self.num_nodes() by {
            assert(self.edges@[i].source.0 < self.num_nodes());
        }
    }

    /// Create an empty graph.
    pub fn new() -> (g: Self)
        ensures
            g.wf(),
            g.num_nodes() == 0,
            g.edge_list() == Seq::<(u32, u32, i64)>::empty(),
    {
        let g = Self { nodes: Vec::new(), edges: Vec::new() };
        assert(g.edge_list() =~= Seq::<(u32, u32, i64)>::empty());
        g
    }

    /// Create an empty graph with pre-allocated capacity.
    pub fn with_capacity(node_cap: usize, edge_cap: usize) -> (g: Self)
        ensures
            g.wf(),
            g.num_nodes() == 0,
            g.edge_list() == Seq::<(u32, u32, i64)>::empty(),
    {
        let g = Self { nodes: Vec::with_capacity(node_cap), edges: Vec::with_capacity(edge_cap) };
        assert(g.edge_list() =~= Seq::<(u32, u32, i64)>::empty());
        g
    }

    /// Appends one isolated node (the body of `add_node` and `add_nodes`).
    fn push_node(&mut self)
        requires
            old(self).wf(),
            old(self).num_nodes() < u32::MAX,
        ensures
            final(self).wf(),
            final(self).num_nodes() == old(self).num_nodes() + 1,
            final(self).edge_list() == old(self).edge_list(),
    {
        let ghost es = self.edge_list();
        let ghost n: int = self.nodes@.len() as int;
        let ghost m: int = self.edges@.len() as int;
        self.nodes.push(Node { first_out: None, first_in: None });
        assert(self.edge_list() == es);
        assert forall|i: int| 0 <= i < m implies endpoint(#[trigger] es[i], true) != n
            && endpoint(es[i], false) != n by {
            assert(self.edges@[i].source.0 < n);
        }
        assert forall|i: int| 0 <= i < m implies endpoint(#[trigger] es[i], true) != n by {}
        assert forall|i: int| 0 <= i < m implies endpoint(#[trigger] es[i], false) != n by {}
        proof {
            lemma_incident_none(es, n as int, m as int, true);
            lemma_incident_none(es, n as int, m as int, false);
        }
        assert forall|v: int| 0 <= v < self.nodes@.len() implies (
        #[trigger] self.nodes@[v]).first_out == head_id(incident_below(es, v, m as int, true))
            && self.nodes@[v].first_in == head_id(incident_below(es, v, m as int, false)) by {
            if v < n {
                assert(self.nodes@[v] == old(self).nodes@[v]);
            }
        }
    }

    /// Add a new isolated node and return its id.
    pub fn add_node(&mut self) -> (id: NodeId)
        requires
            old(self).wf(),
            old(self).num_nodes() < u32::MAX,
        ensures
            final(self).wf(),
            final(self).num_nodes() == old(self).num_nodes() + 1,
            final(self).edge_list() == old(self).edge_list(),
            id.0 == old(self).num_nodes(),
    {
        let id = NodeId(self.nodes.len() as u32);
        self.push_node();
        id
    }

    /// Add `count` isolated nodes, returning the id of the first one.
    /// The returned ids are `first`, `first+1`, …, `first+count-1`.
    pub fn add_nodes(&mut self, count: usize) -> (first: NodeId)
        requires
            old(self).wf(),
            old(self).num_nodes() + count <= u32::MAX,
        ensures
            final(self).wf(),
            final(self).num_nodes() == old(self).num_nodes() + count,
            final(self).edge_list() == old(self).edge_list(),
            first.0 == old(self).num_nodes(),
    {
        let first = NodeId(self.nodes.len() as u32);
        self.nodes.reserve(count);
        let mut k: usize = 0;
        while k < count
            invariant
                self.wf(),
                k <= count,
                self.num_nodes() == old(self).num_nodes() + k,
                old(self).num_nodes() + count <= u32::MAX,
                self.edge_list() == old(self).edge_list(),
            decreases count - k,
        {
            self.push_node();
            k = k + 1;
        }
        first
    }

    /// Add a directed edge from `source` to `target` with the given `weight`.
    /// Weights may be negative. Both endpoints must be nodes of the graph.
    pub fn add_edge(&mut self, source: NodeId, target: NodeId, weight: i64) -> (id: EdgeId)
        requires
            old(self).wf(),
            source.0 < old(self).num_nodes(),
            target.0 < old(self).num_nodes(),
            old(self).edge_list().len() < u32::MAX,
        ensures
            final(self).wf(),
            final(self).num_nodes() == old(self).num_nodes(),
            final(self).edge_list() == old(self).edge_list().push((source.0, target.0, weight)),
            id.0 == old(self).edge_list().len(),
    {
        let ghost es = self.edge_list();
        let ghost n: int = self.nodes@.len() as int;
        let ghost m: int = self.edges@.len() as int;
        let id = EdgeId(self.edges.len() as u32);
        let s = source.0 as usize;
        let t = target.0 as usize;
        let prev_out = self.nodes[s].first_out;
        let prev_in = self.nodes[t].first_in;
        self.edges.push(
            Edge { source, target, weight, next_out: prev_out, next_in: prev_in },
        );
        let fi = self.nodes[s].first_in;
        self.nodes.set(s, Node { first_out: Some(id), first_in: fi });
        let fo = self.nodes[t].first_out;
        self.nodes.set(t, Node { first_out: fo, first_in: Some(id) });
        proof {
            let es2 = self.edge_list();
            assert(es2 =~= es.push((source.0, target.0, weight)));
            assert forall|b: int, v: int, out: bool| 0 <= b <= m implies #[trigger] incident_below(
                es2,
                v,
                b,
                out,
            ) == incident_below(es, v, b, out) by {
                lemma_incident_prefix(es2, es, v, b, out);
            }
            assert(es2[m] == (source.0, target.0, weight));
            assert(incident_below(es2, s as int, m, true) == incident_below(es, s as int, m, true));
            assert(incident_below(es2, t as int, m, false) == incident_below(
                es,
                t as int,
                m,
                false,
            ));
            assert(incident_below(es2, s as int, m + 1, true) == seq![m as int] + incident_below(
                es,
                s as int,
                m as int,
                true,
            ));
            assert(incident_below(es2, t as int, m + 1, false) == seq![m as int]
                + incident_below(es, t as int, m as int, false));
            assert forall|v: int| 0 <= v < n implies (#[trigger] self.nodes@[v]).first_out
                == head_id(incident_below(es2, v, m + 1, true)) && self.nodes@[v].first_in
                == head_id(incident_below(es2, v, m + 1, false)) by {
                assert(incident_below(es2, v, m as int, true) == incident_below(
                    es,
                    v,
                    m as int,
                    true,
                ));
                assert(incident_below(es2, v, m as int, false) == incident_below(
                    es,
                    v,
                    m as int,
                    false,
                ));
                assert(old(self).nodes@[v].first_out == head_id(
                    incident_below(es, v, m as int, true),
                ));
                assert(old(self).nodes@[v].first_in == head_id(
                    incident_below(es, v, m as int, false),
                ));
            }
            assert forall|i: int| 0 <= i < m + 1 implies (#[trigger] self.edges@[i]).next_out
                == head_id(incident_below(es2, self.edges@[i].source.0 as int, i, true))
                && self.edges@[i].next_in == head_id(
                incident_below(es2, self.edges@[i].target.0 as int, i, false),
            ) by {
                assert(incident_below(es2, self.edges@[i].source.0 as int, i, true)
                    == incident_below(es, self.edges@[i].source.0 as int, i, true));
                assert(incident_below(es2, self.edges@[i].target.0 as int, i, false)
                    == incident_below(es, self.edges@[i].target.0 as int, i, false));
                if i < m {
                    assert(self.edges@[i] == old(self).edges@[i]);
                }
            }
            assert forall|i: int| 0 <= i < m + 1 implies (#[trigger] self.edges@[i]).source.0 < n
                && self.edges@[i].target.0 < n by {
                if i < m {
                    assert(self.edges@[i] == old(self).edges@[i]);
                }
            }
        }
        id
    }

    // ── Queries ──────────────────────────────────────────────────────────────
    /// Number of nodes.
    pub fn node_count(&self) -> (n: usize)
        requires
            self.wf(),
        ensures
            n == self.num_nodes(),
    {
        self.nodes.len()
    }

    /// Number of edges.
    pub fn edge_count(&self) -> (m: usize)
        requires
            self.wf(),
        ensures
            m == self.edge_list().len(),
    {
        self.edges.len()
    }

    /// Source node of an edge.
    pub fn source(&self, e: EdgeId) -> (v: NodeId)
        requires
            self.wf(),
            e.0 < self.edge_list().len(),
        ensures
            v.0 == self.edge_list()[e.0 as int].0,
    {
        self.edges[e.0 as usize].source
    }

    /// Target node of an edge.
    pub fn target(&self, e: EdgeId) -> (v: NodeId)
        requires
            self.wf(),
            e.0 < self.edge_list().len(),
        ensures
            v.0 == self.edge_list()[e.0 as int].1,
    {
        self.edges[e.0 as usize].target
    }

    /// Weight of an edge.
    pub fn weight(&self, e: EdgeId) -> (w: i64)
        requires
            self.wf(),
            e.0 < self.edge_list().len(),
        ensures
            w == self.edge_list()[e.0 as int].2,
    {
        self.edges[e.0 as usize].weight
    }

    /// Iterate over the outgoing edges of `node`, latest added first.
    pub fn out_edges(&self, node: NodeId) -> (it: EdgeIter<'_>)
        requires
            self.wf(),
            node.0 < self.num_nodes(),
        ensures
            it.graph() == *self,
            it.remaining() == incident(self.edge_list(), node.0 as int, true),
    {
        proof {
            self.lemma_iter_start(node.0 as int, true);
        }
        let it = EdgeIter {
            graph: self,
            current: self.nodes[node.0 as usize].first_out,
            direction: Direction::Out,
        };
        it
    }

    /// Iterate over the incoming edges of `node`, latest added first.
    pub fn in_edges(&self, node: NodeId) -> (it: EdgeIter<'_>)
        requires
            self.wf(),
            node.0 < self.num_nodes(),
        ensures
            it.graph() == *self,
            it.remaining() == incident(self.edge_list(), node.0 as int, false),
    {
        proof {
            self.lemma_iter_start(node.0 as int, false);
        }
        let it = EdgeIter {
            graph: self,
            current: self.nodes[node.0 as usize].first_in,
            direction: Direction::In,
        };
        it
    }

    /// The list that starts at the head of `v`'s adjacency list is all of it.
    proof fn lemma_iter_start(&self, v: int, out: bool)
        requires
            self.wf(),
            0 <= v < self.num_nodes(),
        ensures
            ({
                let es = self.edge_list();
                let h = if out {
                    self.nodes@[v].first_out
                } else {
                    self.nodes@[v].first_in
                };
                &&& h matches Some(e) ==> e.0 < es.len()
                &&& incident(es, v, out) == match h {
                    None => Seq::<int>::empty(),
                    Some(e) => incident_below(es, endpoint(es[e.0 as int], out), e.0 + 1, out),
                }
            }),
    {
        let es = self.edge_list();
        let m = es.len() as int;
        assert(self.nodes@[v].first_out == head_id(incident_below(es, v, m, true)));
        assert(self.nodes@[v].first_in == head_id(incident_below(es, v, m, false)));
        if incident_below(es, v, m, out).len() > 0 {
            lemma_incident_head(es, v, m, out);
        }
    }

    /// All node ids, in increasing order.
    pub fn nodes(&self) -> (ids: Vec<NodeId>)
        requires
            self.wf(),
        ensures
            ids@.len() == self.num_nodes(),
            forall|i: int| 0 <= i < ids@.len() ==> (#[trigger] ids@[i]).0 == i,
    {
        let n = self.nodes.len();
        let mut ids: Vec<NodeId> = Vec::with_capacity(n);
        let mut i: usize = 0;
        while i < n
            invariant
                n == self.num_nodes(),
                n <= u32::MAX,
                i <= n,
                ids@.len() == i,
                forall|k: int| 0 <= k < i ==> (#[trigger] ids@[k]).0 == k,
            decreases n - i,
        {
            ids.push(NodeId(i as u32));
            i = i + 1;
        }
        ids
    }

    /// All edge ids, in increasing order.
    pub fn edges(&self) -> (ids: Vec<EdgeId>)
        requires
            self.wf(),
        ensures
            ids@.len() == self.edge_list().len(),
            forall|i: int| 0 <= i < ids@.len() ==> (#[trigger] ids@[i]).0 == i,
    {
        let m = self.edges.len();
        let mut ids: Vec<EdgeId> = Vec::with_capacity(m);
        let mut i: usize = 0;
        while i < m
            invariant
                m == self.edge_list().len(),
                m <= u32::MAX,
                i <= m,
                ids@.len() == i,
                forall|k: int| 0 <= k < i ==> (#[trigger] ids@[k]).0 == k,
            decreases m - i,
        {
            ids.push(EdgeId(i as u32));
            i = i + 1;
        }
        ids
    }

    /// First outgoing edge from `node` (the latest one added), or `None` if
    /// there are none.
    ///
    /// Combined with [`Graph::next_out_edge`] this allows iterating out-edges
    /// without a heap-allocated adjacency list.
    pub fn first_out_edge(&self, node: NodeId) -> (e: Option<EdgeId>)
        requires
            self.wf(),
            node.0 < self.num_nodes(),
        ensures
            e == head_id(incident(self.edge_list(), node.0 as int, true)),
    {
        self.nodes[node.0 as usize].first_out
    }

    /// The outgoing edge that follows `e` from the same source node, or `None`
    /// if `e` is the last outgoing edge of that node.
    pub fn next_out_edge(&self, e: EdgeId) -> (next: Option<EdgeId>)
        requires
            self.wf(),
            e.0 < self.edge_list().len(),
        ensures
            next == head_id(
                incident_below(self.edge_list(), self.edge_list()[e.0 as int].0 as int, e.0 as int, true),
            ),
    {
        self.edges[e.0 as usize].next_out
    }
}

impl Default for Graph {
    fn default() -> (g: Self)
        ensures
            g.wf(),
            g.num_nodes() == 0,
            g.edge_list() == Seq::<(u32, u32, i64)>::empty(),
    {
        Self::new()
    }
}

// ── Iterator ─────────────────────────────────────────────────────────────────
enum Direction {
    Out,
    In,
}

/// Cursor over the outgoing or incoming edges of a node; `next` hands them
/// out one at a time, latest added first.
pub struct EdgeIter<'g> {
    graph: &'g Graph,
    current: Option<EdgeId>,
    direction: Direction,
}

impl<'g> EdgeIter<'g> {
    #[verifier::type_invariant]
    spec fn inv(self) -> bool {
        &&& self.graph.wf()
        &&& self.current matches Some(e) ==> e.0 < self.graph.edge_list().len()
    }

    /// The graph whose edges this cursor walks.
    pub closed spec fn graph(&self) -> Graph {
        *self.graph
    }

    /// The edge indices this cursor has still to hand out, in order.
    pub closed spec fn remaining(&self) -> Seq<int> {
        let es = self.graph.edge_list();
        let out = self.direction is Out;
        match self.current {
            None => Seq::empty(),
            Some(e) => incident_below(es, endpoint(es[e.0 as int], out), e.0 + 1, out),
        }
    }

    /// Hand out the next edge, or `None` once the list is exhausted.
    pub fn next(&mut self) -> (r: Option<EdgeId>)
        ensures
            final(self).graph() == old(self).graph(),
            old(self).remaining().len() == 0 ==> r is None && final(self).remaining()
                == old(self).remaining(),
            old(self).remaining().len() > 0 ==> r == Some(EdgeId(old(self).remaining()[0] as u32))
                && final(self).remaining() == old(self).remaining().drop_first(),
    {
        proof {
            use_type_invariant(&*self);
        }
        match self.current {
            None => None,
            Some(id) => {
                let ghost es = self.graph.edge_list();
                let ghost out = self.direction is Out;
                let ghost v = endpoint(es[id.0 as int], out);
                let ghost before = self.remaining();
                let edge = &self.graph.edges[id.0 as usize];
                let nxt = match self.direction {
                    Direction::Out => edge.next_out,
                    Direction::In => edge.next_in,
                };
                proof {
                    let e = id.0 as int;
                    assert(self.graph.edges@[e].next_out == head_id(
                        incident_below(es, self.graph.edges@[e].source.0 as int, e, true),
                    ));
                    assert(es[e] == (
                        self.graph.edges@[e].source.0,
                        self.graph.edges@[e].target.0,
                        self.graph.edges@[e].weight,
                    ));
                    assert(before == seq![e] + incident_below(es, v, e, out));
                    let rest = incident_below(es, v, e, out);
                    if rest.len() > 0 {
                        lemma_incident_head(es, v, e, out);
                        lemma_incident_members(es, v, e, out);
                        assert(endpoint(es[rest[0]], out) == v);
                        assert(rest[0] < es.len());
                    }
                    assert(before.drop_first() =~= rest);
                }
                self.current = nxt;
                Some(id)
            },
        }
    }
}

} // verus!
