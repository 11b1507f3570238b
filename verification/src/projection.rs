//! Graph projections and the layered projection construction.
//!
//! A **projection** G' onto a directed graph G is a graph together with a
//! weight-preserving graph homomorphism π : V(G') → V(G): every edge
//! (u', v') ∈ E(G') satisfies (π(u'), π(v')) ∈ E(G) with the same weight.
//!
//! A projection carries **representatives**: for every original node v that
//! is *present* (i.e. π⁻¹(v) ≠ ∅) exactly one node in G' is designated
//! rep(v).
//!
//! The **layered projection** `Layer((G₁, …, Gₖ) → G)` combines
//! sub-projections into one larger projection by:
//!
//! 1. Taking a disjoint union of all piece graphs.
//! 2. Assigning rep(v) to the representative of v in the *first* piece
//!    where v is present.
//! 3. Adding a cross-edge from every u' in piece i to rep(v) in piece j
//!    whenever i < j and (π(u'), v) ∈ E(G).
use vstd::prelude::*;

use crate::graph::{
    EdgeId, Graph, NodeId, incident, incident_below, lemma_incident_members,
};
use crate::paths::is_walk;

verus! {

/// A projection G' onto an original directed graph G.
pub struct Projection {
    /// The projection graph G'.
    pub graph: Graph,
    /// `proj_map[v'.0]` = original node π(v').
    pub proj_map: Vec<NodeId>,
    /// `rep[v.0]` = representative of original node v in G', or `None` if absent.
    pub rep: Vec<Option<NodeId>>,
}

/// Every edge of `pe`, taken through `map`, is an edge of `es` of the same
/// weight.
pub open spec fn edges_project(
    pe: Seq<(u32, u32, i64)>,
    map: Seq<NodeId>,
    es: Seq<(u32, u32, i64)>,
) -> bool {
    forall|e: int|
        0 <= e < pe.len() ==> exists|f: int|
            0 <= f < es.len() && #[trigger] es[f] == (
                map[(#[trigger] pe[e]).0 as int].0,
                map[pe[e].1 as int].0,
                pe[e].2,
            )
}

/// The edge `(u, v, w)` of the original graph has a lift in `p`: an edge
/// of weight `w` from a preimage of `u` to a preimage of `v`.
pub open spec fn lifts_edge(p: Projection, u: int, v: int, w: i64) -> bool {
    exists|a: int, b: int|
        0 <= a < p.map().len() && 0 <= b < p.map().len() && p.map()[a].0 == u && p.map()[b].0 == v
            && #[trigger] p.graph.edge_list().contains((a as u32, b as u32, w))
}

impl Projection {
    /// `π`, as the sequence of original nodes of the projection's nodes.
    pub open spec fn map(&self) -> Seq<NodeId> {
        self.proj_map@
    }

    /// The representative of each original node, if present.
    pub open spec fn reps(&self) -> Seq<Option<NodeId>> {
        self.rep@
    }

    /// Well-formedness: the graph is well formed, `π` maps every projection
    /// node to an original node, and every representative is a projection
    /// node that `π` maps back to its original node.
    pub open spec fn wf(&self) -> bool {
        &&& self.graph.wf()
        &&& self.map().len() == self.graph.num_nodes()
        &&& forall|i: int| 0 <= i < self.map().len() ==> (#[trigger] self.map()[i]).0 < self.reps().len()
        &&& forall|v: int|
            0 <= v < self.reps().len() && (#[trigger] self.reps()[v]) is Some ==> self.reps()[v].unwrap().0
                < self.map().len() && self.map()[self.reps()[v].unwrap().0 as int].0 == v
    }

    /// The projection is a projection onto the graph with edges `es` and
    /// `n` nodes: `π` is a weight-preserving homomorphism into it.
    pub open spec fn projects_onto(&self, n: nat, es: Seq<(u32, u32, i64)>) -> bool {
        &&& self.wf()
        &&& self.reps().len() == n
        &&& edges_project(self.graph.edge_list(), self.map(), es)
    }

    // ── Accessors ─────────────────────────────────────────────────────────
    /// Number of nodes in the original graph this projects onto.
    pub fn original_size(&self) -> (n: usize)
        ensures
            n == self.reps().len(),
    {
        self.rep.len()
    }

    /// Returns `true` if original node `v` has a representative in this projection.
    pub fn is_present(&self, v: NodeId) -> (b: bool)
        requires
            v.0 < self.reps().len(),
        ensures
            b == self.reps()[v.0 as int] is Some,
    {
        self.rep[v.0 as usize].is_some()
    }

    /// Representative of original node `v` in this projection, or `None`.
    pub fn representative(&self, v: NodeId) -> (r: Option<NodeId>)
        requires
            v.0 < self.reps().len(),
        ensures
            r == self.reps()[v.0 as int],
    {
        self.rep[v.0 as usize]
    }

    /// Original node that projection node `v_prime` maps to under π.
    pub fn original_of(&self, v_prime: NodeId) -> (v: NodeId)
        requires
            v_prime.0 < self.map().len(),
        ensures
            v == self.map()[v_prime.0 as int],
    {
        self.proj_map[v_prime.0 as usize]
    }

    /// All G′-nodes that map (under π) to `orig`, in increasing order.
    pub fn preimages_of(&self, orig: NodeId) -> (pre: Vec<NodeId>)
        requires
            self.map().len() <= u32::MAX,
        ensures
            forall|t: int|
                0 <= t < pre@.len() ==> (#[trigger] pre@[t]).0 < self.map().len() && self.map()[pre@[t].0 as int]
                    == orig,
            forall|t1: int, t2: int| 0 <= t1 < t2 < pre@.len() ==> pre@[t1].0 < pre@[t2].0,
            forall|i: int|
                0 <= i < self.map().len() && #[trigger] self.map()[i] == orig ==> pre@.contains(
                    NodeId(i as u32),
                ),
    {
        let mut pre: Vec<NodeId> = Vec::new();
        let len = self.proj_map.len();
        let mut i: usize = 0;
        while i < len
            invariant
                len == self.map().len(),
                len <= u32::MAX,
                i <= len,
                forall|t: int|
                    0 <= t < pre@.len() ==> (#[trigger] pre@[t]).0 < i && self.map()[pre@[t].0 as int]
                        == orig,
                forall|t1: int, t2: int| 0 <= t1 < t2 < pre@.len() ==> pre@[t1].0 < pre@[t2].0,
                forall|k: int|
                    0 <= k < i && #[trigger] self.map()[k] == orig ==> pre@.contains(NodeId(k as u32)),
            decreases len - i,
        {
            let ghost before = pre@;
            if self.proj_map[i] == orig {
                pre.push(NodeId(i as u32));
                proof {
                    assert(pre@[pre@.len() - 1] == NodeId(i as u32));
                }
            }
            proof {
                assert forall|k: int|
                    0 <= k < i + 1 && #[trigger] self.map()[k] == orig implies pre@.contains(
                    NodeId(k as u32),
                ) by {
                    if k < i {
                        let t = choose|t: int| 0 <= t < before.len() && before[t] == NodeId(k as u32);
                        assert(pre@[t] == before[t]);
                    }
                }
            }
            i = i + 1;
        }
        pre
    }

    // ── Constructors ──────────────────────────────────────────────────────
    /// Identity projection for the induced subgraph `G[nodes]`.
    ///
    /// Each element of `nodes` gets a unique local copy that is also its own
    /// representative. Exactly the edges whose both endpoints are in `nodes`
    /// are included, one copy each, node after node in the order of `nodes`;
    /// their weights are preserved from `original`. The nodes of `nodes` must
    /// be distinct nodes of `original`.
    pub fn identity_subgraph(original: &Graph, nodes: &[NodeId]) -> (p: Self)
        requires
            original.wf(),
            nodes@.len() < u32::MAX,
            nodes@.no_duplicates(),
            forall|i: int| 0 <= i < nodes@.len() ==> (#[trigger] nodes@[i]).0 < original.num_nodes(),
        ensures
            p.projects_onto(original.num_nodes(), original.edge_list()),
            p.graph.num_nodes() == nodes@.len(),
            p.graph.edge_list() == induced_edges(original.edge_list(), nodes@, nodes@.len() as int),
            p.map() == nodes@,
            forall|i: int|
                0 <= i < nodes@.len() ==> p.reps()[(#[trigger] nodes@[i]).0 as int] == Some(
                    NodeId(i as u32),
                ),
            forall|v: int|
                0 <= v < original.num_nodes() && !nodes@.contains(NodeId(v as u32)) ==> (
                #[trigger] p.reps()[v]) is None,
            forall|f: int, i: int, j: int|
                0 <= f < original.edge_list().len() && 0 <= i < nodes@.len() && 0 <= j
                    < nodes@.len() && (#[trigger] nodes@[i]).0 == (#[trigger] original.edge_list()[f]).0
                    && (#[trigger] nodes@[j]).0 == original.edge_list()[f].1 ==> p.graph.edge_list().contains(
                    (i as u32, j as u32, original.edge_list()[f].2),
                ),
    {
        proof {
            original.lemma_wf_edges();
        }
        let original_size = original.node_count();
        let n = nodes.len();
        // Reverse map: original node id → local index, u32::MAX = absent.
        let (local_of, rep, proj_map) = local_indices(original_size, nodes);
        let mut proj_graph = Graph::with_capacity(n, n);
        proj_graph.add_nodes(n);
        // Include edges of the induced subgraph.
        add_induced_edges(original, nodes, &local_of, &mut proj_graph);
        proof {
            assert forall|v: int|
                0 <= v < rep@.len() && (#[trigger] rep@[v]) is Some implies rep@[v].unwrap().0 < n
                    && nodes@[rep@[v].unwrap().0 as int].0 == v by {
                if !nodes@.contains(NodeId(v as u32)) {
                    assert(local_of@[v] == u32::MAX);
                } else {
                    let t = choose|t: int| 0 <= t < nodes@.len() && nodes@[t] == NodeId(v as u32);
                    assert(rep@[nodes@[t].0 as int] == Some(NodeId(t as u32)));
                }
            }
        }
        Projection { graph: proj_graph, proj_map, rep }
    }

    /// Construct the **layered projection** `Layer((pieces[0], …, pieces[z-1]) → G)`.
    ///
    /// **Step 0 — disjoint union.** All piece graphs are embedded into a
    /// single result graph. Piece i occupies result node ids
    /// `[offsets[i], offsets[i+1])`.
    ///
    /// **Step 1 — internal edges.** Every edge inside piece i is copied into
    /// the result with source and target shifted by `offsets[i]`.
    ///
    /// **Step 2 — representatives.** For each original node v, its global
    /// representative is its representative in the first (lowest-index) piece
    /// where it is present.
    ///
    /// **Step 3 — cross-layer edges.** For each node u' in piece i and each
    /// outgoing edge `(π(u'), v_orig)` in the *original* graph G: if
    /// `rep(v_orig)` lives in some piece j > i, add the edge
    /// `(u'_result, rep(v_orig)_result)` with the original weight.
    ///
    /// Every edge of the result stays inside a piece or goes forward to a
    /// later one, so no cycle of the result spans two pieces. All pieces must
    /// project onto the same original graph,
    /// and the result must fit `u32` ids.
    pub fn layer(pieces: Vec<Projection>, original: &Graph) -> (res: Self)
        requires
            original.wf(),
            forall|i: int|
                0 <= i < pieces@.len() ==> (#[trigger] pieces@[i]).wf() && pieces@[i].reps().len()
                    == original.num_nodes(),
            node_offset(pieces@, pieces@.len() as int) <= u32::MAX,
            edge_total(pieces@, pieces@.len() as int) + layer_cross(
                pieces@,
                original.edge_list(),
                pieces@.len() as int,
            ).len() <= u32::MAX,
        ensures
            res.wf(),
            res.graph.edge_list().len() == edge_total(pieces@, pieces@.len() as int) + layer_cross(
                pieces@,
                original.edge_list(),
                pieces@.len() as int,
            ).len(),
            forall|k: int|
                0 <= k < layer_cross(pieces@, original.edge_list(), pieces@.len() as int).len()
                    ==> res.graph.edge_list()[edge_total(pieces@, pieces@.len() as int) + k] == #[trigger] layer_cross(
                    pieces@,
                    original.edge_list(),
                    pieces@.len() as int,
                )[k],
            res.reps().len() == original.num_nodes(),
            res.graph.num_nodes() == node_offset(pieces@, pieces@.len() as int),
            res.map() == joined_maps(pieces@, pieces@.len() as int),
            forall|v: int|
                0 <= v < original.num_nodes() ==> #[trigger] res.reps()[v] == layered_rep(
                    pieces@,
                    v,
                ),
            (forall|i: int|
                0 <= i < pieces@.len() ==> (#[trigger] pieces@[i]).projects_onto(
                    original.num_nodes(),
                    original.edge_list(),
                )) ==> res.projects_onto(original.num_nodes(), original.edge_list()),
            forall|e: int|
                0 <= e < res.graph.edge_list().len() ==> piece_le(pieces@, res.graph.edge_list()[e].0 as int, res.graph.edge_list()[e].1 as int),
            forall|i: int, f: int|
                0 <= i < pieces@.len() && 0 <= f < pieces@[i].graph.edge_list().len()
                    ==> res.graph.edge_list()[edge_total(pieces@, i) + f] == #[trigger] shifted_edge(
                    pieces@,
                    i,
                    f,
                ),
            forall|i: int, a: int, f: int|
                0 <= i < pieces@.len() && 0 <= a < pieces@[i].graph.num_nodes() && 0 <= f
                    < original.edge_list().len() && #[trigger] cross_edge_due(
                    pieces@,
                    original.edge_list(),
                    i,
                    a,
                    f,
                ) ==> res.graph.edge_list().contains(cross_edge(pieces@, original.edge_list(), i, a, f)),
            forall|i: int, a: int, f: int, j: int|
                #![trigger pieces@[i].map()[a], pieces@[j].reps()[original.edge_list()[f].1 as int]]
                0 <= i < j && 0 <= a < pieces@[i].graph.num_nodes() && 0 <= f < original.edge_list().len()
                    && original.edge_list()[f].0 == pieces@[i].map()[a].0 && first_rep_layer(
                    pieces@,
                    original.edge_list()[f].1 as int,
                    pieces@.len() as int,
                ) == Some(j) ==> (res.graph.edge_list().contains(
                    (
                        (node_offset(pieces@, i) + a) as u32,
                        (node_offset(pieces@, j) + pieces@[j].reps()[original.edge_list()[f].1 as int].unwrap().0) as u32,
                        original.edge_list()[f].2,
                    ),
                )),
            forall|k: int|
                edge_total(pieces@, pieces@.len() as int) <= k < res.graph.edge_list().len() ==> joins_later_rep(
                    pieces@,
                    original.edge_list(),
                    #[trigger] res.graph.edge_list()[k],
                ),
            forall|i: int, u: int, v: int, w: i64|
                0 <= i < pieces@.len() && #[trigger] lifts_edge(pieces@[i], u, v, w) ==> lifts_edge(res, u, v, w),
            forall|i: int, f: int|
                0 <= i < pieces@.len() && 0 <= f < original.edge_list().len() && (#[trigger] pieces@[i].reps()[(
                #[trigger] original.edge_list()[f]).0 as int]) is Some && (first_rep_layer(
                    pieces@,
                    original.edge_list()[f].1 as int,
                    pieces@.len() as int,
                ) matches Some(j) && j > i) ==> lifts_edge(
                    res,
                    original.edge_list()[f].0 as int,
                    original.edge_list()[f].1 as int,
                    original.edge_list()[f].2,
                ),
    {
        proof {
            original.lemma_wf_edges();
            lemma_joined_maps(pieces@, pieces@.len() as int);
            lemma_offsets_monotone(pieces@, 0, pieces@.len() as int);
        }
        let offsets = layer_offsets(&pieces);
        let proj_map = layer_map(&pieces);
        let (rep_result, rep_layer) = layer_reps(&pieces, &offsets, original.node_count());
        let total_nodes = offsets[pieces.len()] as usize;
        let mut result_graph = Graph::with_capacity(total_nodes, original.edge_count());
        result_graph.add_nodes(total_nodes);
        add_internal_edges(&pieces, &offsets, &mut result_graph, Ghost(original.edge_list()), Ghost(original.num_nodes()));
        let ghost internal = result_graph.edge_list();
        add_cross_edges(&pieces, &offsets, &rep_result, &rep_layer, original, &mut result_graph);
        let res = Projection { graph: result_graph, proj_map, rep: rep_result };
        proof {
            let pcs = pieces@;
            assert forall|i: int, f: int|
                0 <= i < pcs.len() && 0 <= f < pcs[i].graph.edge_list().len()
                    implies res.graph.edge_list()[edge_total(pcs, i) + f] == #[trigger] shifted_edge(pcs, i, f) by {
                lemma_offsets_monotone(pcs, i + 1, pcs.len() as int);
                lemma_offsets_monotone(pcs, i, i + 1);
                assert(edge_total(pcs, i + 1) == edge_total(pcs, i) + pcs[i].graph.edge_list().len());
                lemma_offsets_monotone(pcs, 0, i);
                let k = edge_total(pcs, i) + f;
                assert(0 <= k < internal.len());
                assert(res.graph.edge_list().subrange(0, internal.len() as int) == internal);
                assert(res.graph.edge_list().subrange(0, internal.len() as int)[k]
                    == res.graph.edge_list()[k]);
                assert(internal[k] == shifted_edge(pcs, i, f));
            }
            assert forall|v: int|
                0 <= v < res.reps().len() && (#[trigger] res.reps()[v]) is Some implies res.reps()[v].unwrap().0
                    < res.map().len() && res.map()[res.reps()[v].unwrap().0 as int].0 == v by {
                assert(res.reps()[v] == layered_rep(pcs, v));
                let t = first_rep_layer(pcs, v, pcs.len() as int).unwrap();
                lemma_first_rep_layer(pcs, v, pcs.len() as int);
                let local = pcs[t].reps()[v].unwrap().0 as int;
                assert(pcs[t].wf());
                assert(local < pcs[t].graph.num_nodes());
                lemma_offsets_monotone(pcs, t + 1, pcs.len() as int);
                lemma_offsets_monotone(pcs, t, t + 1);
                assert(node_offset(pcs, t + 1) == node_offset(pcs, t) + pcs[t].graph.num_nodes());
                assert(res.reps()[v].unwrap().0 == node_offset(pcs, t) + local);
                assert(res.map().len() == node_offset(pcs, pcs.len() as int));
                assert(joined_maps(pcs, pcs.len() as int)[node_offset(pcs, t) + local] == pcs[t].map()[local]);
                assert(pcs[t].map()[local].0 == v);
            }
            assert forall|a: int| 0 <= a < res.map().len() implies (#[trigger] res.map()[a]).0
                < res.reps().len() by {
                let t = lemma_piece_of(pcs, a);
                let local = a - node_offset(pcs, t);
                assert(res.map()[node_offset(pcs, t) + local] == pcs[t].map()[local]);
                assert(pcs[t].wf());
            }
            let es = original.edge_list();
            assert forall|i: int, u: int, v: int, w: i64|
                0 <= i < pcs.len() && #[trigger] lifts_edge(pcs[i], u, v, w) implies lifts_edge(res, u, v, w) by {
                let (a, b) = choose|a: int, b: int|
                    0 <= a < pcs[i].map().len() && 0 <= b < pcs[i].map().len() && pcs[i].map()[a].0 == u
                        && pcs[i].map()[b].0 == v && #[trigger] pcs[i].graph.edge_list().contains(
                        (a as u32, b as u32, w),
                    );
                let pe = pcs[i].graph.edge_list();
                let f = choose|f: int| 0 <= f < pe.len() && pe[f] == (a as u32, b as u32, w);
                assert(pcs[i].wf());
                lemma_offsets_monotone(pcs, i + 1, pcs.len() as int);
                lemma_offsets_monotone(pcs, i, i + 1);
                assert(node_offset(pcs, i + 1) == node_offset(pcs, i) + pcs[i].graph.num_nodes());
                assert(edge_total(pcs, i + 1) == edge_total(pcs, i) + pe.len());
                let k = edge_total(pcs, i) + f;
                assert(res.graph.edge_list()[k] == shifted_edge(pcs, i, f));
                let a2 = node_offset(pcs, i) + a;
                let b2 = node_offset(pcs, i) + b;
                assert(res.map()[a2] == pcs[i].map()[a]);
                assert(res.map()[b2] == pcs[i].map()[b]);
                assert(res.graph.edge_list()[k] == (a2 as u32, b2 as u32, w));
                assert(res.graph.edge_list().contains((a2 as u32, b2 as u32, w)));
            }
            assert forall|i: int, f: int|
                0 <= i < pcs.len() && 0 <= f < es.len() && (#[trigger] pcs[i].reps()[(#[trigger] es[f]).0 as int])
                    is Some && (first_rep_layer(pcs, es[f].1 as int, pcs.len() as int) matches Some(j) && j > i)
                    implies lifts_edge(res, es[f].0 as int, es[f].1 as int, es[f].2) by {
                let u = es[f].0 as int;
                let v = es[f].1 as int;
                assert(u < original.num_nodes() && v < original.num_nodes());
                assert(pcs[i].wf());
                let a = pcs[i].reps()[u].unwrap().0 as int;
                assert(pcs[i].map()[a].0 == u);
                assert(cross_edge_due(pcs, es, i, a, f));
                let x = cross_edge(pcs, es, i, a, f);
                assert(res.graph.edge_list().contains(x));
                lemma_offsets_monotone(pcs, i + 1, pcs.len() as int);
                lemma_offsets_monotone(pcs, i, i + 1);
                assert(node_offset(pcs, i + 1) == node_offset(pcs, i) + pcs[i].graph.num_nodes());
                let a2 = node_offset(pcs, i) + a;
                assert(res.map()[a2] == pcs[i].map()[a]);
                assert(res.reps()[v] == layered_rep(pcs, v));
                lemma_first_rep_layer(pcs, v, pcs.len() as int);
                assert(res.reps()[v] is Some);
                let b2 = res.reps()[v].unwrap().0 as int;
                assert(res.map()[b2].0 == v);
                assert(x == (a2 as u32, b2 as u32, es[f].2));
            }
            assert forall|i: int, a: int, f: int, j: int|
                #![trigger pcs[i].map()[a], pcs[j].reps()[es[f].1 as int]]
                0 <= i < j && 0 <= a < pcs[i].graph.num_nodes() && 0 <= f < es.len() && es[f].0
                    == pcs[i].map()[a].0 && first_rep_layer(pcs, es[f].1 as int, pcs.len() as int) == Some(j)
                    implies res.graph.edge_list().contains(
                (
                    (node_offset(pcs, i) + a) as u32,
                    (node_offset(pcs, j) + pcs[j].reps()[es[f].1 as int].unwrap().0) as u32,
                    es[f].2,
                ),
            ) by {
                lemma_first_rep_layer(pcs, es[f].1 as int, pcs.len() as int);
                assert(cross_edge_due(pcs, es, i, a, f));
                assert(res.graph.edge_list().contains(cross_edge(pcs, es, i, a, f)));
            }
            lemma_layer_cross_joins(pcs, es, pcs.len() as int);
            assert forall|k: int| edge_total(pcs, pcs.len() as int) <= k < res.graph.edge_list().len() implies joins_later_rep(
                pcs,
                es,
                #[trigger] res.graph.edge_list()[k],
            ) by {
                let k2 = k - edge_total(pcs, pcs.len() as int);
                assert(res.graph.edge_list()[edge_total(pcs, pcs.len() as int) + k2] == layer_cross(pcs, es, pcs.len() as int)[k2]);
            }
        }
        res
    }

    /// Replace the `graph` field with a pre-built graph that has the same
    /// node set and projection map, but different edge weights.
    ///
    /// Used by `sssp::build_path_cover` to restore original (possibly
    /// negative) weights after building a non-negative path cover. The new
    /// graph must have as many nodes as the old one.
    pub fn with_graph(self, new_graph: Graph) -> (res: Self)
        requires
            new_graph.num_nodes() == self.graph.num_nodes(),
        ensures
            res.graph == new_graph,
            res.map() == self.map(),
            res.reps() == self.reps(),
    {
        Projection { graph: new_graph, proj_map: self.proj_map, rep: self.rep }
    }
}

/// Number of nodes of the first `i` pieces: where piece `i` starts in the
/// layered projection.
pub open spec fn node_offset(pcs: Seq<Projection>, i: int) -> int
    decreases i,
{
    if i <= 0 {
        0
    } else {
        node_offset(pcs, i - 1) + pcs[i - 1].graph.num_nodes()
    }
}

/// Number of edges of the first `i` pieces.
pub open spec fn edge_total(pcs: Seq<Projection>, i: int) -> int
    decreases i,
{
    if i <= 0 {
        0
    } else {
        edge_total(pcs, i - 1) + pcs[i - 1].graph.edge_list().len()
    }
}

/// The maps `π` of the first `i` pieces, one after the other.
pub open spec fn joined_maps(pcs: Seq<Projection>, i: int) -> Seq<NodeId>
    decreases i,
{
    if i <= 0 {
        Seq::empty()
    } else {
        joined_maps(pcs, i - 1) + pcs[i - 1].map()
    }
}

/// The first of the first `i` pieces in which original node `v` is present.
pub open spec fn first_rep_layer(pcs: Seq<Projection>, v: int, i: int) -> Option<int>
    decreases i,
{
    if i <= 0 {
        None
    } else {
        match first_rep_layer(pcs, v, i - 1) {
            Some(t) => Some(t),
            None => if pcs[i - 1].reps()[v] is Some {
                Some(i - 1)
            } else {
                None
            },
        }
    }
}

/// The representative of `v` in the layered projection: its representative
/// in the first piece where it is present, shifted to that piece's place.
pub open spec fn layered_rep(pcs: Seq<Projection>, v: int) -> Option<NodeId> {
    match first_rep_layer(pcs, v, pcs.len() as int) {
        None => None,
        Some(t) => Some(NodeId((node_offset(pcs, t) + pcs[t].reps()[v].unwrap().0) as u32)),
    }
}

/// Node `a` of the layered projection belongs to piece `i`.
pub open spec fn in_piece(pcs: Seq<Projection>, i: int, a: int) -> bool {
    0 <= i < pcs.len() && node_offset(pcs, i) <= a < node_offset(pcs, i + 1)
}

/// Nodes `a` and `b` of the layered projection belong to the same piece.
pub open spec fn same_piece(pcs: Seq<Projection>, a: int, b: int) -> bool {
    exists|i: int| #[trigger] in_piece(pcs, i, a) && in_piece(pcs, i, b)
}

/// Node `a` of the layered projection belongs to the piece of node `b` or to
/// an earlier one.
pub open spec fn piece_le(pcs: Seq<Projection>, a: int, b: int) -> bool {
    exists|i: int, j: int| i <= j && #[trigger] in_piece(pcs, i, a) && #[trigger] in_piece(pcs, j, b)
}

/// Edge `f` of piece `i`, moved to the place of piece `i` in the layered
/// projection.
pub open spec fn shifted_edge(pcs: Seq<Projection>, i: int, f: int) -> (u32, u32, i64) {
    let pe = pcs[i].graph.edge_list()[f];
    ((node_offset(pcs, i) + pe.0) as u32, (node_offset(pcs, i) + pe.1) as u32, pe.2)
}

/// The original edge `f` leaves the image of node `a` of piece `i`, and the
/// representative of its target lies in a later piece.
pub open spec fn cross_edge_due(
    pcs: Seq<Projection>,
    es: Seq<(u32, u32, i64)>,
    i: int,
    a: int,
    f: int,
) -> bool {
    &&& es[f].0 == pcs[i].map()[a].0
    &&& first_rep_layer(pcs, es[f].1 as int, pcs.len() as int) matches Some(j) && j > i
}

/// The cross-layer edge from node `a` of piece `i` to the representative of
/// the target of the original edge `f`, with its weight.
pub open spec fn cross_edge(
    pcs: Seq<Projection>,
    es: Seq<(u32, u32, i64)>,
    i: int,
    a: int,
    f: int,
) -> (u32, u32, i64) {
    ((node_offset(pcs, i) + a) as u32, layered_rep(pcs, es[f].1 as int).unwrap().0, es[f].2)
}

/// The cross edges of node `a` of piece `i`, for the first `k` edges of
/// `outs` (the original edges leaving its image), in that order.
pub open spec fn node_cross(
    pcs: Seq<Projection>,
    es: Seq<(u32, u32, i64)>,
    i: int,
    a: int,
    outs: Seq<int>,
    k: int,
) -> Seq<(u32, u32, i64)>
    decreases k,
{
    if k <= 0 {
        Seq::empty()
    } else {
        let prev = node_cross(pcs, es, i, a, outs, k - 1);
        if cross_edge_due(pcs, es, i, a, outs[k - 1]) {
            prev.push(cross_edge(pcs, es, i, a, outs[k - 1]))
        } else {
            prev
        }
    }
}

/// All cross edges of node `a` of piece `i`, in the order of the original
/// edges leaving its image (latest added first).
pub open spec fn all_node_cross(pcs: Seq<Projection>, es: Seq<(u32, u32, i64)>, i: int, a: int) -> Seq<
    (u32, u32, i64),
> {
    let outs = incident(es, pcs[i].map()[a].0 as int, true);
    node_cross(pcs, es, i, a, outs, outs.len() as int)
}

/// The cross edges of the first `a` nodes of piece `i`, node after node.
pub open spec fn piece_cross(pcs: Seq<Projection>, es: Seq<(u32, u32, i64)>, i: int, a: int) -> Seq<
    (u32, u32, i64),
>
    decreases a,
{
    if a <= 0 {
        Seq::empty()
    } else {
        piece_cross(pcs, es, i, a - 1) + all_node_cross(pcs, es, i, a - 1)
    }
}

/// `x` joins node `a` of piece `i` (shifted to its place) to the
/// representative of the target of an original edge `f` that leaves the
/// image of `a`, where that target is first represented in a later piece
/// `j`; `x` carries the weight of `f`.
pub open spec fn joins_later_rep(pcs: Seq<Projection>, es: Seq<(u32, u32, i64)>, x: (u32, u32, i64)) -> bool {
    exists|i: int, a: int, f: int, j: int|
        #![trigger pcs[i].map()[a], pcs[j].reps()[es[f].1 as int]]
        0 <= i < j && 0 <= a < pcs[i].graph.num_nodes() && 0 <= f < es.len() && es[f].0 == pcs[i].map()[a].0
            && first_rep_layer(pcs, es[f].1 as int, pcs.len() as int) == Some(j) && x == (
            (node_offset(pcs, i) + a) as u32,
            (node_offset(pcs, j) + pcs[j].reps()[es[f].1 as int].unwrap().0) as u32,
            es[f].2,
        )
}

proof fn lemma_node_cross_joins(
    pcs: Seq<Projection>,
    es: Seq<(u32, u32, i64)>,
    i: int,
    a: int,
    outs: Seq<int>,
    k: int,
)
    requires
        0 <= i < pcs.len(),
        0 <= a < pcs[i].graph.num_nodes(),
        0 <= k <= outs.len(),
        forall|t: int| 0 <= t < outs.len() ==> 0 <= #[trigger] outs[t] < es.len() && es[outs[t]].0 == pcs[i].map()[a].0,
    ensures
        forall|m: int|
            0 <= m < node_cross(pcs, es, i, a, outs, k).len() ==> joins_later_rep(
                pcs,
                es,
                #[trigger] node_cross(pcs, es, i, a, outs, k)[m],
            ),
    decreases k,
{
    if k > 0 {
        lemma_node_cross_joins(pcs, es, i, a, outs, k - 1);
        let f = outs[k - 1];
        if cross_edge_due(pcs, es, i, a, f) {
            let j = first_rep_layer(pcs, es[f].1 as int, pcs.len() as int).unwrap();
            let x = cross_edge(pcs, es, i, a, f);
            assert(pcs[i].map()[a] == pcs[i].map()[a] && pcs[j].reps()[es[f].1 as int] == pcs[j].reps()[es[f].1 as int]);
            assert(joins_later_rep(pcs, es, x));
        }
        let prev = node_cross(pcs, es, i, a, outs, k - 1);
        assert forall|m: int| 0 <= m < node_cross(pcs, es, i, a, outs, k).len() implies joins_later_rep(
            pcs,
            es,
            #[trigger] node_cross(pcs, es, i, a, outs, k)[m],
        ) by {
            if m < prev.len() {
                assert(node_cross(pcs, es, i, a, outs, k)[m] == prev[m]);
            }
        }
    }
}

proof fn lemma_piece_cross_joins(pcs: Seq<Projection>, es: Seq<(u32, u32, i64)>, i: int, a: int)
    requires
        0 <= i < pcs.len(),
        0 <= a <= pcs[i].graph.num_nodes(),
    ensures
        forall|m: int|
            0 <= m < piece_cross(pcs, es, i, a).len() ==> joins_later_rep(
                pcs,
                es,
                #[trigger] piece_cross(pcs, es, i, a)[m],
            ),
    decreases a,
{
    if a > 0 {
        lemma_piece_cross_joins(pcs, es, i, a - 1);
        let v = pcs[i].map()[a - 1].0 as int;
        let outs = incident(es, v, true);
        lemma_incident_members(es, v, es.len() as int, true);
        assert forall|t: int| 0 <= t < outs.len() implies 0 <= #[trigger] outs[t] < es.len() && es[outs[t]].0
            == pcs[i].map()[a - 1].0 by {
            assert(outs[t] == incident_below(es, v, es.len() as int, true)[t]);
        }
        lemma_node_cross_joins(pcs, es, i, a - 1, outs, outs.len() as int);
        let prev = piece_cross(pcs, es, i, a - 1);
        let last = all_node_cross(pcs, es, i, a - 1);
        assert forall|m: int| 0 <= m < piece_cross(pcs, es, i, a).len() implies joins_later_rep(
            pcs,
            es,
            #[trigger] piece_cross(pcs, es, i, a)[m],
        ) by {
            if m < prev.len() {
                assert(piece_cross(pcs, es, i, a)[m] == prev[m]);
            } else {
                assert(piece_cross(pcs, es, i, a)[m] == last[m - prev.len()]);
            }
        }
    }
}

/// Every cross edge of the first `i` pieces joins a node to the
/// representative of an edge's target that is first represented later.
proof fn lemma_layer_cross_joins(pcs: Seq<Projection>, es: Seq<(u32, u32, i64)>, i: int)
    requires
        0 <= i <= pcs.len(),
    ensures
        forall|m: int|
            0 <= m < layer_cross(pcs, es, i).len() ==> joins_later_rep(pcs, es, #[trigger] layer_cross(pcs, es, i)[m]),
    decreases i,
{
    if i > 0 {
        lemma_layer_cross_joins(pcs, es, i - 1);
        lemma_piece_cross_joins(pcs, es, i - 1, pcs[i - 1].graph.num_nodes() as int);
        let prev = layer_cross(pcs, es, i - 1);
        let last = piece_cross(pcs, es, i - 1, pcs[i - 1].graph.num_nodes() as int);
        assert forall|m: int| 0 <= m < layer_cross(pcs, es, i).len() implies joins_later_rep(
            pcs,
            es,
            #[trigger] layer_cross(pcs, es, i)[m],
        ) by {
            if m < prev.len() {
                assert(layer_cross(pcs, es, i)[m] == prev[m]);
            } else {
                assert(layer_cross(pcs, es, i)[m] == last[m - prev.len()]);
            }
        }
    }
}

/// The cross edges of the first `i` pieces, piece after piece: the edges
/// that the layered projection adds after the pieces' own edges.
pub open spec fn layer_cross(pcs: Seq<Projection>, es: Seq<(u32, u32, i64)>, i: int) -> Seq<
    (u32, u32, i64),
>
    decreases i,
{
    if i <= 0 {
        Seq::empty()
    } else {
        layer_cross(pcs, es, i - 1) + piece_cross(pcs, es, i - 1, pcs[i - 1].graph.num_nodes() as int)
    }
}

proof fn lemma_node_cross_len(
    pcs: Seq<Projection>,
    es: Seq<(u32, u32, i64)>,
    i: int,
    a: int,
    outs: Seq<int>,
    k: int,
    l: int,
)
    requires
        0 <= k <= l,
    ensures
        node_cross(pcs, es, i, a, outs, k).len() <= node_cross(pcs, es, i, a, outs, l).len(),
    decreases l,
{
    if k < l {
        lemma_node_cross_len(pcs, es, i, a, outs, k, l - 1);
    }
}

proof fn lemma_piece_cross_len(pcs: Seq<Projection>, es: Seq<(u32, u32, i64)>, i: int, a: int, b: int)
    requires
        0 <= a <= b,
    ensures
        piece_cross(pcs, es, i, a).len() <= piece_cross(pcs, es, i, b).len(),
    decreases b,
{
    if a < b {
        lemma_piece_cross_len(pcs, es, i, a, b - 1);
    }
}

proof fn lemma_layer_cross_len(pcs: Seq<Projection>, es: Seq<(u32, u32, i64)>, i: int, j: int)
    requires
        0 <= i <= j,
    ensures
        layer_cross(pcs, es, i).len() <= layer_cross(pcs, es, j).len(),
    decreases j,
{
    if i < j {
        lemma_layer_cross_len(pcs, es, i, j - 1);
    }
}

proof fn lemma_push_keeps(s: Seq<(u32, u32, i64)>, x: (u32, u32, i64), y: (u32, u32, i64))
    requires
        s.contains(x),
    ensures
        s.push(y).contains(x),
{
    let k = choose|k: int| 0 <= k < s.len() && s[k] == x;
    assert(s.push(y)[k] == x);
}

proof fn lemma_offsets_monotone(pcs: Seq<Projection>, i: int, j: int)
    requires
        0 <= i <= j,
    ensures
        node_offset(pcs, i) <= node_offset(pcs, j),
        edge_total(pcs, i) <= edge_total(pcs, j),
        node_offset(pcs, i) >= 0,
        edge_total(pcs, i) >= 0,
    decreases j,
{
    if i < j {
        lemma_offsets_monotone(pcs, i, j - 1);
    } else if i > 0 {
        lemma_offsets_monotone(pcs, i - 1, i - 1);
    }
}

proof fn lemma_joined_maps(pcs: Seq<Projection>, i: int)
    requires
        i >= 0,
        i <= pcs.len(),
        forall|t: int| 0 <= t < i ==> (#[trigger] pcs[t]).map().len() == pcs[t].graph.num_nodes(),
    ensures
        joined_maps(pcs, i).len() == node_offset(pcs, i),
        forall|t: int, a: int|
            0 <= t < i && 0 <= a < pcs[t].graph.num_nodes() ==> #[trigger] joined_maps(pcs, i)[node_offset(
                pcs,
                t,
            ) + a] == #[trigger] pcs[t].map()[a],
    decreases i,
{
    if i > 0 {
        lemma_joined_maps(pcs, i - 1);
        assert forall|t: int, a: int|
            0 <= t < i && 0 <= a < pcs[t].graph.num_nodes() implies #[trigger] joined_maps(pcs, i)[node_offset(
            pcs,
            t,
        ) + a] == #[trigger] pcs[t].map()[a] by {
            let x = joined_maps(pcs, i - 1);
            let y = pcs[i - 1].map();
            assert(joined_maps(pcs, i) == x + y);
            if t < i - 1 {
                lemma_offsets_monotone(pcs, t + 1, i - 1);
                lemma_offsets_monotone(pcs, 0, t);
                assert(x[node_offset(pcs, t) + a] == pcs[t].map()[a]);
                assert((x + y)[node_offset(pcs, t) + a] == x[node_offset(pcs, t) + a]);
            } else {
                assert((x + y)[x.len() + a] == y[a]);
            }
        }
    }
}

pub proof fn lemma_first_rep_layer(pcs: Seq<Projection>, v: int, i: int)
    requires
        0 <= i <= pcs.len(),
    ensures
        first_rep_layer(pcs, v, i) matches Some(t) ==> 0 <= t < i && pcs[t].reps()[v] is Some,
        first_rep_layer(pcs, v, i) is None ==> forall|t: int| 0 <= t < i ==> (#[trigger] pcs[t].reps()[v]) is None,
    decreases i,
{
    if i > 0 {
        lemma_first_rep_layer(pcs, v, i - 1);
    }
}

/// The piece that node `a` of the layered projection belongs to.
proof fn lemma_piece_of(pcs: Seq<Projection>, a: int) -> (t: int)
    requires
        0 <= a < node_offset(pcs, pcs.len() as int),
    ensures
        in_piece(pcs, t, a),
    decreases pcs.len(),
{
    lemma_piece_of_below(pcs, a, pcs.len() as int)
}

proof fn lemma_piece_of_below(pcs: Seq<Projection>, a: int, i: int) -> (t: int)
    requires
        0 <= a < node_offset(pcs, i),
        0 <= i <= pcs.len(),
    ensures
        in_piece(pcs, t, a),
        t < i,
    decreases i,
{
    lemma_offsets_monotone(pcs, 0, i);
    if a >= node_offset(pcs, i - 1) {
        i - 1
    } else {
        lemma_piece_of_below(pcs, a, i - 1)
    }
}

/// A node of the layered projection belongs to one piece only.
proof fn lemma_piece_unique(pcs: Seq<Projection>, i: int, j: int, a: int)
    requires
        in_piece(pcs, i, a),
        in_piece(pcs, j, a),
    ensures
        i == j,
{
    if i < j {
        lemma_offsets_monotone(pcs, i + 1, j);
    } else if j < i {
        lemma_offsets_monotone(pcs, j + 1, i);
    }
}

/// When every edge of `le` stays in its piece or goes forward to a later
/// one, so does every walk.
proof fn lemma_walk_piece_le(pcs: Seq<Projection>, le: Seq<(u32, u32, i64)>, p: Seq<int>, a: int, b: int)
    requires
        forall|e: int| 0 <= e < le.len() ==> #[trigger] piece_le(pcs, le[e].0 as int, le[e].1 as int),
        0 <= a < node_offset(pcs, pcs.len() as int),
        is_walk(le, p, a, b),
    ensures
        piece_le(pcs, a, b),
    decreases p.len(),
{
    if p.len() == 0 {
        let t = lemma_piece_of(pcs, a);
        assert(in_piece(pcs, t, a) && in_piece(pcs, t, b));
    } else {
        let e = p.last();
        let x = le[e].0 as int;
        lemma_walk_piece_le(pcs, le, p.drop_last(), a, x);
        assert(piece_le(pcs, le[e].0 as int, le[e].1 as int));
        let (i1, j1) = choose|i1: int, j1: int| i1 <= j1 && #[trigger] in_piece(pcs, i1, a) && #[trigger] in_piece(pcs, j1, x);
        let (i2, j2) = choose|i2: int, j2: int| i2 <= j2 && #[trigger] in_piece(pcs, i2, x) && #[trigger] in_piece(pcs, j2, b);
        lemma_piece_unique(pcs, j1, i2, x);
        assert(in_piece(pcs, i1, a) && in_piece(pcs, j2, b));
    }
}

/// No strongly connected part of a layered projection spans two pieces:
/// when every edge stays in its piece or goes forward (as the edges of
/// [`Projection::layer`] do), two nodes that reach each other lie in the
/// same piece.
pub proof fn lemma_layer_scc_in_one_piece(
    pcs: Seq<Projection>,
    le: Seq<(u32, u32, i64)>,
    a: int,
    b: int,
    p: Seq<int>,
    q: Seq<int>,
)
    requires
        forall|e: int| 0 <= e < le.len() ==> #[trigger] piece_le(pcs, le[e].0 as int, le[e].1 as int),
        0 <= a < node_offset(pcs, pcs.len() as int),
        is_walk(le, p, a, b),
        is_walk(le, q, b, a),
    ensures
        same_piece(pcs, a, b),
{
    lemma_walk_piece_le(pcs, le, p, a, b);
    let (i1, j1) = choose|i1: int, j1: int| i1 <= j1 && #[trigger] in_piece(pcs, i1, a) && #[trigger] in_piece(pcs, j1, b);
    assert(0 <= b < node_offset(pcs, pcs.len() as int)) by {
        lemma_offsets_monotone(pcs, j1 + 1, pcs.len() as int);
    }
    lemma_walk_piece_le(pcs, le, q, b, a);
    let (i2, j2) = choose|i2: int, j2: int| i2 <= j2 && #[trigger] in_piece(pcs, i2, b) && #[trigger] in_piece(pcs, j2, a);
    lemma_piece_unique(pcs, i1, j2, a);
    lemma_piece_unique(pcs, j1, i2, b);
    assert(i1 == j1);
    assert(in_piece(pcs, i1, a) && in_piece(pcs, i1, b));
}

/// `offsets[i]` = first result-graph node id belonging to piece `i`.
fn layer_offsets(pieces: &Vec<Projection>) -> (offsets: Vec<u32>)
    requires
        forall|i: int| 0 <= i < pieces@.len() ==> (#[trigger] pieces@[i]).wf(),
        node_offset(pieces@, pieces@.len() as int) <= u32::MAX,
    ensures
        offsets@.len() == pieces@.len() + 1,
        forall|t: int| 0 <= t <= pieces@.len() ==> #[trigger] offsets@[t] == node_offset(pieces@, t),
{
    let k = pieces.len();
    let mut offsets: Vec<u32> = Vec::new();
    offsets.push(0);
    let mut i: usize = 0;
    while i < k
        invariant
            i <= k,
            k == pieces@.len(),
            forall|t: int| 0 <= t < pieces@.len() ==> (#[trigger] pieces@[t]).wf(),
            node_offset(pieces@, pieces@.len() as int) <= u32::MAX,
            offsets@.len() == i + 1,
            forall|t: int| 0 <= t <= i ==> #[trigger] offsets@[t] == node_offset(pieces@, t),
        decreases k - i,
    {
        let last = offsets[i];
        proof {
            lemma_offsets_monotone(pieces@, i + 1, k as int);
        }
        let cnt = pieces[i].graph.node_count();
        offsets.push(last + cnt as u32);
        i = i + 1;
    }
    offsets
}

/// Each piece's projection map, concatenated in layer order.
fn layer_map(pieces: &Vec<Projection>) -> (proj_map: Vec<NodeId>)
    requires
        forall|i: int| 0 <= i < pieces@.len() ==> (#[trigger] pieces@[i]).wf(),
    ensures
        proj_map@ == joined_maps(pieces@, pieces@.len() as int),
{
    let k = pieces.len();
    let mut proj_map: Vec<NodeId> = Vec::new();
    let mut i: usize = 0;
    while i < k
        invariant
            i <= k,
            k == pieces@.len(),
            forall|t: int| 0 <= t < pieces@.len() ==> (#[trigger] pieces@[t]).wf(),
            proj_map@ == joined_maps(pieces@, i as int),
        decreases k - i,
    {
        let p = &pieces[i];
        let cnt = p.graph.node_count();
        proof {
            p.graph.lemma_wf_edges();
        }
        let mut a: usize = 0;
        while a < cnt
            invariant
                a <= cnt,
                cnt == p.graph.num_nodes(),
                cnt <= u32::MAX,
                p.wf(),
                proj_map@ == joined_maps(pieces@, i as int) + p.map().take(a as int),
            decreases cnt - a,
        {
            proj_map.push(p.original_of(NodeId(a as u32)));
            proof {
                assert(p.map().take(a + 1) =~= p.map().take(a as int).push(p.map()[a as int]));
            }
            a = a + 1;
        }
        proof {
            assert(p.map().take(cnt as int) =~= p.map());
            assert(joined_maps(pieces@, i + 1) == joined_maps(pieces@, i as int) + pieces@[i as int].map());
        }
        i = i + 1;
    }
    proj_map
}

/// The representative of each original node in the layered projection and
/// the piece it lives in (the first piece where the node is present).
fn layer_reps(pieces: &Vec<Projection>, offsets: &Vec<u32>, size: usize) -> (r: (
    Vec<Option<NodeId>>,
    Vec<Option<usize>>,
))
    requires
        forall|i: int|
            0 <= i < pieces@.len() ==> (#[trigger] pieces@[i]).wf() && pieces@[i].reps().len()
                == size,
        offsets@.len() == pieces@.len() + 1,
        forall|t: int| 0 <= t <= pieces@.len() ==> #[trigger] offsets@[t] == node_offset(pieces@, t),
        node_offset(pieces@, pieces@.len() as int) <= u32::MAX,
        size <= u32::MAX,
    ensures
        r.0@.len() == size,
        r.1@.len() == size,
        forall|v: int| 0 <= v < size ==> #[trigger] r.0@[v] == layered_rep(pieces@, v),
        forall|v: int|
            0 <= v < size ==> match #[trigger] r.1@[v] {
                None => first_rep_layer(pieces@, v, pieces@.len() as int) is None,
                Some(t) => first_rep_layer(pieces@, v, pieces@.len() as int) == Some(t as int),
            },
{
    let ghost pcs = pieces@;
    let k = pieces.len();
    let mut rep_result: Vec<Option<NodeId>> = Vec::with_capacity(size);
    let mut rep_layer: Vec<Option<usize>> = Vec::with_capacity(size);
    let mut v: usize = 0;
    while v < size
        invariant
            v <= size,
            rep_result@.len() == v,
            rep_layer@.len() == v,
            forall|x: int| 0 <= x < v ==> rep_result@[x] is None && rep_layer@[x] is None,
        decreases size - v,
    {
        rep_result.push(None);
        rep_layer.push(None);
        v = v + 1;
    }
    let mut i: usize = 0;
    while i < k
        invariant
            i <= k,
            k == pcs.len(),
            pcs == pieces@,
            rep_result@.len() == size,
            rep_layer@.len() == size,
            size <= u32::MAX,
            forall|t: int|
                0 <= t < pcs.len() ==> (#[trigger] pcs[t]).wf() && pcs[t].reps().len() == size,
            offsets@.len() == pcs.len() + 1,
            forall|t: int| 0 <= t <= pcs.len() ==> #[trigger] offsets@[t] == node_offset(pcs, t),
            node_offset(pcs, pcs.len() as int) <= u32::MAX,
            forall|x: int|
                0 <= x < size ==> match #[trigger] rep_layer@[x] {
                    None => first_rep_layer(pcs, x, i as int) is None && rep_result@[x] is None,
                    Some(t) => first_rep_layer(pcs, x, i as int) == Some(t as int) && rep_result@[x]
                        == Some(NodeId((node_offset(pcs, t as int) + pcs[t as int].reps()[x].unwrap().0) as u32)),
                },
        decreases k - i,
    {
        let p = &pieces[i];
        let mut v: usize = 0;
        while v < size
            invariant
                v <= size,
                i < k,
                k == pcs.len(),
                pcs == pieces@,
                p == pcs[i as int],
                rep_result@.len() == size,
                rep_layer@.len() == size,
                p.wf(),
                p.reps().len() == size,
                size <= u32::MAX,
                offsets@.len() == pcs.len() + 1,
                forall|t: int| 0 <= t <= pcs.len() ==> #[trigger] offsets@[t] == node_offset(pcs, t),
                node_offset(pcs, pcs.len() as int) <= u32::MAX,
                forall|x: int|
                    0 <= x < size ==> match #[trigger] rep_layer@[x] {
                        None => first_rep_layer(pcs, x, if x < v {
                            i + 1
                        } else {
                            i as int
                        }) is None && rep_result@[x] is None,
                        Some(t) => first_rep_layer(pcs, x, if x < v {
                            i + 1
                        } else {
                            i as int
                        }) == Some(t as int) && rep_result@[x] == Some(
                            NodeId((node_offset(pcs, t as int) + pcs[t as int].reps()[x].unwrap().0) as u32),
                        ),
                    },
            decreases size - v,
        {
            let ghost rl0 = rep_layer@;
            let ghost rr0 = rep_result@;
            if rep_result[v].is_none() {
                proof {
                    assert(rl0[v as int] is None);
                }
                if let Some(local_rep) = p.representative(NodeId(v as u32)) {
                    proof {
                        assert(local_rep.0 < p.graph.num_nodes());
                        lemma_offsets_monotone(pcs, i + 1, pcs.len() as int);
                    }
                    let off = offsets[i];
                    rep_result.set(v, Some(NodeId(off + local_rep.0)));
                    rep_layer.set(v, Some(i));
                }
            }
            proof {
                assert forall|x: int|
                    0 <= x < size implies match #[trigger] rep_layer@[x] {
                    None => first_rep_layer(pcs, x, if x < v + 1 {
                        i + 1
                    } else {
                        i as int
                    }) is None && rep_result@[x] is None,
                    Some(t) => first_rep_layer(pcs, x, if x < v + 1 {
                        i + 1
                    } else {
                        i as int
                    }) == Some(t as int) && rep_result@[x] == Some(
                        NodeId((node_offset(pcs, t as int) + pcs[t as int].reps()[x].unwrap().0) as u32),
                    ),
                } by {
                    let old_x = rl0[x];
                    if x != v {
                        assert(rep_layer@[x] == rl0[x] && rep_result@[x] == rr0[x]);
                        assert(rl0[x] is Some ==> first_rep_layer(pcs, x, if x < v {
                            i + 1
                        } else {
                            i as int
                        }) == Some(rl0[x].unwrap() as int));
                    } else {
                        assert(rl0[x] is Some ==> first_rep_layer(pcs, x, i as int) == Some(rl0[x].unwrap() as int));
                        assert(rl0[x] is None ==> first_rep_layer(pcs, x, i as int) is None);
                        assert(first_rep_layer(pcs, x, i + 1) == match first_rep_layer(pcs, x, i as int) {
                            Some(t) => Some(t),
                            None => if pcs[i as int].reps()[x] is Some {
                                Some(i as int)
                            } else {
                                None
                            },
                        });
                    }
                }
            }
            v = v + 1;
        }
        i = i + 1;
    }
    proof {
        assert forall|v: int| 0 <= v < size implies #[trigger] rep_result@[v] == layered_rep(pcs, v) by {
            let _ = rep_layer@[v];
        }
    }
    (rep_result, rep_layer)
}

/// Copies the edges of every piece into `g`, shifted by the piece's offset.
#[verifier::loop_isolation(false)]
fn add_internal_edges(
    pieces: &Vec<Projection>,
    offsets: &Vec<u32>,
    g: &mut Graph,
    Ghost(es): Ghost<Seq<(u32, u32, i64)>>,
    Ghost(n): Ghost<nat>,
)
    requires
        forall|i: int| 0 <= i < pieces@.len() ==> (#[trigger] pieces@[i]).wf(),
        offsets@.len() == pieces@.len() + 1,
        forall|t: int| 0 <= t <= pieces@.len() ==> #[trigger] offsets@[t] == node_offset(pieces@, t),
        node_offset(pieces@, pieces@.len() as int) <= u32::MAX,
        edge_total(pieces@, pieces@.len() as int) <= u32::MAX,
        old(g).wf(),
        old(g).num_nodes() == node_offset(pieces@, pieces@.len() as int),
        old(g).edge_list().len() == 0,
    ensures
        final(g).wf(),
        final(g).num_nodes() == old(g).num_nodes(),
        final(g).edge_list().len() == edge_total(pieces@, pieces@.len() as int),
        (forall|i: int| 0 <= i < pieces@.len() ==> (#[trigger] pieces@[i]).projects_onto(n, es))
            ==> edges_project(final(g).edge_list(), joined_maps(pieces@, pieces@.len() as int), es),
        forall|e: int|
            0 <= e < final(g).edge_list().len() ==> same_piece(pieces@, final(g).edge_list()[e].0 as int, final(g).edge_list()[e].1 as int),
        forall|i: int, f: int|
            0 <= i < pieces@.len() && 0 <= f < pieces@[i].graph.edge_list().len()
                ==> final(g).edge_list()[edge_total(pieces@, i) + f] == #[trigger] shifted_edge(pieces@, i, f),
{
    let ghost pcs = pieces@;
    let ghost len = pcs.len() as int;
    let ghost allp = forall|i: int| 0 <= i < pcs.len() ==> (#[trigger] pcs[i]).projects_onto(n, es);
    let ghost jm = joined_maps(pcs, len);
    proof {
        lemma_joined_maps(pcs, len);
    }
    let k = pieces.len();
    let mut i: usize = 0;
    while i < k
        invariant
            i <= k,
            g.wf(),
            g.num_nodes() == node_offset(pcs, len),
            g.edge_list().len() == edge_total(pcs, i as int),
            allp ==> edges_project(g.edge_list(), jm, es),
            forall|e: int|
                0 <= e < g.edge_list().len() ==> same_piece(pcs, g.edge_list()[e].0 as int, g.edge_list()[e].1 as int),
            forall|i2: int, f: int|
                0 <= i2 < i && 0 <= f < pcs[i2].graph.edge_list().len()
                    ==> g.edge_list()[edge_total(pcs, i2) + f] == #[trigger] shifted_edge(pcs, i2, f),
        decreases k - i,
    {
        let p = &pieces[i];
        let offset = offsets[i];
        let m = p.graph.edge_count();
        proof {
            p.graph.lemma_wf_edges();
            lemma_offsets_monotone(pcs, i + 1, len);
        }
        let mut e: usize = 0;
        while e < m
            invariant
                e <= m,
                m == p.graph.edge_list().len(),
                p == pcs[i as int],
                i < k,
                offset == node_offset(pcs, i as int),
                g.wf(),
                g.num_nodes() == node_offset(pcs, len),
                g.edge_list().len() == edge_total(pcs, i as int) + e,
                allp ==> edges_project(g.edge_list(), jm, es),
                forall|e2: int|
                    0 <= e2 < g.edge_list().len() ==> same_piece(pcs, g.edge_list()[e2].0 as int, g.edge_list()[e2].1 as int),
                forall|i2: int, f: int|
                    0 <= i2 < i && 0 <= f < pcs[i2].graph.edge_list().len()
                        ==> g.edge_list()[edge_total(pcs, i2) + f] == #[trigger] shifted_edge(pcs, i2, f),
                forall|f: int|
                    0 <= f < e ==> g.edge_list()[edge_total(pcs, i as int) + f] == #[trigger] shifted_edge(
                        pcs,
                        i as int,
                        f,
                    ),
            decreases m - e,
        {
            let id = EdgeId(e as u32);
            let src = p.graph.source(id);
            let tgt = p.graph.target(id);
            let w = p.graph.weight(id);
            let ghost ge0 = g.edge_list();
            proof {
                lemma_offsets_monotone(pcs, i + 1, len);
                lemma_offsets_monotone(pcs, 0, len);
                assert(edge_total(pcs, i + 1) == edge_total(pcs, i as int) + m);
                lemma_offsets_monotone(pcs, i + 1, len);
            }
            g.add_edge(NodeId(offset + src.0), NodeId(offset + tgt.0), w);
            proof {
                let ge = g.edge_list();
                assert(ge[ge.len() - 1] == ((offset + src.0) as u32, (offset + tgt.0) as u32, w));
                assert forall|e2: int|
                    0 <= e2 < ge.len() implies same_piece(pcs, ge[e2].0 as int, ge[e2].1 as int) by {
                    if e2 < ge0.len() {
                        assert(ge[e2] == ge0[e2]);
                    } else {
                        assert(in_piece(pcs, i as int, ge[e2].0 as int));
                    }
                }
                assert(p.graph.edge_list()[e as int] == (src.0, tgt.0, w));
                assert(shifted_edge(pcs, i as int, e as int) == ge[ge.len() - 1]);
                assert forall|i2: int, f: int|
                    0 <= i2 < i && 0 <= f < pcs[i2].graph.edge_list().len()
                        implies ge[edge_total(pcs, i2) + f] == #[trigger] shifted_edge(pcs, i2, f) by {
                    lemma_offsets_monotone(pcs, i2 + 1, i as int);
                    lemma_offsets_monotone(pcs, i2, i2 + 1);
                    assert(edge_total(pcs, i2 + 1) == edge_total(pcs, i2) + pcs[i2].graph.edge_list().len());
                    assert(edge_total(pcs, i2) + f < ge0.len());
                    assert(ge == ge0.push(ge[ge.len() - 1]));
                    assert(ge[edge_total(pcs, i2) + f] == ge0[edge_total(pcs, i2) + f]);
                }
                assert forall|f: int| 0 <= f < e + 1 implies ge[edge_total(pcs, i as int) + f]
                    == #[trigger] shifted_edge(pcs, i as int, f) by {
                    if f < e {
                        assert(ge == ge0.push(ge[ge.len() - 1]));
                        assert(ge[edge_total(pcs, i as int) + f] == ge0[edge_total(pcs, i as int) + f]);
                    }
                }
                if allp {
                    assert(pcs[i as int].projects_onto(n, es));
                    assert forall|e2: int| 0 <= e2 < ge.len() implies exists|f: int|
                        0 <= f < es.len() && #[trigger] es[f] == (
                            jm[(#[trigger] ge[e2]).0 as int].0,
                            jm[ge[e2].1 as int].0,
                            ge[e2].2,
                        ) by {
                        if e2 < ge0.len() {
                            assert(ge[e2] == ge0[e2]);
                        } else {
                            let pe = p.graph.edge_list();
                            assert(pe[e as int] == (src.0, tgt.0, w));
                            assert(jm[node_offset(pcs, i as int) + src.0] == pcs[i as int].map()[src.0 as int]);
                            assert(jm[node_offset(pcs, i as int) + tgt.0] == pcs[i as int].map()[tgt.0 as int]);
                        }
                    }
                }
            }
            e = e + 1;
        }
        proof {
            assert forall|i2: int, f: int|
                0 <= i2 < i + 1 && 0 <= f < pcs[i2].graph.edge_list().len()
                    implies g.edge_list()[edge_total(pcs, i2) + f] == #[trigger] shifted_edge(pcs, i2, f) by {
                if i2 == i {
                    assert(shifted_edge(pcs, i as int, f) == shifted_edge(pcs, i as int, f));
                }
            }
        }
        i = i + 1;
    }
}

/// The number of cross edges that [`Projection::layer`] adds for `pieces`,
/// or `u32::MAX + 1` when there are more than `u32::MAX`.
#[verifier::loop_isolation(false)]
pub fn cross_edge_count(pieces: &Vec<Projection>, original: &Graph) -> (c: u64)
    requires
        original.wf(),
        forall|i: int|
            0 <= i < pieces@.len() ==> (#[trigger] pieces@[i]).wf() && pieces@[i].reps().len()
                == original.num_nodes(),
        node_offset(pieces@, pieces@.len() as int) <= u32::MAX,
    ensures
        c == (if layer_cross(pieces@, original.edge_list(), pieces@.len() as int).len() > u32::MAX {
            u32::MAX + 1
        } else {
            layer_cross(pieces@, original.edge_list(), pieces@.len() as int).len() as int
        }),
{
    let ghost pcs = pieces@;
    let ghost len = pcs.len() as int;
    let ghost es = original.edge_list();
    proof {
        original.lemma_wf_edges();
        lemma_offsets_monotone(pcs, 0, len);
    }
    let offsets = layer_offsets(pieces);
    let (_, rep_layer) = layer_reps(pieces, &offsets, original.node_count());
    let k = pieces.len();
    let mut c: u64 = 0;
    let mut i: usize = 0;
    while i < k
        invariant
            i <= k,
            c == layer_cross(pcs, es, i as int).len(),
            c <= u32::MAX,
        decreases k - i,
    {
        let p = &pieces[i];
        let cnt = p.graph.node_count();
        proof {
            p.graph.lemma_wf_edges();
        }
        let mut a: usize = 0;
        while a < cnt
            invariant
                a <= cnt,
                cnt == p.graph.num_nodes(),
                p == pcs[i as int],
                i < k,
                c == layer_cross(pcs, es, i as int).len() + piece_cross(pcs, es, i as int, a as int).len(),
                c <= u32::MAX,
            decreases cnt - a,
        {
            let u_orig = p.original_of(NodeId(a as u32));
            let ghost outs = incident(es, u_orig.0 as int, true);
            proof {
                assert(u_orig.0 < original.num_nodes());
                lemma_incident_members(es, u_orig.0 as int, es.len() as int, true);
            }
            let mut it = original.out_edges(u_orig);
            loop
                invariant
                    it.graph() == *original,
                    outs == incident(es, u_orig.0 as int, true),
                    it.remaining().len() <= outs.len(),
                    it.remaining() == outs.subrange(outs.len() - it.remaining().len(), outs.len() as int),
                    c == layer_cross(pcs, es, i as int).len() + piece_cross(pcs, es, i as int, a as int).len()
                        + node_cross(pcs, es, i as int, a as int, outs, outs.len() - it.remaining().len()).len(),
                    c <= u32::MAX,
                decreases it.remaining().len(),
            {
                let ghost rem0 = it.remaining();
                let nx = it.next();
                let e = match nx {
                    None => break,
                    Some(e) => e,
                };
                let ghost k0 = outs.len() - rem0.len();
                proof {
                    assert(it.remaining() =~= outs.subrange(outs.len() - it.remaining().len(), outs.len() as int));
                    assert(outs[k0] == rem0[0]);
                    assert(outs[k0] == e.0 as int);
                    assert(pcs[i as int].map()[a as int] == u_orig);
                }
                let v_orig = original.target(e);
                proof {
                    lemma_first_rep_layer(pcs, v_orig.0 as int, len);
                }
                let due = match rep_layer[v_orig.0 as usize] {
                    Some(j) => j > i,
                    None => false,
                };
                if due {
                    proof {
                        assert(cross_edge_due(pcs, es, i as int, a as int, outs[k0]));
                        lemma_node_cross_len(pcs, es, i as int, a as int, outs, k0 + 1, outs.len() as int);
                        lemma_piece_cross_len(pcs, es, i as int, a + 1, cnt as int);
                        lemma_layer_cross_len(pcs, es, i + 1, len);
                        assert(piece_cross(pcs, es, i as int, a + 1) == piece_cross(pcs, es, i as int, a as int)
                            + all_node_cross(pcs, es, i as int, a as int));
                        assert(layer_cross(pcs, es, i + 1) == layer_cross(pcs, es, i as int) + piece_cross(
                            pcs,
                            es,
                            i as int,
                            cnt as int,
                        ));
                    }
                    if c == u32::MAX as u64 {
                        return c + 1;
                    }
                    c = c + 1;
                } else {
                    proof {
                        assert(!cross_edge_due(pcs, es, i as int, a as int, outs[k0]));
                    }
                }
            }
            proof {
                assert(piece_cross(pcs, es, i as int, a + 1) == piece_cross(pcs, es, i as int, a as int)
                    + all_node_cross(pcs, es, i as int, a as int));
            }
            a = a + 1;
        }
        proof {
            assert(layer_cross(pcs, es, i + 1) == layer_cross(pcs, es, i as int) + piece_cross(
                pcs,
                es,
                i as int,
                cnt as int,
            ));
        }
        i = i + 1;
    }
    c
}

/// Adds the cross-layer edges: from every node `u'` of piece `i`, along each
/// original edge `(π(u'), v)`, to the representative of `v` when that lives
/// in a later piece.
#[verifier::loop_isolation(false)]
fn add_cross_edges(
    pieces: &Vec<Projection>,
    offsets: &Vec<u32>,
    rep_result: &Vec<Option<NodeId>>,
    rep_layer: &Vec<Option<usize>>,
    original: &Graph,
    g: &mut Graph,
)
    requires
        original.wf(),
        forall|i: int|
            0 <= i < pieces@.len() ==> (#[trigger] pieces@[i]).wf() && pieces@[i].reps().len()
                == original.num_nodes(),
        offsets@.len() == pieces@.len() + 1,
        forall|t: int| 0 <= t <= pieces@.len() ==> #[trigger] offsets@[t] == node_offset(pieces@, t),
        node_offset(pieces@, pieces@.len() as int) <= u32::MAX,
        edge_total(pieces@, pieces@.len() as int) + layer_cross(
            pieces@,
            original.edge_list(),
            pieces@.len() as int,
        ).len() <= u32::MAX,
        rep_result@.len() == original.num_nodes(),
        rep_layer@.len() == original.num_nodes(),
        forall|v: int| 0 <= v < original.num_nodes() ==> #[trigger] rep_result@[v] == layered_rep(pieces@, v),
        forall|v: int|
            0 <= v < original.num_nodes() ==> match #[trigger] rep_layer@[v] {
                None => first_rep_layer(pieces@, v, pieces@.len() as int) is None,
                Some(t) => first_rep_layer(pieces@, v, pieces@.len() as int) == Some(t as int),
            },
        old(g).wf(),
        old(g).num_nodes() == node_offset(pieces@, pieces@.len() as int),
        old(g).edge_list().len() == edge_total(pieces@, pieces@.len() as int),
        (forall|i: int|
            0 <= i < pieces@.len() ==> (#[trigger] pieces@[i]).projects_onto(
                original.num_nodes(),
                original.edge_list(),
            )) ==> edges_project(
            old(g).edge_list(),
            joined_maps(pieces@, pieces@.len() as int),
            original.edge_list(),
        ),
        forall|e: int|
            0 <= e < old(g).edge_list().len() ==> same_piece(pieces@, old(g).edge_list()[e].0 as int, old(g).edge_list()[e].1 as int),
    ensures
        final(g).wf(),
        final(g).num_nodes() == old(g).num_nodes(),
        (forall|i: int|
            0 <= i < pieces@.len() ==> (#[trigger] pieces@[i]).projects_onto(
                original.num_nodes(),
                original.edge_list(),
            )) ==> edges_project(
            final(g).edge_list(),
            joined_maps(pieces@, pieces@.len() as int),
            original.edge_list(),
        ),
        forall|e: int|
            0 <= e < final(g).edge_list().len() ==> piece_le(pieces@, final(g).edge_list()[e].0 as int, final(g).edge_list()[e].1 as int),
        final(g).edge_list().len() >= old(g).edge_list().len(),
        final(g).edge_list().subrange(0, old(g).edge_list().len() as int) == old(g).edge_list(),
        final(g).edge_list() == old(g).edge_list() + layer_cross(
            pieces@,
            original.edge_list(),
            pieces@.len() as int,
        ),
        forall|i: int, a: int, f: int|
            0 <= i < pieces@.len() && 0 <= a < pieces@[i].graph.num_nodes() && 0 <= f
                < original.edge_list().len() && #[trigger] cross_edge_due(
                pieces@,
                original.edge_list(),
                i,
                a,
                f,
            ) ==> final(g).edge_list().contains(cross_edge(pieces@, original.edge_list(), i, a, f)),
{
    let ghost pcs = pieces@;
    let ghost len = pcs.len() as int;
    let ghost es = original.edge_list();
    let ghost g0 = g.edge_list();
    let ghost n = original.num_nodes();
    let ghost allp = forall|i: int| 0 <= i < pcs.len() ==> (#[trigger] pcs[i]).projects_onto(n, es);
    let ghost jm = joined_maps(pcs, len);
    let ghost base = edge_total(pcs, len);
    let ghost m = es.len() as int;
    proof {
        lemma_joined_maps(pcs, len);
        original.lemma_wf_edges();
        lemma_offsets_monotone(pcs, 0, len);
        assert forall|e: int| 0 <= e < g.edge_list().len() implies piece_le(pcs, g.edge_list()[e].0 as int, g.edge_list()[e].1 as int) by {
            let t = choose|t: int|
                #[trigger] in_piece(pcs, t, g.edge_list()[e].0 as int) && in_piece(pcs, t, g.edge_list()[e].1 as int);
        }
    }
    let k = pieces.len();
    proof {
        assert(g.edge_list() =~= g0 + layer_cross(pcs, es, 0));
    }
    let mut i: usize = 0;
    while i < k
        invariant
            i <= k,
            g.wf(),
            g.num_nodes() == node_offset(pcs, len),
            g.edge_list() == g0 + layer_cross(pcs, es, i as int),
            base + layer_cross(pcs, es, len).len() <= u32::MAX,
            g0.len() == base,
            allp ==> edges_project(g.edge_list(), jm, es),
            forall|e: int|
                0 <= e < g.edge_list().len() ==> piece_le(pcs, g.edge_list()[e].0 as int, g.edge_list()[e].1 as int),
            g.edge_list().len() >= g0.len(),
            g.edge_list().subrange(0, g0.len() as int) == g0,
            forall|i2: int, a: int, f: int|
                0 <= i2 < i && 0 <= a < pcs[i2].graph.num_nodes() && 0 <= f < es.len()
                    && #[trigger] cross_edge_due(pcs, es, i2, a, f) ==> g.edge_list().contains(
                    cross_edge(pcs, es, i2, a, f),
                ),
        decreases k - i,
    {
        let p = &pieces[i];
        let offset = offsets[i];
        let cnt = p.graph.node_count();
        proof {
            p.graph.lemma_wf_edges();
            lemma_offsets_monotone(pcs, i + 1, len);
        }
        proof {
            assert(g.edge_list() =~= g0 + layer_cross(pcs, es, i as int) + piece_cross(pcs, es, i as int, 0));
        }
        let mut a: usize = 0;
        while a < cnt
            invariant
                a <= cnt,
                cnt == p.graph.num_nodes(),
                p == pcs[i as int],
                i < k,
                offset == node_offset(pcs, i as int),
                g.wf(),
                g.num_nodes() == node_offset(pcs, len),
                g.edge_list() == g0 + layer_cross(pcs, es, i as int) + piece_cross(pcs, es, i as int, a as int),
                base + layer_cross(pcs, es, len).len() <= u32::MAX,
                g0.len() == base,
                allp ==> edges_project(g.edge_list(), jm, es),
                forall|e: int|
                    0 <= e < g.edge_list().len() ==> piece_le(pcs, g.edge_list()[e].0 as int, g.edge_list()[e].1 as int),
                g.edge_list().len() >= g0.len(),
                g.edge_list().subrange(0, g0.len() as int) == g0,
                forall|i2: int, a2: int, f: int|
                    0 <= i2 < i && 0 <= a2 < pcs[i2].graph.num_nodes() && 0 <= f < es.len()
                        && #[trigger] cross_edge_due(pcs, es, i2, a2, f) ==> g.edge_list().contains(
                        cross_edge(pcs, es, i2, a2, f),
                    ),
                forall|a2: int, f: int|
                    0 <= a2 < a && 0 <= f < es.len() && #[trigger] cross_edge_due(pcs, es, i as int, a2, f)
                        ==> g.edge_list().contains(cross_edge(pcs, es, i as int, a2, f)),
            decreases cnt - a,
        {
            let u_orig = p.original_of(NodeId(a as u32));
            let u_result = NodeId(offset + a as u32);
            let ghost outs = incident(es, u_orig.0 as int, true);
            let ghost edges0 = g.edge_list().len();
            proof {
                assert(u_orig.0 < n);
                lemma_incident_members(es, u_orig.0 as int, m, true);
                assert(jm[node_offset(pcs, i as int) + a] == pcs[i as int].map()[a as int]);
                lemma_mul_le_local(node_offset(pcs, i as int) + a + 1, node_offset(pcs, len), m);
            }
            let mut it = original.out_edges(u_orig);
            proof {
                assert(g.edge_list() =~= g0 + layer_cross(pcs, es, i as int) + piece_cross(pcs, es, i as int, a as int)
                    + node_cross(pcs, es, i as int, a as int, outs, 0));
            }
            loop
                invariant
                    it.graph() == *original,
                    outs == incident(es, u_orig.0 as int, true),
                    it.remaining().len() <= outs.len(),
                    it.remaining() == outs.subrange(
                        outs.len() - it.remaining().len(),
                        outs.len() as int,
                    ),
                    g.wf(),
                    g.num_nodes() == node_offset(pcs, len),
                    g.edge_list() == g0 + layer_cross(pcs, es, i as int) + piece_cross(pcs, es, i as int, a as int)
                        + node_cross(pcs, es, i as int, a as int, outs, outs.len() - it.remaining().len()),
                    base + layer_cross(pcs, es, len).len() <= u32::MAX,
                    g0.len() == base,
                    allp ==> edges_project(g.edge_list(), jm, es),
                    forall|e: int|
                        0 <= e < g.edge_list().len() ==> piece_le(pcs, g.edge_list()[e].0 as int, g.edge_list()[e].1 as int),
                    g.edge_list().len() >= g0.len(),
                    g.edge_list().subrange(0, g0.len() as int) == g0,
                    forall|i2: int, a2: int, f: int|
                        0 <= i2 < i && 0 <= a2 < pcs[i2].graph.num_nodes() && 0 <= f < es.len()
                            && #[trigger] cross_edge_due(pcs, es, i2, a2, f) ==> g.edge_list().contains(
                            cross_edge(pcs, es, i2, a2, f),
                        ),
                    forall|a2: int, f: int|
                        0 <= a2 < a && 0 <= f < es.len() && #[trigger] cross_edge_due(pcs, es, i as int, a2, f)
                            ==> g.edge_list().contains(cross_edge(pcs, es, i as int, a2, f)),
                    forall|k2: int|
                        0 <= k2 < outs.len() - it.remaining().len() && #[trigger] cross_edge_due(
                            pcs,
                            es,
                            i as int,
                            a as int,
                            outs[k2],
                        ) ==> g.edge_list().contains(cross_edge(pcs, es, i as int, a as int, outs[k2])),
                decreases it.remaining().len(),
            {
                let ghost rem0 = it.remaining();
                let nx = it.next();
                let e = match nx {
                    None => break,
                    Some(e) => e,
                };
                let ghost k0 = outs.len() - rem0.len();
                let ghost gl0 = g.edge_list();
                proof {
                    assert(it.remaining() =~= outs.subrange(
                        outs.len() - it.remaining().len(),
                        outs.len() as int,
                    ));
                    assert(outs[k0] == rem0[0]);
                    assert(es[e.0 as int].0 == u_orig.0);
                    assert(pcs[i as int].map()[a as int] == u_orig);
                }
                let v_orig = original.target(e);
                if let Some(j) = rep_layer[v_orig.0 as usize] {
                    if j > i {
                        let ghost ge0 = g.edge_list();
                        let ghost vi = v_orig.0 as int;
                        proof {
                            lemma_first_rep_layer(pcs, vi, len);
                            assert(rep_result@[vi] == layered_rep(pcs, vi));
                        }
                        let v_result = rep_result[v_orig.0 as usize].unwrap();
                        let w = original.weight(e);
                        proof {
                            let local = pcs[j as int].reps()[vi].unwrap().0 as int;
                            assert(pcs[j as int].wf());
                            assert(local < pcs[j as int].graph.num_nodes());
                            lemma_offsets_monotone(pcs, j + 1, len);
                            assert(first_rep_layer(pcs, vi, len) == Some(j as int));
                            lemma_offsets_monotone(pcs, j as int, j + 1);
                            assert(node_offset(pcs, j + 1) == node_offset(pcs, j as int) + pcs[j as int].graph.num_nodes());
                            assert(layered_rep(pcs, vi) == Some(NodeId((node_offset(pcs, j as int) + local) as u32)));
                            assert(v_result.0 == node_offset(pcs, j as int) + local);
                            assert(in_piece(pcs, j as int, v_result.0 as int));
                            assert(in_piece(pcs, i as int, u_result.0 as int));
                            assert(jm[node_offset(pcs, j as int) + local] == pcs[j as int].map()[local]);
                        }
                        proof {
                            let kk = k0 + 1;
                            assert(outs[k0] == e.0 as int);
                            assert(cross_edge_due(pcs, es, i as int, a as int, outs[k0])) by {
                                lemma_first_rep_layer(pcs, vi, len);
                            }
                            lemma_node_cross_len(pcs, es, i as int, a as int, outs, kk, outs.len() as int);
                            lemma_piece_cross_len(pcs, es, i as int, a + 1, cnt as int);
                            lemma_layer_cross_len(pcs, es, i + 1, len);
                            assert(piece_cross(pcs, es, i as int, a + 1) == piece_cross(pcs, es, i as int, a as int)
                                + all_node_cross(pcs, es, i as int, a as int));
                            assert(layer_cross(pcs, es, i + 1) == layer_cross(pcs, es, i as int) + piece_cross(
                                pcs,
                                es,
                                i as int,
                                cnt as int,
                            ));
                            assert(node_cross(pcs, es, i as int, a as int, outs, kk).len() == node_cross(
                                pcs,
                                es,
                                i as int,
                                a as int,
                                outs,
                                k0,
                            ).len() + 1);
                        }
                        g.add_edge(u_result, v_result, w);
                        proof {
                            let ge = g.edge_list();
                            assert(ge[ge.len() - 1] == (u_result.0, v_result.0, w));
                            assert forall|e2: int|
                                0 <= e2 < ge.len() implies piece_le(pcs, ge[e2].0 as int, ge[e2].1 as int) by {
                                if e2 < ge0.len() {
                                    assert(ge[e2] == ge0[e2]);
                                } else {
                                    assert(in_piece(pcs, i as int, ge[e2].0 as int));
                                    assert(in_piece(pcs, j as int, ge[e2].1 as int));
                                }
                            }
                            if allp {
                                assert forall|e2: int| 0 <= e2 < ge.len() implies exists|f: int|
                                    0 <= f < es.len() && #[trigger] es[f] == (
                                        jm[(#[trigger] ge[e2]).0 as int].0,
                                        jm[ge[e2].1 as int].0,
                                        ge[e2].2,
                                    ) by {
                                    if e2 < ge0.len() {
                                        assert(ge[e2] == ge0[e2]);
                                    } else {
                                        assert(es[e.0 as int] == (u_orig.0, v_orig.0, w));
                                    }
                                }
                            }
                            let x = ge[ge.len() - 1];
                            assert(ge == ge0.push(x));
                            assert(x == cross_edge(pcs, es, i as int, a as int, e.0 as int));
                            assert(ge.contains(x));
                            assert(ge.subrange(0, g0.len() as int) =~= ge0.subrange(0, g0.len() as int));
                            assert forall|y: (u32, u32, i64)| ge0.contains(y) implies ge.contains(y) by {
                                lemma_push_keeps(ge0, y, x);
                            }
                        }
                    }
                }
                proof {
                    let gl = g.edge_list();
                    assert(outs[k0] == e.0 as int);
                    lemma_first_rep_layer(pcs, v_orig.0 as int, len);
                    if cross_edge_due(pcs, es, i as int, a as int, outs[k0]) {
                        assert(gl == gl0.push(cross_edge(pcs, es, i as int, a as int, outs[k0])));
                    } else {
                        assert(gl == gl0);
                    }
                    assert(gl =~= g0 + layer_cross(pcs, es, i as int) + piece_cross(pcs, es, i as int, a as int)
                        + node_cross(pcs, es, i as int, a as int, outs, k0 + 1));
                    assert(forall|y: (u32, u32, i64)| gl0.contains(y) ==> gl.contains(y));
                    if !gl.contains(cross_edge(pcs, es, i as int, a as int, e.0 as int)) {
                        lemma_first_rep_layer(pcs, v_orig.0 as int, len);
                        assert(!cross_edge_due(pcs, es, i as int, a as int, e.0 as int));
                    }
                    assert forall|k2: int|
                        0 <= k2 < outs.len() - it.remaining().len() && #[trigger] cross_edge_due(
                            pcs,
                            es,
                            i as int,
                            a as int,
                            outs[k2],
                        ) implies gl.contains(cross_edge(pcs, es, i as int, a as int, outs[k2])) by {
                        if k2 == k0 {
                            assert(outs[k2] == e.0);
                        }
                    }
                }
            }
            proof {
                assert(g.edge_list() =~= g0 + layer_cross(pcs, es, i as int) + piece_cross(
                    pcs,
                    es,
                    i as int,
                    a + 1,
                ));
                assert forall|f: int|
                    0 <= f < es.len() && #[trigger] cross_edge_due(pcs, es, i as int, a as int, f)
                        implies g.edge_list().contains(cross_edge(pcs, es, i as int, a as int, f)) by {
                    assert(es[f].0 == u_orig.0);
                    assert(outs.contains(f));
                    let k2 = choose|k2: int| 0 <= k2 < outs.len() && outs[k2] == f;
                    assert(cross_edge_due(pcs, es, i as int, a as int, outs[k2]));
                }
            }
            a = a + 1;
        }
        proof {
            assert(g.edge_list() =~= g0 + layer_cross(pcs, es, i + 1));
            assert(node_offset(pcs, i + 1) == node_offset(pcs, i as int) + cnt);
            assert forall|i2: int, a2: int, f: int|
                0 <= i2 < i + 1 && 0 <= a2 < pcs[i2].graph.num_nodes() && 0 <= f < es.len()
                    && #[trigger] cross_edge_due(pcs, es, i2, a2, f) implies g.edge_list().contains(
                    cross_edge(pcs, es, i2, a2, f),
                ) by {
                if i2 == i {
                    assert(cross_edge_due(pcs, es, i as int, a2, f));
                }
            }
        }
        i = i + 1;
    }
}

proof fn lemma_mul_le_local(a: int, b: int, w: int)
    requires
        a <= b,
        w >= 0,
    ensures
        a * w <= b * w,
        (a - 1) * w + w == a * w,
{
    assert(a * w <= b * w) by (nonlinear_arith)
        requires
            a <= b,
            w >= 0,
    ;
    assert((a - 1) * w + w == a * w) by (nonlinear_arith);
}

/// For the distinct nodes `nodes` of a graph with `size` nodes: the local
/// index of each node (`u32::MAX` when absent), the representative of each
/// node, and the list of the nodes themselves.
fn local_indices(size: usize, nodes: &[NodeId]) -> (r: (Vec<u32>, Vec<Option<NodeId>>, Vec<NodeId>))
    requires
        nodes@.len() < u32::MAX,
        size <= u32::MAX,
        nodes@.no_duplicates(),
        forall|i: int| 0 <= i < nodes@.len() ==> (#[trigger] nodes@[i]).0 < size,
    ensures
        r.0@.len() == size,
        r.1@.len() == size,
        r.2@ == nodes@,
        forall|t: int|
            0 <= t < nodes@.len() ==> r.0@[(#[trigger] nodes@[t]).0 as int] == t && r.1@[nodes@[t].0 as int]
                == Some(NodeId(t as u32)),
        forall|x: int|
            0 <= x < size && !nodes@.contains(NodeId(x as u32)) ==> #[trigger] r.0@[x] == u32::MAX
                && r.1@[x] is None,
{
    let n = nodes.len();
    let mut local_of: Vec<u32> = Vec::with_capacity(size);
    let mut v: usize = 0;
    while v < size
        invariant
            v <= size,
            local_of@.len() == v,
            forall|x: int| 0 <= x < v ==> local_of@[x] == u32::MAX,
        decreases size - v,
    {
        local_of.push(u32::MAX);
        v = v + 1;
    }
    let mut rep: Vec<Option<NodeId>> = Vec::with_capacity(size);
    let mut v: usize = 0;
    while v < size
        invariant
            v <= size,
            rep@.len() == v,
            forall|x: int| 0 <= x < v ==> rep@[x] is None,
        decreases size - v,
    {
        rep.push(None);
        v = v + 1;
    }
    let mut proj_map: Vec<NodeId> = Vec::with_capacity(n);
    let mut i: usize = 0;
    while i < n
        invariant
            n == nodes@.len(),
            n < u32::MAX,
            size <= u32::MAX,
            i <= n,
            local_of@.len() == size,
            rep@.len() == size,
            proj_map@ == nodes@.take(i as int),
            nodes@.no_duplicates(),
            forall|t: int| 0 <= t < nodes@.len() ==> (#[trigger] nodes@[t]).0 < size,
            forall|t: int|
                0 <= t < i ==> local_of@[(#[trigger] nodes@[t]).0 as int] == t && rep@[nodes@[t].0 as int]
                    == Some(NodeId(t as u32)),
            forall|x: int|
                0 <= x < size && !nodes@.take(i as int).contains(NodeId(x as u32))
                    ==> #[trigger] local_of@[x] == u32::MAX && rep@[x] is None,
        decreases n - i,
    {
        let v = nodes[i];
        let ghost lo0 = local_of@;
        let ghost rep0 = rep@;
        local_of.set(v.0 as usize, i as u32);
        rep.set(v.0 as usize, Some(NodeId(i as u32)));
        proj_map.push(v);
        proof {
            assert(nodes@.take(i + 1) =~= nodes@.take(i as int).push(v));
            assert forall|t: int|
                0 <= t < i + 1 implies local_of@[(#[trigger] nodes@[t]).0 as int] == t
                && rep@[nodes@[t].0 as int] == Some(NodeId(t as u32)) by {
                if t < i {
                    assert(nodes@[t] != nodes@[i as int]);
                }
            }
            assert forall|x: int|
                0 <= x < size && !nodes@.take(i + 1).contains(NodeId(x as u32))
                    implies #[trigger] local_of@[x] == u32::MAX && rep@[x] is None by {
                assert(nodes@.take(i + 1)[i as int] == v);
                if nodes@.take(i as int).contains(NodeId(x as u32)) {
                    let t = choose|t: int| 0 <= t < i && nodes@.take(i as int)[t] == NodeId(x as u32);
                    assert(nodes@.take(i + 1)[t] == NodeId(x as u32));
                }
                assert(x != v.0);
                assert(!nodes@.take(i as int).contains(NodeId(x as u32)));
                assert(lo0[x] == u32::MAX);
                assert(rep0[x] is None);
                assert(local_of@[x] == lo0[x]);
                assert(rep@[x] == rep0[x]);
            }
        }
        i = i + 1;
    }
    proof {
        assert(nodes@.take(n as int) =~= nodes@);
    }
    (local_of, rep, proj_map)
}

/// The induced edges leaving `nodes[i]`, for the first `k` edges of `outs`
/// (the original edges leaving it): each edge to a node of `nodes`, as
/// `(i, b, w)` with `b` the place of its target in `nodes`.
pub open spec fn induced_out(es: Seq<(u32, u32, i64)>, nodes: Seq<NodeId>, i: int, outs: Seq<int>, k: int) -> Seq<
    (u32, u32, i64),
>
    decreases k,
{
    if k <= 0 {
        Seq::empty()
    } else {
        let prev = induced_out(es, nodes, i, outs, k - 1);
        let f = outs[k - 1];
        if nodes.contains(NodeId(es[f].1)) {
            prev.push((i as u32, nodes.index_of(NodeId(es[f].1)) as u32, es[f].2))
        } else {
            prev
        }
    }
}

/// The edges of `G[nodes]` in local ids, from the first `i` nodes, node after
/// node, each node's edges in the order of its outgoing edges in `es`.
pub open spec fn induced_edges(es: Seq<(u32, u32, i64)>, nodes: Seq<NodeId>, i: int) -> Seq<(u32, u32, i64)>
    decreases i,
{
    if i <= 0 {
        Seq::empty()
    } else {
        let outs = incident(es, nodes[i - 1].0 as int, true);
        induced_edges(es, nodes, i - 1) + induced_out(es, nodes, i - 1, outs, outs.len() as int)
    }
}

/// Adds to `proj_graph` the edges of `original` between nodes of `nodes`,
/// each edge `(nodes[a], nodes[b], w)` as `(a, b, w)`.
#[verifier::loop_isolation(false)]
fn add_induced_edges(original: &Graph, nodes: &[NodeId], local_of: &Vec<u32>, proj_graph: &mut Graph)
    requires
        original.wf(),
        nodes@.len() < u32::MAX,
        nodes@.no_duplicates(),
        forall|t: int| 0 <= t < nodes@.len() ==> (#[trigger] nodes@[t]).0 < original.num_nodes(),
        local_of@.len() == original.num_nodes(),
        forall|t: int| 0 <= t < nodes@.len() ==> local_of@[(#[trigger] nodes@[t]).0 as int] == t,
        forall|x: int|
            0 <= x < original.num_nodes() && !nodes@.contains(NodeId(x as u32))
                ==> #[trigger] local_of@[x] == u32::MAX,
        old(proj_graph).wf(),
        old(proj_graph).num_nodes() == nodes@.len(),
        old(proj_graph).edge_list().len() == 0,
    ensures
        final(proj_graph).wf(),
        final(proj_graph).num_nodes() == nodes@.len(),
        edges_project(final(proj_graph).edge_list(), nodes@, original.edge_list()),
        final(proj_graph).edge_list() == induced_edges(original.edge_list(), nodes@, nodes@.len() as int),
        forall|f: int, a: int, b: int|
            0 <= f < original.edge_list().len() && 0 <= a < nodes@.len() && 0 <= b < nodes@.len()
                && (#[trigger] nodes@[a]).0 == (#[trigger] original.edge_list()[f]).0 && (
            #[trigger] nodes@[b]).0 == original.edge_list()[f].1 ==> final(proj_graph).edge_list().contains(
                (a as u32, b as u32, original.edge_list()[f].2),
            ),
{
    let ghost es = original.edge_list();
    proof {
        original.lemma_wf_edges();
    }
    let original_size = original.node_count();
    let n = nodes.len();
    let ghost mut seen: Set<int> = Set::empty();
    let mut i: usize = 0;
    while i < n
        invariant
            i <= n,
            proj_graph.wf(),
            proj_graph.num_nodes() == n,
            seen.finite(),
            forall|f: int| #[trigger] seen.contains(f) ==> 0 <= f < es.len(),
            forall|f: int|
                #[trigger] seen.contains(f) ==> exists|t: int|
                    0 <= t < i && (#[trigger] nodes@[t]).0 == es[f].0,
            proj_graph.edge_list().len() <= seen.len(),
            proj_graph.edge_list() == induced_edges(es, nodes@, i as int),
            edges_project(proj_graph.edge_list(), nodes@, es),
            forall|f: int, a: int, b: int|
                0 <= f < es.len() && 0 <= a < i && 0 <= b < n && (#[trigger] nodes@[a]).0
                    == (#[trigger] es[f]).0 && (#[trigger] nodes@[b]).0 == es[f].1
                    ==> proj_graph.edge_list().contains((a as u32, b as u32, es[f].2)),
        decreases n - i,
    {
        let v = nodes[i];
        let local_v = NodeId(local_of[v.0 as usize]);
        let ghost outs = incident(es, v.0 as int, true);
        let ghost seen0 = seen;
        proof {
            lemma_incident_members(es, v.0 as int, es.len() as int, true);
        }
        let mut it = original.out_edges(v);
        proof {
            assert(proj_graph.edge_list() =~= induced_edges(es, nodes@, i as int) + induced_out(
                es,
                nodes@,
                i as int,
                outs,
                0,
            ));
        }
            loop
                invariant
                    it.graph() == *original,
                    outs == incident(es, v.0 as int, true),
                    it.remaining().len() <= outs.len(),
                    it.remaining() == outs.subrange(
                        outs.len() - it.remaining().len(),
                        outs.len() as int,
                    ),
                    local_v.0 == i,
                    v == nodes@[i as int],
                    i < n,
                    n == nodes@.len(),
                    n < u32::MAX,
                    original_size == original.num_nodes(),
                    local_of@.len() == original_size,
                    nodes@.no_duplicates(),
                    forall|t: int| 0 <= t < nodes@.len() ==> (#[trigger] nodes@[t]).0 < original_size,
                    forall|t: int| 0 <= t < n ==> local_of@[(#[trigger] nodes@[t]).0 as int] == t,
                    forall|x: int|
                        0 <= x < original_size && !nodes@.contains(NodeId(x as u32))
                            ==> #[trigger] local_of@[x] == u32::MAX,
                    proj_graph.wf(),
                    proj_graph.num_nodes() == n,
                    seen.finite(),
                    forall|f: int| #[trigger] seen.contains(f) ==> 0 <= f < es.len(),
                    forall|f: int|
                        #[trigger] seen.contains(f) ==> (exists|t: int|
                            0 <= t < i && (#[trigger] nodes@[t]).0 == es[f].0) || exists|k2: int|
                            0 <= k2 < outs.len() - it.remaining().len() && outs[k2] == f,
                    forall|k2: int|
                        0 <= k2 < outs.len() - it.remaining().len() ==> seen.contains(
                            #[trigger] outs[k2],
                        ),
                    proj_graph.edge_list().len() <= seen.len(),
                    proj_graph.edge_list() == induced_edges(es, nodes@, i as int) + induced_out(
                        es,
                        nodes@,
                        i as int,
                        outs,
                        outs.len() - it.remaining().len(),
                    ),
                    edges_project(proj_graph.edge_list(), nodes@, es),
                    forall|f: int, a: int, b: int|
                        0 <= f < es.len() && 0 <= a < i && 0 <= b < n && (#[trigger] nodes@[a]).0
                            == (#[trigger] es[f]).0 && (#[trigger] nodes@[b]).0 == es[f].1
                            ==> proj_graph.edge_list().contains((a as u32, b as u32, es[f].2)),
                    forall|k2: int, b: int|
                        0 <= k2 < outs.len() - it.remaining().len() && 0 <= b < n && (
                        #[trigger] nodes@[b]).0 == es[#[trigger] outs[k2]].1 ==> proj_graph.edge_list().contains(
                            (i as u32, b as u32, es[outs[k2]].2),
                        ),
                decreases it.remaining().len(),
            {
                let ghost rem0 = it.remaining();
                let nx = it.next();
                let e = match nx {
                    None => break,
                    Some(e) => e,
                };
                let ghost k0 = outs.len() - rem0.len();
                let ghost ei = e.0 as int;
                let ghost pe0 = proj_graph.edge_list();
                let ghost seen1 = seen;
                proof {
                    assert(outs[k0] == rem0[0]);
                    assert(it.remaining() =~= outs.subrange(
                        outs.len() - it.remaining().len(),
                        outs.len() as int,
                    ));
                    assert(es[ei].0 == v.0);
                    assert(!seen1.contains(ei)) by {
                        if seen1.contains(ei) {
                            if exists|t: int| 0 <= t < i && (#[trigger] nodes@[t]).0 == es[ei].0 {
                                let t = choose|t: int| 0 <= t < i && (#[trigger] nodes@[t]).0 == es[ei].0;
                                assert(nodes@[t] == nodes@[i as int]);
                            } else {
                                let k2 = choose|k2: int| 0 <= k2 < k0 && outs[k2] == ei;
                                assert(outs[k0] < outs[k2]);
                            }
                        }
                    }
                    seen = seen.insert(ei);
                    vstd::set_lib::lemma_int_range(0, es.len() as int);
                    assert(seen.subset_of(vstd::set_lib::set_int_range(0, es.len() as int)));
                    vstd::set_lib::lemma_len_subset(seen, vstd::set_lib::set_int_range(0, es.len() as int));
                }
                let u = original.target(e);
                let local_u = local_of[u.0 as usize];
                if local_u != u32::MAX {
                    let w = original.weight(e);
                    proof {
                        assert(nodes@.contains(NodeId(u.0))) by {
                            if !nodes@.contains(NodeId(u.0)) {
                                assert(local_of@[u.0 as int] == u32::MAX);
                            }
                        }
                        let t = choose|t: int| 0 <= t < nodes@.len() && nodes@[t] == NodeId(u.0);
                        assert(local_of@[nodes@[t].0 as int] == t);
                        assert(local_u == t);
                        let j = nodes@.index_of(NodeId(u.0));
                        assert(nodes@[j] == NodeId(u.0));
                        assert(j == t);
                        assert(outs[k0] == ei);
                        assert(nodes@[i as int].0 == es[ei].0);
                        assert(es[ei] == (nodes@[i as int].0, nodes@[local_u as int].0, w));
                    }
                    proj_graph.add_edge(local_v, NodeId(local_u), w);
                    proof {
                        let pe = proj_graph.edge_list();
                        assert(pe == pe0.push((i as u32, local_u, w)));
                        assert(pe =~= induced_edges(es, nodes@, i as int) + induced_out(
                            es,
                            nodes@,
                            i as int,
                            outs,
                            k0 + 1,
                        ));
                        assert(pe[pe.len() - 1] == (i as u32, local_u, w));
                        assert forall|x: (u32, u32, i64)| pe0.contains(x) implies pe.contains(x) by {
                            let q = choose|q: int| 0 <= q < pe0.len() && pe0[q] == x;
                            assert(pe[q] == x);
                        }
                        assert forall|e2: int| 0 <= e2 < pe.len() implies exists|f: int|
                            0 <= f < es.len() && #[trigger] es[f] == (
                                nodes@[(#[trigger] pe[e2]).0 as int].0,
                                nodes@[pe[e2].1 as int].0,
                                pe[e2].2,
                            ) by {
                            if e2 < pe0.len() {
                                assert(pe[e2] == pe0[e2]);
                            } else {
                                assert(es[ei] == (nodes@[pe[e2].0 as int].0, nodes@[pe[e2].1 as int].0, pe[e2].2));
                            }
                        }
                        assert forall|k2: int, b: int|
                            0 <= k2 < k0 + 1 && 0 <= b < n && (#[trigger] nodes@[b]).0 == es[#[trigger] outs[k2]].1
                                implies pe.contains((i as u32, b as u32, es[outs[k2]].2)) by {
                            if k2 == k0 {
                                if b != local_u as int {
                                    assert(nodes@[b] == nodes@[local_u as int]);
                                }
                            } else {
                                assert(pe0.contains((i as u32, b as u32, es[outs[k2]].2)));
                            }
                        }
                    }
                } else {
                    proof {
                        assert(outs[k0] == ei);
                        assert(!nodes@.contains(NodeId(u.0))) by {
                            if nodes@.contains(NodeId(u.0)) {
                                let t = choose|t: int| 0 <= t < nodes@.len() && nodes@[t] == NodeId(u.0);
                                assert(local_of@[nodes@[t].0 as int] == t);
                            }
                        }
                        assert(proj_graph.edge_list() =~= induced_edges(es, nodes@, i as int) + induced_out(
                            es,
                            nodes@,
                            i as int,
                            outs,
                            k0 + 1,
                        ));
                        assert forall|k2: int, b: int|
                            0 <= k2 < k0 + 1 && 0 <= b < n && (#[trigger] nodes@[b]).0 == es[#[trigger] outs[k2]].1
                                implies proj_graph.edge_list().contains((i as u32, b as u32, es[outs[k2]].2)) by {
                            if k2 == k0 {
                                assert(local_of@[nodes@[b].0 as int] == b);
                                assert(false);
                            }
                        }
                    }
                }
                proof {
                    assert forall|f: int| #[trigger] seen.contains(f) implies (exists|t: int|
                        0 <= t < i && (#[trigger] nodes@[t]).0 == es[f].0) || exists|k2: int|
                        0 <= k2 < k0 + 1 && outs[k2] == f by {
                        if f == ei {
                            assert(outs[k0] == f);
                        } else {
                            assert(seen1.contains(f));
                        }
                    }
                }
            }
            proof {
                assert(proj_graph.edge_list() =~= induced_edges(es, nodes@, i + 1));
                assert forall|f: int, a: int, b: int|
                    0 <= f < es.len() && 0 <= a < i + 1 && 0 <= b < n && (#[trigger] nodes@[a]).0
                        == (#[trigger] es[f]).0 && (#[trigger] nodes@[b]).0 == es[f].1
                        implies proj_graph.edge_list().contains((a as u32, b as u32, es[f].2)) by {
                    if a == i {
                        assert(outs.contains(f));
                        let k2 = choose|k2: int| 0 <= k2 < outs.len() && outs[k2] == f;
                    }
                }
                assert forall|f: int| #[trigger] seen.contains(f) implies exists|t: int|
                    0 <= t < i + 1 && (#[trigger] nodes@[t]).0 == es[f].0 by {
                    if !(exists|t: int| 0 <= t < i && (#[trigger] nodes@[t]).0 == es[f].0) {
                        let k2 = choose|k2: int| 0 <= k2 < outs.len() && outs[k2] == f;
                        assert(nodes@[i as int].0 == es[f].0);
                    }
                }
            }
            i = i + 1;
        }
}

} // verus!
