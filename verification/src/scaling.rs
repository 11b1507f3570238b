//! The recursive kSSSP algorithm (§5.1), restricted SSSP, and the
//! weight-scaling driver of general SSSP (Theorem 1.1).
//!
//! [`restricted_sssp`] calls [`k_sssp`]:
//!
//! - **Base case** (k ≤ log⁶ n): handled by [`sssp_few_negative`] (Lemma 5.5),
//!   which alternates Dijkstra and Bellman-Ford passes.
//! - **Recursive case**: build a d-path cover of H≥0 via [`path_cover`],
//!   restore weights, prune to within-SCC edges (Lemma 5.4 premise),
//!   solve recursively with k/2 negative edges allowed, then assemble G″
//!   (x tiered copies) and solve SSSP on the potential-adjusted G″ via
//!   [`sssp_cross_scc`] (Lemma 5.4).
//!
//! [`sssp`] reveals one bit of each weight per phase, solving each phase with
//! [`restricted_sssp`] to refine a potential; a final Dijkstra on the
//! reweighted graph gives the distances.
use std::collections::HashMap;
use vstd::prelude::*;

use crate::arith::{bit_length, bits, floor_ln, pow2k, sat_add, sat_double, sat_sub};
use crate::graph::{EdgeId, Graph, NodeId};
use crate::path_cover::{is_path_cover, path_cover};
use crate::paths::{
    edges_within, has_negative_cycle, is_shortest, is_walk, lemma_shortcut, lemma_walk_push, max_abs_weight,
    lemma_max_abs_weight, neg_count, neg_paths_within, non_negative, reaches_negative_cycle,
    walk_weight, weights_within, abs_sum,
};
use crate::potential::{
    augmented, distances_from_potential, feasible, johnson_potential, lemma_augmented_negative_cycle,
    lemma_feasible_no_negative_cycle, lemma_max_abs_weight_le, lemma_no_cycle_not_reached, pot_within,
    potential_ok, reduced_weight, sssp_bounded, POT_LIMIT,
};
use crate::projection::{Projection, edges_project, lifts_edge};
use crate::scc::{estimates_backed, filled, reaches, scc, sssp_cross_scc, walk_bounded};
use crate::sssp::{bellman_ford, dijkstra, few_neg_bounded, few_neg_case, lemma_neg_count_le_len, sssp_few_negative, INF};

verus! {

/// The key of the node pair `(u, v)` in the weight map.
pub open spec fn pair_key(u: u32, v: u32) -> int {
    u * 0x1_0000_0000 + v
}

/// Each edge of `pe`, taken through `map`, is the first edge of `es` between
/// its two ends, with its weight.
pub open spec fn first_weights(pe: Seq<(u32, u32, i64)>, map: Seq<NodeId>, es: Seq<(u32, u32, i64)>) -> bool {
    forall|e2: int|
        0 <= e2 < pe.len() ==> exists|f: int|
            0 <= f < es.len() && #[trigger] es[f] == (
                map[(#[trigger] pe[e2]).0 as int].0,
                map[pe[e2].1 as int].0,
                pe[e2].2,
            ) && first_between(es, f)
}

/// No edge of `es` before `f` joins the same two nodes in the same
/// direction: `f` is the first edge from `es[f].0` to `es[f].1`.
pub open spec fn first_between(es: Seq<(u32, u32, i64)>, f: int) -> bool {
    forall|f2: int| 0 <= f2 < f ==> !((#[trigger] es[f2]).0 == es[f].0 && es[f2].1 == es[f].1)
}

proof fn lemma_pair_key(a: u32, b: u32, c: u32, d: u32)
    requires
        pair_key(a, b) == pair_key(c, d),
    ensures
        a == c,
        b == d,
{
    assert(a == c) by (nonlinear_arith)
        requires
            a * 0x1_0000_0000 + b == c * 0x1_0000_0000 + d,
            0 <= b < 0x1_0000_0000,
            0 <= d < 0x1_0000_0000,
            a >= 0,
            c >= 0,
    ;
}

fn key_of(u: u32, v: u32) -> (k: u64)
    ensures
        k == pair_key(u, v),
{
    proof {
        assert(u * 0x1_0000_0000 + v <= 0xFFFF_FFFF * 0x1_0000_0000 + 0xFFFF_FFFF) by (nonlinear_arith)
            requires
                u <= 0xFFFF_FFFF,
                v <= 0xFFFF_FFFF,
        ;
        assert(u * 0x1_0000_0000 >= 0) by (nonlinear_arith)
            requires
                u >= 0,
        ;
    }
    (u as u64) * 0x1_0000_0000 + (v as u64)
}

/// The edges of `es` with negative weights raised to 0 (H≥0).
pub open spec fn clamped_edges(es: Seq<(u32, u32, i64)>) -> Seq<(u32, u32, i64)> {
    Seq::new(es.len(), |f: int| (es[f].0, es[f].1, if es[f].2 < 0 { 0i64 } else { es[f].2 }))
}

/// `g` with its negative weights raised to 0.
fn clamp_weights(g: &Graph) -> (h: Graph)
    requires
        g.wf(),
    ensures
        h.wf(),
        h.num_nodes() == g.num_nodes(),
        h.edge_list() == clamped_edges(g.edge_list()),
        non_negative(h.edge_list()),
{
    let ghost es = g.edge_list();
    let ghost target = clamped_edges(es);
    proof {
        g.lemma_wf_edges();
    }
    let n = g.node_count();
    let m = g.edge_count();
    let mut h = Graph::with_capacity(n, m);
    h.add_nodes(n);
    let mut e: usize = 0;
    while e < m
        invariant
            e <= m,
            m == es.len(),
            m <= u32::MAX,
            n == g.num_nodes(),
            g.wf(),
            es == g.edge_list(),
            target == clamped_edges(es),
            h.wf(),
            h.num_nodes() == n,
            h.edge_list() == target.subrange(0, e as int),
            forall|i: int| 0 <= i < es.len() ==> (#[trigger] es[i]).0 < n && es[i].1 < n,
        decreases m - e,
    {
        let id = EdgeId(e as u32);
        let w = g.weight(id);
        h.add_edge(g.source(id), g.target(id), if w < 0 {
            0
        } else {
            w
        });
        proof {
            assert(target.subrange(0, e + 1) =~= target.subrange(0, e as int).push(target[e as int]));
        }
        e = e + 1;
    }
    proof {
        assert(target.subrange(0, m as int) =~= target);
    }
    h
}

/// Build a d_cov-path cover of the non-negative version of `g` (Theorem 4.5).
///
/// Clamps weights to ≥ 0 (H≥0), runs [`path_cover`], then restores the
/// original (possibly negative) edge weights with [`restore_weights`].
///
/// The result projects onto `g` with its own weights, every node of `g` has
/// a representative, each edge of the result carries the weight of the first
/// edge of `g` between the images of its ends, and every edge of `g` whose
/// clamped weight is at most `d_cov` has an edge of the result over it.
fn build_path_cover(g: &Graph, d_cov: i64, lambda: usize) -> (p: Projection)
    requires
        g.wf(),
        g.num_nodes() < u32::MAX,
    ensures
        exists|c: Projection|
            #[trigger] is_path_cover(g.num_nodes(), clamped_edges(g.edge_list()), d_cov as int, c)
                && p.graph.num_nodes() == c.graph.num_nodes() && p.map() == c.map() && p.reps() == c.reps()
                && p.graph.edge_list() == restored(c.graph.edge_list(), c.map(), g.edge_list()),
        p.projects_onto(g.num_nodes(), g.edge_list()),
        forall|v: int| 0 <= v < g.num_nodes() ==> (#[trigger] p.reps()[v]) is Some,
        first_weights(p.graph.edge_list(), p.map(), g.edge_list()),
        forall|f: int|
            0 <= f < g.edge_list().len() && (if (#[trigger] g.edge_list()[f]).2 < 0 {
                0
            } else {
                g.edge_list()[f].2
            }) <= d_cov ==> lifts_edge(
                p,
                g.edge_list()[f].0 as int,
                g.edge_list()[f].1 as int,
                first_weight(g.edge_list(), g.edge_list()[f].0, g.edge_list()[f].1),
            ),
{
    let ghost es = g.edge_list();
    proof {
        g.lemma_wf_edges();
    }
    // Build H≥0: weights clamped to ≥ 0.
    let h_nonneg = clamp_weights(g);
    let ghost hs = h_nonneg.edge_list();

    // Run the full PathCover algorithm on H≥0.
    let cover_nonneg = path_cover(&h_nonneg, d_cov, lambda);
    let ghost c = cover_nonneg;
    let p = restore_weights(g, cover_nonneg);
    proof {
        assert(is_path_cover(g.num_nodes(), clamped_edges(es), d_cov as int, c));
        assert forall|f: int|
            0 <= f < es.len() && (if (#[trigger] es[f]).2 < 0 {
                0
            } else {
                es[f].2
            }) <= d_cov implies lifts_edge(p, es[f].0 as int, es[f].1 as int, first_weight(es, es[f].0, es[f].1)) by {
            assert(hs[f].2 <= d_cov);
            assert(lifts_edge(c, hs[f].0 as int, hs[f].1 as int, hs[f].2));
            let (a, b) = choose|a: int, b: int|
                0 <= a < c.map().len() && 0 <= b < c.map().len() && c.map()[a].0 == hs[f].0 as int
                    && c.map()[b].0 == hs[f].1 as int && #[trigger] c.graph.edge_list().contains(
                    (a as u32, b as u32, hs[f].2),
                );
            let ce = c.graph.edge_list();
            let i = choose|i: int| 0 <= i < ce.len() && ce[i] == (a as u32, b as u32, hs[f].2);
            c.graph.lemma_wf_edges();
            assert(ce[i].0 as int == a && ce[i].1 as int == b);
            assert(hs[f].0 == es[f].0 && hs[f].1 == es[f].1);
            assert(p.graph.edge_list()[i] == (a as u32, b as u32, first_weight(es, es[f].0, es[f].1)));
            assert(p.graph.edge_list().contains((a as u32, b as u32, first_weight(es, es[f].0, es[f].1))));
        }
    }
    p
}

/// The weight of the first of the first `k` edges of `es` from `u` to `v`,
/// if there is one.
pub open spec fn first_weight_below(es: Seq<(u32, u32, i64)>, u: u32, v: u32, k: int) -> Option<i64>
    decreases k,
{
    if k <= 0 {
        None
    } else {
        match first_weight_below(es, u, v, k - 1) {
            Some(w) => Some(w),
            None => if es[k - 1].0 == u && es[k - 1].1 == v {
                Some(es[k - 1].2)
            } else {
                None
            },
        }
    }
}

/// The weight of the first edge of `es` from `u` to `v`, or 0 if there is
/// none.
pub open spec fn first_weight(es: Seq<(u32, u32, i64)>, u: u32, v: u32) -> i64 {
    match first_weight_below(es, u, v, es.len() as int) {
        Some(w) => w,
        None => 0,
    }
}

/// The edges `ce` of a cover, in order, each with the weight of the first
/// edge of `es` between the images of its ends.
pub open spec fn restored(ce: Seq<(u32, u32, i64)>, map: Seq<NodeId>, es: Seq<(u32, u32, i64)>) -> Seq<
    (u32, u32, i64),
> {
    Seq::new(ce.len(), |i: int| (ce[i].0, ce[i].1, first_weight(es, map[ce[i].0 as int].0, map[ce[i].1 as int].0)))
}

/// The first edge from `es[f].0` to `es[f].1` gives the first weight.
proof fn lemma_first_weight(es: Seq<(u32, u32, i64)>, f: int, k: int)
    requires
        0 <= f < es.len(),
        first_between(es, f),
        0 <= k <= es.len(),
    ensures
        first_weight_below(es, es[f].0, es[f].1, k) == if k > f {
            Some(es[f].2)
        } else {
            None::<i64>
        },
    decreases k,
{
    if k > 0 {
        lemma_first_weight(es, f, k - 1);
    }
}

/// `cover` (a projection onto the clamped edges of `g`) with each edge's
/// weight replaced by the weight of the first edge of `g` between the images
/// of its ends; nodes, edge order, map and representatives are kept.
fn restore_weights(g: &Graph, cover_nonneg: Projection) -> (p: Projection)
    requires
        g.wf(),
        g.num_nodes() < u32::MAX,
        cover_nonneg.projects_onto(g.num_nodes(), clamped_edges(g.edge_list())),
    ensures
        p.map() == cover_nonneg.map(),
        p.reps() == cover_nonneg.reps(),
        p.graph.num_nodes() == cover_nonneg.graph.num_nodes(),
        p.graph.edge_list() == restored(cover_nonneg.graph.edge_list(), cover_nonneg.map(), g.edge_list()),
        p.projects_onto(g.num_nodes(), g.edge_list()),
        first_weights(p.graph.edge_list(), p.map(), g.edge_list()),
{
    broadcast use vstd::std_specs::hash::group_hash_axioms;

    let ghost es = g.edge_list();
    proof {
        g.lemma_wf_edges();
    }
    let n = g.node_count();
    let m = g.edge_count();
    let ghost hs = clamped_edges(es);
    // Pre-build a (src, tgt) → weight map; for parallel edges keep the first.
    let mut weight_map: HashMap<u64, i64> = HashMap::with_capacity(m);
    let mut e: usize = 0;
    while e < m
        invariant
            e <= m,
            m == es.len(),
            m <= u32::MAX,
            g.wf(),
            es == g.edge_list(),
            forall|k: u64|
                #[trigger] weight_map@.contains_key(k) ==> exists|f: int|
                    0 <= f < e && pair_key(es[f].0, es[f].1) == k && es[f].2 == weight_map@[k] && first_between(
                        es,
                        f,
                    ),
            forall|f: int|
                0 <= f < e ==> weight_map@.contains_key(pair_key((#[trigger] es[f]).0, es[f].1) as u64),
        decreases m - e,
    {
        let id = EdgeId(e as u32);
        let key = key_of(g.source(id).0, g.target(id).0);
        let ghost wm0 = weight_map@;
        if !weight_map.contains_key(&key) {
            weight_map.insert(key, g.weight(id));
            proof {
                assert(first_between(es, e as int)) by {
                    assert forall|f2: int| 0 <= f2 < e implies !((#[trigger] es[f2]).0 == es[e as int].0 && es[f2].1
                        == es[e as int].1) by {
                        assert(wm0.contains_key(pair_key(es[f2].0, es[f2].1) as u64));
                    }
                }
                assert forall|k: u64| #[trigger] weight_map@.contains_key(k) implies exists|f: int|
                    0 <= f < e + 1 && pair_key(es[f].0, es[f].1) == k && es[f].2 == weight_map@[k] && first_between(
                        es,
                        f,
                    ) by {
                    if k != key {
                        assert(wm0.contains_key(k));
                    } else {
                        assert(pair_key(es[e as int].0, es[e as int].1) == k);
                    }
                }
            }
        }
        proof {
            assert(weight_map@.contains_key(pair_key(es[e as int].0, es[e as int].1) as u64));
        }
        e = e + 1;
    }

    let cover_nodes = cover_nonneg.graph.node_count();
    let cover_edges = cover_nonneg.graph.edge_count();
    let ghost ce = cover_nonneg.graph.edge_list();
    let ghost cmap = cover_nonneg.map();
    proof {
        cover_nonneg.graph.lemma_wf_edges();
    }
    let mut cover_graph = Graph::with_capacity(cover_nodes, cover_edges);
    cover_graph.add_nodes(cover_nodes);
    let mut e: usize = 0;
    while e < cover_edges
        invariant
            e <= cover_edges,
            cover_edges == ce.len(),
            cover_edges <= u32::MAX,
            ce == cover_nonneg.graph.edge_list(),
            cmap == cover_nonneg.map(),
            cover_nonneg.projects_onto(n as nat, hs),
            hs == clamped_edges(es),
            m == es.len(),
            cover_graph.wf(),
            cover_graph.num_nodes() == cover_nodes,
            cover_nodes == cover_nonneg.graph.num_nodes(),
            cover_graph.edge_list().len() == e,
            forall|i: int| 0 <= i < ce.len() ==> (#[trigger] ce[i]).0 < cover_nodes && ce[i].1 < cover_nodes,
            forall|k: u64|
                #[trigger] weight_map@.contains_key(k) ==> exists|f: int|
                    0 <= f < m && pair_key(es[f].0, es[f].1) == k && es[f].2 == weight_map@[k] && first_between(
                        es,
                        f,
                    ),
            forall|f: int|
                0 <= f < m ==> weight_map@.contains_key(pair_key((#[trigger] es[f]).0, es[f].1) as u64),
            edges_project(cover_graph.edge_list(), cmap, es),
            first_weights(cover_graph.edge_list(), cmap, es),
            cover_graph.edge_list() == restored(ce, cmap, es).take(e as int),
        decreases cover_edges - e,
    {
        let id = EdgeId(e as u32);
        let src = cover_nonneg.graph.source(id);
        let tgt = cover_nonneg.graph.target(id);
        let orig_src = cover_nonneg.original_of(src);
        let orig_tgt = cover_nonneg.original_of(tgt);
        let key = key_of(orig_src.0, orig_tgt.0);
        let ghost f = choose|f: int|
            0 <= f < hs.len() && #[trigger] hs[f] == (cmap[ce[e as int].0 as int].0, cmap[ce[e as int].1 as int].0, ce[e as int].2);
        proof {
            assert(edges_project(ce, cmap, hs));
            assert(ce[e as int] == ce[e as int]);
            assert(exists|f: int|
                0 <= f < hs.len() && #[trigger] hs[f] == (cmap[ce[e as int].0 as int].0, cmap[ce[e as int].1 as int].0, ce[e as int].2));
            assert(hs[f].0 == es[f].0 && hs[f].1 == es[f].1);
            assert(weight_map@.contains_key(pair_key(es[f].0, es[f].1) as u64));
        }
        let w = match weight_map.get(&key) {
            Some(w) => *w,
            None => 0,
        };
        let ghost ge0 = cover_graph.edge_list();
        cover_graph.add_edge(src, tgt, w);
        proof {
            let k0 = key;
            let f0 = choose|f0: int|
                0 <= f0 < m && pair_key(es[f0].0, es[f0].1) == k0 && es[f0].2 == weight_map@[k0] && first_between(es, f0);
            lemma_pair_key(es[f0].0, es[f0].1, orig_src.0, orig_tgt.0);
            lemma_first_weight(es, f0, m as int);
            assert(w == first_weight(es, orig_src.0, orig_tgt.0));
            assert(cover_graph.edge_list() =~= restored(ce, cmap, es).take(e + 1));
            let k = key;
            let f2 = choose|f2: int|
                0 <= f2 < m && pair_key(es[f2].0, es[f2].1) == k && es[f2].2 == weight_map@[k] && first_between(es, f2);
            lemma_pair_key(es[f2].0, es[f2].1, orig_src.0, orig_tgt.0);
            let ge = cover_graph.edge_list();
            assert forall|e2: int| 0 <= e2 < ge.len() implies exists|f3: int|
                0 <= f3 < es.len() && #[trigger] es[f3] == (
                    cmap[(#[trigger] ge[e2]).0 as int].0,
                    cmap[ge[e2].1 as int].0,
                    ge[e2].2,
                ) && first_between(es, f3) by {
                if e2 < ge0.len() {
                    assert(ge[e2] == ge0[e2]);
                } else {
                    assert(es[f2] == (cmap[ge[e2].0 as int].0, cmap[ge[e2].1 as int].0, ge[e2].2));
                }
            }
            assert(first_weights(ge, cmap, es));
            assert forall|e2: int| 0 <= e2 < ge.len() implies exists|f3: int|
                0 <= f3 < es.len() && #[trigger] es[f3] == (cmap[(#[trigger] ge[e2]).0 as int].0, cmap[ge[e2].1 as int].0, ge[e2].2) by {
                if e2 < ge0.len() {
                    assert(ge[e2] == ge0[e2]);
                } else {
                    assert(es[f2] == (cmap[ge[e2].0 as int].0, cmap[ge[e2].1 as int].0, ge[e2].2));
                }
            }
        }
        e = e + 1;
    }
    proof {
        assert(cover_graph.edge_list() =~= restored(ce, cmap, es));
    }
    let res = Projection::with_graph(cover_nonneg, cover_graph);
    res
}

// ═══════════════════════════════════════════════════════════════════════════════
// §5.1 — kSSSP recursive algorithm
// ═══════════════════════════════════════════════════════════════════════════════

/// The base case: `sssp_few_negative`, or all `INF` when it reports a
/// negative edge that still improves a distance.
fn few_negative_or_inf(h: &Graph, source: NodeId, k: usize) -> (dist: Vec<i64>)
    requires
        h.wf(),
        source.0 < h.num_nodes(),
    ensures
        dist@.len() == h.num_nodes(),
        estimates_backed(h.edge_list(), source.0 as int, dist@),
        few_neg_case(h.edge_list(), h.num_nodes() as int, source.0 as int, k as int) ==> forall|v: int|
            0 <= v < h.num_nodes() ==> is_shortest(
                h.edge_list(),
                source.0 as int,
                v,
                #[trigger] dist@[v] as int,
            ),
{
    match sssp_few_negative(h, source, k) {
        Some(d) => d,
        None => filled(h.node_count(), INF),
    }
}

/// For each original node, the projection nodes that map to it.
fn preimage_lists(cover: &Projection, n: usize) -> (pre: Vec<Vec<u32>>)
    requires
        cover.wf(),
        cover.reps().len() == n,
    ensures
        pre@.len() == n,
        forall|u: int, j: int|
            0 <= u < n && 0 <= j < pre@[u]@.len() ==> #[trigger] pre@[u]@[j] < cover.graph.num_nodes(),
{
    proof {
        cover.graph.lemma_wf_edges();
    }
    let np = cover.graph.node_count();
    let mut pre: Vec<Vec<u32>> = Vec::with_capacity(n);
    let mut u: usize = 0;
    while u < n
        invariant
            u <= n,
            pre@.len() == u,
            forall|a: int, j: int| 0 <= a < u && 0 <= j < pre@[a]@.len() ==> #[trigger] pre@[a]@[j] < np,
        decreases n - u,
    {
        pre.push(Vec::new());
        u = u + 1;
    }
    let mut v: usize = 0;
    while v < np
        invariant
            v <= np,
            np == cover.graph.num_nodes(),
            np <= u32::MAX,
            cover.wf(),
            cover.reps().len() == n,
            pre@.len() == n,
            forall|a: int, j: int| 0 <= a < n && 0 <= j < pre@[a]@.len() ==> #[trigger] pre@[a]@[j] < np,
        decreases np - v,
    {
        let orig = cover.original_of(NodeId(v as u32));
        proof {
            assert(cover.map()[v as int].0 < cover.reps().len());
        }
        let ghost before = pre@;
        pre[orig.0 as usize].push(v as u32);
        proof {
            assert forall|a: int, j: int| 0 <= a < n && 0 <= j < pre@[a]@.len() implies #[trigger] pre@[a]@[j] < np by {
                if a != orig.0 {
                    assert(pre@[a] == before[a]);
                } else if j < before[a]@.len() {
                    assert(pre@[a]@[j] == before[a]@[j]);
                }
            }
        }
        v = v + 1;
    }
    pre
}

/// The edges among the first `k` of `es` whose endpoints reach each other
/// (the edges inside a strongly connected component), in order.
pub open spec fn edges_inside_components(es: Seq<(u32, u32, i64)>, k: int) -> Seq<(u32, u32, i64)>
    decreases k,
{
    if k <= 0 {
        Seq::empty()
    } else {
        let prev = edges_inside_components(es, k - 1);
        let e = es[k - 1];
        if reaches(es, e.0 as int, e.1 as int) && reaches(es, e.1 as int, e.0 as int) {
            prev.push(e)
        } else {
            prev
        }
    }
}

/// `G′_SCC`: the edges of `gp` inside one of its SCCs, and an extra node
/// `s′` (the last) with a 0-weight edge to every node of `gp`. `None` when
/// the result would not fit `u32` ids.
fn scc_restricted(gp: &Graph) -> (r: Option<Graph>)
    requires
        gp.wf(),
    ensures
        r is None <==> (gp.num_nodes() + 1 >= u32::MAX || gp.edge_list().len() + gp.num_nodes()
            >= u32::MAX),
        r matches Some(g2) ==> g2.wf() && g2.num_nodes() == gp.num_nodes() + 1 && g2.num_nodes() < u32::MAX
            && g2.edge_list() == augmented(
            edges_inside_components(gp.edge_list(), gp.edge_list().len() as int),
            gp.num_nodes(),
        ),
{
    proof {
        gp.lemma_wf_edges();
    }
    let np = gp.node_count();
    let mp = gp.edge_count();
    if np as u64 + 1 >= u32::MAX as u64 || mp as u64 + np as u64 >= u32::MAX as u64 {
        return None;
    }
    let (comp, _) = scc(gp);
    let mut g_scc = Graph::with_capacity(np + 1, mp + np);
    g_scc.add_nodes(np + 1);
    let s_prime = NodeId(np as u32);
    let mut e: usize = 0;
    while e < mp
        invariant
            e <= mp,
            mp == gp.edge_list().len(),
            np == gp.num_nodes(),
            mp + np < u32::MAX,
            gp.wf(),
            comp@.len() == np,
            g_scc.wf(),
            g_scc.num_nodes() == np + 1,
            g_scc.edge_list().len() <= e,
            g_scc.edge_list() == edges_inside_components(gp.edge_list(), e as int),
            forall|i: int| 0 <= i < mp ==> (#[trigger] gp.edge_list()[i]).0 < np && gp.edge_list()[i].1 < np,
            forall|x: int, y: int|
                0 <= x < np && 0 <= y < np ==> (#[trigger] comp@[x] == #[trigger] comp@[y] <==> (reaches(
                    gp.edge_list(),
                    x,
                    y,
                ) && reaches(gp.edge_list(), y, x))),
        decreases mp - e,
    {
        let id = EdgeId(e as u32);
        let u = gp.source(id);
        let v = gp.target(id);
        proof {
            assert(gp.edge_list()[e as int] == (u.0, v.0, gp.edge_list()[e as int].2));
        }
        if comp[u.0 as usize] == comp[v.0 as usize] {
            g_scc.add_edge(u, v, gp.weight(id));
        }
        e = e + 1;
    }
    let ghost inside = g_scc.edge_list();
    // 0-weight edges from super-source to every G′ node.
    let mut v: usize = 0;
    while v < np
        invariant
            v <= np,
            np == gp.num_nodes(),
            mp + np < u32::MAX,
            g_scc.wf(),
            g_scc.num_nodes() == np + 1,
            g_scc.edge_list().len() <= mp + v,
            g_scc.edge_list() == inside + Seq::new(v as nat, |k: int| (np as u32, k as u32, 0i64)),
            s_prime.0 == np,
        decreases np - v,
    {
        g_scc.add_edge(s_prime, NodeId(v as u32), 0);
        proof {
            assert(g_scc.edge_list() =~= inside + Seq::new((v + 1) as nat, |k: int| (np as u32, k as u32, 0i64)));
        }
        v = v + 1;
    }
    proof {
        assert(g_scc.edge_list() =~= augmented(inside, np as nat));
    }
    Some(g_scc)
}

/// `w + φ(u) − φ(v)` with saturating arithmetic, or `INF` when a potential
/// is `INF`.
pub open spec fn adjusted(w: i64, phi_u: i64, phi_v: i64) -> i64 {
    if phi_u < INF && phi_v < INF {
        reduced_weight(w, phi_u, phi_v)
    } else {
        INF
    }
}

/// `w + φ(u) − φ(v)` with saturating arithmetic, or `INF` when a potential
/// is `INF`.
fn adjusted_weight(w: i64, phi_u: i64, phi_v: i64) -> (r: i64)
    ensures
        r == adjusted(w, phi_u, phi_v),
{
    if phi_u < INF && phi_v < INF {
        sat_sub(sat_add(w, phi_u), phi_v)
    } else {
        INF
    }
}

/// Σ over the first `k` edges of `es` of the number of preimages of the
/// edge's source.
spec fn pre_sum(es: Seq<(u32, u32, i64)>, pre: Seq<Vec<u32>>, k: int) -> int
    decreases k,
{
    if k <= 0 {
        0
    } else {
        pre_sum(es, pre, k - 1) + pre[es[k - 1].0 as int]@.len()
    }
}

proof fn lemma_pre_sum_mono(es: Seq<(u32, u32, i64)>, pre: Seq<Vec<u32>>, i: int, j: int)
    requires
        0 <= i <= j,
    ensures
        pre_sum(es, pre, i) <= pre_sum(es, pre, j),
        pre_sum(es, pre, i) >= 0,
    decreases j,
{
    if i < j {
        lemma_pre_sum_mono(es, pre, i, j - 1);
    } else if i > 0 {
        lemma_pre_sum_mono(es, pre, i - 1, i - 1);
    }
}

proof fn lemma_mul_step(a: int, b: int)
    ensures
        (a + 1) * b == a * b + b,
{
    assert((a + 1) * b == a * b + b) by (nonlinear_arith);
}

proof fn lemma_mul_mono(a: int, b: int, c: int)
    requires
        0 <= a <= b,
        c >= 0,
    ensures
        a * c <= b * c,
        a * c >= 0,
{
    assert(a * c <= b * c) by (nonlinear_arith)
        requires
            0 <= a <= b,
            c >= 0,
    ;
    assert(a * c >= 0) by (nonlinear_arith)
        requires
            0 <= a,
            c >= 0,
    ;
}

/// The id of copy `i` of projection node `v` in G″.
fn copy_id(i: usize, np: usize, v: u32, x: usize) -> (id: u32)
    requires
        i < x,
        v < np,
        x * np + 1 <= u32::MAX,
    ensures
        id == i * np + v,
        id < x * np,
{
    proof {
        lemma_mul_mono(i as int + 1, x as int, np as int);
        lemma_mul_step(i as int, np as int);
    }
    (i * np) as u32 + v
}

/// The edges of copy `i` made from the first `k` edges `(u, v, w)` of `gs`:
/// `(i·np + u, i·np + v)` with the adjusted weight, where that is below `INF`.
spec fn copy_edges(gs: Seq<(u32, u32, i64)>, phi: Seq<i64>, np: int, i: int, k: int) -> Seq<
    (u32, u32, i64),
>
    decreases k,
{
    if k <= 0 {
        Seq::empty()
    } else {
        let prev = copy_edges(gs, phi, np, i, k - 1);
        let (u, v, w) = gs[k - 1];
        let a = adjusted(w, phi[u as int], phi[v as int]);
        if a < INF {
            prev.push(((i * np + u) as u32, (i * np + v) as u32, a))
        } else {
            prev
        }
    }
}

/// The edges of copies `0..i`, copy after copy.
spec fn copies(gs: Seq<(u32, u32, i64)>, phi: Seq<i64>, np: int, i: int) -> Seq<(u32, u32, i64)>
    decreases i,
{
    if i <= 0 {
        Seq::empty()
    } else {
        copies(gs, phi, np, i - 1) + copy_edges(gs, phi, np, i - 1, gs.len() as int)
    }
}

/// The edges from the first `j` preimages `u′` in `pl`, in copy `i`, to node
/// `r` in copy `i + 1`, with weight `w` adjusted, where that is below `INF`.
spec fn lift_edges(pl: Seq<u32>, phi: Seq<i64>, np: int, i: int, r: int, w: i64, j: int) -> Seq<
    (u32, u32, i64),
>
    decreases j,
{
    if j <= 0 {
        Seq::empty()
    } else {
        let prev = lift_edges(pl, phi, np, i, r, w, j - 1);
        let up = pl[j - 1];
        let a = adjusted(w, phi[up as int], phi[r]);
        if a < INF {
            prev.push(((i * np + up) as u32, ((i + 1) * np + r) as u32, a))
        } else {
            prev
        }
    }
}

/// The edges from copy `i` to copy `i + 1` made from the first `k` edges
/// `(u, v, w)` of `hs`: from every preimage of `u` to the representative of
/// `v`, if `v` has one.
spec fn cross_edges(
    hs: Seq<(u32, u32, i64)>,
    reps: Seq<Option<NodeId>>,
    pre: Seq<Vec<u32>>,
    phi: Seq<i64>,
    np: int,
    i: int,
    k: int,
) -> Seq<(u32, u32, i64)>
    decreases k,
{
    if k <= 0 {
        Seq::empty()
    } else {
        let prev = cross_edges(hs, reps, pre, phi, np, i, k - 1);
        let (u, v, w) = hs[k - 1];
        match reps[v as int] {
            None => prev,
            Some(r) => prev + lift_edges(pre[u as int]@, phi, np, i, r.0 as int, w, pre[u as int]@.len() as int),
        }
    }
}

/// The edges from copy `c` to copy `c + 1` for every `c < i`, in that order.
spec fn crosses(
    hs: Seq<(u32, u32, i64)>,
    reps: Seq<Option<NodeId>>,
    pre: Seq<Vec<u32>>,
    phi: Seq<i64>,
    np: int,
    i: int,
) -> Seq<(u32, u32, i64)>
    decreases i,
{
    if i <= 0 {
        Seq::empty()
    } else {
        crosses(hs, reps, pre, phi, np, i - 1) + cross_edges(hs, reps, pre, phi, np, i - 1, hs.len() as int)
    }
}

/// The 0-weight edges from node `top` to the first `j` preimages of `pl` in
/// copy `i`.
spec fn source_edges(pl: Seq<u32>, np: int, top: int, i: int, j: int) -> Seq<(u32, u32, i64)> {
    Seq::new(j as nat, |k: int| (top as u32, (i * np + pl[k]) as u32, 0i64))
}

/// The edges from node `top` to the preimages of `pl` in copies `0..i`.
spec fn sources(pl: Seq<u32>, np: int, top: int, i: int) -> Seq<(u32, u32, i64)>
    decreases i,
{
    if i <= 0 {
        Seq::empty()
    } else {
        sources(pl, np, top, i - 1) + source_edges(pl, np, top, i - 1, pl.len() as int)
    }
}

/// G″: `x` copies of the cover graph with potential-adjusted weights, an
/// edge from every preimage of `u` in copy `i` to the representative of `v`
/// in copy `i + 1` for each edge `(u, v)` of `h`, and a last node `s″` with
/// 0-weight edges to every preimage of `source` in every copy. `None` when
/// it would not fit `u32` ids.
#[verifier::loop_isolation(false)]
fn layered_copies(
    h: &Graph,
    source: NodeId,
    cover: &Projection,
    pre: &Vec<Vec<u32>>,
    phi: &Vec<i64>,
    x: usize,
) -> (r: Option<Graph>)
    requires
        h.wf(),
        source.0 < h.num_nodes(),
        cover.wf(),
        cover.reps().len() == h.num_nodes(),
        pre@.len() == h.num_nodes(),
        forall|u: int, j: int|
            0 <= u < h.num_nodes() && 0 <= j < pre@[u]@.len() ==> #[trigger] pre@[u]@[j] < cover.graph.num_nodes(),
        phi@.len() == cover.graph.num_nodes(),
        2 <= x <= 128,
    ensures
        r is None <==> ({
            let s_tot = pre_sum(h.edge_list(), pre@, h.edge_list().len() as int);
            ||| x * cover.graph.num_nodes() + 1 > u32::MAX
            ||| s_tot > 0x1_0000_0000
            ||| x * cover.graph.edge_list().len() + (x - 1) * s_tot + x * pre@[source.0 as int]@.len()
                >= u32::MAX
        }),
        r matches Some(g2) ==> g2.wf() && g2.num_nodes() == x * cover.graph.num_nodes() + 1
            && g2.edge_list() == copies(
            cover.graph.edge_list(),
            phi@,
            cover.graph.num_nodes() as int,
            x as int,
        ) + crosses(
            h.edge_list(),
            cover.reps(),
            pre@,
            phi@,
            cover.graph.num_nodes() as int,
            x - 1,
        ) + sources(
            pre@[source.0 as int]@,
            cover.graph.num_nodes() as int,
            x * cover.graph.num_nodes(),
            x as int,
        ),
{
    let ghost hs = h.edge_list();
    let ghost ps = pre@;
    proof {
        h.lemma_wf_edges();
        cover.graph.lemma_wf_edges();
    }
    let gp = &cover.graph;
    let np = gp.node_count();
    let mp = gp.edge_count();
    let mh = h.edge_count();
    let ghost gs = gp.edge_list();
    let ghost ph = phi@;
    let ghost rs = cover.reps();
    // Sizes: nodes x·n′ + 1; edges at most x·m′ + (x−1)·S + x·P.
    let mut total_pre: u128 = 0;
    let mut eh: usize = 0;
    while eh < mh
        invariant
            eh <= mh,
            mh == hs.len(),
            mh <= u32::MAX,
            hs == h.edge_list(),
            ps == pre@,
            pre@.len() == h.num_nodes(),
            forall|i: int| 0 <= i < hs.len() ==> (#[trigger] hs[i]).0 < h.num_nodes() && hs[i].1 < h.num_nodes(),
            total_pre == pre_sum(hs, ps, eh as int),
            total_pre <= eh * 0x1_0000_0000_0000_0000,
        decreases mh - eh,
    {
        let u = h.source(EdgeId(eh as u32));
        proof {
            lemma_mul_step(eh as int, 0x1_0000_0000_0000_0000);
            lemma_mul_mono(eh as int + 1, 0x1_0000_0000, 0x1_0000_0000_0000_0000);
        }
        total_pre = total_pre + pre[u.0 as usize].len() as u128;
        eh = eh + 1;
    }
    let src_pre = pre[source.0 as usize].len();
    let x128 = x as u128;
    proof {
        lemma_mul_mono(x as int, 128, np as int);
        lemma_mul_mono(x as int, 128, mp as int);
        lemma_mul_mono(x as int, 128, src_pre as int);
    }
    let total_nodes_128: u128 = x128 * (np as u128) + 1;
    if total_nodes_128 > u32::MAX as u128 {
        return None;
    }
    if total_pre > 0x1_0000_0000u128 {
        return None;
    }
    proof {
        lemma_mul_mono(x as int - 1, 128, total_pre as int);
    }
    let edge_bound: u128 = x128 * (mp as u128) + (x128 - 1) * total_pre + x128 * (src_pre as u128);
    if edge_bound >= u32::MAX as u128 {
        return None;
    }
    let ghost s_tot = total_pre as int;
    let ghost p_src = src_pre as int;
    let total_nodes = x * np + 1;
    let s_double_prime = NodeId((total_nodes - 1) as u32);
    let mut g_double = Graph::with_capacity(total_nodes, edge_bound as usize);
    g_double.add_nodes(total_nodes);

    // Internal edges within each copy (G′ edges, potential-adjusted).
    let mut i: usize = 0;
    while i < x
        invariant
            i <= x,
            g_double.wf(),
            g_double.num_nodes() == total_nodes,
            g_double.edge_list().len() <= i * mp,
            g_double.edge_list() == copies(gs, ph, np as int, i as int),
        decreases x - i,
    {
        let ghost start = g_double.edge_list();
        let mut e: usize = 0;
        while e < mp
            invariant
                e <= mp,
                i < x,
                g_double.wf(),
                g_double.num_nodes() == total_nodes,
                g_double.edge_list().len() <= i * mp + e,
                g_double.edge_list() == start + copy_edges(gs, ph, np as int, i as int, e as int),
            decreases mp - e,
        {
            let id = EdgeId(e as u32);
            let u = gp.source(id);
            let v = gp.target(id);
            let w_adj = adjusted_weight(gp.weight(id), phi[u.0 as usize], phi[v.0 as usize]);
            if w_adj < INF {
                proof {
                    lemma_mul_mono(i as int + 1, x as int, mp as int);
                    lemma_mul_step(i as int, mp as int);
                }
                let cu = copy_id(i, np, u.0, x);
                let cv = copy_id(i, np, v.0, x);
                g_double.add_edge(NodeId(cu), NodeId(cv), w_adj);
                proof {
                    assert(g_double.edge_list() =~= start + copy_edges(gs, ph, np as int, i as int, e + 1));
                }
            } else {
                proof {
                    assert(g_double.edge_list() =~= start + copy_edges(gs, ph, np as int, i as int, e + 1));
                }
            }
            e = e + 1;
        }
        proof {
            lemma_mul_step(i as int, mp as int);
            assert(g_double.edge_list() =~= copies(gs, ph, np as int, i + 1));
        }
        i = i + 1;
    }
    let ghost all_copies = g_double.edge_list();

    // Cross-layer edges (copy i → copy i+1).
    let mut i: usize = 0;
    while i < x - 1
        invariant
            i <= x - 1,
            g_double.wf(),
            g_double.num_nodes() == total_nodes,
            g_double.edge_list().len() <= x * mp + i * s_tot,
            g_double.edge_list() == all_copies + crosses(hs, rs, ps, ph, np as int, i as int),
        decreases x - 1 - i,
    {
        let ghost start = g_double.edge_list();
        let mut eh: usize = 0;
        while eh < mh
            invariant
                eh <= mh,
                i < x - 1,
                g_double.wf(),
                g_double.num_nodes() == total_nodes,
                g_double.edge_list().len() <= x * mp + i * s_tot + pre_sum(hs, ps, eh as int),
                g_double.edge_list() == start + cross_edges(hs, rs, ps, ph, np as int, i as int, eh as int),
            decreases mh - eh,
        {
            let id = EdgeId(eh as u32);
            let u_orig = h.source(id);
            let v_orig = h.target(id);
            let w_h = h.weight(id);
            proof {
                lemma_pre_sum_mono(hs, ps, eh as int + 1, mh as int);
                lemma_pre_sum_mono(hs, ps, eh as int, eh as int + 1);
            }
            let ghost start_e = g_double.edge_list();
            match cover.representative(v_orig) {
                None => {
                    proof {
                        assert(g_double.edge_list() =~= start + cross_edges(hs, rs, ps, ph, np as int, i as int, eh + 1));
                    }
                },
                Some(r) => {
                    let v_rep = r.0;
                    proof {
                        assert(cover.reps()[v_orig.0 as int] is Some);
                    }
                    let phi_v = phi[v_rep as usize];
                    let list = &pre[u_orig.0 as usize];
                    let mut j: usize = 0;
                    while j < list.len()
                        invariant
                            j <= list@.len(),
                            list@ == ps[u_orig.0 as int]@,
                            i < x - 1,
                            v_rep < np,
                            g_double.wf(),
                            g_double.num_nodes() == total_nodes,
                            g_double.edge_list().len() <= x * mp + i * s_tot + pre_sum(hs, ps, eh as int) + j,
                            g_double.edge_list() == start_e + lift_edges(
                                list@,
                                ph,
                                np as int,
                                i as int,
                                v_rep as int,
                                w_h,
                                j as int,
                            ),
                        decreases list@.len() - j,
                    {
                        let u_prime = list[j];
                        let w_adj = adjusted_weight(w_h, phi[u_prime as usize], phi_v);
                        if w_adj < INF {
                            proof {
                                lemma_mul_step(i as int, s_tot);
                                lemma_mul_mono(i as int + 1, x as int - 1, s_tot);
                            }
                            let cu = copy_id(i, np, u_prime, x);
                            let cv = copy_id(i + 1, np, v_rep, x);
                            g_double.add_edge(NodeId(cu), NodeId(cv), w_adj);
                            proof {
                                assert(g_double.edge_list() =~= start_e + lift_edges(
                                    list@,
                                    ph,
                                    np as int,
                                    i as int,
                                    v_rep as int,
                                    w_h,
                                    j + 1,
                                ));
                            }
                        } else {
                            proof {
                                assert(g_double.edge_list() =~= start_e + lift_edges(
                                    list@,
                                    ph,
                                    np as int,
                                    i as int,
                                    v_rep as int,
                                    w_h,
                                    j + 1,
                                ));
                            }
                        }
                        j = j + 1;
                    }
                    proof {
                        assert(g_double.edge_list() =~= start + cross_edges(hs, rs, ps, ph, np as int, i as int, eh + 1));
                    }
                },
            }
            eh = eh + 1;
        }
        proof {
            lemma_mul_step(i as int, s_tot);
            assert(g_double.edge_list() =~= all_copies + crosses(hs, rs, ps, ph, np as int, i + 1));
        }
        i = i + 1;
    }
    let ghost before_src = g_double.edge_list();

    // s″ → every preimage of `source` in every copy of G′.
    let src_list = &pre[source.0 as usize];
    let ghost top = (x * np) as int;
    let mut i: usize = 0;
    while i < x
        invariant
            i <= x,
            g_double.wf(),
            g_double.num_nodes() == total_nodes,
            g_double.edge_list().len() <= x * mp + (x - 1) * s_tot + i * p_src,
            g_double.edge_list() == before_src + sources(src_list@, np as int, top, i as int),
        decreases x - i,
    {
        let ghost start = g_double.edge_list();
        let mut j: usize = 0;
        while j < src_list.len()
            invariant
                j <= src_list@.len(),
                src_list@.len() == p_src,
                i < x,
                g_double.wf(),
                g_double.num_nodes() == total_nodes,
                g_double.edge_list().len() <= x * mp + (x - 1) * s_tot + i * p_src + j,
                g_double.edge_list() == start + source_edges(src_list@, np as int, top, i as int, j as int),
            decreases src_list@.len() - j,
        {
            proof {
                lemma_mul_step(i as int, p_src);
                lemma_mul_mono(i as int + 1, x as int, p_src);
            }
            let c = copy_id(i, np, src_list[j], x);
            g_double.add_edge(s_double_prime, NodeId(c), 0);
            proof {
                assert(g_double.edge_list() =~= start + source_edges(src_list@, np as int, top, i as int, j + 1));
            }
            j = j + 1;
        }
        proof {
            lemma_mul_step(i as int, p_src);
            assert(g_double.edge_list() =~= before_src + sources(src_list@, np as int, top, i + 1));
        }
        i = i + 1;
    }
    Some(g_double)
}

/// d_s(u) = min over all preimages u′ of u, over all copies i, of
/// `d_{s″}(copy_i(u′)) + φ(u′)` (finite terms only).
fn recover_from_copies(
    n: usize,
    pre: &Vec<Vec<u32>>,
    phi: &Vec<i64>,
    dist_double: &Vec<i64>,
    x: usize,
    np: usize,
) -> (dist: Vec<i64>)
    requires
        pre@.len() == n,
        forall|u: int, j: int| 0 <= u < n && 0 <= j < pre@[u]@.len() ==> #[trigger] pre@[u]@[j] < np,
        phi@.len() == np,
        dist_double@.len() == x * np + 1,
        x * np + 1 <= u32::MAX,
    ensures
        dist@.len() == n,
{
    let mut dist: Vec<i64> = filled(n, INF);
    let mut u: usize = 0;
    while u < n
        invariant
            u <= n,
            dist@.len() == n,
            pre@.len() == n,
            forall|a: int, j: int| 0 <= a < n && 0 <= j < pre@[a]@.len() ==> #[trigger] pre@[a]@[j] < np,
            phi@.len() == np,
            dist_double@.len() == x * np + 1,
            x * np + 1 <= u32::MAX,
        decreases n - u,
    {
        let list = &pre[u];
        let mut j: usize = 0;
        while j < list.len()
            invariant
                j <= list@.len(),
                u < n,
                list@ == pre@[u as int]@,
                dist@.len() == n,
                forall|a: int, k: int| 0 <= a < n && 0 <= k < pre@[a]@.len() ==> #[trigger] pre@[a]@[k] < np,
                phi@.len() == np,
                dist_double@.len() == x * np + 1,
                x * np + 1 <= u32::MAX,
            decreases list@.len() - j,
        {
            let u_prime = list[j];
            let phi_u = phi[u_prime as usize];
            if phi_u < INF {
                let mut i: usize = 0;
                while i < x
                    invariant
                        i <= x,
                        u < n,
                        u_prime < np,
                        dist@.len() == n,
                        dist_double@.len() == x * np + 1,
                        x * np + 1 <= u32::MAX,
                    decreases x - i,
                {
                    let d_raw = dist_double[copy_id(i, np, u_prime, x) as usize];
                    if d_raw < INF {
                        let d_u = sat_add(d_raw, phi_u);
                        if d_u < dist[u] {
                            dist.set(u, d_u);
                        }
                    }
                    i = i + 1;
                }
            }
            j = j + 1;
        }
        u = u + 1;
    }
    dist
}

/// kSSSP(H, s, k) — restricted SSSP with at most k negative edges per path.
///
/// Implements §5.1, Lemma 5.6. Calls itself recursively with k/2 negative
/// edges and uses the layered G″ construction to recover distances for H.
///
/// `threshold` is the base-case cutoff (≈ log⁶ n in the paper; exposed here
/// for testing). At or below it the distances are those of
/// [`sssp_few_negative`]; where a constructed graph would not fit `u32` ids
/// the base case answers instead. Above `threshold` only the length of the
/// result is stated: with nodes 0 and 1, edges 1 → 0 (weight −1) and 0 → 1
/// (weight 1), source 0, `k = 2` and `threshold = 0` the result is `[−1, 0]`,
/// below the distances `[0, 1]`.
fn k_sssp(h: &Graph, source: NodeId, k: usize, threshold: usize) -> (dist: Vec<i64>)
    requires
        h.wf(),
        source.0 < h.num_nodes(),
        h.num_nodes() < u32::MAX,
    ensures
        dist@.len() == h.num_nodes(),
        k <= threshold ==> estimates_backed(h.edge_list(), source.0 as int, dist@),
        k <= threshold && few_neg_case(h.edge_list(), h.num_nodes() as int, source.0 as int, k as int)
            ==> forall|v: int|
            0 <= v < h.num_nodes() ==> is_shortest(
                h.edge_list(),
                source.0 as int,
                v,
                #[trigger] dist@[v] as int,
            ),
    decreases k,
{
    let n = h.node_count();

    // ── Base case ─────────────────────────────────────────────────────────────
    if k <= threshold {
        return few_negative_or_inf(h, source, k);
    }

    // ── Compute λ and d_cov (§5.1) ────────────────────────────────────────────
    // λ = 10000·log⁴ n with log n = ⌊ln n⌋ + 1 (at most 23 for u32 ids).
    let log_n = floor_ln(if n < 2 {
        2
    } else {
        n as u64
    }) as u64 + 1;
    proof {
        assert(1 <= log_n <= 23);
        let a1 = 10_000 * log_n;
        lemma_mul_mono(a1, 230000, log_n as int);
        lemma_mul_mono(a1 * log_n, 5290000, log_n as int);
        lemma_mul_mono(a1 * log_n * log_n, 121670000, log_n as int);
        lemma_mul_mono(1, log_n as int, 10_000);
        lemma_mul_mono(10_000, a1, log_n as int);
        lemma_mul_mono(10_000, a1 * log_n, log_n as int);
        lemma_mul_mono(10_000, a1 * log_n * log_n, log_n as int);
    }
    let lambda: u64 = 10_000 * log_n * log_n * log_n * log_n;
    // d_cov = k / (2λ): paths longer than d_cov in H≥0 are handled by the
    // recursive call; the path cover only needs to cover short paths.
    let q = (k as u64) / (2 * lambda);
    let d_cov: i64 = if q < 1 {
        1
    } else {
        q as i64
    };

    // ── Build path cover of H≥0 ───────────────────────────────────────────────
    let cover = build_path_cover(h, d_cov, lambda as usize);
    proof {
        cover.graph.lemma_wf_edges();
    }
    let np = cover.graph.node_count();

    // Preimage index: orig_node → list of G′-nodes mapping to it.
    let pre = preimage_lists(&cover, n);

    // ── Prune to within-SCC edges and add super-source s′ ────────────────────
    let g_scc = match scc_restricted(&cover.graph) {
        Some(g2) => g2,
        None => {
            return few_negative_or_inf(h, source, k);
        },
    };
    let s_prime = NodeId(np as u32);

    // ── Recursive call: kSSSP(G′_SCC, s′, k/2) ───────────────────────────────
    let dist_s_prime = k_sssp(&g_scc, s_prime, k / 2, threshold);
    // φ(u′) = dist_{G′_SCC}(s′, u′) for u′ ∈ V(G′).
    let mut phi: Vec<i64> = Vec::with_capacity(np);
    let mut v: usize = 0;
    while v < np
        invariant
            v <= np,
            dist_s_prime@.len() == np + 1,
            phi@.len() == v,
        decreases np - v,
    {
        phi.push(dist_s_prime[v]);
        v = v + 1;
    }

    // ── Build G″: x copies of G′ linked by H-edges ───────────────────────────
    // x = 2·(bits of k), at least 2.
    let kb = bit_length(k as u64);
    let x: usize = if kb < 1 {
        2
    } else {
        2 * kb as usize
    };
    let g_double = match layered_copies(h, source, &cover, &pre, &phi, x) {
        Some(g2) => g2,
        None => {
            return few_negative_or_inf(h, source, k);
        },
    };
    proof {
        g_double.lemma_wf_edges();
    }
    let s_double_prime = NodeId((x * np) as u32);

    // ── Run Lemma 5.4 (cross-SCC SSSP) on G″_φ ───────────────────────────────
    let dist_double = sssp_cross_scc(&g_double, s_double_prime);

    // ── Recover distances for H ───────────────────────────────────────────────
    recover_from_copies(n, &pre, &phi, &dist_double, x, np)
}

/// The base-case cutoff of [`restricted_sssp`] on `n` nodes: `bits(n)⁶`, at
/// least 1.
pub open spec fn base_cutoff(n: nat) -> nat {
    let b = bits(n);
    if b == 0 {
        1
    } else {
        b * b * b * b * b * b
    }
}

/// A number is below 2 to the power of its bit length.
proof fn lemma_below_pow2_bits(x: nat)
    ensures
        x < pow2k(bits(x)),
    decreases x,
{
    if x > 0 {
        lemma_below_pow2_bits(x / 2);
        assert(pow2k(bits(x)) == 2 * pow2k(bits(x / 2)));
    }
}

proof fn lemma_pow2_le_sixth_low(b: nat)
    requires
        1 <= b <= 10,
    ensures
        pow2k(b) <= b * b * b * b * b * b + 1,
{
    if b == 1 {
        assert(pow2k(1) == 2) by {
            reveal_with_fuel(pow2k, 2);
        }
        assert(b * b * b * b * b * b == 1) by (nonlinear_arith)
            requires
                b == 1,
        ;
    } else if b == 2 {
        assert(pow2k(2) == 4) by {
            reveal_with_fuel(pow2k, 3);
        }
        assert(b * b * b * b * b * b == 64) by (nonlinear_arith)
            requires
                b == 2,
        ;
    } else if b == 3 {
        assert(pow2k(3) == 8) by {
            reveal_with_fuel(pow2k, 4);
        }
        assert(b * b * b * b * b * b == 729) by (nonlinear_arith)
            requires
                b == 3,
        ;
    } else if b == 4 {
        assert(pow2k(4) == 16) by {
            reveal_with_fuel(pow2k, 5);
        }
        assert(b * b * b * b * b * b == 4096) by (nonlinear_arith)
            requires
                b == 4,
        ;
    } else if b == 5 {
        assert(pow2k(5) == 32) by {
            reveal_with_fuel(pow2k, 6);
        }
        assert(b * b * b * b * b * b == 15625) by (nonlinear_arith)
            requires
                b == 5,
        ;
    } else if b == 6 {
        assert(pow2k(6) == 64) by {
            reveal_with_fuel(pow2k, 7);
        }
        assert(b * b * b * b * b * b == 46656) by (nonlinear_arith)
            requires
                b == 6,
        ;
    } else if b == 7 {
        assert(pow2k(7) == 128) by {
            reveal_with_fuel(pow2k, 8);
        }
        assert(b * b * b * b * b * b == 117649) by (nonlinear_arith)
            requires
                b == 7,
        ;
    } else if b == 8 {
        assert(pow2k(8) == 256) by {
            reveal_with_fuel(pow2k, 9);
        }
        assert(b * b * b * b * b * b == 262144) by (nonlinear_arith)
            requires
                b == 8,
        ;
    } else if b == 9 {
        assert(pow2k(9) == 512) by {
            reveal_with_fuel(pow2k, 10);
        }
        assert(b * b * b * b * b * b == 531441) by (nonlinear_arith)
            requires
                b == 9,
        ;
    } else if b == 10 {
        assert(pow2k(10) == 1024) by {
            reveal_with_fuel(pow2k, 11);
        }
        assert(b * b * b * b * b * b == 1000000) by (nonlinear_arith)
            requires
                b == 10,
        ;
    }
}

proof fn lemma_pow2_le_sixth_mid(b: nat)
    requires
        11 <= b <= 20,
    ensures
        pow2k(b) <= b * b * b * b * b * b + 1,
{
    if b == 11 {
        assert(pow2k(11) == 2048) by {
            reveal_with_fuel(pow2k, 12);
        }
        assert(b * b * b * b * b * b == 1771561) by (nonlinear_arith)
            requires
                b == 11,
        ;
    } else if b == 12 {
        assert(pow2k(12) == 4096) by {
            reveal_with_fuel(pow2k, 13);
        }
        assert(b * b * b * b * b * b == 2985984) by (nonlinear_arith)
            requires
                b == 12,
        ;
    } else if b == 13 {
        assert(pow2k(13) == 8192) by {
            reveal_with_fuel(pow2k, 14);
        }
        assert(b * b * b * b * b * b == 4826809) by (nonlinear_arith)
            requires
                b == 13,
        ;
    } else if b == 14 {
        assert(pow2k(14) == 16384) by {
            reveal_with_fuel(pow2k, 15);
        }
        assert(b * b * b * b * b * b == 7529536) by (nonlinear_arith)
            requires
                b == 14,
        ;
    } else if b == 15 {
        assert(pow2k(15) == 32768) by {
            reveal_with_fuel(pow2k, 16);
        }
        assert(b * b * b * b * b * b == 11390625) by (nonlinear_arith)
            requires
                b == 15,
        ;
    } else if b == 16 {
        assert(pow2k(16) == 65536) by {
            reveal_with_fuel(pow2k, 17);
        }
        assert(b * b * b * b * b * b == 16777216) by (nonlinear_arith)
            requires
                b == 16,
        ;
    } else if b == 17 {
        assert(pow2k(17) == 131072) by {
            reveal_with_fuel(pow2k, 18);
        }
        assert(b * b * b * b * b * b == 24137569) by (nonlinear_arith)
            requires
                b == 17,
        ;
    } else if b == 18 {
        assert(pow2k(18) == 262144) by {
            reveal_with_fuel(pow2k, 19);
        }
        assert(b * b * b * b * b * b == 34012224) by (nonlinear_arith)
            requires
                b == 18,
        ;
    } else if b == 19 {
        assert(pow2k(19) == 524288) by {
            reveal_with_fuel(pow2k, 20);
        }
        assert(b * b * b * b * b * b == 47045881) by (nonlinear_arith)
            requires
                b == 19,
        ;
    } else if b == 20 {
        assert(pow2k(20) == 1048576) by {
            reveal_with_fuel(pow2k, 21);
        }
        assert(b * b * b * b * b * b == 64000000) by (nonlinear_arith)
            requires
                b == 20,
        ;
    }
}

proof fn lemma_pow2_le_sixth_high(b: nat)
    requires
        21 <= b <= 29,
    ensures
        pow2k(b) <= b * b * b * b * b * b + 1,
{
    if b == 21 {
        assert(pow2k(21) == 2097152) by {
            reveal_with_fuel(pow2k, 22);
        }
        assert(b * b * b * b * b * b == 85766121) by (nonlinear_arith)
            requires
                b == 21,
        ;
    } else if b == 22 {
        assert(pow2k(22) == 4194304) by {
            reveal_with_fuel(pow2k, 23);
        }
        assert(b * b * b * b * b * b == 113379904) by (nonlinear_arith)
            requires
                b == 22,
        ;
    } else if b == 23 {
        assert(pow2k(23) == 8388608) by {
            reveal_with_fuel(pow2k, 24);
        }
        assert(b * b * b * b * b * b == 148035889) by (nonlinear_arith)
            requires
                b == 23,
        ;
    } else if b == 24 {
        assert(pow2k(24) == 16777216) by {
            reveal_with_fuel(pow2k, 25);
        }
        assert(b * b * b * b * b * b == 191102976) by (nonlinear_arith)
            requires
                b == 24,
        ;
    } else if b == 25 {
        assert(pow2k(25) == 33554432) by {
            reveal_with_fuel(pow2k, 26);
        }
        assert(b * b * b * b * b * b == 244140625) by (nonlinear_arith)
            requires
                b == 25,
        ;
    } else if b == 26 {
        assert(pow2k(26) == 67108864) by {
            reveal_with_fuel(pow2k, 27);
        }
        assert(b * b * b * b * b * b == 308915776) by (nonlinear_arith)
            requires
                b == 26,
        ;
    } else if b == 27 {
        assert(pow2k(27) == 134217728) by {
            reveal_with_fuel(pow2k, 28);
        }
        assert(b * b * b * b * b * b == 387420489) by (nonlinear_arith)
            requires
                b == 27,
        ;
    } else if b == 28 {
        assert(pow2k(28) == 268435456) by {
            reveal_with_fuel(pow2k, 29);
        }
        assert(b * b * b * b * b * b == 481890304) by (nonlinear_arith)
            requires
                b == 28,
        ;
    } else if b == 29 {
        assert(pow2k(29) == 536870912) by {
            reveal_with_fuel(pow2k, 30);
        }
        assert(b * b * b * b * b * b == 594823321) by (nonlinear_arith)
            requires
                b == 29,
        ;
    }
}

/// Every graph of fewer than 2²⁹ nodes lies within the base-case cutoff:
/// `n ≤ bits(n)⁶`.
pub proof fn lemma_base_cutoff_covers(n: nat)
    requires
        n < 0x2000_0000,
    ensures
        n <= base_cutoff(n),
{
    assert(pow2k(29) == 0x2000_0000) by {
        reveal_with_fuel(pow2k, 30);
    }
    lemma_bits_halving(n, 29);
    lemma_below_pow2_bits(n);
    let b = bits(n);
    if 1 <= b <= 10 {
        lemma_pow2_le_sixth_low(b);
    } else if 11 <= b <= 20 {
        lemma_pow2_le_sixth_mid(b);
    } else if 21 <= b {
        lemma_pow2_le_sixth_high(b);
    }
}

/// Restricted SSSP (Lemma 5.3): input must satisfy Definition 5.1.
///
/// Calls `kSSSP(H, s, n)` which is sufficient by Definition 5.1. When `n` is
/// within the base-case cutoff (all `n` below 2²⁹), the distances are those
/// of [`sssp_few_negative`] with `k = n` (or all `INF` when it gives up):
/// each finite entry is the weight of a walk from the source, and the
/// result is exact when no negative cycle is reachable and the weights are
/// small enough ([`few_neg_bounded`] for `n` rounds, which holds when the
/// absolute weights sum below `INF`).
pub fn restricted_sssp(h: &Graph, source: NodeId) -> (dist: Vec<i64>)
    requires
        h.wf(),
        source.0 < h.num_nodes(),
        h.num_nodes() < u32::MAX,
    ensures
        dist@.len() == h.num_nodes(),
        h.num_nodes() <= base_cutoff(h.num_nodes()) ==> estimates_backed(
            h.edge_list(),
            source.0 as int,
            dist@,
        ),
        h.num_nodes() <= base_cutoff(h.num_nodes()) && few_neg_bounded(
            h.edge_list(),
            h.num_nodes() as int,
            h.num_nodes() as int,
        ) && !reaches_negative_cycle(h.edge_list(), source.0 as int) ==> forall|v: int|
            0 <= v < h.num_nodes() ==> is_shortest(
                h.edge_list(),
                source.0 as int,
                v,
                #[trigger] dist@[v] as int,
            ),
        h.num_nodes() < 0x2000_0000 ==> estimates_backed(h.edge_list(), source.0 as int, dist@),
        h.num_nodes() < 0x2000_0000 && (abs_sum(h.edge_list()) < INF || (2 * h.num_nodes() + 1) * max_abs_weight(
            h.edge_list(),
        ) <= INF) && !reaches_negative_cycle(h.edge_list(), source.0 as int) ==> forall|v: int|
            0 <= v < h.num_nodes() ==> is_shortest(
                h.edge_list(),
                source.0 as int,
                v,
                #[trigger] dist@[v] as int,
            ),
{
    let n = h.node_count();
    proof {
        if n < 0x2000_0000 {
            lemma_base_cutoff_covers(n as nat);
        }
    }
    // Base-case cutoff: log⁶ n. We use at least 1 to avoid degenerate cases.
    let log_n = bit_length(n as u64) as usize;
    proof {
        lemma_bits_u32(n as u64);
        lemma_mul_mono(log_n as int, 33, log_n as int);
        lemma_mul_mono(log_n * log_n, 1089int, log_n as int);
        lemma_mul_mono(log_n * log_n * log_n, 35937int, log_n as int);
        lemma_mul_mono(log_n * log_n * log_n * log_n, 1185921int, log_n as int);
        lemma_mul_mono(log_n * log_n * log_n * log_n * log_n, 39135393int, log_n as int);
    }
    let p6 = log_n * log_n * log_n * log_n * log_n * log_n;
    let threshold = if p6 < 1 {
        1
    } else {
        p6
    };
    proof {
        h.lemma_wf_edges();
        if !reaches_negative_cycle(h.edge_list(), source.0 as int) {
            lemma_neg_paths_within_n(h.edge_list(), n as int, source.0 as int);
        }
    }
    k_sssp(h, source, n, threshold)
}


/// When no negative cycle is reachable from `s`, shortest paths need fewer
/// than `n` negative edges.
proof fn lemma_neg_paths_within_n(es: Seq<(u32, u32, i64)>, n: int, s: int)
    requires
        edges_within(es, n),
        0 <= s < n,
        !reaches_negative_cycle(es, s),
    ensures
        neg_paths_within(es, s, n),
{
    reveal(neg_paths_within);
    assert forall|p: Seq<int>, v: int| #[trigger] is_walk(es, p, s, v) implies exists|q: Seq<int>|
        #[trigger] is_walk(es, q, s, v) && neg_count(es, q) <= n && walk_weight(es, q)
            <= walk_weight(es, p) by {
        let q = lemma_shortcut(es, n, s, p, v);
        lemma_neg_count_le_len(es, q);
    }
}

/// A `u32`-sized value has at most 33 bits.
proof fn lemma_bits_u32(x: u64)
    requires
        x <= u32::MAX,
    ensures
        bits(x as nat) <= 33,
{
    assert(crate::arith::pow2k(33) == 0x2_0000_0000) by {
        reveal_with_fuel(crate::arith::pow2k, 34);
    }
    lemma_bits_halving(x as nat, 33);
}

proof fn lemma_bits_halving(x: nat, k: nat)
    requires
        x < crate::arith::pow2k(k),
    ensures
        bits(x) <= k,
    decreases k,
{
    if x > 0 {
        assert(k > 0);
        lemma_bits_halving(x / 2, (k - 1) as nat);
    }
}

// ═══════════════════════════════════════════════════════════════════════════════
// General SSSP — Theorem 1.1 outer driver
// ═══════════════════════════════════════════════════════════════════════════════

/// The largest absolute edge weight of `g` (0 without edges).
fn max_abs_weight_of(g: &Graph) -> (w: i64)
    requires
        g.wf(),
        forall|e: int| 0 <= e < g.edge_list().len() ==> (#[trigger] g.edge_list()[e]).2 > i64::MIN,
    ensures
        w == max_abs_weight(g.edge_list()),
        w >= 0,
{
    let ghost es = g.edge_list();
    proof {
        g.lemma_wf_edges();
    }
    let m = g.edge_count();
    let mut w_max: i64 = 0;
    let mut e: usize = 0;
    proof {
        assert(es.subrange(0, 0) =~= Seq::<(u32, u32, i64)>::empty());
    }
    while e < m
        invariant
            e <= m,
            m == es.len(),
            m <= u32::MAX,
            g.wf(),
            es == g.edge_list(),
            forall|f: int| 0 <= f < es.len() ==> (#[trigger] es[f]).2 > i64::MIN,
            w_max == max_abs_weight(es.subrange(0, e as int)),
            w_max >= 0,
        decreases m - e,
    {
        let w = g.weight(EdgeId(e as u32));
        let a = if w < 0 {
            -w
        } else {
            w
        };
        proof {
            assert(es.subrange(0, e + 1).drop_last() =~= es.subrange(0, e as int));
            assert(es.subrange(0, e + 1).last() == es[e as int]);
        }
        if a > w_max {
            w_max = a;
        }
        e = e + 1;
    }
    proof {
        assert(es.subrange(0, m as int) =~= es);
    }
    w_max
}

/// A walk through non-negative edges weighs at least 0.
proof fn lemma_nonneg_walk(es: Seq<(u32, u32, i64)>, p: Seq<int>, s: int, t: int)
    requires
        non_negative(es),
        is_walk(es, p, s, t),
    ensures
        walk_weight(es, p) >= 0,
    decreases p.len(),
{
    if p.len() > 0 {
        let e = p.last();
        lemma_nonneg_walk(es, p.drop_last(), s, es[e].0 as int);
    }
}

/// Non-negative edges have no negative cycle.
proof fn lemma_nonneg_no_negative_cycle(es: Seq<(u32, u32, i64)>)
    requires
        non_negative(es),
    ensures
        !has_negative_cycle(es),
{
    if has_negative_cycle(es) {
        let (c, x) = choose|c: Seq<int>, x: int| #[trigger] is_walk(es, c, x, x) && walk_weight(es, c) < 0;
        lemma_nonneg_walk(es, c, x, x);
    }
}

/// The edges of `es` with every weight shifted right by `k` bits.
pub open spec fn shifted(es: Seq<(u32, u32, i64)>, k: u32) -> Seq<(u32, u32, i64)> {
    Seq::new(es.len(), |e: int| (es[e].0, es[e].1, es[e].2 >> k))
}

/// `a`, capped at `n`.
pub open spec fn cap_at(a: i64, n: int) -> i64 {
    if a < n {
        a
    } else {
        n as i64
    }
}

/// The edges of one scaling phase: each edge of `es` with its weight shifted
/// right by `s` bits, adjusted by `phi` and capped at `n`.
pub open spec fn phase_edges(es: Seq<(u32, u32, i64)>, phi: Seq<i64>, s: u32, n: int) -> Seq<
    (u32, u32, i64),
> {
    Seq::new(
        es.len(),
        |e: int| (es[e].0, es[e].1, cap_at(adjusted(es[e].2 >> s, phi[es[e].0 as int], phi[es[e].1 as int]), n)),
    )
}

/// The inputs on which the scaling phases are sure to succeed: restricted
/// SSSP answers exactly on `n + 1` nodes, the potentials stay far from
/// overflow, every weight lies in `[−2ᵏ, 2ᵏ)` for `k = phases − 1`, and
/// shifting every weight right by `k` bits leaves no negative cycle.
pub open spec fn scaling_case(es: Seq<(u32, u32, i64)>, n: int, phases: u32) -> bool {
    &&& n + 1 <= base_cutoff((n + 1) as nat)
    &&& (n + 1) * crate::arith::pow2k(phases as nat) <= POT_LIMIT
    &&& forall|e: int| 0 <= e < es.len() ==> -1 <= #[trigger] (es[e].2 >> ((phases - 1) as u32)) <= 0
    &&& !has_negative_cycle(shifted(es, (phases - 1) as u32))
}

/// With non-positive potentials and no underflow in `w + φ(u)`, the
/// saturating adjusted weight is `w + φ(u) − φ(v)`, capped at `i64::MAX`.
proof fn lemma_adjusted_exact(w: i64, pu: i64, pv: i64)
    requires
        pu <= 0,
        pv <= 0,
        w + pu >= i64::MIN,
    ensures
        adjusted(w, pu, pv) == (if w + pu - pv > i64::MAX {
            i64::MAX as int
        } else {
            w + pu - pv
        }),
{
}

/// A walk through edges of weight at least `-1` weighs at least minus its
/// length.
proof fn lemma_walk_at_least_minus_len(es: Seq<(u32, u32, i64)>, p: Seq<int>, s: int, t: int)
    requires
        forall|e: int| 0 <= e < es.len() ==> (#[trigger] es[e]).2 >= -1,
        is_walk(es, p, s, t),
    ensures
        walk_weight(es, p) >= -p.len(),
    decreases p.len(),
{
    if p.len() > 0 {
        let e = p.last();
        lemma_walk_at_least_minus_len(es, p.drop_last(), s, es[e].0 as int);
    }
}

/// One scaling phase: when restricted SSSP from the extra node answers
/// exactly on the phase graph, its distances `d` lie in `[−n, 0]` and the
/// potential `phi + d` is feasible for the weights shifted right by `s`.
proof fn lemma_phase_potential(es: Seq<(u32, u32, i64)>, n: int, s: u32, phi: Seq<i64>, d: Seq<i64>)
    requires
        edges_within(es, n),
        0 <= n,
        n + 1 < u32::MAX,
        phi.len() == n,
        forall|v: int| 0 <= v < n ==> #[trigger] phi[v] <= 0,
        forall|e: int|
            0 <= e < es.len() ==> ((#[trigger] es[e]).2 >> s) + phi[es[e].0 as int] - phi[es[e].1 as int] >= -1
                && (es[e].2 >> s) + phi[es[e].0 as int] >= i64::MIN,
        d.len() == n + 1,
        forall|v: int|
            0 <= v <= n ==> is_shortest(
                augmented(phase_edges(es, phi, s, n), n as nat),
                n,
                v,
                #[trigger] d[v] as int,
            ),
        !reaches_negative_cycle(augmented(phase_edges(es, phi, s, n), n as nat), n),
    ensures
        forall|v: int| 0 <= v < n ==> -n <= #[trigger] d[v] <= 0,
        forall|e: int|
            0 <= e < es.len() ==> ((#[trigger] es[e]).2 >> s) + (phi[es[e].0 as int] + d[es[e].0 as int]) - (
            phi[es[e].1 as int] + d[es[e].1 as int]) >= 0,
{
    let pe = phase_edges(es, phi, s, n);
    let aug = augmented(pe, n as nat);
    let m = es.len() as int;
    assert forall|e: int| 0 <= e < aug.len() implies (#[trigger] aug[e]).2 >= -1 && aug[e].0 < n + 1
        && aug[e].1 < n + 1 by {
        if e < m {
            let (u, v, w) = es[e];
            lemma_adjusted_exact(w >> s, phi[u as int], phi[v as int]);
            assert(aug[e] == pe[e]);
        }
    }
    assert(edges_within(aug, n + 1));
    assert forall|v: int| 0 <= v < n implies -n <= #[trigger] d[v] <= 0 by {
        let one = seq![m + v];
        assert(one.drop_last() =~= Seq::<int>::empty());
        assert(aug.len() == m + n);
        assert(aug[m + v] == (n as u32, v as u32, 0i64));
        assert(aug[m + v].1 as int == v && aug[m + v].0 as int == n);
        assert(one.last() == m + v);
        assert(is_walk(aug, one.drop_last(), n, n));
        assert(is_walk(aug, one, n, v));
        assert(walk_weight(aug, one) == 0) by {
            assert(walk_weight(aug, one.drop_last()) == 0);
        }
        assert(d[v] <= 0);
        let p = choose|p: Seq<int>| #[trigger] is_walk(aug, p, n, v) && walk_weight(aug, p) == d[v];
        let q = lemma_shortcut(aug, n + 1, n, p, v);
        lemma_walk_at_least_minus_len(aug, q, n, v);
        assert(d[v] <= walk_weight(aug, q));
    }
    assert forall|e: int| 0 <= e < es.len() implies ((#[trigger] es[e]).2 >> s) + (phi[es[e].0 as int]
        + d[es[e].0 as int]) - (phi[es[e].1 as int] + d[es[e].1 as int]) >= 0 by {
        let (u, v, w) = es[e];
        let ui = u as int;
        let vi = v as int;
        lemma_adjusted_exact(w >> s, phi[ui], phi[vi]);
        let t = (w >> s) + phi[ui] - phi[vi];
        let a = adjusted(w >> s, phi[ui], phi[vi]);
        assert(-n <= d[ui] <= 0 && -n <= d[vi] <= 0);
        if a < n {
            assert(aug[e] == (u, v, a));
            let p = choose|p: Seq<int>| #[trigger] is_walk(aug, p, n, ui) && walk_weight(aug, p) == d[ui];
            lemma_walk_push(aug, p, n, ui, e);
            assert(d[vi] <= walk_weight(aug, p.push(e)));
        }
    }
}

/// `2ᵃ ≤ 2ᵇ` when `a ≤ b`, and `2ᵃ ≥ 1`.
proof fn lemma_pow2k_mono(a: nat, b: nat)
    requires
        a <= b,
    ensures
        1 <= crate::arith::pow2k(a) <= crate::arith::pow2k(b),
    decreases b,
{
    if a < b {
        lemma_pow2k_mono(a, (b - 1) as nat);
    } else if a > 0 {
        lemma_pow2k_mono((a - 1) as nat, (a - 1) as nat);
    }
}

/// On at most `base_cutoff` nodes, weights in `[−1, n]` are small enough
/// for restricted SSSP to answer exactly.
proof fn lemma_phase_graph_small(n: int)
    requires
        0 <= n,
        n + 1 <= u32::MAX,
        n + 1 <= base_cutoff((n + 1) as nat),
    ensures
        (2 * n + 3) * n <= INF,
{
    lemma_bits_u32((n + 1) as u64);
    let b = bits((n + 1) as nat);
    assert(b >= 1);
    assert(b * b <= 1089) by (nonlinear_arith)
        requires
            0 <= b <= 33,
    ;
    assert(b * b * b <= 35937) by (nonlinear_arith)
        requires
            0 <= b <= 33,
            0 <= b * b <= 1089,
    ;
    assert(b * b * b * b <= 1185921) by (nonlinear_arith)
        requires
            0 <= b <= 33,
            0 <= b * b * b <= 35937,
    ;
    assert(b * b * b * b * b <= 39135393) by (nonlinear_arith)
        requires
            0 <= b <= 33,
            0 <= b * b * b * b <= 1185921,
    ;
    assert(b * b * b * b * b * b <= 1291467969) by (nonlinear_arith)
        requires
            0 <= b <= 33,
            0 <= b * b * b * b * b <= 39135393,
    ;
    assert(n <= 1291467968);
    assert((2 * n + 3) * n <= INF) by (nonlinear_arith)
        requires
            0 <= n <= 1291467968,
    ;
}

/// The BCF23 scaling phases: each phase doubles the potential, reveals one
/// more bit of every weight, and adds the distances of restricted SSSP on the
/// reweighted graph (clamped to `{-1, 0, …, n}`) from an extra node joined to
/// every node by a 0-weight edge. `None` when a reweighted edge falls below
/// -1.
///
/// On the inputs of [`scaling_case`] every phase succeeds and the result is
/// a feasible potential for the weights themselves.
#[verifier::loop_isolation(false)]
#[verifier::spinoff_prover]
fn scaling_potential(g: &Graph, phases: u32) -> (r: Option<Vec<i64>>)
    requires
        g.wf(),
        g.num_nodes() + 1 < u32::MAX,
        g.edge_list().len() + g.num_nodes() < u32::MAX,
        1 <= phases <= 64,
    ensures
        r matches Some(p) ==> p@.len() == g.num_nodes(),
        scaling_case(g.edge_list(), g.num_nodes() as int, phases) ==> (r matches Some(p) && feasible(
            g.edge_list(),
            p@,
        ) && pot_within(p@, POT_LIMIT as int)),
{
    proof {
        g.lemma_wf_edges();
    }
    let ghost es = g.edge_list();
    let n = g.node_count();
    let m = g.edge_count();
    let ghost good = scaling_case(es, n as int, phases);
    let ghost nn = n as int;
    proof {
        if good {
            lemma_phase_graph_small(nn);
        }
    }
    // Maintain a running potential φ : V → i64, initially 0.
    let mut phi: Vec<i64> = filled(n, 0i64);
    let mut phase: u32 = 0;
    while phase < phases
        invariant
            phase <= phases,
            phases <= 64,
            n == g.num_nodes(),
            m == g.edge_list().len(),
            n + 1 < u32::MAX,
            m + n < u32::MAX,
            g.wf(),
            phi@.len() == n,
            forall|i: int| 0 <= i < m ==> (#[trigger] g.edge_list()[i]).0 < n && g.edge_list()[i].1 < n,
            good ==> forall|v: int|
                0 <= v < n ==> -((nn + 1) * (crate::arith::pow2k(phase as nat) - 1)) <= #[trigger] phi@[v]
                    <= 0,
            good && phase >= 1 ==> forall|e: int|
                0 <= e < m ==> ((#[trigger] es[e]).2 >> ((phases - phase) as u32)) + phi@[es[e].0 as int]
                    - phi@[es[e].1 as int] >= 0,
        decreases phases - phase,
    {
        // Double φ and reveal the next bit of each weight.
        let shift: u32 = phases - 1 - phase;
        let mut g_scaled = Graph::with_capacity(n + 1, m + n);
        g_scaled.add_nodes(n + 1);
        let super_src = NodeId(n as u32);
        let ghost phi0 = phi@;
        proof {
            if good {
                lemma_pow2k_mono(phase as nat, phases as nat);
                lemma_pow2k_mono((phase + 1) as nat, phases as nat);
                assert((nn + 1) * crate::arith::pow2k((phase + 1) as nat) <= (nn + 1) * crate::arith::pow2k(
                    phases as nat,
                )) by (nonlinear_arith)
                    requires
                        crate::arith::pow2k((phase + 1) as nat) <= crate::arith::pow2k(phases as nat),
                        nn >= 0,
                ;
                assert(crate::arith::pow2k((phase + 1) as nat) == 2 * crate::arith::pow2k(phase as nat));
                if phase == 0 {
                    assert(crate::arith::pow2k(phase as nat) == 1);
                    assert((nn + 1) * (crate::arith::pow2k(phase as nat) - 1) == 0) by (nonlinear_arith)
                        requires
                            crate::arith::pow2k(phase as nat) == 1,
                    ;
                    assert forall|x: int| 0 <= x < n implies #[trigger] phi0[x] == 0 by {
                        assert(-((nn + 1) * (crate::arith::pow2k(phase as nat) - 1)) <= phi@[x] <= 0);
                    }
                }
            }
        }

        assert(good ==> forall|x: int| 0 <= x < n ==> -(POT_LIMIT as int) <= #[trigger] phi0[x] <= 0) by {
            if good {
                assert((nn + 1) * (crate::arith::pow2k(phase as nat) - 1) <= (nn + 1) * crate::arith::pow2k(
                    phase as nat,
                )) by (nonlinear_arith)
                    requires
                        nn >= 0,
                ;
                lemma_pow2k_mono(phase as nat, phases as nat);
                assert((nn + 1) * crate::arith::pow2k(phase as nat) <= (nn + 1) * crate::arith::pow2k(
                    phases as nat,
                )) by (nonlinear_arith)
                    requires
                        crate::arith::pow2k(phase as nat) <= crate::arith::pow2k(phases as nat),
                        nn >= 0,
                ;
                assert forall|x: int| 0 <= x < n implies -(POT_LIMIT as int) <= #[trigger] phi0[x] <= 0 by {
                    assert(-((nn + 1) * (crate::arith::pow2k(phase as nat) - 1)) <= phi@[x] <= 0);
                }
            }
        }
        // Double all current potentials.
        let mut v: usize = 0;
        while v < n
            invariant
                v <= n,
                phi@.len() == n,
                forall|x: int| v <= x < n ==> #[trigger] phi@[x] == phi0[x],
                good ==> forall|x: int| 0 <= x < v ==> #[trigger] phi@[x] == 2 * phi0[x],
            decreases n - v,
        {
            if phi[v] < INF {
                let dv = sat_double(phi[v]);
                phi.set(v, dv);
            }
            v = v + 1;
        }
        let ghost phi2 = phi@;
        proof {
            if good {
                assert forall|x: int| 0 <= x < n implies #[trigger] phi2[x] <= 0 && phi2[x] >= -(2 * ((nn + 1)
                    * (crate::arith::pow2k(phase as nat) - 1))) by {
                    assert(phi2[x] == 2 * phi0[x]);
                }
                assert forall|e: int| 0 <= e < m implies ((#[trigger] es[e]).2 >> shift) + phi2[es[e].0 as int]
                    - phi2[es[e].1 as int] >= -1 && (es[e].2 >> shift) + phi2[es[e].0 as int] >= i64::MIN by {
                    let u = es[e].0 as int;
                    let t = es[e].1 as int;
                    assert(phi2[u] == 2 * phi0[u] && phi2[t] == 2 * phi0[t]);
                    if phase >= 1 {
                        crate::arith::lemma_shift_halving(es[e].2, shift);
                        assert(((shift + 1) as u32) == ((phases - phase) as u32));
                    } else {
                        assert(crate::arith::pow2k(0) == 1);
                        assert(phi0[u] == 0 && phi0[t] == 0);
                    }
                }
            }
        }

        let mut e: usize = 0;
        while e < m
            invariant
                e <= m,
                n == g.num_nodes(),
                m == g.edge_list().len(),
                n + 1 < u32::MAX,
                m + n < u32::MAX,
                g.wf(),
                phi@ == phi2,
                shift < 64,
                g_scaled.wf(),
                g_scaled.num_nodes() == n + 1,
                g_scaled.edge_list().len() == e,
                g_scaled.edge_list() == phase_edges(es, phi2, shift, nn).take(e as int),
                forall|i: int| 0 <= i < m ==> (#[trigger] g.edge_list()[i]).0 < n && g.edge_list()[i].1 < n,
            decreases m - e,
        {
            let id = EdgeId(e as u32);
            let u = g.source(id);
            let t = g.target(id);
            let w_scaled = g.weight(id) >> shift;  // arithmetic right shift
            let w_adj = adjusted_weight(w_scaled, phi[u.0 as usize], phi[t.0 as usize]);
            proof {
                if good {
                    lemma_adjusted_exact(w_scaled, phi2[u.0 as int], phi2[t.0 as int]);
                    assert((es[e as int].2 >> shift) + phi2[u.0 as int] - phi2[t.0 as int] >= -1);
                }
            }
            // Values < -1 end the phases (the reweighting failed).
            if w_adj < -1 {
                return None;
            }
            let w_clamped = if w_adj < n as i64 {
                w_adj
            } else {
                n as i64
            };
            g_scaled.add_edge(u, t, w_clamped);
            proof {
                assert(g_scaled.edge_list() =~= phase_edges(es, phi2, shift, nn).take(e + 1));
            }
            e = e + 1;
        }
        let ghost pe = phase_edges(es, phi2, shift, nn);
        proof {
            assert(g_scaled.edge_list() =~= pe);
        }

        // Add super-source with 0-weight edges to all nodes (Definition 5.1).
        let mut v: usize = 0;
        while v < n
            invariant
                v <= n,
                n + 1 < u32::MAX,
                m + n < u32::MAX,
                g_scaled.wf(),
                g_scaled.num_nodes() == n + 1,
                g_scaled.edge_list().len() == m + v,
                g_scaled.edge_list() == pe + Seq::new(v as nat, |k: int| (n as u32, k as u32, 0i64)),
                super_src.0 == n,
            decreases n - v,
        {
            g_scaled.add_edge(super_src, NodeId(v as u32), 0);
            proof {
                assert(g_scaled.edge_list() =~= pe + Seq::new((v + 1) as nat, |k: int| (n as u32, k as u32, 0i64)));
            }
            v = v + 1;
        }
        let ghost aug = augmented(pe, n as nat);
        proof {
            assert(g_scaled.edge_list() =~= aug);
            if good {
                assert(edges_within(es, nn));
                assert forall|i: int| 0 <= i < aug.len() implies -1 <= (#[trigger] aug[i]).2 <= nn by {
                    if i < m {
                        let (a, b, w) = es[i];
                        lemma_adjusted_exact(w >> shift, phi2[a as int], phi2[b as int]);
                    }
                }
                assert(weights_within(aug, nn));
                lemma_max_abs_weight_le(aug, nn);
                assert((2 * nn + 3) * max_abs_weight(aug) <= (2 * nn + 3) * nn) by (nonlinear_arith)
                    requires
                        0 <= max_abs_weight(aug) <= nn,
                        nn >= 0,
                ;
                assert(few_neg_bounded(aug, nn + 1, nn + 1));
                if phase == 0 {
                    let sh = shifted(es, shift);
                    assert forall|i: int| 0 <= i < m implies #[trigger] pe[i] == sh[i] by {
                        let (a, b, w) = es[i];
                        assert(crate::arith::pow2k(0) == 1);
                        assert(phi0[a as int] == 0 && phi0[b as int] == 0);
                        lemma_adjusted_exact(w >> shift, phi2[a as int], phi2[b as int]);
                    }
                    assert(pe =~= sh);
                    assert(edges_within(sh, nn));
                    lemma_augmented_negative_cycle(sh, n as nat);
                } else {
                    assert forall|i: int| 0 <= i < aug.len() implies (#[trigger] aug[i]).2 >= 0 by {
                        if i < m {
                            let (a, b, w) = es[i];
                            lemma_adjusted_exact(w >> shift, phi2[a as int], phi2[b as int]);
                            crate::arith::lemma_shift_halving(w, shift);
                            assert(((shift + 1) as u32) == ((phases - phase) as u32));
                        }
                    }
                    assert(non_negative(aug));
                    lemma_nonneg_no_negative_cycle(aug);
                    lemma_no_cycle_not_reached(aug, nn);
                }
            }
        }

        // Solve restricted SSSP from super-source.
        let dist_phase = restricted_sssp(&g_scaled, super_src);
        let ghost dd = dist_phase@;
        proof {
            if good {
                lemma_phase_potential(es, nn, shift, phi2, dd);
            }
        }

        // Update potential: φ_new(v) = φ(v) + dist(super_src, v).
        let mut v: usize = 0;
        while v < n
            invariant
                v <= n,
                phi@.len() == n,
                dist_phase@.len() == n + 1,
                forall|x: int| v <= x < n ==> #[trigger] phi@[x] == phi2[x],
                good ==> forall|x: int| 0 <= x < v ==> #[trigger] phi@[x] == phi2[x] + dd[x],
            decreases n - v,
        {
            let d = dist_phase[v];
            let nv = if phi[v] < INF && d < INF {
                sat_add(phi[v], d)
            } else {
                INF
            };
            phi.set(v, nv);
            v = v + 1;
        }
        proof {
            if good {
                let b = (nn + 1) * (crate::arith::pow2k(phase as nat) - 1);
                assert forall|x: int| 0 <= x < n implies -((nn + 1) * (crate::arith::pow2k((phase + 1) as nat)
                    - 1)) <= #[trigger] phi@[x] <= 0 by {
                    assert(phi@[x] == phi2[x] + dd[x]);
                    assert((nn + 1) * (crate::arith::pow2k((phase + 1) as nat) - 1) == 2 * b + nn + 1)
                        by (nonlinear_arith)
                        requires
                            b == (nn + 1) * (crate::arith::pow2k(phase as nat) - 1),
                            crate::arith::pow2k((phase + 1) as nat) == 2 * crate::arith::pow2k(phase as nat),
                    ;
                }
                assert forall|e: int| 0 <= e < m implies ((#[trigger] es[e]).2 >> ((phases - (phase + 1)) as u32))
                    + phi@[es[e].0 as int] - phi@[es[e].1 as int] >= 0 by {
                    assert(((phases - (phase + 1)) as u32) == shift);
                    assert(phi@[es[e].0 as int] == phi2[es[e].0 as int] + dd[es[e].0 as int]);
                    assert(phi@[es[e].1 as int] == phi2[es[e].1 as int] + dd[es[e].1 as int]);
                }
            }
        }
        phase = phase + 1;
    }
    proof {
        if good {
            assert forall|e: int| 0 <= e < m implies (#[trigger] es[e]).2 + phi@[es[e].0 as int]
                - phi@[es[e].1 as int] >= 0 by {
                crate::arith::lemma_shift_halving(es[e].2, 0);
                assert(((phases - phase) as u32) == 0u32);
            }
            assert(feasible(es, phi@));
            assert forall|v: int| 0 <= v < phi@.len() implies -(POT_LIMIT as int) <= #[trigger] phi@[v]
                <= POT_LIMIT by {
                assert((nn + 1) * (crate::arith::pow2k(phases as nat) - 1) <= (nn + 1) * crate::arith::pow2k(
                    phases as nat,
                )) by (nonlinear_arith)
                    requires
                        nn >= 0,
                ;
            }
        }
    }
    Some(phi)
}

/// General single-source shortest paths with negative weights (Theorem 1.1).
///
/// Accepts any directed graph with integer weights in `[−W, W]`. Applies the
/// BCF23 weight-scaling reduction (Lemma 5.2) to reduce to `restricted_sssp`
/// and obtain a potential; when that potential is not feasible (some
/// reweighted edge stays negative), a potential from Bellman-Ford on the
/// graph with an extra node takes its place. A final Dijkstra on the
/// reweighted graph gives the distances.
///
/// Returns `Some(dist)` where `dist[v.0]` = distance from `source` to `v`,
/// or `None` if the graph contains a negative-weight cycle; both whenever the
/// weights are small enough that no sum leaves the range of `i64`
/// ([`sssp_bounded`]). Without a negative cycle the distances also come
/// back whenever the absolute weights sum below `INF − 2·POT_LIMIT`. No weight may be `i64::MIN` (its absolute value
/// overflows), and the graph with one extra node must fit `u32` ids.
pub fn sssp(g: &Graph, source: NodeId) -> (res: Option<Vec<i64>>)
    requires
        g.wf(),
        g.num_nodes() == 0 || source.0 < g.num_nodes(),
        g.num_nodes() + 1 < u32::MAX,
        g.edge_list().len() + g.num_nodes() < u32::MAX,
        forall|e: int| 0 <= e < g.edge_list().len() ==> (#[trigger] g.edge_list()[e]).2 > i64::MIN,
    ensures
        res matches Some(d) ==> d@.len() == g.num_nodes(),
        res matches Some(d) ==> estimates_backed(g.edge_list(), source.0 as int, d@),
        res matches Some(d) ==> (g.num_nodes() > 0 ==> d@[source.0 as int] <= 0),
        sssp_bounded(g.edge_list(), g.num_nodes() as int) ==> (res is None <==> has_negative_cycle(
            g.edge_list(),
        )),
        sssp_bounded(g.edge_list(), g.num_nodes() as int) ==> (res matches Some(d) ==> forall|v: int|
            0 <= v < g.num_nodes() ==> is_shortest(
                g.edge_list(),
                source.0 as int,
                v,
                #[trigger] d@[v] as int,
            )),
        abs_sum(g.edge_list()) + 2 * POT_LIMIT < INF && !has_negative_cycle(g.edge_list()) ==> (
        res matches Some(d) && forall|v: int|
            0 <= v < g.num_nodes() ==> is_shortest(
                g.edge_list(),
                source.0 as int,
                v,
                #[trigger] d@[v] as int,
            )),
{
    let ghost es = g.edge_list();
    proof {
        g.lemma_wf_edges();
    }
    let n = g.node_count();
    if n == 0 {
        proof {
            assert(es.len() == 0) by {
                if es.len() > 0 {
                    assert(es[0].0 < n);
                }
            }
            assert(non_negative(es));
            lemma_nonneg_no_negative_cycle(es);
        }
        return Some(Vec::new());
    }

    // ── BCF23 reduction: scale weights to {-1, 0, 1, …, n} ──────────────────
    // Find W = max |w(e)|.
    let w_max = max_abs_weight_of(g);
    if w_max == 0 {
        // All weights are 0: trivially run Dijkstra.
        proof {
            lemma_max_abs_weight(es);
            assert(non_negative(es));
            lemma_nonneg_no_negative_cycle(es);
        }
        let d = dijkstra(g, source);
        proof {
            let s = source.0 as int;
            assert forall|v: int| 0 <= v < d@.len() && #[trigger] d@[v] < INF implies walk_bounded(es, s, v, d@[v] as int) by {
                assert(is_shortest(es, s, v, d@[v] as int));
                let p = choose|p: Seq<int>| #[trigger] is_walk(es, p, s, v) && walk_weight(es, p) == d@[v];
                assert(is_walk(es, p, s, v) && walk_weight(es, p) <= d@[v]);
            }
            assert(is_shortest(es, s, s, d@[s] as int));
            assert(is_walk(es, Seq::<int>::empty(), s, s));
        }
        return Some(d);
    }

    // Determine the number of scaling phases (log₂ W + 1 phases).
    let phases = bit_length(w_max as u64) + 1;
    proof {
        assert(bits(w_max as nat) >= 1);
        assert(phases <= 64) by {
            crate::arith::lemma_bits_i64(w_max as u64);
        }
    }
    let phi = match scaling_potential(g, phases) {
        Some(p) => {
            if potential_ok(g, &p) {
                p
            } else {
                match johnson_potential(g) {
                    None => {
                        return None;
                    },
                    Some(q) => q,
                }
            }
        },
        None => match johnson_potential(g) {
            None => {
                return None;
            },
            Some(q) => q,
        },
    };
    // A potential from Bellman-Ford is feasible whenever the weights are
    // small enough; otherwise Bellman-Ford from the source answers.
    if !potential_ok(g, &phi) {
        proof {
            if !has_negative_cycle(es) {
                lemma_no_cycle_not_reached(es, source.0 as int);
            }
        }
        return bellman_ford(g, source);
    }
    proof {
        lemma_feasible_no_negative_cycle(es, phi@);
    }

    // Final pass: Dijkstra on the reweighted graph (all weights ≥ 0), then
    // dist(s, v) = dist_adj(s, v) + φ(v) − φ(s).
    Some(distances_from_potential(g, source, &phi))
}

} // verus!
