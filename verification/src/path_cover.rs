//! PathCover(A) — the deterministic d-path cover algorithm (§4.2).
//!
//! Given a directed graph G with non-negative weights, a diameter parameter
//! d and a slack λ, build a projection G′ of G that covers the paths of
//! weight at most d and whose strongly connected pieces stay small.
//!
//! # High-level description
//!
//! The algorithm is divide-and-conquer on the active node set A ⊆ V(G).
//!
//! **Base case** — |A| ≤ 1: return the identity subgraph G[A].
//!
//! **Recursive step**: pick the first node u ∈ A. Run forward and backward
//! Dijkstra (in G[A]) to grow "balls" of increasing radius i·d, stopping at
//! the first "thin layer" where the ball does not grow by more than a factor
//! (1 + ε′), with ε′ = 9·ln n / λ.
//!
//! - **Case 1** — deg(B_out) < (1 − ε)·deg(A), with ε = 1/√λ: recursively
//!   build path covers for *B_out* = Ball_out(u, i_out·d) and its complement
//!   *B̄_out* = A \ Ball_out(u, (i_out−1)·d) separately, then combine via
//!   `Layer((H̄_out, H_out))`.
//!
//! - **Case 2** — otherwise: also grow backward to obtain *B_in*, let
//!   M = B_out ∩ B_in, build the "middle" subgraph H_mid = G[T̃_out ∪ T̃_in]
//!   from the parts of the forward/backward shortest-path trees that reach
//!   M, then combine via `Layer((H̃_out, H_mid, H̄_in))`.
//!
//! Both tests are made in exact integer arithmetic: the thin-layer test
//! `deg_i ≤ (1 + 9·L/λ)·deg_{i−1}` with `L = ⌊ln n⌋` (at least 1), and the
//! case test `(deg(A) − deg(B_out))²·λ > deg(A)²`, which is
//! `deg(B_out) < (1 − 1/√λ)·deg(A)` squared.
use vstd::prelude::*;

use crate::arith::{floor_ln, sat_add, sat_mul_nonneg};
use crate::graph::{EdgeId, Graph, NodeId, incident, lemma_incident_members};
use crate::paths::{
    all_relaxed, edges_within, is_shortest, is_walk, lemma_relaxed_lower_bound_nonneg, lemma_walk_push,
    non_negative, relaxed_out, walk_weight,
};
use crate::projection::{
    Projection, cross_edge_count, edge_total, first_rep_layer, layer_cross, layered_rep, lifts_edge,
    node_offset, lemma_first_rep_layer,
};
use crate::scc::filled;
use crate::sssp::{INF, lemma_sum_nonneg, lemma_sum_update, sum_seq};
use crate::queue::MinQueue;

verus! {

/// Number of `true` entries.
pub open spec fn count_true(b: Seq<bool>) -> nat
    decreases b.len(),
{
    if b.len() == 0 {
        0
    } else {
        count_true(b.drop_last()) + if b.last() {
            1nat
        } else {
            0nat
        }
    }
}

/// A subset that misses a member of the larger set counts fewer members.
proof fn lemma_count_true_sub(a: Seq<bool>, b: Seq<bool>, u: int)
    requires
        a.len() == b.len(),
        forall|i: int| 0 <= i < b.len() && #[trigger] b[i] ==> a[i],
        0 <= u < a.len(),
        a[u],
        !b[u],
    ensures
        count_true(b) < count_true(a),
    decreases a.len(),
{
    lemma_count_true_le(a.drop_last(), b.drop_last());
    if u < a.len() - 1 {
        lemma_count_true_sub(a.drop_last(), b.drop_last(), u);
    }
}

proof fn lemma_count_true_le(a: Seq<bool>, b: Seq<bool>)
    requires
        a.len() == b.len(),
        forall|i: int| 0 <= i < b.len() && #[trigger] b[i] ==> a[i],
    ensures
        count_true(b) <= count_true(a),
    decreases a.len(),
{
    if a.len() > 0 {
        lemma_count_true_le(a.drop_last(), b.drop_last());
    }
}

/// At most one member: no two distinct positions hold `true`.
proof fn lemma_count_true_one(a: Seq<bool>, x: int, y: int)
    requires
        0 <= x < y < a.len(),
        a[x],
        a[y],
    ensures
        count_true(a) >= 2,
    decreases a.len(),
{
    if y < a.len() - 1 {
        lemma_count_true_one(a.drop_last(), x, y);
    } else {
        lemma_count_true_pos(a.drop_last(), x);
    }
}

proof fn lemma_count_true_pos(a: Seq<bool>, x: int)
    requires
        0 <= x < a.len(),
        a[x],
    ensures
        count_true(a) >= 1,
    decreases a.len(),
{
    if x < a.len() - 1 {
        lemma_count_true_pos(a.drop_last(), x);
    }
}

/// Sorts the pairs by their first component, ties in any order (std's
/// `sort_unstable_by_key`). The result is a reordering of the input.
#[verifier::external_body]
fn sort_by_distance(v: &mut Vec<(i64, u32)>)
    ensures
        final(v)@.len() == old(v)@.len(),
        final(v)@.to_multiset() == old(v)@.to_multiset(),
        forall|x: (i64, u32)| #[trigger] final(v)@.contains(x) <==> old(v)@.contains(x),
        forall|i: int, j: int| 0 <= i <= j < final(v)@.len() ==> final(v)@[i].0 <= final(v)@[j].0,
{
    v.sort_unstable_by_key(|&(dist, _)| dist);
}

// ── Public entry point ────────────────────────────────────────────────────────

/// What [`path_cover`] promises of its result `p` for a graph with `n`
/// nodes and edges `es` (weights at least 0) and the bound `d`: `p` projects
/// onto the graph, every node has a representative, a graph of at most one
/// node is its own cover, and every edge of weight at most `d` has a lift.
pub open spec fn is_path_cover(n: nat, es: Seq<(u32, u32, i64)>, d: int, p: Projection) -> bool {
    &&& p.projects_onto(n, es)
    &&& forall|v: int| 0 <= v < n ==> (#[trigger] p.reps()[v]) is Some
    &&& n <= 1 ==> p.graph.num_nodes() == n
    &&& forall|f: int| 0 <= f < es.len() && (#[trigger] es[f]).2 <= d ==> lifts_edge(p, es[f].0 as int, es[f].1 as int, es[f].2)
}

/// Build a d-path cover of `g` (Theorem 4.5).
///
/// All edge weights in `g` **must be ≥ 0**.
///
/// `d` — diameter parameter: the cover is built for the paths of weight at
/// most `d`.
/// `lambda` — slack parameter; should be ≥ 10000·log⁴ n for theoretical
/// guarantees (smaller values still produce a valid cover, just potentially
/// less clustered).
///
/// Returns a projection G′ of `g` (a weight-preserving homomorphism onto
/// `g`) in which every node of `g` has a representative and every edge of
/// weight at most `d` has a lift. Where a layered projection would not fit
/// `u32` ids, the identity projection of the part in question stands in for
/// it. Lifts of paths of several edges are not promised: the layers can
/// leave such a path of weight at most `d` without one.
pub fn path_cover(g: &Graph, d: i64, lambda: usize) -> (p: Projection)
    requires
        g.wf(),
        g.num_nodes() < u32::MAX,
        non_negative(g.edge_list()),
    ensures
        is_path_cover(g.num_nodes(), g.edge_list(), d as int, p),
        p.projects_onto(g.num_nodes(), g.edge_list()),
        forall|v: int| 0 <= v < g.num_nodes() ==> (#[trigger] p.reps()[v]) is Some,
        g.num_nodes() <= 1 ==> p.graph.num_nodes() == g.num_nodes(),
        forall|f: int|
            0 <= f < g.edge_list().len() && (#[trigger] g.edge_list()[f]).2 <= d ==> lifts_edge(
                p,
                g.edge_list()[f].0 as int,
                g.edge_list()[f].1 as int,
                g.edge_list()[f].2,
            ),
{
    proof {
        g.lemma_wf_edges();
    }
    let n = g.node_count();
    if n == 0 {
        let none: Vec<bool> = Vec::new();
        proof {
            assert(g.edge_list().len() == 0) by {
                if g.edge_list().len() > 0 {
                    assert(g.edge_list()[0].0 < n);
                }
            }
        }
        return identity_of_marked(g, &none);
    }
    // Precompute out-degrees in G (denominates the thin-layer check).
    let mut deg_g: Vec<usize> = Vec::with_capacity(n);
    let mut v: usize = 0;
    while v < n
        invariant
            v <= n,
            n == g.num_nodes(),
            n < u32::MAX,
            g.wf(),
            deg_g@.len() == v,
            forall|x: int| 0 <= x < v ==> #[trigger] deg_g@[x] <= u32::MAX,
        decreases n - v,
    {
        deg_g.push(out_degree(g, NodeId(v as u32)));
        v = v + 1;
    }
    let active: Vec<bool> = filled(n, true);
    let d_eff: i64 = if d < 1 {
        1
    } else {
        d
    };
    let p = path_cover_rec(g, &active, &deg_g, d_eff, lambda);
    proof {
        if n == 1 {
            assert(active@.drop_last().len() == 0);
            assert(count_true(active@.drop_last()) == 0);
            assert(count_true(active@) == 1);
        }
        let es = g.edge_list();
        assert forall|f: int| 0 <= f < es.len() && (#[trigger] es[f]).2 <= d implies lifts_edge(
            p,
            es[f].0 as int,
            es[f].1 as int,
            es[f].2,
        ) by {
            assert(active@[es[f].0 as int] && active@[es[f].1 as int]);
        }
    }
    p
}

/// Number of outgoing edges of `v`.
fn out_degree(g: &Graph, v: NodeId) -> (c: usize)
    requires
        g.wf(),
        v.0 < g.num_nodes(),
    ensures
        c == incident(g.edge_list(), v.0 as int, true).len(),
        c <= u32::MAX,
{
    proof {
        g.lemma_wf_edges();
        lemma_incident_members(g.edge_list(), v.0 as int, g.edge_list().len() as int, true);
    }
    let mut it = g.out_edges(v);
    let ghost total = it.remaining().len();
    let mut c: usize = 0;
    loop
        invariant
            c + it.remaining().len() == total,
            total <= u32::MAX,
            total == incident(g.edge_list(), v.0 as int, true).len(),
        ensures
            c == total,
        decreases it.remaining().len(),
    {
        match it.next() {
            None => {
                break;
            },
            Some(_) => {
                c = c + 1;
            },
        }
    }
    c
}

// ── Core recursive procedure ──────────────────────────────────────────────────

/// The cover of `G[active]`: a projection of `g` in which exactly the
/// active nodes are present.
fn path_cover_rec(g: &Graph, active: &Vec<bool>, deg_g: &Vec<usize>, d: i64, lambda: usize) -> (p:
    Projection)
    requires
        g.wf(),
        g.num_nodes() < u32::MAX,
        non_negative(g.edge_list()),
        active@.len() == g.num_nodes(),
        deg_g@.len() == g.num_nodes(),
        forall|v: int| 0 <= v < deg_g@.len() ==> #[trigger] deg_g@[v] <= u32::MAX,
        d >= 1,
    ensures
        p.projects_onto(g.num_nodes(), g.edge_list()),
        forall|v: int| 0 <= v < g.num_nodes() ==> ((#[trigger] p.reps()[v]) is Some <==> active@[v]),
        covers_short_edges(p, g.edge_list(), active@, d as int),
        count_true(active@) <= 1 ==> p.graph.num_nodes() == count_true(active@),
    decreases count_true(active@),
{
    proof {
        g.lemma_wf_edges();
    }
    let n = g.node_count();
    let active_nodes = marked_nodes(active);

    // ── Base case ─────────────────────────────────────────────────────────────
    if active_nodes.len() <= 1 {
        return identity_of_marked(g, active);
    }

    // ── Parameters (§4.2) ────────────────────────────────────────────────────
    // ε′ = 9 ln n / λ (with ⌊ln n⌋, at least 1), ε = 1 / √λ
    let ln_raw = floor_ln(if n < 2 {
        2
    } else {
        n as u64
    });
    let ln_n: u64 = if ln_raw < 1 {
        1
    } else {
        ln_raw as u64
    };
    let lam: u64 = if lambda < 1 {
        1
    } else {
        lambda as u64
    };

    // deg_G(A) = sum of out-degrees in G of all active nodes.
    let mut deg_a: u64 = 0;
    let mut k: usize = 0;
    proof {
        lemma_count_true_le_len(active@);
    }
    while k < active_nodes.len()
        invariant
            k <= active_nodes@.len(),
            active_nodes@.len() <= n,
            n < u32::MAX,
            deg_g@.len() == n,
            forall|i: int| 0 <= i < active_nodes@.len() ==> (#[trigger] active_nodes@[i]) < n,
            forall|v: int| 0 <= v < deg_g@.len() ==> #[trigger] deg_g@[v] <= u32::MAX,
            deg_a <= k * (u32::MAX as int),
        decreases active_nodes@.len() - k,
    {
        proof {
            assert((k + 1) * (u32::MAX as int) == k * (u32::MAX as int) + u32::MAX) by (nonlinear_arith);
            assert((k + 1) * (u32::MAX as int) <= 0x1_0000_0000 * (u32::MAX as int)) by (nonlinear_arith)
                requires
                    k < 0x1_0000_0000,
            ;
        }
        deg_a = deg_a + deg_g[active_nodes[k] as usize] as u64;
        k = k + 1;
    }

    // Pick an arbitrary starting node u (first in the list).
    let u_raw = active_nodes[0];
    let u = NodeId(u_raw);
    proof {
        assert(active@[u_raw as int]);
    }

    // ── Forward Dijkstra: dist_out[v] = d_{G[A]}(u, v) ───────────────────────
    let dist_out = dijkstra_subgraph(g, u, active, false);

    // Find i_out: smallest i ≥ 1 with a "thin" forward layer.
    let (i_out, deg_b_out) = find_thin_layer(&active_nodes, &dist_out, deg_g, d, lam, ln_n);

    // B_out  = Ball_out(u, i_out·d) in G[A]
    // B̄_out = A \ Ball_out(u, (i_out−1)·d)
    let radius_out = sat_mul_nonneg(i_out as i64, d);
    let b_out = select_by_radius(active, &dist_out, radius_out, true);
    let radius_prev = sat_mul_nonneg(i_out as i64 - 1, d);  // (i_out−1)·d
    let b_bar_out = select_by_radius(active, &dist_out, radius_prev, false);
    proof {
        assert((i_out - 1) * d <= i_out * d) by (nonlinear_arith)
            requires
                d >= 1,
        ;
        assert(radius_prev <= radius_out);
        assert(!b_bar_out@[u_raw as int]);
        lemma_count_true_sub(active@, b_bar_out@, u_raw as int);
        assert(radius_prev == radius(i_out - 1, d as int));
        assert(radius_out == radius(i_out as int, d as int));
        lemma_radius_step(i_out as int, d as int);
    }

    // ── Case 1 ───────────────────────────────────────────────────────────────
    // deg_G(B_out) < (1 − ε)·deg_G(A) → B_out is strictly lighter than A.
    // (The split then leaves out some active node; the count confirms it.)
    if splits_enough(deg_a, deg_b_out, lam) && count_marked(&b_out) < active_nodes.len() {
        let h_out = path_cover_rec(g, &b_out, deg_g, d, lambda);
        let h_bar_out = path_cover_rec(g, &b_bar_out, deg_g, d, lambda);
        // Layer order per Definition 4.7: H̄_out first (lower index), H_out second.
        let mut pieces: Vec<Projection> = Vec::new();
        pieces.push(h_bar_out);
        pieces.push(h_out);
        proof {
            let pcs = pieces@;
            assert forall|v: int| 0 <= v < n implies (#[trigger] active@[v] <==> exists|i: int|
                0 <= i < pcs.len() && (#[trigger] pcs[i].reps()[v]) is Some) by {
                if active@[v] {
                    if b_bar_out@[v] {
                        assert(pcs[0].reps()[v] is Some);
                    } else {
                        assert(pcs[1].reps()[v] is Some);
                    }
                }
            }
            lemma_case1_cover(
                g.edge_list(),
                n as int,
                active@,
                u_raw as int,
                dist_out@,
                radius_prev as int,
                radius_out as int,
                d as int,
                b_out@,
                b_bar_out@,
                pcs,
            );
        }
        return layer_or_identity(pieces, g, active, d);
    }

    // ── Case 2 ───────────────────────────────────────────────────────────────
    // Also grow backward until a thin layer is found.
    let dist_in = dijkstra_subgraph(g, u, active, true /* backward */);
    let (i_in, _deg_b_in) = find_thin_layer(&active_nodes, &dist_in, deg_g, d, lam, ln_n);

    // B_in  = Ball_in(u, i_in·d)
    // B̄_in = A \ Ball_in(u, (i_in−1)·d)
    let radius_in = sat_mul_nonneg(i_in as i64, d);
    let b_in = select_by_radius(active, &dist_in, radius_in, true);
    let radius_in_prev = sat_mul_nonneg(i_in as i64 - 1, d);
    let b_bar_in = select_by_radius(active, &dist_in, radius_in_prev, false);
    proof {
        assert((i_in - 1) * d <= i_in * d) by (nonlinear_arith)
            requires
                d >= 1,
        ;
        assert(radius_in_prev <= radius_in);
        assert(!b_bar_in@[u_raw as int]);
        lemma_count_true_sub(active@, b_bar_in@, u_raw as int);
        assert(radius_in_prev == radius(i_in - 1, d as int));
        assert(radius_in == radius(i_in as int, d as int));
        lemma_radius_step(i_in as int, d as int);
    }

    // M = B_out ∩ B_in
    let m = combine(&b_out, &b_in, true);

    // Build SPTs with parent pointers, then compute T̃_out and T̃_in.
    // T_out: forward SPT from u in G[B_out].
    let (_, parent_out) = dijkstra_with_parents(g, u, &b_out, false);
    // T̃_out = ancestors of M in T_out (nodes v s.t. ∃ m∈M, v is on u→m path in T_out).
    let t_tilde_out = ancestors_in_tree(&parent_out, &m, u_raw, n);

    // T_in: backward SPT from u in G[B_in] (encodes shortest paths to u in G[B_in]).
    let (_, parent_in) = dijkstra_with_parents(g, u, &b_in, true);
    // T̃_in = ancestors of M in T_in (nodes v s.t. ∃ m∈M, v is on m→u path in T_in).
    let t_tilde_in = ancestors_in_tree(&parent_in, &m, u_raw, n);

    // H_mid = G[V(T̃_out) ∪ V(T̃_in)]: identity projection on that induced subgraph.
    let mid = combine(&t_tilde_out, &t_tilde_in, false);
    proof {
        assert forall|v: int| 0 <= v < n && #[trigger] mid@[v] implies active@[v] by {
            if t_tilde_out@[v] && !m@[v] {
                let c = choose|c: int| 0 <= c < n && #[trigger] t_tilde_out@[c] && parent_out@[c] == Some(v as u32);
                assert(b_out@[v]);
            } else if t_tilde_in@[v] && !m@[v] {
                let c = choose|c: int| 0 <= c < n && #[trigger] t_tilde_in@[c] && parent_in@[c] == Some(v as u32);
                assert(b_in@[v]);
            }
        }
    }
    let h_mid = identity_of_marked(g, &mid);

    // H̄_in = PathCover(B̄_in)
    let h_bar_in = path_cover_rec(g, &b_bar_in, deg_g, d, lambda);

    // H̃_out = PathCover(B̄_out ∩ B_in)
    let h_tilde_out_active = combine(&b_bar_out, &b_in, true);
    proof {
        lemma_count_true_sub(active@, h_tilde_out_active@, u_raw as int);
    }
    let h_tilde_out = path_cover_rec(g, &h_tilde_out_active, deg_g, d, lambda);

    // Layer((H̃_out, H_mid, H̄_in)) per Definition 4.7.
    let mut pieces: Vec<Projection> = Vec::new();
    pieces.push(h_tilde_out);
    pieces.push(h_mid);
    pieces.push(h_bar_in);
    proof {
        let pcs = pieces@;
        assert forall|v: int| 0 <= v < n implies (#[trigger] active@[v] <==> exists|i: int|
            0 <= i < pcs.len() && (#[trigger] pcs[i].reps()[v]) is Some) by {
            if active@[v] {
                if b_bar_in@[v] {
                    assert(pcs[2].reps()[v] is Some);
                } else if b_bar_out@[v] {
                    assert(b_in@[v]);
                    assert(pcs[0].reps()[v] is Some);
                } else {
                    assert(m@[v]);
                    assert(t_tilde_out@[v]);
                    assert(pcs[1].reps()[v] is Some);
                }
            } else {
                if exists|i: int| 0 <= i < pcs.len() && (#[trigger] pcs[i].reps()[v]) is Some {
                    let i = choose|i: int| 0 <= i < pcs.len() && (#[trigger] pcs[i].reps()[v]) is Some;
                    if i == 1 {
                        assert(mid@[v]);
                    }
                    assert(false);
                }
            }
        }
        assert forall|v: int| 0 <= v < n && active@[v] && dist_out@[v] <= radius_out && dist_in@[v] <= radius_in
            implies #[trigger] mid@[v] by {
            assert(m@[v]);
        }
        lemma_case2_cover(
            g.edge_list(),
            n as int,
            active@,
            u_raw as int,
            dist_out@,
            dist_in@,
            radius_prev as int,
            radius_out as int,
            radius_in_prev as int,
            radius_in as int,
            d as int,
            h_tilde_out_active@,
            mid@,
            b_bar_in@,
            pcs,
        );
    }
    layer_or_identity(pieces, g, active, d)
}

// ── Helper: Dijkstra within G[active] ────────────────────────────────────────

/// Edge `e` of `es` from `p` to `v` is no longer than the gap between their
/// entries: some such edge leads from `p` to `v` with `dist[p] + w ≤ dist[v]`.
spec fn parent_edge(es: Seq<(u32, u32, i64)>, dist: Seq<i64>, p: int, v: int) -> bool {
    &&& p != v
    &&& exists|e: int| 0 <= e < es.len() && (#[trigger] es[e]).0 == p && es[e].1 == v && dist[p] + es[e].2 <= dist[v]
}

/// `p` and `v` are distinct active nodes joined by an edge of `es` (from `p`
/// to `v`, or from `v` to `p` when `backward`) that is tight:
/// `dist[v] = dist[p] + w`.
pub open spec fn tree_edge(
    es: Seq<(u32, u32, i64)>,
    active: Seq<bool>,
    backward: bool,
    dist: Seq<i64>,
    p: int,
    v: int,
) -> bool {
    &&& p != v
    &&& active[p]
    &&& active[v]
    &&& exists|e: int|
        0 <= e < es.len() && (if backward {
            (#[trigger] es[e]).1 == p && es[e].0 == v
        } else {
            es[e].0 == p && es[e].1 == v
        }) && dist[v] == dist[p] + es[e].2
}

/// Run Dijkstra from `source` within the subgraph G[active].
///
/// If `backward` is true, follows in-edges (computing distances TO `source`
/// in the original graph, i.e., shortest-path distances in the reverse graph).
///
/// Returns `dist[v]` = shortest distance (INF if unreachable).
fn dijkstra_subgraph(g: &Graph, source: NodeId, active: &Vec<bool>, backward: bool) -> (dist: Vec<i64>)
    requires
        g.wf(),
        source.0 < g.num_nodes(),
        active@.len() == g.num_nodes(),
        non_negative(g.edge_list()),
    ensures
        dist@.len() == g.num_nodes(),
        forall|v: int| 0 <= v < g.num_nodes() ==> 0 <= #[trigger] dist@[v] <= INF,
        forall|v: int| 0 <= v < g.num_nodes() && !active@[v] ==> #[trigger] dist@[v] == INF,
        active@[source.0 as int] ==> dist@[source.0 as int] == 0,
        !active@[source.0 as int] ==> forall|v: int| 0 <= v < g.num_nodes() ==> #[trigger] dist@[v] == INF,
        active@[source.0 as int] ==> forall|v: int|
            0 <= v < g.num_nodes() ==> is_shortest(
                masked_edges(g.edge_list(), active@, backward),
                source.0 as int,
                v,
                #[trigger] dist@[v] as int,
            ),
{
    dijkstra_with_parents(g, source, active, backward).0
}

/// The edges of G[active], directed backward when `backward` holds: each
/// edge whose two ends are active (read in the direction of travel), and in
/// place of every other edge a weight-0 loop at the node it leaves from, so
/// that edge indices are kept.
pub open spec fn masked_edges(es: Seq<(u32, u32, i64)>, active: Seq<bool>, backward: bool) -> Seq<
    (u32, u32, i64),
> {
    Seq::new(
        es.len(),
        |f: int|
            {
                let a = if backward {
                    es[f].1
                } else {
                    es[f].0
                };
                let b = if backward {
                    es[f].0
                } else {
                    es[f].1
                };
                if active[a as int] && active[b as int] {
                    (a, b, es[f].2)
                } else {
                    (a, a, 0i64)
                }
            },
    )
}

/// Same as [`dijkstra_subgraph`] but also returns parent pointers.
///
/// `parent[v]` = node u such that the SPT edge is u→v (forward) or v→u (backward).
/// In both cases walking from v via parent pointers reaches the root `source`.
/// Every parent is a node of the subgraph joined to its child by a tight
/// edge (`dist[child] = dist[parent] + w`); every reached node but `source`
/// has one, and `source` has none. The distances are the shortest distances
/// in G[active] (read backward when `backward` holds) when `source` is
/// active, and all `INF` otherwise.
#[verifier::loop_isolation(false)]
fn dijkstra_with_parents(g: &Graph, source: NodeId, active: &Vec<bool>, backward: bool) -> (r: (
    Vec<i64>,
    Vec<Option<u32>>,
))
    requires
        g.wf(),
        source.0 < g.num_nodes(),
        active@.len() == g.num_nodes(),
        non_negative(g.edge_list()),
    ensures
        r.0@.len() == g.num_nodes(),
        r.1@.len() == g.num_nodes(),
        forall|v: int| 0 <= v < g.num_nodes() ==> 0 <= #[trigger] r.0@[v] <= INF,
        forall|v: int| 0 <= v < g.num_nodes() && !active@[v] ==> #[trigger] r.0@[v] == INF,
        active@[source.0 as int] ==> r.0@[source.0 as int] == 0,
        !active@[source.0 as int] ==> forall|v: int| 0 <= v < g.num_nodes() ==> #[trigger] r.0@[v] == INF,
        active@[source.0 as int] ==> forall|v: int|
            0 <= v < g.num_nodes() ==> is_shortest(
                masked_edges(g.edge_list(), active@, backward),
                source.0 as int,
                v,
                #[trigger] r.0@[v] as int,
            ),
        forall|v: int|
            0 <= v < g.num_nodes() ==> match #[trigger] r.1@[v] {
                Some(p) => p < g.num_nodes() && r.0@[v] < INF && tree_edge(
                    g.edge_list(),
                    active@,
                    backward,
                    r.0@,
                    p as int,
                    v,
                ),
                None => v == source.0 || r.0@[v] == INF,
            },
        r.1@[source.0 as int] is None,
{
    let ghost es = g.edge_list();
    let ghost es2 = masked_edges(es, active@, backward);
    proof {
        g.lemma_wf_edges();
    }
    let n = g.node_count();
    let ghost m = es.len() as int;
    let ghost s = source.0 as int;
    let mut dist: Vec<i64> = filled(n, INF);
    let mut parent: Vec<Option<u32>> = filled(n, None);
    if !active[source.0 as usize] {
        return (dist, parent);
    }
    proof {
        assert forall|f: int| 0 <= f < es2.len() implies (#[trigger] es2[f]).2 >= 0 by {
            assert(es[f].2 >= 0);
        }
        assert forall|f: int| 0 <= f < es2.len() implies (#[trigger] es2[f]).0 < n && es2[f].1 < n by {
            assert(es[f].0 < n && es[f].1 < n);
        }
    }
    dist.set(source.0 as usize, 0);
    let ghost mut wit: Seq<Seq<int>> = Seq::new(n as nat, |i: int| Seq::<int>::empty());
    let mut heap = MinQueue::new();
    heap.push((0, source.0));
    proof {
        lemma_sum_nonneg(dist@);
        assert forall|x: int|
            0 <= x < n && #[trigger] dist@[x] < INF implies heap.elems().contains((dist@[x], x as u32))
                || relaxed_out(es2, dist@, x) by {
            assert(x == s);
            assert(heap.elems()[0] == (dist@[x], x as u32));
        }
    }
    loop
        invariant
            n == g.num_nodes(),
            es == g.edge_list(),
            es2 == masked_edges(es, active@, backward),
            m == es.len(),
            non_negative(es2),
            forall|f: int| 0 <= f < es2.len() ==> (#[trigger] es2[f]).0 < n && es2[f].1 < n,
            dist@.len() == n,
            parent@.len() == n,
            wit.len() == n,
            active@.len() == n,
            active@[s],
            dist@[s] == 0,
            forall|v: int| 0 <= v < n ==> 0 <= #[trigger] dist@[v] <= INF,
            forall|v: int| 0 <= v < n && !active@[v] ==> #[trigger] dist@[v] == INF,
            forall|v: int|
                0 <= v < n && #[trigger] dist@[v] < INF ==> is_walk(es2, wit[v], s, v) && walk_weight(
                    es2,
                    wit[v],
                ) == dist@[v],
            forall|v: int|
                0 <= v < n ==> match #[trigger] parent@[v] {
                    Some(p) => p < n && active@[p as int] && dist@[v] < INF && parent_edge(es2, dist@, p as int, v),
                    None => v == s || dist@[v] == INF,
                },
            parent@[s] is None,
            forall|y: (i64, u32)|
                #[trigger] heap.elems().contains(y) ==> y.1 < n && active@[y.1 as int] && 0 <= y.0 < INF
                    && dist@[y.1 as int] <= y.0,
            forall|x: int|
                0 <= x < n && #[trigger] dist@[x] < INF ==> heap.elems().contains((dist@[x], x as u32))
                    || relaxed_out(es2, dist@, x),
        decreases 2 * sum_seq(dist@) + heap.elems().len(),
    {
        let ghost measure0 = 2 * sum_seq(dist@) + heap.elems().len();
        let ghost heap0 = heap.elems();
        proof {
            lemma_sum_nonneg(dist@);
        }
        let top = heap.pop();
        let (d, u) = match top {
            None => {
                break;
            },
            Some(x) => x,
        };
        proof {
            assert(heap0.contains((d, u)));
            assert(heap.elems().len() + 1 == heap0.len());
        }
        if d > dist[u as usize] {
            proof {
                lemma_sum_nonneg(dist@);
                assert forall|x: int|
                    0 <= x < n && #[trigger] dist@[x] < INF implies heap.elems().contains(
                    (dist@[x], x as u32),
                ) || relaxed_out(es2, dist@, x) by {
                    if heap0.contains((dist@[x], x as u32)) {
                        if (dist@[x], x as u32) == (d, u) {
                            assert(false);
                        }
                    }
                }
            }
            continue;
        }
        let ghost dist0 = dist@;
        let mut it = if backward {
            g.in_edges(NodeId(u))
        } else {
            g.out_edges(NodeId(u))
        };
        let ghost outs = incident(es, u as int, !backward);
        proof {
            lemma_incident_members(es, u as int, m, !backward);
        }
        loop
            invariant
                n == g.num_nodes(),
                es == g.edge_list(),
                es2 == masked_edges(es, active@, backward),
                m == es.len(),
                non_negative(es2),
                forall|f: int| 0 <= f < es2.len() ==> (#[trigger] es2[f]).0 < n && es2[f].1 < n,
                it.graph() == *g,
                outs == incident(es, u as int, !backward),
                it.remaining().len() <= outs.len(),
                it.remaining() == outs.subrange(outs.len() - it.remaining().len(), outs.len() as int),
                forall|k: int| 0 <= k < outs.len() ==> 0 <= #[trigger] outs[k] < m,
                forall|f: int| 0 <= f < m && (#[trigger] es2[f]).0 == u ==> outs.contains(f),
                forall|k: int| 0 <= k < outs.len() ==> es2[#[trigger] outs[k]].0 == u,
                dist@.len() == n,
                parent@.len() == n,
                wit.len() == n,
                active@.len() == n,
                active@[s],
                active@[u as int],
                0 <= d < INF,
                u < n,
                dist@[s] == 0,
                dist@[u as int] == d,
                forall|v: int| 0 <= v < n ==> 0 <= #[trigger] dist@[v] <= dist0[v],
                forall|v: int| 0 <= v < n ==> 0 <= #[trigger] dist@[v] <= INF,
                forall|v: int| 0 <= v < n && !active@[v] ==> #[trigger] dist@[v] == INF,
                forall|v: int|
                    0 <= v < n && #[trigger] dist@[v] < INF ==> is_walk(es2, wit[v], s, v) && walk_weight(
                        es2,
                        wit[v],
                    ) == dist@[v],
                forall|v: int|
                    0 <= v < n ==> match #[trigger] parent@[v] {
                        Some(p) => p < n && active@[p as int] && dist@[v] < INF && parent_edge(es2, dist@, p as int, v),
                        None => v == s || dist@[v] == INF,
                    },
                parent@[s] is None,
                forall|y: (i64, u32)|
                    #[trigger] heap.elems().contains(y) ==> y.1 < n && active@[y.1 as int] && 0 <= y.0
                        < INF && dist@[y.1 as int] <= y.0,
                forall|x: int|
                    0 <= x < n && x != u && #[trigger] dist@[x] < INF ==> heap.elems().contains(
                        (dist@[x], x as u32),
                    ) || relaxed_out(es2, dist@, x),
                forall|k: int|
                    0 <= k < outs.len() - it.remaining().len() ==> dist@[es2[#[trigger] outs[k]].1 as int]
                        <= d + es2[outs[k]].2,
                2 * sum_seq(dist@) + heap.elems().len() < measure0,
            decreases it.remaining().len(),
        {
            let ghost rem0 = it.remaining();
            let nx = it.next();
            let e = match nx {
                None => {
                    break;
                },
                Some(e) => e,
            };
            let ghost k0 = outs.len() - rem0.len();
            let ghost f = e.0 as int;
            proof {
                assert(outs[k0] == rem0[0]);
                assert(it.remaining() =~= outs.subrange(outs.len() - it.remaining().len(), outs.len() as int));
                assert(es2[f].0 == u);
            }
            let v = if backward {
                g.source(e)
            } else {
                g.target(e)
            };
            if active[v.0 as usize] {
                let w = g.weight(e);
                let nd = sat_add(d, w);
                proof {
                    assert(es2[f] == (u, v.0, w));
                    assert(w >= 0);
                }
                if nd < dist[v.0 as usize] {
                    let ghost dist1 = dist@;
                    let ghost heap1 = heap.elems();
                    proof {
                        lemma_walk_push(es2, wit[u as int], s, u as int, f);
                        lemma_sum_update(dist1, v.0 as int, nd);
                    }
                    let ghost par1 = parent@;
                    dist.set(v.0 as usize, nd);
                    parent.set(v.0 as usize, Some(u));
                    heap.push((nd, v.0));
                    proof {
                        assert(v.0 != s);
                        assert(parent_edge(es2, dist@, u as int, v.0 as int));
                        assert forall|y: int| 0 <= y < n implies match #[trigger] parent@[y] {
                            Some(p) => p < n && active@[p as int] && dist@[y] < INF && parent_edge(es2, dist@, p as int, y),
                            None => y == s || dist@[y] == INF,
                        } by {
                            if y != v.0 {
                                assert(parent@[y] == par1[y]);
                                if let Some(p) = par1[y] {
                                    assert(parent_edge(es2, dist1, p as int, y));
                                    let e2 = choose|e2: int| 0 <= e2 < es2.len() && (#[trigger] es2[e2]).0 == p && es2[e2].1 == y
                                        && dist1[p as int] + es2[e2].2 <= dist1[y];
                                    assert(es2[e2].0 == p && es2[e2].1 == y && dist@[p as int] + es2[e2].2 <= dist@[y]);
                                }
                            }
                        }
                        wit = wit.update(v.0 as int, wit[u as int].push(f));
                        assert forall|y: (i64, u32)| #[trigger] heap.elems().contains(y) implies y.1 < n
                            && active@[y.1 as int] && 0 <= y.0 < INF && dist@[y.1 as int] <= y.0 by {
                            if y != (nd, v.0) {
                                assert(heap1.contains(y));
                            }
                        }
                        assert forall|x: int|
                            0 <= x < n && x != u && #[trigger] dist@[x] < INF implies heap.elems().contains(
                            (dist@[x], x as u32),
                        ) || relaxed_out(es2, dist@, x) by {
                            if x != v.0 {
                                if heap1.contains((dist1[x], x as u32)) {
                                    assert(heap.elems().contains((dist@[x], x as u32)));
                                } else {
                                    assert(relaxed_out(es2, dist1, x));
                                    assert forall|f2: int|
                                        0 <= f2 < es2.len() && (#[trigger] es2[f2]).0 == x implies dist@[es2[f2].1 as int]
                                        <= dist@[x] + es2[f2].2 by {
                                        assert(dist1[es2[f2].1 as int] <= dist1[x] + es2[f2].2);
                                    }
                                }
                            } else {
                                assert(heap.elems().contains((dist@[x], x as u32)));
                            }
                        }
                    }
                }
            } else {
                proof {
                    assert(es2[f] == (u, u, 0i64));
                }
            }
            proof {
                assert forall|k: int|
                    0 <= k < outs.len() - it.remaining().len() implies dist@[es2[#[trigger] outs[k]].1 as int]
                    <= d + es2[outs[k]].2 by {
                    if k == k0 {
                        assert(outs[k] == f);
                    }
                }
            }
        }
        proof {
            assert(it.remaining().len() == 0);
            assert forall|f: int| 0 <= f < es2.len() && (#[trigger] es2[f]).0 == u implies dist@[es2[f].1 as int]
                <= dist@[u as int] + es2[f].2 by {
                assert(outs.contains(f));
                let k = choose|k: int| 0 <= k < outs.len() && outs[k] == f;
            }
            assert(relaxed_out(es2, dist@, u as int));
            lemma_sum_nonneg(dist@);
        }
    }
    proof {
        assert forall|v: int| 0 <= v < n implies match #[trigger] parent@[v] {
            Some(p) => p < n && dist@[v] < INF && tree_edge(es, active@, backward, dist@, p as int, v),
            None => v == s || dist@[v] == INF,
        } by {
            if let Some(p) = parent@[v] {
                assert(parent_edge(es2, dist@, p as int, v));
                let e2 = choose|e2: int| 0 <= e2 < es2.len() && (#[trigger] es2[e2]).0 == p && es2[e2].1 == v
                    && dist@[p as int] + es2[e2].2 <= dist@[v];
                assert(es2[e2].2 >= 0);
                assert(dist@[p as int] < INF);
                assert(relaxed_out(es2, dist@, p as int));
                assert(dist@[v] <= dist@[p as int] + es2[e2].2);
                assert(active@[es2[e2].0 as int] && active@[es2[e2].1 as int]);
                assert(0 <= e2 < es.len() && (if backward {
                    es[e2].1 == p && es[e2].0 == v
                } else {
                    es[e2].0 == p && es[e2].1 == v
                }) && dist@[v] == dist@[p as int] + es[e2].2);
            }
        }
        assert forall|v: int| 0 <= v < n implies is_shortest(es2, s, v, #[trigger] dist@[v] as int) by {
            assert(all_relaxed(es2, dist@)) by {
                assert forall|e: int|
                    0 <= e < es2.len() && dist@[(#[trigger] es2[e]).0 as int] < INF implies dist@[es2[e].1 as int]
                    <= dist@[es2[e].0 as int] + es2[e].2 by {
                    let x = es2[e].0 as int;
                    assert(relaxed_out(es2, dist@, x));
                }
            }
            assert(edges_within(es2, n as int));
            assert forall|p: Seq<int>| #[trigger] is_walk(es2, p, s, v) implies dist@[v] <= walk_weight(
                es2,
                p,
            ) by {
                lemma_relaxed_lower_bound_nonneg(es2, dist@, s, p, v);
            }
            if dist@[v] < INF {
                assert(is_walk(es2, wit[v], s, v));
            }
        }
    }
    (dist, parent)
}

// ── Helper: thin-layer detection ─────────────────────────────────────────────

/// A product of two `u64` values fits in `u128`.
proof fn lemma_u64_product(x: u64, y: u64)
    ensures
        x * y < 0x1_0000_0000_0000_0000_0000_0000_0000_0000,
        x * y >= 0,
{
    assert(x * y <= (0xFFFF_FFFF_FFFF_FFFF as int) * (0xFFFF_FFFF_FFFF_FFFF as int)) by (nonlinear_arith)
        requires
            0 <= x <= 0xFFFF_FFFF_FFFF_FFFF,
            0 <= y <= 0xFFFF_FFFF_FFFF_FFFF,
    ;
    assert(x * y >= 0) by (nonlinear_arith)
        requires
            x >= 0,
            y >= 0,
    ;
}

/// `cur·λ ≤ (λ + 9·L)·prev`: the ball grew by at most a factor
/// `1 + 9·L/λ` (the thin-layer test with `ε′ = 9·L/λ`).
fn thin_enough(cur: u64, prev: u64, lam: u64, ln_n: u64) -> (b: bool)
    requires
        ln_n <= 64,
    ensures
        b == (cur * lam <= (lam + 9 * ln_n) * prev),
{
    proof {
        lemma_u64_product(cur, lam);
        lemma_u64_product(prev, lam);
        lemma_u64_product(prev, (9 * ln_n) as u64);
    }
    let lhs: u128 = (cur as u128) * (lam as u128);
    let a: u128 = (prev as u128) * (lam as u128);
    let c: u128 = (prev as u128) * ((9 * ln_n) as u128);
    proof {
        assert((lam + 9 * ln_n) * prev == prev * lam + prev * (9 * ln_n)) by (nonlinear_arith);
    }
    match a.checked_add(c) {
        Some(rhs) => lhs <= rhs,
        None => true,
    }
}

/// `(a − b)²·λ > a²` with `b < a`: `b < (1 − 1/√λ)·a` (the case-1 test).
fn splits_enough(a: u64, b: u64, lam: u64) -> (r: bool)
    ensures
        r == (b < a && (a - b) * (a - b) * lam > a * a),
{
    if b >= a {
        return false;
    }
    proof {
        lemma_u64_product((a - b) as u64, (a - b) as u64);
        lemma_u64_product(a, a);
    }
    let diff = (a - b) as u128;
    let sq = diff * diff;
    let aa = (a as u128) * (a as u128);
    match sq.checked_mul(lam as u128) {
        Some(p) => p > aa,
        None => {
            proof {
                assert(a * a < 0x1_0000_0000_0000_0000_0000_0000_0000_0000) by (nonlinear_arith)
                    requires
                        a < 0x1_0000_0000_0000_0000,
                ;
            }
            true
        },
    }
}

/// The total degree `deg` of the nodes of `active` within distance `t`.
pub open spec fn ball_degree(active: Seq<u32>, dist: Seq<i64>, deg: Seq<usize>, t: int) -> int
    decreases active.len(),
{
    if active.len() == 0 {
        0
    } else {
        ball_degree(active.drop_last(), dist, deg, t) + if dist[active.last() as int] <= t {
            deg[active.last() as int] as int
        } else {
            0
        }
    }
}

/// Every node of `active` lies within distance `t`.
pub open spec fn all_within(active: Seq<u32>, dist: Seq<i64>, t: int) -> bool {
    forall|k: int| 0 <= k < active.len() ==> dist[#[trigger] active[k] as int] <= t
}

/// The radius `i·d`, saturated at `i64::MAX`.
pub open spec fn radius(i: int, d: int) -> int {
    if i * d > i64::MAX {
        i64::MAX as int
    } else {
        i * d
    }
}

/// Step `i` of the search is thin: the ball of radius `i·d` grew by at most a
/// factor `1 + 9·L/λ` over the one of radius `(i−1)·d`.
pub open spec fn layer_stops(
    active: Seq<u32>,
    dist: Seq<i64>,
    deg: Seq<usize>,
    d: int,
    lam: int,
    ln_n: int,
    i: int,
) -> bool {
    let cur = ball_degree(active, dist, deg, radius(i, d));
    let prev = ball_degree(active, dist, deg, radius(i - 1, d));
    cur * lam <= (lam + 9 * ln_n) * prev
}

/// The total degree of the pairs `(δ, v)` of `s` with `δ ≤ t`.
spec fn pair_ball(s: Seq<(i64, u32)>, deg: Seq<usize>, t: int) -> int
    decreases s.len(),
{
    if s.len() == 0 {
        0
    } else {
        pair_ball(s.drop_last(), deg, t) + if s.last().0 <= t {
            deg[s.last().1 as int] as int
        } else {
            0
        }
    }
}

/// The total degree of the first `l` pairs of `s`.
spec fn prefix_degree(s: Seq<(i64, u32)>, deg: Seq<usize>, l: int) -> int
    decreases l,
{
    if l <= 0 {
        0
    } else {
        prefix_degree(s, deg, l - 1) + deg[s[l - 1].1 as int] as int
    }
}

/// The pairs `(dist[v], v)` of the nodes of `active` give the ball degrees.
proof fn lemma_pair_ball_of_active(
    pre: Seq<(i64, u32)>,
    active: Seq<u32>,
    dist: Seq<i64>,
    deg: Seq<usize>,
    t: int,
)
    requires
        pre.len() == active.len(),
        forall|k: int| 0 <= k < pre.len() ==> #[trigger] pre[k] == (dist[active[k] as int], active[k]),
    ensures
        pair_ball(pre, deg, t) == ball_degree(active, dist, deg, t),
    decreases pre.len(),
{
    if pre.len() > 0 {
        lemma_pair_ball_of_active(pre.drop_last(), active.drop_last(), dist, deg, t);
        assert(pre.last() == pre[pre.len() - 1]);
    }
}

/// Removing pair `i` takes its degree out of the ball it lies in.
proof fn lemma_pair_ball_remove(s: Seq<(i64, u32)>, deg: Seq<usize>, t: int, i: int)
    requires
        0 <= i < s.len(),
    ensures
        pair_ball(s, deg, t) == pair_ball(s.remove(i), deg, t) + if s[i].0 <= t {
            deg[s[i].1 as int] as int
        } else {
            0
        },
    decreases s.len(),
{
    if i < s.len() - 1 {
        lemma_pair_ball_remove(s.drop_last(), deg, t, i);
        assert(s.remove(i).drop_last() =~= s.drop_last().remove(i));
        assert(s.remove(i).last() == s.last());
    } else {
        assert(s.remove(i) =~= s.drop_last());
    }
}

/// Ball degrees depend on the pairs only, not on their order.
proof fn lemma_pair_ball_perm(s1: Seq<(i64, u32)>, s2: Seq<(i64, u32)>, deg: Seq<usize>, t: int)
    requires
        s1.to_multiset() == s2.to_multiset(),
    ensures
        pair_ball(s1, deg, t) == pair_ball(s2, deg, t),
    decreases s1.len(),
{
    broadcast use vstd::seq_lib::group_to_multiset_ensures;

    if s1.len() == 0 {
        assert(s2.to_multiset().len() == 0);
        assert(s2.len() == 0);
    } else {
        let x = s1.last();
        assert(s1.contains(x)) by {
            assert(s1[s1.len() - 1] == x);
        }
        assert(s1.to_multiset().count(x) > 0);
        assert(s2.to_multiset().count(x) > 0);
        assert(s2.contains(x));
        let i = choose|i: int| 0 <= i < s2.len() && s2[i] == x;
        assert(s1.drop_last().push(x) =~= s1);
        assert(s1.drop_last().to_multiset() =~= s1.to_multiset().remove(x));
        assert(s2.remove(i).to_multiset() =~= s2.to_multiset().remove(x));
        lemma_pair_ball_perm(s1.drop_last(), s2.remove(i), deg, t);
        lemma_pair_ball_remove(s2, deg, t, i);
    }
}

/// In pairs sorted by distance, those within `t` are the first `l`, and
/// their degree is the prefix degree.
proof fn lemma_pair_ball_prefix(s: Seq<(i64, u32)>, deg: Seq<usize>, t: int, l: int)
    requires
        0 <= l <= s.len(),
        forall|k: int| 0 <= k < l ==> (#[trigger] s[k]).0 <= t,
        forall|k: int| l <= k < s.len() ==> (#[trigger] s[k]).0 > t,
    ensures
        pair_ball(s, deg, t) == prefix_degree(s, deg, l),
    decreases s.len(),
{
    if s.len() > 0 {
        if l == s.len() {
            lemma_pair_ball_prefix(s.drop_last(), deg, t, l - 1);
            assert forall|k: int| 0 <= k < l - 1 implies prefix_degree(s.drop_last(), deg, k) == prefix_degree(s, deg, k) by {
                lemma_prefix_degree_drop(s, deg, k);
            }
            lemma_prefix_degree_drop(s, deg, l - 1);
            assert(s.last() == s[l - 1]);
        } else {
            lemma_pair_ball_prefix(s.drop_last(), deg, t, l);
            lemma_prefix_degree_drop(s, deg, l);
            assert(s.last() == s[s.len() - 1]);
        }
    }
}

/// The prefix degree of the first `l` pairs ignores what comes after them.
proof fn lemma_prefix_degree_drop(s: Seq<(i64, u32)>, deg: Seq<usize>, l: int)
    requires
        0 <= l < s.len(),
    ensures
        prefix_degree(s.drop_last(), deg, l) == prefix_degree(s, deg, l),
    decreases l,
{
    if l > 0 {
        lemma_prefix_degree_drop(s, deg, l - 1);
    }
}

/// Find the smallest i ≥ 1 such that
/// `deg_G(Ball(i·d)) ≤ (1 + ε′) · deg_G(Ball((i−1)·d))`.
///
/// Nodes are sorted by distance once, then scanned linearly.
/// Returns `(i, deg_G(Ball(i·d)))`. Such an `i` always lies in `1..=|A|+1`:
/// a step that is not thin takes at least one more node into the ball.
#[verifier::loop_isolation(false)]
fn find_thin_layer(
    active: &Vec<u32>,
    dist: &Vec<i64>,
    deg_g: &Vec<usize>,
    d: i64,
    lam: u64,
    ln_n: u64,
) -> (r: (u64, u64))
    requires
        forall|i: int| 0 <= i < active@.len() ==> #[trigger] active@[i] < dist@.len(),
        dist@.len() == deg_g@.len(),
        forall|v: int| 0 <= v < deg_g@.len() ==> #[trigger] deg_g@[v] <= u32::MAX,
        active@.len() <= u32::MAX,
        d >= 1,
        ln_n <= 64,
    ensures
        1 <= r.0 <= active@.len() + 1,
        forall|j: int|
            1 <= j < r.0 ==> !#[trigger] layer_stops(active@, dist@, deg_g@, d as int, lam as int, ln_n as int, j),
        layer_stops(active@, dist@, deg_g@, d as int, lam as int, ln_n as int, r.0 as int),
        r.1 == ball_degree(active@, dist@, deg_g@, radius(r.0 as int, d as int)),
{
    let ghost act = active@;
    let ghost dst = dist@;
    let ghost dg = deg_g@;
    // Sort active nodes by distance (INF last).
    let mut sorted: Vec<(i64, u32)> = Vec::with_capacity(active.len());
    let mut k: usize = 0;
    while k < active.len()
        invariant
            k <= active@.len(),
            sorted@.len() == k,
            forall|i: int| 0 <= i < k ==> (#[trigger] sorted@[i]).1 < dist@.len(),
            forall|i: int| 0 <= i < k ==> #[trigger] sorted@[i] == (dst[act[i] as int], act[i]),
        decreases active@.len() - k,
    {
        let v = active[k];
        sorted.push((dist[v as usize], v));
        k = k + 1;
    }
    let ghost pre = sorted@;
    sort_by_distance(&mut sorted);
    proof {
        assert forall|i: int| 0 <= i < sorted@.len() implies (#[trigger] sorted@[i]).1 < dist@.len() by {
            assert(sorted@.contains(sorted@[i]));
            assert(pre.contains(sorted@[i]));
        }
    }
    let len = sorted.len();
    // Ball(0·d): nodes at distance ≤ 0.
    let mut prev_deg: u64 = 0;
    let mut cur_idx: usize = 0;
    while cur_idx < len && sorted[cur_idx].0 <= 0
        invariant
            cur_idx <= len,
            len == sorted@.len(),
            len <= u32::MAX,
            prev_deg <= cur_idx * (u32::MAX as int),
            forall|i: int| 0 <= i < sorted@.len() ==> (#[trigger] sorted@[i]).1 < dist@.len(),
            prev_deg == prefix_degree(sorted@, dg, cur_idx as int),
            forall|j: int| 0 <= j < cur_idx ==> (#[trigger] sorted@[j]).0 <= 0,
        decreases len - cur_idx,
    {
        proof {
            assert((cur_idx + 1) * (u32::MAX as int) == cur_idx * (u32::MAX as int) + u32::MAX) by (nonlinear_arith);
            assert((cur_idx + 1) * (u32::MAX as int) <= 0x1_0000_0000 * (u32::MAX as int)) by (nonlinear_arith)
                requires
                    cur_idx < 0x1_0000_0000,
            ;
        }
        prev_deg = prev_deg + deg_g[sorted[cur_idx].1 as usize] as u64;
        cur_idx = cur_idx + 1;
    }
    proof {
        lemma_thin_cut(sorted@, pre, act, dst, dg, 0, cur_idx as int);
        assert(radius(0, d as int) == 0);
    }
    let mut total: u64 = 0;
    let mut k: usize = 0;
    while k < active.len()
        invariant
            k <= active@.len(),
            active@.len() <= u32::MAX,
            total <= k * (u32::MAX as int),
            total == ball_degree(act.take(k as int), dst, dg, i64::MAX as int),
        decreases active@.len() - k,
    {
        proof {
            assert((k + 1) * (u32::MAX as int) == k * (u32::MAX as int) + u32::MAX) by (nonlinear_arith);
            assert((k + 1) * (u32::MAX as int) <= 0x1_0000_0000 * (u32::MAX as int)) by (nonlinear_arith)
                requires
                    k < 0x1_0000_0000,
            ;
            assert(act.take(k + 1).drop_last() =~= act.take(k as int));
            assert(act.take(k + 1).last() == act[k as int]);
        }
        total = total + deg_g[active[k] as usize] as u64;
        k = k + 1;
    }
    proof {
        assert(act.take(act.len() as int) =~= act);
    }
    let max_iter: u64 = active.len() as u64 + 2;  // safety cap — terminates in ≤ |A| steps
    let mut i: u64 = 1;
    while i <= max_iter
        invariant
            1 <= i <= max_iter + 1,
            max_iter == active@.len() + 2,
            cur_idx <= len,
            len == sorted@.len(),
            len <= u32::MAX,
            prev_deg <= cur_idx * (u32::MAX as int),
            forall|j: int| 0 <= j < sorted@.len() ==> (#[trigger] sorted@[j]).1 < dist@.len(),
            prev_deg == prefix_degree(sorted@, dg, cur_idx as int),
            prev_deg == ball_degree(act, dst, dg, radius(i - 1, d as int)),
            forall|j: int| 0 <= j < cur_idx ==> (#[trigger] sorted@[j]).0 <= radius(i - 1, d as int),
            total == ball_degree(act, dst, dg, i64::MAX as int),
            forall|j: int| 1 <= j < i ==> !#[trigger] layer_stops(act, dst, dg, d as int, lam as int, ln_n as int, j),
            cur_idx >= i - 1,
        decreases max_iter + 1 - i,
    {
        let threshold = sat_mul_nonneg(i as i64, d);
        proof {
            lemma_radius_monotone(i - 1, i as int, d as int);
            assert(threshold == radius(i as int, d as int));
        }
        let mut cur_deg = prev_deg;
        let mut next_idx = cur_idx;
        while next_idx < len && sorted[next_idx].0 <= threshold
            invariant
                cur_idx <= next_idx <= len,
                len == sorted@.len(),
                len <= u32::MAX,
                cur_deg <= next_idx * (u32::MAX as int),
                forall|j: int| 0 <= j < sorted@.len() ==> (#[trigger] sorted@[j]).1 < dist@.len(),
                cur_deg == prefix_degree(sorted@, dg, next_idx as int),
                forall|j: int| 0 <= j < next_idx ==> (#[trigger] sorted@[j]).0 <= threshold,
            decreases len - next_idx,
        {
            proof {
                assert((next_idx + 1) * (u32::MAX as int) == next_idx * (u32::MAX as int) + u32::MAX)
                    by (nonlinear_arith);
                assert((next_idx + 1) * (u32::MAX as int) <= 0x1_0000_0000 * (u32::MAX as int))
                    by (nonlinear_arith)
                    requires
                        next_idx < 0x1_0000_0000,
                ;
            }
            cur_deg = cur_deg + deg_g[sorted[next_idx].1 as usize] as u64;
            next_idx = next_idx + 1;
        }
        proof {
            lemma_thin_cut(sorted@, pre, act, dst, dg, threshold as int, next_idx as int);
        }
        // Thin-layer condition.
        if thin_enough(cur_deg, prev_deg, lam, ln_n) {
            return (i, cur_deg);
        }
        proof {
            // A step that is not thin grows the ball.
            if next_idx == cur_idx {
                assert(cur_deg == prev_deg);
                assert(cur_deg * lam <= (lam + 9 * ln_n) * prev_deg) by (nonlinear_arith)
                    requires
                        cur_deg == prev_deg,
                        lam >= 0,
                        ln_n >= 0,
                        prev_deg >= 0,
                ;
            }
        }
        prev_deg = cur_deg;
        cur_idx = next_idx;
        i = i + 1;
    }
    // Every step grew the ball, past its last node: unreachable.
    proof {
        assert(false);
    }
    (max_iter, total)
}

/// Where `v` is first present among two pieces.
proof fn lemma_first_of_two(pcs: Seq<Projection>, v: int)
    requires
        pcs.len() == 2,
    ensures
        first_rep_layer(pcs, v, 2) == (if pcs[0].reps()[v] is Some {
            Some(0int)
        } else if pcs[1].reps()[v] is Some {
            Some(1int)
        } else {
            None
        }),
{
    assert(first_rep_layer(pcs, v, 0) is None);
    assert(first_rep_layer(pcs, v, 1) == (if pcs[0].reps()[v] is Some {
        Some(0int)
    } else {
        None
    }));
}

/// Where `v` is first present among three pieces.
proof fn lemma_first_of_three(pcs: Seq<Projection>, v: int)
    requires
        pcs.len() == 3,
    ensures
        first_rep_layer(pcs, v, 3) == (if pcs[0].reps()[v] is Some {
            Some(0int)
        } else if pcs[1].reps()[v] is Some {
            Some(1int)
        } else if pcs[2].reps()[v] is Some {
            Some(2int)
        } else {
            None
        }),
{
    assert(first_rep_layer(pcs, v, 0) is None);
    assert(first_rep_layer(pcs, v, 1) == (if pcs[0].reps()[v] is Some {
        Some(0int)
    } else {
        None
    }));
    assert(first_rep_layer(pcs, v, 2) == (if pcs[0].reps()[v] is Some {
        Some(0int)
    } else if pcs[1].reps()[v] is Some {
        Some(1int)
    } else {
        None
    }));
}

/// Case 1 of the cover: the pieces `(cover of A ∖ Ball((i−1)·d), cover of
/// Ball(i·d))` in this order leave no short edge of `G[A]` without a lift.
proof fn lemma_case1_cover(
    es: Seq<(u32, u32, i64)>,
    n: int,
    active: Seq<bool>,
    s: int,
    dist: Seq<i64>,
    rp: int,
    ro: int,
    d: int,
    inner: Seq<bool>,
    outer: Seq<bool>,
    pcs: Seq<Projection>,
)
    requires
        edges_within(es, n),
        non_negative(es),
        active.len() == n && dist.len() == n && inner.len() == n && outer.len() == n,
        pcs.len() == 2,
        pcs[0].reps().len() == n && pcs[1].reps().len() == n,
        forall|v: int| 0 <= v < n ==> ((#[trigger] pcs[0].reps()[v]) is Some <==> outer[v]),
        forall|v: int| 0 <= v < n ==> ((#[trigger] pcs[1].reps()[v]) is Some <==> inner[v]),
        covers_short_edges(pcs[0], es, outer, d),
        covers_short_edges(pcs[1], es, inner, d),
        forall|v: int| 0 <= v < n ==> #[trigger] inner[v] == (active[v] && dist[v] <= ro),
        forall|v: int| 0 <= v < n ==> #[trigger] outer[v] == (active[v] && dist[v] > rp),
        rp <= ro,
        rp + d <= ro || ro >= INF,
        forall|v: int| 0 <= v < n ==> 0 <= #[trigger] dist[v] <= INF,
        forall|v: int| 0 <= v < n ==> is_shortest(masked_edges(es, active, false), s, v, #[trigger] dist[v] as int),
    ensures
        pieces_cover(pcs, es, active, d),
{
    assert forall|f: int|
        0 <= f < es.len() && active[(#[trigger] es[f]).0 as int] && active[es[f].1 as int] && es[f].2 <= d implies (
    exists|i: int| 0 <= i < pcs.len() && #[trigger] lifts_edge(pcs[i], es[f].0 as int, es[f].1 as int, es[f].2))
        || (exists|i: int|
        0 <= i < pcs.len() && (#[trigger] pcs[i].reps()[es[f].0 as int]) is Some && (first_rep_layer(
            pcs,
            es[f].1 as int,
            pcs.len() as int,
        ) matches Some(j) && j > i)) by {
        let u = es[f].0 as int;
        let v = es[f].1 as int;
        lemma_ball_step(es, active, false, s, dist, f, rp, ro, d);
        lemma_first_of_two(pcs, v);
        if outer[v] {
            if outer[u] {
                assert(lifts_edge(pcs[0], u, v, es[f].2));
            } else {
                assert(inner[u] && inner[v]);
                assert(lifts_edge(pcs[1], u, v, es[f].2));
            }
        } else {
            assert(inner[v]);
            if outer[u] {
                assert(pcs[0].reps()[u] is Some);
            } else {
                assert(inner[u]);
                assert(lifts_edge(pcs[1], u, v, es[f].2));
            }
        }
    }
}

/// Case 2 of the cover: the pieces `(cover of B̄_out ∩ B_in, G[mid],
/// cover of B̄_in)` in this order, with `B_out ∩ B_in` inside `mid`, leave no
/// short edge of `G[A]` without a lift.
proof fn lemma_case2_cover(
    es: Seq<(u32, u32, i64)>,
    n: int,
    active: Seq<bool>,
    s: int,
    dout: Seq<i64>,
    din: Seq<i64>,
    rop: int,
    ro: int,
    rip: int,
    ri: int,
    d: int,
    x0: Seq<bool>,
    mid: Seq<bool>,
    x2: Seq<bool>,
    pcs: Seq<Projection>,
)
    requires
        edges_within(es, n),
        non_negative(es),
        active.len() == n && dout.len() == n && din.len() == n,
        x0.len() == n && mid.len() == n && x2.len() == n,
        pcs.len() == 3,
        pcs[0].reps().len() == n && pcs[1].reps().len() == n && pcs[2].reps().len() == n,
        forall|v: int| 0 <= v < n ==> ((#[trigger] pcs[0].reps()[v]) is Some <==> x0[v]),
        forall|v: int| 0 <= v < n ==> ((#[trigger] pcs[1].reps()[v]) is Some <==> mid[v]),
        forall|v: int| 0 <= v < n ==> ((#[trigger] pcs[2].reps()[v]) is Some <==> x2[v]),
        covers_short_edges(pcs[0], es, x0, d),
        forall|f: int|
            0 <= f < es.len() && mid[(#[trigger] es[f]).0 as int] && mid[es[f].1 as int] ==> lifts_edge(
                pcs[1],
                es[f].0 as int,
                es[f].1 as int,
                es[f].2,
            ),
        covers_short_edges(pcs[2], es, x2, d),
        forall|v: int| 0 <= v < n ==> #[trigger] x0[v] == (active[v] && dout[v] > rop && din[v] <= ri),
        forall|v: int| 0 <= v < n ==> #[trigger] x2[v] == (active[v] && din[v] > rip),
        forall|v: int| 0 <= v < n && active[v] && dout[v] <= ro && din[v] <= ri ==> #[trigger] mid[v],
        rop <= ro,
        rop + d <= ro || ro >= INF,
        rip <= ri,
        rip + d <= ri || ri >= INF,
        forall|v: int| 0 <= v < n ==> 0 <= #[trigger] dout[v] <= INF,
        forall|v: int| 0 <= v < n ==> 0 <= #[trigger] din[v] <= INF,
        forall|v: int| 0 <= v < n ==> is_shortest(masked_edges(es, active, false), s, v, #[trigger] dout[v] as int),
        forall|v: int| 0 <= v < n ==> is_shortest(masked_edges(es, active, true), s, v, #[trigger] din[v] as int),
    ensures
        pieces_cover(pcs, es, active, d),
{
    assert forall|f: int|
        0 <= f < es.len() && active[(#[trigger] es[f]).0 as int] && active[es[f].1 as int] && es[f].2 <= d implies (
    exists|i: int| 0 <= i < pcs.len() && #[trigger] lifts_edge(pcs[i], es[f].0 as int, es[f].1 as int, es[f].2))
        || (exists|i: int|
        0 <= i < pcs.len() && (#[trigger] pcs[i].reps()[es[f].0 as int]) is Some && (first_rep_layer(
            pcs,
            es[f].1 as int,
            pcs.len() as int,
        ) matches Some(j) && j > i)) by {
        let u = es[f].0 as int;
        let v = es[f].1 as int;
        let w = es[f].2;
        lemma_ball_step(es, active, false, s, dout, f, rop, ro, d);
        lemma_ball_step(es, active, true, s, din, f, rip, ri, d);
        lemma_first_of_three(pcs, v);
        // Every active node lies in some piece.
        assert(x0[u] || mid[u] || x2[u]) by {
            if !x2[u] && !x0[u] {
                assert(mid[u]);
            }
        }
        assert(x0[v] || mid[v] || x2[v]) by {
            if !x2[v] && !x0[v] {
                assert(mid[v]);
            }
        }
        if x0[v] {
            if x0[u] {
                assert(lifts_edge(pcs[0], u, v, w));
            } else if din[u] <= ri {
                assert(dout[u] <= rop);
                assert(mid[u] && mid[v]);
                assert(lifts_edge(pcs[1], u, v, w));
            } else {
                assert(x2[u]);
                assert(x2[v]);
                assert(lifts_edge(pcs[2], u, v, w));
            }
        } else if mid[v] {
            if x0[u] {
                assert(pcs[0].reps()[u] is Some);
            } else if mid[u] {
                assert(lifts_edge(pcs[1], u, v, w));
            } else {
                assert(din[u] > ri) by {
                    if din[u] <= ri {
                        assert(dout[u] <= rop);
                        assert(mid[u]);
                    }
                }
                assert(x2[u]);
                assert(x2[v]);
                assert(lifts_edge(pcs[2], u, v, w));
            }
        } else {
            assert(x2[v]);
            if x0[u] {
                assert(pcs[0].reps()[u] is Some);
            } else if mid[u] {
                assert(pcs[1].reps()[u] is Some);
            } else {
                assert(lifts_edge(pcs[2], u, v, w));
            }
        }
    }
}

/// Consecutive radii differ by at most `d`, unless the larger one is
/// saturated.
proof fn lemma_radius_step(i: int, d: int)
    requires
        i >= 1,
        d >= 1,
    ensures
        radius(i - 1, d) + d <= radius(i, d) || radius(i, d) == i64::MAX,
{
    assert((i - 1) * d + d == i * d) by (nonlinear_arith);
    assert((i - 1) * d <= i * d) by (nonlinear_arith)
        requires
            d >= 1,
    ;
}

/// Along an edge of `G[active]` of weight at most `d`, a Dijkstra ball of
/// radius `r1` is left only into the ball of radius `r2` (forward: from the
/// source of the edge to its target; backward: the other way).
proof fn lemma_ball_step(
    es: Seq<(u32, u32, i64)>,
    active: Seq<bool>,
    backward: bool,
    s: int,
    dist: Seq<i64>,
    f: int,
    r1: int,
    r2: int,
    d: int,
)
    requires
        0 <= f < es.len(),
        active.len() == dist.len(),
        es[f].0 < dist.len() && es[f].1 < dist.len(),
        active[es[f].0 as int] && active[es[f].1 as int],
        0 <= es[f].2 <= d,
        forall|v: int| 0 <= v < dist.len() ==> 0 <= #[trigger] dist[v] <= INF,
        forall|v: int| 0 <= v < dist.len() ==> is_shortest(masked_edges(es, active, backward), s, v, #[trigger] dist[v] as int),
        r1 <= r2,
        r1 + d <= r2 || r2 >= INF,
    ensures
        !backward ==> (dist[es[f].0 as int] <= r1 ==> dist[es[f].1 as int] <= r2),
        backward ==> (dist[es[f].1 as int] <= r1 ==> dist[es[f].0 as int] <= r2),
{
    let me = masked_edges(es, active, backward);
    let a = if backward { es[f].1 as int } else { es[f].0 as int };
    let b = if backward { es[f].0 as int } else { es[f].1 as int };
    assert(me[f] == (a as u32, b as u32, es[f].2));
    if dist[a] <= r1 && dist[a] < INF {
        assert(is_shortest(me, s, a, dist[a] as int));
        let p = choose|p: Seq<int>| #[trigger] is_walk(me, p, s, a) && walk_weight(me, p) == dist[a];
        lemma_walk_push(me, p, s, a, f);
        assert(is_shortest(me, s, b, dist[b] as int));
        assert(dist[b] <= walk_weight(me, p.push(f)));
    }
}

/// The radius grows with the step.
proof fn lemma_radius_monotone(i: int, j: int, d: int)
    requires
        0 <= i <= j,
        d >= 1,
    ensures
        radius(i, d) <= radius(j, d),
        radius(i, d) >= 0,
{
    assert(i * d <= j * d) by (nonlinear_arith)
        requires
            i <= j,
            d >= 1,
    ;
    assert(i * d >= 0) by (nonlinear_arith)
        requires
            i >= 0,
            d >= 1,
    ;
}

/// When the first `l` sorted pairs are exactly those within `t`, their
/// degree is the ball degree of the active nodes, and `l` reaches the end
/// exactly when every active node is within `t`.
proof fn lemma_thin_cut(
    sorted: Seq<(i64, u32)>,
    pre: Seq<(i64, u32)>,
    act: Seq<u32>,
    dst: Seq<i64>,
    dg: Seq<usize>,
    t: int,
    l: int,
)
    requires
        pre.len() == act.len(),
        forall|k: int| 0 <= k < pre.len() ==> #[trigger] pre[k] == (dst[act[k] as int], act[k]),
        sorted.to_multiset() == pre.to_multiset(),
        forall|x: (i64, u32)| #[trigger] sorted.contains(x) <==> pre.contains(x),
        sorted.len() == pre.len(),
        forall|i: int, j: int| 0 <= i <= j < sorted.len() ==> sorted[i].0 <= sorted[j].0,
        0 <= l <= sorted.len(),
        forall|k: int| 0 <= k < l ==> (#[trigger] sorted[k]).0 <= t,
        l < sorted.len() ==> sorted[l].0 > t,
    ensures
        prefix_degree(sorted, dg, l) == ball_degree(act, dst, dg, t),
        (l >= sorted.len()) == all_within(act, dst, t),
{
    assert forall|k: int| l <= k < sorted.len() implies (#[trigger] sorted[k]).0 > t by {
        assert(sorted[l].0 <= sorted[k].0);
    }
    lemma_pair_ball_prefix(sorted, dg, t, l);
    lemma_pair_ball_perm(sorted, pre, dg, t);
    lemma_pair_ball_of_active(pre, act, dst, dg, t);
    if l >= sorted.len() {
        assert forall|k: int| 0 <= k < act.len() implies dst[#[trigger] act[k] as int] <= t by {
            assert(pre.contains(pre[k]));
            assert(sorted.contains(pre[k]));
            let j = choose|j: int| 0 <= j < sorted.len() && sorted[j] == pre[k];
        }
    } else {
        assert(sorted.contains(sorted[l]));
        assert(pre.contains(sorted[l]));
        let k = choose|k: int| 0 <= k < pre.len() && pre[k] == sorted[l];
        assert(dst[act[k] as int] > t);
    }
}

// ── Helper: ancestors in SPT ─────────────────────────────────────────────────

/// Mark all ancestors of seed nodes M in a tree given by `parent` pointers.
///
/// Walking from each m ∈ M using `parent[v]` reaches the tree root `root`.
/// Marks every node visited on these walks.  Early-exit when a node is already
/// marked (to avoid repeated root traversals).
///
/// The node reached from `s` after `j` steps up the parent pointers, stopping
/// at `root` and at a node without parent (`None` past them).
pub open spec fn climb(parent: Seq<Option<u32>>, root: int, s: int, j: nat) -> Option<int>
    decreases j,
{
    if j == 0 {
        Some(s)
    } else {
        match climb(parent, root, s, (j - 1) as nat) {
            Some(x) => if x == root || !(0 <= x < parent.len()) {
                None
            } else {
                match parent[x] {
                    Some(p) => Some(p as int),
                    None => None,
                }
            },
            None => None,
        }
    }
}

/// `inc` marks exactly the nodes met climbing from a seed of `m`: each
/// marked node is met from some seed, and each node met from a seed is
/// marked.
#[verifier::opaque]
pub open spec fn marked_by_climbing(parent: Seq<Option<u32>>, root: int, m: Seq<bool>, inc: Seq<bool>) -> bool {
    &&& forall|v: int|
        0 <= v < inc.len() && #[trigger] inc[v] ==> exists|s: int, j: nat|
            0 <= s < m.len() && m[s] && #[trigger] climb(parent, root, s, j) == Some(v)
    &&& forall|s: int, j: nat|
        0 <= s < m.len() && m[s] ==> (#[trigger] climb(parent, root, s, j) matches Some(x) ==> 0 <= x
            < inc.len() && inc[x])
}

/// Marked seeds and parents of marked nodes other than `root` are marked, so
/// everything met climbing from a seed is marked.
proof fn lemma_climb_marked(parent: Seq<Option<u32>>, root: int, m: Seq<bool>, inc: Seq<bool>, s: int, j: nat)
    requires
        parent.len() == m.len() == inc.len(),
        0 <= s < m.len(),
        m[s],
        forall|v: int| 0 <= v < m.len() && #[trigger] m[v] ==> inc[v],
        forall|v: int| 0 <= v < parent.len() ==> match #[trigger] parent[v] {
            Some(p) => p < parent.len(),
            None => true,
        },
        forall|v: int|
            0 <= v < inc.len() && #[trigger] inc[v] && v != root ==> match parent[v] {
                Some(p) => inc[p as int],
                None => true,
            },
    ensures
        climb(parent, root, s, j) matches Some(x) ==> 0 <= x < inc.len() && inc[x],
    decreases j,
{
    if j > 0 {
        lemma_climb_marked(parent, root, m, inc, s, (j - 1) as nat);
    }
}

/// Every seed is marked, and a node is marked exactly when it is met
/// climbing the parent pointers from a seed, up to `root`.
#[verifier::loop_isolation(false)]
fn ancestors_in_tree(parent: &Vec<Option<u32>>, m: &Vec<bool>, root: u32, n: usize) -> (included: Vec<
    bool,
>)
    requires
        parent@.len() == n,
        m@.len() == n,
        n <= u32::MAX,
        forall|v: int| 0 <= v < n ==> match #[trigger] parent@[v] {
            Some(p) => p < n,
            None => true,
        },
    ensures
        included@.len() == n,
        forall|v: int| 0 <= v < n && #[trigger] m@[v] ==> included@[v],
        forall|v: int|
            0 <= v < n && #[trigger] included@[v] && !m@[v] ==> exists|c: int|
                0 <= c < n && #[trigger] included@[c] && parent@[c] == Some(v as u32),
        forall|v: int|
            0 <= v < n && #[trigger] included@[v] && v != root ==> match parent@[v] {
                Some(p) => included@[p as int],
                None => true,
            },
        marked_by_climbing(parent@, root as int, m@, included@),
{
    let mut included: Vec<bool> = filled(n, false);
    let mut v: usize = 0;
    while v < n
        invariant
            v <= n,
            n <= u32::MAX,
            included@.len() == n,
            parent@.len() == n,
            m@.len() == n,
            forall|x: int| 0 <= x < n ==> match #[trigger] parent@[x] {
                Some(p) => p < n,
                None => true,
            },
            forall|x: int| 0 <= x < v && #[trigger] m@[x] ==> included@[x],
            forall|x: int|
                0 <= x < n && #[trigger] included@[x] && !m@[x] ==> exists|c: int|
                    0 <= c < n && #[trigger] included@[c] && parent@[c] == Some(x as u32),
            forall|x: int|
                0 <= x < n && #[trigger] included@[x] && x != root ==> match parent@[x] {
                    Some(p) => included@[p as int],
                    None => true,
                },
            forall|x: int|
                0 <= x < n && #[trigger] included@[x] ==> exists|s: int, j: nat|
                    0 <= s < n && m@[s] && #[trigger] climb(parent@, root as int, s, j) == Some(x),
        decreases n - v,
    {
        if m[v] {
            let mut cur: u32 = v as u32;
            let ghost mut jc: nat = 0;
            loop
                invariant
                    cur < n,
                    n <= u32::MAX,
                    v < n,
                    m@[v as int],
                    included@.len() == n,
                    parent@.len() == n,
                    m@.len() == n,
                    forall|x: int| 0 <= x < n ==> match #[trigger] parent@[x] {
                        Some(p) => p < n,
                        None => true,
                    },
                    forall|x: int| 0 <= x < v && #[trigger] m@[x] ==> included@[x],
                    cur != v ==> included@[v as int],
                    cur != v ==> exists|c: int|
                        0 <= c < n && #[trigger] included@[c] && parent@[c] == Some(cur),
                    forall|x: int|
                        0 <= x < n && #[trigger] included@[x] && !m@[x] ==> exists|c: int|
                            0 <= c < n && #[trigger] included@[c] && parent@[c] == Some(x as u32),
                    forall|x: int|
                        0 <= x < n && #[trigger] included@[x] && x != root ==> match parent@[x] {
                            Some(p) => included@[p as int] || p == cur,
                            None => true,
                        },
                    forall|x: int|
                        0 <= x < n && #[trigger] included@[x] ==> exists|s: int, j: nat|
                            0 <= s < n && m@[s] && #[trigger] climb(parent@, root as int, s, j) == Some(x),
                    climb(parent@, root as int, v as int, jc) == Some(cur as int),
                decreases count_true_rest(included@),
            {
                if included[cur as usize] {
                    break;  // already processed this branch
                }
                let ghost inc0 = included@;
                proof {
                    lemma_count_rest_set(included@, cur as int);
                }
                included.set(cur as usize, true);
                proof {
                    assert forall|x: int|
                        0 <= x < n && #[trigger] included@[x] implies exists|s: int, j: nat|
                            0 <= s < n && m@[s] && #[trigger] climb(parent@, root as int, s, j) == Some(x) by {
                        if x == cur {
                            assert(climb(parent@, root as int, v as int, jc) == Some(x));
                        } else {
                            assert(inc0[x]);
                        }
                    }
                    assert forall|x: int|
                        0 <= x < n && #[trigger] included@[x] && !m@[x] implies exists|c: int|
                            0 <= c < n && #[trigger] included@[c] && parent@[c] == Some(x as u32) by {
                        if x != cur {
                            assert(inc0[x]);
                            let c = choose|c: int| 0 <= c < n && #[trigger] inc0[c] && parent@[c] == Some(x as u32);
                            assert(included@[c]);
                        } else {
                            if cur != v {
                                let c = choose|c: int| 0 <= c < n && #[trigger] inc0[c] && parent@[c] == Some(cur);
                                assert(included@[c]);
                            }
                        }
                    }
                }
                if cur == root {
                    break;
                }
                match parent[cur as usize] {
                    Some(p) => {
                        proof {
                            assert(included@[cur as int] && parent@[cur as int] == Some(p));
                            assert(climb(parent@, root as int, v as int, jc + 1) == Some(p as int));
                            jc = jc + 1;
                        }
                        cur = p;
                    },
                    None => {
                        break;  // disconnected from root
                    },
                }
            }
        }
        v = v + 1;
    }
    proof {
        assert forall|s: int, j: nat| 0 <= s < n && m@[s] implies (#[trigger] climb(
            parent@,
            root as int,
            s,
            j,
        ) matches Some(x) ==> 0 <= x < n && included@[x]) by {
            lemma_climb_marked(parent@, root as int, m@, included@, s, j);
        }
        reveal(marked_by_climbing);
    }
    included
}

/// Number of `false` entries: the nodes that can still be marked.
spec fn count_true_rest(b: Seq<bool>) -> nat
    decreases b.len(),
{
    if b.len() == 0 {
        0
    } else {
        count_true_rest(b.drop_last()) + if b.last() {
            0nat
        } else {
            1nat
        }
    }
}

proof fn lemma_count_rest_set(b: Seq<bool>, i: int)
    requires
        0 <= i < b.len(),
        !b[i],
    ensures
        count_true_rest(b.update(i, true)) < count_true_rest(b),
    decreases b.len(),
{
    let c = b.update(i, true);
    if i < b.len() - 1 {
        assert(c.drop_last() =~= b.drop_last().update(i, true));
        lemma_count_rest_set(b.drop_last(), i);
    } else {
        assert(c.drop_last() =~= b.drop_last());
    }
}

// ── Node sets ────────────────────────────────────────────────────────────────

/// The nodes marked in `active`, in increasing order.
fn marked_nodes(active: &Vec<bool>) -> (ids: Vec<u32>)
    requires
        active@.len() <= u32::MAX,
    ensures
        ids@.len() == count_true(active@),
        forall|i: int| 0 <= i < ids@.len() ==> (#[trigger] ids@[i]) < active@.len() && active@[ids@[i] as int],
        forall|i: int, j: int| 0 <= i < j < ids@.len() ==> ids@[i] < ids@[j],
        forall|v: int| 0 <= v < active@.len() && #[trigger] active@[v] ==> ids@.contains(v as u32),
{
    let n = active.len();
    let mut ids: Vec<u32> = Vec::new();
    let mut v: usize = 0;
    while v < n
        invariant
            v <= n,
            n == active@.len(),
            n <= u32::MAX,
            ids@.len() == count_true(active@.subrange(0, v as int)),
            forall|i: int| 0 <= i < ids@.len() ==> (#[trigger] ids@[i]) < v && active@[ids@[i] as int],
            forall|i: int, j: int| 0 <= i < j < ids@.len() ==> ids@[i] < ids@[j],
            forall|x: int| 0 <= x < v && #[trigger] active@[x] ==> ids@.contains(x as u32),
        decreases n - v,
    {
        let ghost before = ids@;
        proof {
            assert(active@.subrange(0, v + 1).drop_last() =~= active@.subrange(0, v as int));
        }
        if active[v] {
            ids.push(v as u32);
        }
        proof {
            assert forall|x: int| 0 <= x < v + 1 && #[trigger] active@[x] implies ids@.contains(x as u32) by {
                if x < v {
                    let k = choose|k: int| 0 <= k < before.len() && before[k] == x as u32;
                    assert(ids@[k] == x as u32);
                } else {
                    assert(ids@[ids@.len() - 1] == x as u32);
                }
            }
        }
        v = v + 1;
    }
    proof {
        assert(active@.subrange(0, n as int) =~= active@);
    }
    ids
}

/// The ids of the nodes, as `NodeId`s.
fn as_node_ids(ids: &Vec<u32>) -> (r: Vec<NodeId>)
    ensures
        r@.len() == ids@.len(),
        forall|i: int| 0 <= i < ids@.len() ==> (#[trigger] r@[i]).0 == ids@[i],
{
    let mut r: Vec<NodeId> = Vec::with_capacity(ids.len());
    let mut i: usize = 0;
    while i < ids.len()
        invariant
            i <= ids@.len(),
            r@.len() == i,
            forall|k: int| 0 <= k < i ==> (#[trigger] r@[k]).0 == ids@[k],
        decreases ids@.len() - i,
    {
        r.push(NodeId(ids[i]));
        i = i + 1;
    }
    r
}


/// Every edge of `G[active]` of weight at most `d` has a lift in `p`.
pub open spec fn covers_short_edges(p: Projection, es: Seq<(u32, u32, i64)>, active: Seq<bool>, d: int) -> bool {
    forall|f: int|
        0 <= f < es.len() && active[(#[trigger] es[f]).0 as int] && active[es[f].1 as int] && es[f].2 <= d
            ==> lifts_edge(p, es[f].0 as int, es[f].1 as int, es[f].2)
}

/// Every edge of `G[active]` of weight at most `d` lifts inside one of the
/// pieces, or leaves a piece in which its source is present for a later
/// piece that holds the first representative of its target.
pub open spec fn pieces_cover(pcs: Seq<Projection>, es: Seq<(u32, u32, i64)>, active: Seq<bool>, d: int) -> bool {
    forall|f: int|
        0 <= f < es.len() && active[(#[trigger] es[f]).0 as int] && active[es[f].1 as int] && es[f].2 <= d ==> (
        exists|i: int| 0 <= i < pcs.len() && #[trigger] lifts_edge(pcs[i], es[f].0 as int, es[f].1 as int, es[f].2))
            || (exists|i: int|
            0 <= i < pcs.len() && (#[trigger] pcs[i].reps()[es[f].0 as int]) is Some && (first_rep_layer(
                pcs,
                es[f].1 as int,
                pcs.len() as int,
            ) matches Some(j) && j > i))
}

/// The identity projection of `G[nodes]` for the marked nodes; an original
/// node is present exactly when it is marked.
fn identity_of_marked(g: &Graph, active: &Vec<bool>) -> (p: Projection)
    requires
        g.wf(),
        g.num_nodes() < u32::MAX,
        active@.len() == g.num_nodes(),
    ensures
        p.projects_onto(g.num_nodes(), g.edge_list()),
        forall|v: int| 0 <= v < g.num_nodes() ==> ((#[trigger] p.reps()[v]) is Some <==> active@[v]),
        p.graph.num_nodes() == count_true(active@),
        forall|f: int|
            0 <= f < g.edge_list().len() && active@[(#[trigger] g.edge_list()[f]).0 as int]
                && active@[g.edge_list()[f].1 as int] ==> lifts_edge(
                p,
                g.edge_list()[f].0 as int,
                g.edge_list()[f].1 as int,
                g.edge_list()[f].2,
            ),
{
    let ids = marked_nodes(active);
    let nodes = as_node_ids(&ids);
    proof {
        lemma_count_true_le_len(active@);
        assert forall|i: int, j: int| 0 <= i < nodes@.len() && 0 <= j < nodes@.len() && i != j implies nodes@[i] != nodes@[j] by {
            if i < j {
                assert(ids@[i] < ids@[j]);
            } else {
                assert(ids@[j] < ids@[i]);
            }
        }
    }
    let p = Projection::identity_subgraph(g, nodes.as_slice());
    proof {
        assert forall|v: int| 0 <= v < g.num_nodes() implies ((#[trigger] p.reps()[v]) is Some <==> active@[v]) by {
            if active@[v] {
                assert(ids@.contains(v as u32));
                let k = choose|k: int| 0 <= k < ids@.len() && ids@[k] == v as u32;
                assert(nodes@[k].0 == v);
                assert(p.reps()[nodes@[k].0 as int] == Some(NodeId(k as u32)));
            } else {
                if nodes@.contains(NodeId(v as u32)) {
                    let k = choose|k: int| 0 <= k < nodes@.len() && nodes@[k] == NodeId(v as u32);
                    assert(ids@[k] == v);
                    assert(false);
                }
            }
        }
        g.lemma_wf_edges();
        let es = g.edge_list();
        assert forall|f: int|
            0 <= f < es.len() && active@[(#[trigger] es[f]).0 as int] && active@[es[f].1 as int] implies lifts_edge(
            p,
            es[f].0 as int,
            es[f].1 as int,
            es[f].2,
        ) by {
            let u = es[f].0 as int;
            let v = es[f].1 as int;
            assert(ids@.contains(u as u32));
            assert(ids@.contains(v as u32));
            let a = choose|a: int| 0 <= a < ids@.len() && ids@[a] == u as u32;
            let b = choose|b: int| 0 <= b < ids@.len() && ids@[b] == v as u32;
            assert(nodes@[a].0 == es[f].0 && nodes@[b].0 == es[f].1);
            assert(p.graph.edge_list().contains((a as u32, b as u32, es[f].2)));
            assert(p.map()[a].0 == u && p.map()[b].0 == v);
        }
    }
    p
}

proof fn lemma_count_true_le_len(a: Seq<bool>)
    ensures
        count_true(a) <= a.len(),
    decreases a.len(),
{
    if a.len() > 0 {
        lemma_count_true_le_len(a.drop_last());
    }
}

/// `active[v] && dist[v] <= r` (when `within`) or `active[v] && dist[v] > r`.
fn select_by_radius(active: &Vec<bool>, dist: &Vec<i64>, r: i64, within: bool) -> (b: Vec<bool>)
    requires
        dist@.len() == active@.len(),
    ensures
        b@.len() == active@.len(),
        forall|v: int|
            0 <= v < active@.len() ==> #[trigger] b@[v] == (active@[v] && if within {
                dist@[v] <= r
            } else {
                dist@[v] > r
            }),
{
    let n = active.len();
    let mut b: Vec<bool> = Vec::with_capacity(n);
    let mut v: usize = 0;
    while v < n
        invariant
            v <= n,
            n == active@.len(),
            dist@.len() == n,
            b@.len() == v,
            forall|x: int|
                0 <= x < v ==> #[trigger] b@[x] == (active@[x] && if within {
                    dist@[x] <= r
                } else {
                    dist@[x] > r
                }),
        decreases n - v,
    {
        let keep = active[v] && if within {
            dist[v] <= r
        } else {
            dist[v] > r
        };
        b.push(keep);
        v = v + 1;
    }
    b
}

/// Entrywise `a && b` (when `both`) or `a || b`.
fn combine(a: &Vec<bool>, b: &Vec<bool>, both: bool) -> (c: Vec<bool>)
    requires
        a@.len() == b@.len(),
    ensures
        c@.len() == a@.len(),
        forall|v: int| 0 <= v < a@.len() ==> #[trigger] c@[v] == if both {
            a@[v] && b@[v]
        } else {
            a@[v] || b@[v]
        },
{
    let n = a.len();
    let mut c: Vec<bool> = Vec::with_capacity(n);
    let mut v: usize = 0;
    while v < n
        invariant
            v <= n,
            n == a@.len(),
            b@.len() == n,
            c@.len() == v,
            forall|x: int| 0 <= x < v ==> #[trigger] c@[x] == if both {
                a@[x] && b@[x]
            } else {
                a@[x] || b@[x]
            },
        decreases n - v,
    {
        c.push(if both {
            a[v] && b[v]
        } else {
            a[v] || b[v]
        });
        v = v + 1;
    }
    c
}

/// Number of `true` entries.
fn count_marked(a: &Vec<bool>) -> (c: usize)
    ensures
        c == count_true(a@),
{
    let n = a.len();
    let mut c: usize = 0;
    let mut v: usize = 0;
    while v < n
        invariant
            v <= n,
            n == a@.len(),
            c == count_true(a@.subrange(0, v as int)),
            c <= v,
        decreases n - v,
    {
        proof {
            assert(a@.subrange(0, v + 1).drop_last() =~= a@.subrange(0, v as int));
        }
        if a[v] {
            c = c + 1;
        }
        v = v + 1;
    }
    proof {
        assert(a@.subrange(0, n as int) =~= a@);
    }
    c
}

// ── Layering with a size check ───────────────────────────────────────────────

/// Whether the layered projection of `pieces` fits `u32` node and edge ids
/// (what [`Projection::layer`] needs): its nodes, and the pieces' edges with
/// the cross edges it adds.
fn layer_fits(pieces: &Vec<Projection>, g: &Graph) -> (b: bool)
    requires
        g.wf(),
        forall|i: int|
            0 <= i < pieces@.len() ==> (#[trigger] pieces@[i]).wf() && pieces@[i].reps().len() == g.num_nodes(),
    ensures
        b == (node_offset(pieces@, pieces@.len() as int) <= u32::MAX && edge_total(
            pieces@,
            pieces@.len() as int,
        ) + layer_cross(pieces@, g.edge_list(), pieces@.len() as int).len() <= u32::MAX),
{
    let ghost pcs = pieces@;
    let k = pieces.len();
    let mut nodes: u128 = 0;
    let mut edges: u128 = 0;
    let mut i: usize = 0;
    while i < k
        invariant
            i <= k,
            k == pcs.len(),
            pcs == pieces@,
            forall|t: int| 0 <= t < pcs.len() ==> (#[trigger] pcs[t]).wf(),
            nodes == node_offset(pcs, i as int),
            edges == edge_total(pcs, i as int),
            nodes <= i * 0x1_0000_0000,
            edges <= i * 0x1_0000_0000,
        decreases k - i,
    {
        let p = &pieces[i];
        proof {
            p.graph.lemma_wf_edges();
            assert((i + 1) * 0x1_0000_0000 == i * 0x1_0000_0000 + 0x1_0000_0000) by (nonlinear_arith);
            assert((i + 1) * 0x1_0000_0000 <= 0x1_0000_0000_0000_0000 * 0x1_0000_0000) by (nonlinear_arith)
                requires
                    i < 0x1_0000_0000_0000_0000,
            ;
        }
        nodes = nodes + p.graph.node_count() as u128;
        edges = edges + p.graph.edge_count() as u128;
        i = i + 1;
    }
    if nodes > u32::MAX as u128 {
        return false;
    }
    if edges > u32::MAX as u128 {
        return false;
    }
    let cross = cross_edge_count(pieces, g);
    edges + cross as u128 <= u32::MAX as u128
}

/// `Layer(pieces)` when it fits `u32` ids, and otherwise the identity
/// projection of `G[active]` (which covers every path inside `active`).
/// Either way an original node is present exactly when it is active.
fn layer_or_identity(pieces: Vec<Projection>, g: &Graph, active: &Vec<bool>, d: i64) -> (p: Projection)
    requires
        pieces_cover(pieces@, g.edge_list(), active@, d as int),
        g.wf(),
        g.num_nodes() < u32::MAX,
        active@.len() == g.num_nodes(),
        forall|i: int|
            0 <= i < pieces@.len() ==> (#[trigger] pieces@[i]).projects_onto(
                g.num_nodes(),
                g.edge_list(),
            ),
        forall|v: int|
            0 <= v < g.num_nodes() ==> (#[trigger] active@[v] <==> exists|i: int|
                0 <= i < pieces@.len() && (#[trigger] pieces@[i].reps()[v]) is Some),
    ensures
        p.projects_onto(g.num_nodes(), g.edge_list()),
        forall|v: int| 0 <= v < g.num_nodes() ==> ((#[trigger] p.reps()[v]) is Some <==> active@[v]),
        covers_short_edges(p, g.edge_list(), active@, d as int),
{
    let ghost pcs = pieces@;
    if layer_fits(&pieces, g) {
        let res = Projection::layer(pieces, g);
        proof {
            assert forall|v: int| 0 <= v < g.num_nodes() implies ((#[trigger] res.reps()[v]) is Some
                <==> active@[v]) by {
                lemma_first_rep_layer(pcs, v, pcs.len() as int);
                assert(res.reps()[v] == layered_rep(pcs, v));
                if active@[v] {
                    let i = choose|i: int| 0 <= i < pcs.len() && (#[trigger] pcs[i].reps()[v]) is Some;
                    assert(pcs[i].reps()[v] is Some);
                } else {
                    if first_rep_layer(pcs, v, pcs.len() as int) is Some {
                        let t = first_rep_layer(pcs, v, pcs.len() as int).unwrap();
                        assert(pcs[t].reps()[v] is Some);
                    }
                }
            }
            let es = g.edge_list();
            assert forall|f: int|
                0 <= f < es.len() && active@[(#[trigger] es[f]).0 as int] && active@[es[f].1 as int] && es[f].2
                    <= d implies lifts_edge(res, es[f].0 as int, es[f].1 as int, es[f].2) by {
                if exists|i: int|
                    0 <= i < pcs.len() && #[trigger] lifts_edge(pcs[i], es[f].0 as int, es[f].1 as int, es[f].2) {
                    let i = choose|i: int|
                        0 <= i < pcs.len() && #[trigger] lifts_edge(pcs[i], es[f].0 as int, es[f].1 as int, es[f].2);
                    assert(lifts_edge(pcs[i], es[f].0 as int, es[f].1 as int, es[f].2));
                } else {
                    let i = choose|i: int|
                        0 <= i < pcs.len() && (#[trigger] pcs[i].reps()[es[f].0 as int]) is Some && (first_rep_layer(
                            pcs,
                            es[f].1 as int,
                            pcs.len() as int,
                        ) matches Some(j) && j > i);
                    assert((pcs[i].reps()[es[f].0 as int]) is Some);
                }
            }
        }
        res
    } else {
        identity_of_marked(g, active)
    }
}

} // verus!
