//! Single-source shortest paths (SSSP) with negative integer weights.
//!
//! Implements the algorithm of Haeupler–Jiang–Saranurak (2025), §5, together
//! with Dijkstra's and Bellman-Ford's algorithms as subroutines.
use vstd::prelude::*;

use crate::arith::{clamp64, sat_add, sat_sub, sat_double};
use crate::graph::{EdgeId, Graph, NodeId, incident, incident_below, lemma_incident_members};
use crate::paths::{
    is_walk, walk_weight, is_shortest, non_negative, relaxed_out, all_relaxed, edges_within,
    weights_within, max_abs_weight, reaches_negative_cycle, lemma_walk_push,
    lemma_relaxed_lower_bound_nonneg, lemma_relaxed_lower_bound, lemma_max_abs_weight,
    lemma_walk_weight_bound, lemma_shortcut, lemma_pump, neg_count, neg_paths_within,
    lemma_neg_count_bound, lemma_walk_ends_within, abs_sum, lemma_abs_sum_edge, lemma_distinct_walk_bound,
    lemma_simple_shortcut, lemma_walk_at_least_minus_abs_sum,
};
use crate::queue::MinQueue;
use crate::scc::{estimates_backed, lemma_relax_backed, sat_relaxed, walk_bounded};

pub use crate::scaling::{restricted_sssp, sssp};
pub use crate::scc::{scc, sssp_cross_scc};

verus! {

/// A distance value of +∞ — no path exists.
pub const INF: i64 = 4611686018427387903i64;

/// Sum of the entries of `s`.
pub open spec fn sum_seq(s: Seq<i64>) -> int
    decreases s.len(),
{
    if s.len() == 0 {
        0
    } else {
        sum_seq(s.drop_last()) + s.last()
    }
}

pub proof fn lemma_sum_update(s: Seq<i64>, i: int, x: i64)
    requires
        0 <= i < s.len(),
    ensures
        sum_seq(s.update(i, x)) == sum_seq(s) - s[i] + x,
    decreases s.len(),
{
    let t = s.update(i, x);
    if i == s.len() - 1 {
        assert(t.drop_last() =~= s.drop_last());
    } else {
        assert(t.drop_last() =~= s.drop_last().update(i, x));
        lemma_sum_update(s.drop_last(), i, x);
    }
}

pub proof fn lemma_sum_nonneg(s: Seq<i64>)
    requires
        forall|i: int| 0 <= i < s.len() ==> s[i] >= 0,
    ensures
        sum_seq(s) >= 0,
    decreases s.len(),
{
    if s.len() > 0 {
        lemma_sum_nonneg(s.drop_last());
    }
}

/// A vector of `n` copies of `INF`.
fn inf_vec(n: usize) -> (v: Vec<i64>)
    ensures
        v@.len() == n,
        forall|i: int| 0 <= i < n ==> v@[i] == INF,
{
    let mut v: Vec<i64> = Vec::with_capacity(n);
    let mut i: usize = 0;
    while i < n
        invariant
            i <= n,
            v@.len() == i,
            forall|k: int| 0 <= k < i ==> v@[k] == INF,
        decreases n - i,
    {
        v.push(INF);
        i = i + 1;
    }
    v
}

// ═══════════════════════════════════════════════════════════════════════════════
// Dijkstra (non-negative weights only)
// ═══════════════════════════════════════════════════════════════════════════════
/// Single-source shortest paths via Dijkstra.
///
/// Requires all edge weights to be non-negative.
/// Returns a vector `dist` where `dist[v.0]` is the shortest distance
/// from `source` to `v`, or [`INF`] if unreachable (or no walk is lighter
/// than `INF`).
#[verifier::loop_isolation(false)]
pub fn dijkstra(g: &Graph, source: NodeId) -> (dist: Vec<i64>)
    requires
        g.wf(),
        source.0 < g.num_nodes(),
        non_negative(g.edge_list()),
    ensures
        dist@.len() == g.num_nodes(),
        forall|v: int|
            0 <= v < g.num_nodes() ==> is_shortest(
                g.edge_list(),
                source.0 as int,
                v,
                #[trigger] dist@[v] as int,
            ),
{
    let ghost es = g.edge_list();
    let ghost s = source.0 as int;
    proof {
        g.lemma_wf_edges();
    }
    let n = g.node_count();
    let mut dist = inf_vec(n);
    dist.set(source.0 as usize, 0);
    let ghost mut wit: Seq<Seq<int>> = Seq::new(n as nat, |i: int| Seq::<int>::empty());
    // Min-heap of (distance, node).
    let mut heap = MinQueue::new();
    heap.push((0, source.0));
    proof {
        lemma_sum_nonneg(dist@);
        assert forall|u: int|
            0 <= u < n && #[trigger] dist@[u] < INF implies heap.elems().contains(
            (dist@[u], u as u32),
        ) || relaxed_out(es, dist@, u) by {
            assert(u == s);
            assert(heap.elems()[0] == (dist@[u], u as u32));
        }
    }
    loop
        invariant
            dist@.len() == n,
            wit.len() == n,
            n == g.num_nodes(),
            dist@[s] == 0,
            forall|v: int| 0 <= v < n ==> 0 <= #[trigger] dist@[v] <= INF,
            forall|v: int|
                0 <= v < n && #[trigger] dist@[v] < INF ==> is_walk(es, wit[v], s, v)
                    && walk_weight(es, wit[v]) == dist@[v],
            forall|x: (i64, u32)|
                #[trigger] heap.elems().contains(x) ==> x.1 < n && dist@[x.1 as int] <= x.0 && x.0
                    < INF,
            forall|u: int|
                0 <= u < n && #[trigger] dist@[u] < INF ==> heap.elems().contains(
                    (dist@[u], u as u32),
                ) || relaxed_out(es, dist@, u),
        decreases 2 * sum_seq(dist@) + heap.elems().len(),
    {
        let ghost measure0 = 2 * sum_seq(dist@) + heap.elems().len();
        let ghost heap0 = heap.elems();
        let popped = heap.pop();
        let (d, u) = match popped {
            None => break,
            Some(x) => x,
        };
        proof {
            lemma_sum_nonneg(dist@);
            assert(heap0.contains((d, u)));
            assert(heap.elems().len() + 1 == heap0.len());
            assert(2 * sum_seq(dist@) + heap.elems().len() < measure0);
        }
        if d > dist[u as usize] {
            // stale entry
            proof {
                assert forall|v: int|
                    0 <= v < n && #[trigger] dist@[v] < INF implies heap.elems().contains(
                    (dist@[v], v as u32),
                ) || relaxed_out(es, dist@, v) by {
                    if heap0.contains((dist@[v], v as u32)) {
                        if (dist@[v], v as u32) != (d, u) {
                        } else {
                            assert(false);
                        }
                    }
                }
            }
            continue;
        }
        let ghost dist0 = dist@;
        let ghost outs = incident(es, u as int, true);
        proof {
            lemma_incident_members(es, u as int, es.len() as int, true);
        }
        let mut it = g.out_edges(NodeId(u));
        loop
            invariant
                it.graph() == *g,
                outs == incident(es, u as int, true),
                it.remaining().len() <= outs.len(),
                it.remaining() == outs.subrange(
                    outs.len() - it.remaining().len(),
                    outs.len() as int,
                ),
                dist@.len() == n,
                wit.len() == n,
                dist@[s] == 0,
                dist@[u as int] == d,
                forall|v: int| 0 <= v < n ==> 0 <= #[trigger] dist@[v] <= dist0[v],
                forall|v: int|
                    0 <= v < n && #[trigger] dist@[v] < INF ==> is_walk(es, wit[v], s, v)
                        && walk_weight(es, wit[v]) == dist@[v],
                forall|x: (i64, u32)|
                    #[trigger] heap.elems().contains(x) ==> x.1 < n && dist@[x.1 as int] <= x.0
                        && x.0 < INF,
                forall|v: int|
                    0 <= v < n && v != u && #[trigger] dist@[v] < INF ==> heap.elems().contains(
                        (dist@[v], v as u32),
                    ) || relaxed_out(es, dist@, v),
                forall|k: int|
                    0 <= k < outs.len() - it.remaining().len() ==> dist@[es[#[trigger] outs[k]].1 as int]
                        <= d + es[outs[k]].2,
                2 * sum_seq(dist@) + heap.elems().len() < measure0,
            decreases it.remaining().len(),
        {
            let ghost rem0 = it.remaining();
            let nx = it.next();
            let e = match nx {
                None => break,
                Some(e) => e,
            };
            let ghost k0 = outs.len() - rem0.len();
            proof {
                assert(outs[k0] == rem0[0]);
                assert(it.remaining() =~= outs.subrange(
                    outs.len() - it.remaining().len(),
                    outs.len() as int,
                ));
            }
            let v = g.target(e);
            let w = g.weight(e);
            let nd = sat_add(d, w);
            if nd < dist[v.0 as usize] {
                let ghost dist1 = dist@;
                let ghost heap1 = heap.elems();
                proof {
                    assert(es[e.0 as int].0 == u);
                    assert(es[e.0 as int].2 >= 0);
                    lemma_walk_push(es, wit[u as int], s, u as int, e.0 as int);
                    lemma_sum_update(dist1, v.0 as int, nd);
                }
                dist.set(v.0 as usize, nd);
                heap.push((nd, v.0));
                proof {
                    wit = wit.update(v.0 as int, wit[u as int].push(e.0 as int));
                    assert(heap.elems().contains((nd, v.0)));
                    assert forall|x: (i64, u32)| #[trigger]
                        heap.elems().contains(x) implies x.1 < n && dist@[x.1 as int] <= x.0 && x.0
                        < INF by {
                        if x != (nd, v.0) {
                            assert(heap1.contains(x));
                        }
                    }
                    assert forall|y: int|
                        0 <= y < n && y != u && #[trigger] dist@[y] < INF implies heap.elems().contains(
                        (dist@[y], y as u32),
                    ) || relaxed_out(es, dist@, y) by {
                        if y != v.0 {
                            if heap1.contains((dist1[y], y as u32)) {
                                assert(heap.elems().contains((dist@[y], y as u32)));
                            } else {
                                assert(relaxed_out(es, dist1, y));
                                assert forall|f: int|
                                    0 <= f < es.len() && (#[trigger] es[f]).0 == y implies dist@[es[f].1 as int]
                                    <= dist@[y] + es[f].2 by {
                                    assert(dist1[es[f].1 as int] <= dist1[y] + es[f].2);
                                }
                            }
                        }
                    }
                }
            }
            proof {
                assert forall|k: int|
                    0 <= k < outs.len() - it.remaining().len() implies dist@[es[#[trigger] outs[k]].1 as int]
                    <= d + es[outs[k]].2 by {
                    if k == k0 {
                    }
                }
            }
        }
        proof {
            assert(it.remaining().len() == 0);
            assert forall|f: int| 0 <= f < es.len() && (#[trigger] es[f]).0 == u implies dist@[es[f].1 as int]
                <= dist@[u as int] + es[f].2 by {
                assert(outs.contains(f));
                let k = choose|k: int| 0 <= k < outs.len() && outs[k] == f;
            }
            assert(relaxed_out(es, dist@, u as int));
            assert(2 * sum_seq(dist@) + heap.elems().len() < measure0);
            lemma_sum_nonneg(dist@);
        }
    }
    proof {
        assert forall|v: int| 0 <= v < n implies is_shortest(es, s, v, #[trigger] dist@[v] as int) by {
            assert(all_relaxed(es, dist@)) by {
                assert forall|e: int|
                    0 <= e < es.len() && dist@[(#[trigger] es[e]).0 as int] < INF implies dist@[es[e].1 as int]
                    <= dist@[es[e].0 as int] + es[e].2 by {
                    let x = es[e].0 as int;
                    assert(es[e].0 < n);
                    assert(relaxed_out(es, dist@, x));
                }
            }
            assert forall|p: Seq<int>| #[trigger] is_walk(es, p, s, v) implies dist@[v] <= walk_weight(
                es,
                p,
            ) by {
                lemma_relaxed_lower_bound_nonneg(es, dist@, s, p, v);
            }
            if dist@[v] < INF {
                assert(is_walk(es, wit[v], s, v));
            }
        }
    }
    dist
}


/// Number of finite (below `INF`) entries of `d`.
pub open spec fn num_finite(d: Seq<i64>) -> nat
    decreases d.len(),
{
    if d.len() == 0 {
        0
    } else {
        num_finite(d.drop_last()) + if d.last() < INF {
            1nat
        } else {
            0nat
        }
    }
}

proof fn lemma_num_finite_update(d: Seq<i64>, i: int, x: i64)
    requires
        0 <= i < d.len(),
    ensures
        num_finite(d.update(i, x)) + (if d[i] < INF {
            1int
        } else {
            0int
        }) == num_finite(d) + (if x < INF {
            1int
        } else {
            0int
        }),
    decreases d.len(),
{
    let t = d.update(i, x);
    if i == d.len() - 1 {
        assert(t.drop_last() =~= d.drop_last());
    } else {
        assert(t.drop_last() =~= d.drop_last().update(i, x));
        lemma_num_finite_update(d.drop_last(), i, x);
    }
}

proof fn lemma_num_finite_le(d: Seq<i64>)
    ensures
        num_finite(d) <= d.len(),
    decreases d.len(),
{
    if d.len() > 0 {
        lemma_num_finite_le(d.drop_last());
    }
}

/// The weights of `es` are small enough that Bellman-Ford on `n` nodes never
/// leaves the range of `i64` nor reaches `INF` by arithmetic: every sum it
/// forms is the exact weight of a walk.
pub open spec fn bf_bounded(es: Seq<(u32, u32, i64)>, n: int) -> bool {
    (n * es.len() + n + 1) * max_abs_weight(es) <= INF
}

proof fn lemma_mul_le(a: int, b: int, w: int)
    requires
        a <= b,
        w >= 0,
    ensures
        a * w <= b * w,
{
    assert(a * w <= b * w) by (nonlinear_arith)
        requires
            a <= b,
            w >= 0,
    ;
}

proof fn lemma_bf_bounds(n: int, m: int, w: int)
    requires
        n >= 1,
        m >= 0,
        w >= 0,
        (n * m + n + 1) * w <= INF,
    ensures
        (n * m + 1) * w <= INF,
        n * w < INF,
        (n - 1) * m <= n * m,
{
    assert((n - 1) * m <= n * m) by (nonlinear_arith)
        requires
            n >= 1,
            m >= 0,
    ;
    assert((n * m + 1) * w <= (n * m + n + 1) * w) by (nonlinear_arith)
        requires
            n >= 1,
            m >= 0,
            w >= 0,
    ;
    assert(n * w + (n * m + 1) * w == (n * m + n + 1) * w) by (nonlinear_arith);
    assert((n * m + 1) * w >= w) by (nonlinear_arith)
        requires
            n >= 1,
            m >= 0,
            w >= 0,
    ;
    if w == 0 {
        assert(n * w == 0) by (nonlinear_arith)
            requires
                w == 0,
        ;
    }
}

/// A vector of `n` copies of `INF`, as a sequence.
spec fn inf_seq(n: nat) -> Seq<i64> {
    Seq::new(n, |i: int| INF)
}

proof fn lemma_num_finite_inf(n: nat)
    ensures
        num_finite(inf_seq(n)) == 0,
    decreases n,
{
    if n > 0 {
        assert(inf_seq(n).drop_last() =~= inf_seq((n - 1) as nat));
        lemma_num_finite_inf((n - 1) as nat);
    }
}

/// Every walk from `s` that uses no edge twice and has at most `r` edges
/// (or `r + 1`, the last one below `j`) ends at an entry no heavier than it.
pub open spec fn simple_bounded(es: Seq<(u32, u32, i64)>, dist: Seq<i64>, s: int, r: int, j: int) -> bool {
    forall|p: Seq<int>, v: int|
        #[trigger] is_walk(es, p, s, v) && p.no_duplicates() && (p.len() <= r || (p.len() == r + 1 && p.last()
            < j)) ==> dist[v] <= walk_weight(es, p)
}

/// Weights whose absolute values sum below `INF`, and no negative cycle
/// reachable from `s`: every walk-backed entry lies in `[−abs_sum, INF]`.
proof fn lemma_backed_lower(es: Seq<(u32, u32, i64)>, n: int, s: int, dist: Seq<i64>, x: int)
    requires
        backed(es, s, dist),
        abs_sum(es) < INF,
        !reaches_negative_cycle(es, s),
        edges_within(es, n),
        0 <= s < n,
        0 <= x < dist.len(),
        dist[x] < INF,
    ensures
        dist[x] >= -abs_sum(es),
{
    reveal(backed);
    assert(walk_bounded(es, s, x, dist[x] as int));
    let p = choose|p: Seq<int>| #[trigger] is_walk(es, p, s, x) && walk_weight(es, p) <= dist[x];
    lemma_walk_at_least_minus_abs_sum(es, n, s, p, x);
}

/// With every edge relaxed and the source at most 0, a walk that uses no
/// edge twice ends at an entry no heavier than it, when the absolute weights
/// sum below `INF`.
proof fn lemma_relaxed_distinct(es: Seq<(u32, u32, i64)>, dist: Seq<i64>, s: int, q: Seq<int>, v: int)
    requires
        all_relaxed(es, dist),
        0 <= s < dist.len(),
        dist[s] <= 0,
        edges_within(es, dist.len() as int),
        abs_sum(es) < INF,
        is_walk(es, q, s, v),
        q.no_duplicates(),
    ensures
        dist[v] <= walk_weight(es, q),
    decreases q.len(),
{
    if q.len() > 0 {
        let e = q.last();
        let x = es[e].0 as int;
        let q2 = q.drop_last();
        assert(q2.no_duplicates()) by {
            assert forall|a: int, b: int| 0 <= a < b < q2.len() implies q2[a] != q2[b] by {
                assert(q2[a] == q[a] && q2[b] == q[b]);
            }
        }
        lemma_relaxed_distinct(es, dist, s, q2, x);
        lemma_distinct_walk_bound(es, q2, s, x);
        assert(0 <= e < es.len());
        assert(dist[x] < INF);
        assert(dist[es[e].1 as int] <= dist[es[e].0 as int] + es[e].2);
    }
}

/// After `n − 1` rounds (every walk without a repeated edge accounted for),
/// no edge from a finite entry can lower another entry.
proof fn lemma_bf_final_simple(es: Seq<(u32, u32, i64)>, dist: Seq<i64>, n: int, s: int, j: int)
    requires
        backed(es, s, dist),
        abs_sum(es) < INF,
        !reaches_negative_cycle(es, s),
        edges_within(es, n),
        dist.len() == n,
        0 <= s < n,
        simple_bounded(es, dist, s, n - 1, 0),
        0 <= j < es.len(),
        dist[es[j].0 as int] < INF,
    ensures
        dist[es[j].1 as int] <= dist[es[j].0 as int] + es[j].2,
{
    reveal(backed);
    let u = es[j].0 as int;
    assert(walk_bounded(es, s, u, dist[u] as int));
    let p = choose|p: Seq<int>| #[trigger] is_walk(es, p, s, u) && walk_weight(es, p) <= dist[u];
    lemma_walk_push(es, p, s, u, j);
    let q = lemma_simple_shortcut(es, n, s, p.push(j), es[j].1 as int);
    assert(q.len() <= n - 1);
}

/// The final entries are the distances: bounded by every walk without a
/// repeated edge (after `n − 1` rounds, or with every edge relaxed), and
/// each finite one backed by a walk.
proof fn lemma_bf_exact_simple(es: Seq<(u32, u32, i64)>, dist: Seq<i64>, n: int, s: int, v: int)
    requires
        backed(es, s, dist),
        abs_sum(es) < INF,
        !reaches_negative_cycle(es, s),
        edges_within(es, n),
        dist.len() == n,
        0 <= s < n,
        dist[s] <= 0,
        simple_bounded(es, dist, s, n - 1, 0) || all_relaxed(es, dist),
        forall|x: int| 0 <= x < n ==> #[trigger] dist[x] <= INF,
        0 <= v < n,
    ensures
        is_shortest(es, s, v, dist[v] as int),
{
    assert forall|p: Seq<int>| #[trigger] is_walk(es, p, s, v) implies dist[v] <= walk_weight(es, p) by {
        let q = lemma_simple_shortcut(es, n, s, p, v);
        if simple_bounded(es, dist, s, n - 1, 0) {
            assert(q.len() <= n - 1);
        } else {
            lemma_relaxed_distinct(es, dist, s, q, v);
        }
    }
    if dist[v] < INF {
        reveal(backed);
        assert(walk_bounded(es, s, v, dist[v] as int));
        let p = choose|p: Seq<int>| #[trigger] is_walk(es, p, s, v) && walk_weight(es, p) <= dist[v];
        assert(dist[v] <= walk_weight(es, p));
    }
}

/// Estimates backed by walks from `s`, with the source at most 0 and no edge
/// able to lower an entry, are the distances from `s` when the absolute
/// weights sum below `INF` and no negative cycle is reachable from `s`.
pub proof fn lemma_relaxed_estimates_exact(es: Seq<(u32, u32, i64)>, dist: Seq<i64>, n: int, s: int)
    requires
        edges_within(es, n),
        dist.len() == n,
        0 <= s < n,
        dist[s] <= 0,
        forall|v: int| 0 <= v < n ==> #[trigger] dist[v] <= INF,
        estimates_backed(es, s, dist),
        forall|e: int| 0 <= e < es.len() ==> #[trigger] sat_relaxed(es, dist, e),
        abs_sum(es) < INF,
        !reaches_negative_cycle(es, s),
    ensures
        forall|v: int| 0 <= v < n ==> is_shortest(es, s, v, #[trigger] dist[v] as int),
{
    assert(backed(es, s, dist)) by {
        reveal(backed);
    }
    assert forall|e: int| 0 <= e < es.len() && dist[(#[trigger] es[e]).0 as int] < INF implies dist[es[e].1 as int]
        <= dist[es[e].0 as int] + es[e].2 by {
        lemma_backed_lower(es, n, s, dist, es[e].0 as int);
        lemma_abs_sum_edge(es, e);
        assert(sat_relaxed(es, dist, e));
    }
    assert forall|v: int| 0 <= v < n implies is_shortest(es, s, v, #[trigger] dist[v] as int) by {
        lemma_bf_exact_simple(es, dist, n, s, v);
    }
}

/// Once every edge is relaxed and finite entries are at most `(n-1)·w`, the
/// entries are the distances and no negative cycle is reachable.
proof fn lemma_bf_final_some(
    es: Seq<(u32, u32, i64)>,
    dist: Seq<i64>,
    wit: Seq<Seq<int>>,
    n: int,
    w: int,
    s: int,
)
    requires
        weights_within(es, w),
        w >= 0,
        edges_within(es, n),
        dist.len() == n,
        wit.len() == n,
        0 <= s < n,
        dist[s] <= 0,
        n * w < INF,
        all_relaxed(es, dist),
        forall|v: int| 0 <= v < n ==> #[trigger] dist[v] <= INF,
        forall|v: int| 0 <= v < n && #[trigger] dist[v] < INF ==> dist[v] <= (n - 1) * w,
        forall|v: int|
            0 <= v < n && #[trigger] dist[v] < INF ==> is_walk(es, wit[v], s, v) && walk_weight(
                es,
                wit[v],
            ) == dist[v],
    ensures
        forall|v: int| 0 <= v < n ==> is_shortest(es, s, v, #[trigger] dist[v] as int),
        !reaches_negative_cycle(es, s),
{
    assert((n - 1) * w + w == n * w) by (nonlinear_arith);
    assert forall|v: int| 0 <= v < n implies is_shortest(es, s, v, #[trigger] dist[v] as int) by {
        assert forall|p: Seq<int>| #[trigger] is_walk(es, p, s, v) implies dist[v] <= walk_weight(
            es,
            p,
        ) by {
            lemma_relaxed_lower_bound(es, dist, s, w, (n - 1) * w, p, v);
        }
        if dist[v] < INF {
            assert(is_walk(es, wit[v], s, v));
        }
    }
    if reaches_negative_cycle(es, s) {
        let (p, c, x) = choose|p: Seq<int>, c: Seq<int>, x: int|
            #[trigger] is_walk(es, p, s, x) && #[trigger] is_walk(es, c, x, x) && walk_weight(es, c)
                < 0;
        lemma_relaxed_lower_bound(es, dist, s, w, (n - 1) * w, p, x);
        let k = (walk_weight(es, p) - dist[x] + 1) as nat;
        let q = lemma_pump(es, p, c, s, x, k);
        lemma_relaxed_lower_bound(es, dist, s, w, (n - 1) * w, q, x);
        assert(false);
    }
}

/// An edge that still improves a finite entry after `n - 1` full rounds
/// proves that a negative cycle is reachable.
proof fn lemma_bf_final_none(
    es: Seq<(u32, u32, i64)>,
    dist: Seq<i64>,
    wit: Seq<Seq<int>>,
    n: int,
    s: int,
    j: int,
)
    requires
        edges_within(es, n),
        dist.len() == n,
        wit.len() == n,
        0 <= s < n,
        0 <= j < es.len(),
        dist[es[j].0 as int] < INF,
        dist[es[j].0 as int] + es[j].2 < dist[es[j].1 as int],
        is_walk(es, wit[es[j].0 as int], s, es[j].0 as int),
        walk_weight(es, wit[es[j].0 as int]) == dist[es[j].0 as int],
        forall|p: Seq<int>, v: int|
            #[trigger] is_walk(es, p, s, v) && p.len() <= n - 1 ==> dist[v] <= walk_weight(es, p),
    ensures
        reaches_negative_cycle(es, s),
{
    if !reaches_negative_cycle(es, s) {
        let u = es[j].0 as int;
        let v = es[j].1 as int;
        lemma_walk_push(es, wit[u], s, u, j);
        let q = wit[u].push(j);
        let q2 = lemma_shortcut(es, n, s, q, v);
        assert(is_walk(es, q2, s, v));
        assert(false);
    }
}

// ═══════════════════════════════════════════════════════════════════════════════
// Bellman-Ford (reference baseline)
// ═══════════════════════════════════════════════════════════════════════════════
/// Classic Bellman-Ford SSSP — O(n·m) time, O(n) space.
///
/// Returns `Some(dist)` where `dist[v.0]` = distance from `source` to `v`,
/// or `None` if the graph contains a negative-weight cycle reachable from
/// `source`. Both hold whenever the weights are small enough that no sum
/// the algorithm forms leaves the range of `i64` ([`bf_bounded`]). When the
/// absolute weights sum below `INF` and no negative cycle is reachable, the
/// result is `Some` with the distances; with that sum alone a reachable
/// negative cycle can go unnoticed once entries saturate at `i64::MIN`.
/// Whatever the weights, a `Some` result never undercuts a distance (each
/// finite entry is backed by a walk) and no edge can lower an entry of it.
pub fn bellman_ford(g: &Graph, source: NodeId) -> (res: Option<Vec<i64>>)
    requires
        g.wf(),
        source.0 < g.num_nodes(),
    ensures
        res matches Some(d) ==> d@.len() == g.num_nodes() && d@[source.0 as int] <= 0 && (forall|v: int|
            0 <= v < g.num_nodes() ==> #[trigger] d@[v] <= INF) && estimates_backed(
            g.edge_list(),
            source.0 as int,
            d@,
        ) && (forall|e: int| 0 <= e < g.edge_list().len() ==> #[trigger] sat_relaxed(g.edge_list(), d@, e)),
        bf_bounded(g.edge_list(), g.num_nodes() as int) ==> (res is None
            <==> reaches_negative_cycle(g.edge_list(), source.0 as int)),
        bf_bounded(g.edge_list(), g.num_nodes() as int) ==> (res matches Some(d) ==> forall|v: int|
            0 <= v < g.num_nodes() ==> is_shortest(
                g.edge_list(),
                source.0 as int,
                v,
                #[trigger] d@[v] as int,
            )),
        abs_sum(g.edge_list()) < INF && !reaches_negative_cycle(g.edge_list(), source.0 as int) ==> (
        res matches Some(d) && forall|v: int|
            0 <= v < g.num_nodes() ==> is_shortest(
                g.edge_list(),
                source.0 as int,
                v,
                #[trigger] d@[v] as int,
            )),
{
    let ghost es = g.edge_list();
    let ghost s = source.0 as int;
    let ghost w_max = max_abs_weight(es);
    let ghost safe = bf_bounded(es, g.num_nodes() as int);
    let ghost safe2 = abs_sum(es) < INF && !reaches_negative_cycle(es, s);
    proof {
        g.lemma_wf_edges();
        lemma_max_abs_weight(es);
    }
    let n = g.node_count();
    let mut dist = inf_vec(n);
    proof {
        assert(dist@ =~= inf_seq(n as nat));
        lemma_num_finite_inf(n as nat);
        lemma_num_finite_update(dist@, s, 0);
        lemma_num_finite_le(dist@.update(s, 0));
    }
    dist.set(source.0 as usize, 0);
    proof {
        lemma_source_backed(es, s, dist@);
    }
    let ghost mut wit: Seq<Seq<int>> = Seq::new(n as nat, |i: int| Seq::<int>::empty());
    proof {
        assert(edges_within(es, n as int));
        if safe {
            lemma_bf_bounds(n as int, es.len() as int, w_max);
        }
        assert forall|p: Seq<int>, v: int| #[trigger] is_walk(es, p, s, v) && p.len() <= 0 implies dist@[v]
            <= walk_weight(es, p) by {
        }
        assert(simple_bounded(es, dist@, s, 0, 0));
    }
    // Collect edges once.
    let m = g.edge_count();
    let mut edges: Vec<(u32, u32, i64)> = Vec::with_capacity(m);
    let mut i: usize = 0;
    while i < m
        invariant
            i <= m,
            m == es.len(),
            edges@ == es.take(i as int),
            g.wf(),
            es == g.edge_list(),
            m <= u32::MAX,
        decreases m - i,
    {
        let e = EdgeId(i as u32);
        let tup = (g.source(e).0, g.target(e).0, g.weight(e));
        edges.push(tup);
        proof {
            assert(tup == es[i as int]);
            assert(es.take(i + 1) =~= es.take(i as int).push(es[i as int]));
        }
        i = i + 1;
    }
    assert(edges@ =~= es);
    // n−1 relaxation rounds (fewer when a round changes nothing).
    let rounds = n - 1;
    let mut settled = false;
    let mut r: usize = 0;
    while r < rounds && !settled
        invariant
            dist@.len() == n,
            wit.len() == n,
            edges@ == es,
            m == es.len(),
            n == g.num_nodes(),
            edges_within(es, n as int),
            0 <= s < n,
            weights_within(es, w_max),
            w_max >= 0,
            safe == bf_bounded(es, n as int),
            safe ==> (n * m + 1) * w_max <= INF && n * w_max < INF && (n - 1) * m <= n * m,
            r <= rounds,
            rounds + 1 == n,
            dist@[s] <= 0,
            safe && settled ==> all_relaxed(es, dist@),
            safe2 == (abs_sum(es) < INF && !reaches_negative_cycle(es, s)),
            safe2 ==> simple_bounded(es, dist@, s, r as int, 0),
            safe2 && settled ==> all_relaxed(es, dist@),
            forall|v: int| 0 <= v < n ==> #[trigger] dist@[v] <= INF,
            safe ==> forall|v: int|
                0 <= v < n && #[trigger] dist@[v] < INF ==> is_walk(es, wit[v], s, v)
                    && walk_weight(es, wit[v]) == dist@[v],
            num_finite(dist@) <= n,
            backed(es, s, dist@),
            safe ==> forall|v: int|
                0 <= v < n && #[trigger] dist@[v] < INF ==> dist@[v] <= (num_finite(dist@) - 1)
                    * w_max,
            safe ==> forall|v: int|
                0 <= v < n && #[trigger] dist@[v] < INF ==> dist@[v] >= -((r * m) * w_max),
            safe ==> forall|p: Seq<int>, v: int|
                #[trigger] is_walk(es, p, s, v) && p.len() <= r ==> dist@[v] <= walk_weight(es, p),
        decreases rounds - r + (if settled {
            0int
        } else {
            1int
        }),
    {
        let mut updated = false;
        let ghost dist_start = dist@;
        let mut j: usize = 0;
        while j < m
            invariant
                dist@.len() == n,
                wit.len() == n,
                edges@ == es,
                m == es.len(),
                edges_within(es, n as int),
                0 <= s < n,
                weights_within(es, w_max),
                w_max >= 0,
                safe ==> (n * m + 1) * w_max <= INF && n * w_max < INF && (n - 1) * m <= n * m,
                r < rounds,
                rounds + 1 == n,
                j <= m,
                dist@[s] <= 0,
                forall|v: int| 0 <= v < n ==> #[trigger] dist@[v] <= INF,
                forall|v: int| 0 <= v < n ==> #[trigger] dist@[v] <= dist_start[v],
                !updated ==> dist@ == dist_start,
                safe && !updated ==> forall|k: int|
                    0 <= k < j && dist@[(#[trigger] es[k]).0 as int] < INF ==> dist@[es[k].1 as int]
                        <= dist@[es[k].0 as int] + es[k].2,
                safe2 == (abs_sum(es) < INF && !reaches_negative_cycle(es, s)),
                safe2 ==> simple_bounded(es, dist@, s, r as int, j as int),
                safe2 && !updated ==> forall|k: int|
                    0 <= k < j && dist@[(#[trigger] es[k]).0 as int] < INF ==> dist@[es[k].1 as int]
                        <= dist@[es[k].0 as int] + es[k].2,
                safe ==> forall|v: int|
                    0 <= v < n && #[trigger] dist@[v] < INF ==> is_walk(es, wit[v], s, v)
                        && walk_weight(es, wit[v]) == dist@[v],
                num_finite(dist@) <= n,
                backed(es, s, dist@),
                safe ==> forall|v: int|
                    0 <= v < n && #[trigger] dist@[v] < INF ==> dist@[v] <= (num_finite(dist@) - 1)
                        * w_max,
                safe ==> forall|v: int|
                    0 <= v < n && #[trigger] dist@[v] < INF ==> dist@[v] >= -((r * m + j) * w_max),
                safe ==> forall|p: Seq<int>, v: int|
                    #[trigger] is_walk(es, p, s, v) && (p.len() <= r || (p.len() == r + 1
                        && p.last() < j)) ==> dist@[v] <= walk_weight(es, p),
            decreases m - j,
        {
            let (u, v, w) = edges[j];
            let du = dist[u as usize];
            let ghost dist1 = dist@;
            let ghost ui = u as int;
            let ghost vi = v as int;
            let ghost ji = j as int;
            proof {
                assert(es[ji] == (u, v, w));
                assert(ui < n && vi < n);
                assert(-w_max <= w <= w_max);
                if safe && du < INF {
                    assert(r * m <= (n - 2) * m) by (nonlinear_arith)
                        requires
                            r <= n - 2,
                            m >= 0,
                    ;
                    assert((n - 2) * m + m == (n - 1) * m) by (nonlinear_arith);
                    lemma_mul_le(r * m + j + 1, n * m + 1, w_max);
                    assert((r * m + j + 1) * w_max == (r * m + j) * w_max + w_max) by (nonlinear_arith);
                    lemma_mul_le(num_finite(dist1) - 1, n - 1, w_max);
                    assert((n - 1) * w_max + w_max == n * w_max) by (nonlinear_arith);
                    assert(du + w >= i64::MIN);
                    assert(du + w <= INF);
                }
                if safe2 && du < INF {
                    lemma_abs_sum_edge(es, ji);
                    lemma_backed_lower(es, n as int, s, dist1, ui);
                    assert(i64::MIN <= du + w <= i64::MAX);
                }
            }
            if du < INF {
                let nd = sat_add(du, w);
                if nd < dist[v as usize] {
                    proof {
                        lemma_backed_step(es, s, dist1, ui, ji, nd);
                        lemma_num_finite_update(dist1, vi, nd);
                        lemma_num_finite_le(dist1.update(vi, nd));
                        if safe {
                            lemma_walk_push(es, wit[ui], s, ui, ji);
                            assert((num_finite(dist1) - 1) * w_max + w_max == num_finite(dist1)
                                * w_max) by (nonlinear_arith);
                        }
                    }
                    dist.set(v as usize, nd);
                    updated = true;
                    proof {
                        if safe {
                            wit = wit.update(vi, wit[ui].push(ji));
                            lemma_mul_le(num_finite(dist1) - 1, num_finite(dist@) - 1, w_max);
                            lemma_mul_le(r * m + j, r * m + j + 1, w_max);
                            assert forall|x: int|
                                0 <= x < n && #[trigger] dist@[x] < INF implies dist@[x] <= (
                                num_finite(dist@) - 1) * w_max && dist@[x] >= -((r * m + j + 1)
                                * w_max) by {
                                if x != vi {
                                    assert(dist1[x] == dist@[x]);
                                }
                            }
                        }
                    }
                }
            }
            proof {
                if safe {
                    lemma_mul_le(r * m + j, r * m + j + 1, w_max);
                    assert forall|x: int|
                        0 <= x < n && #[trigger] dist@[x] < INF implies dist@[x] >= -((r * m + j
                        + 1) * w_max) by {
                        if x != vi || dist@ == dist1 {
                            assert(dist1[x] == dist@[x]);
                        }
                    }
                    assert forall|p: Seq<int>, x: int|
                        #[trigger] is_walk(es, p, s, x) && (p.len() <= r || (p.len() == r + 1
                            && p.last() < j + 1)) implies dist@[x] <= walk_weight(es, p) by {
                        if p.len() == r + 1 && p.last() == ji {
                            let q = p.drop_last();
                            assert(is_walk(es, q, s, ui));
                            assert(q.len() <= r);
                            assert(dist1[ui] <= walk_weight(es, q));
                            lemma_walk_weight_bound(es, q, s, ui, w_max);
                            lemma_mul_le(q.len() as int, n - 1, w_max);
                            assert((n - 1) * w_max + w_max == n * w_max) by (nonlinear_arith);
                            assert(x == vi);
                        } else {
                            assert(dist1[x] <= walk_weight(es, p));
                        }
                    }
                }
            }
            proof {
                if safe2 {
                    assert forall|p: Seq<int>, x: int|
                        #[trigger] is_walk(es, p, s, x) && p.no_duplicates() && (p.len() <= r || (
                        p.len() == r + 1 && p.last() < j + 1)) implies dist@[x] <= walk_weight(es, p) by {
                        if p.len() == r + 1 && p.last() == ji {
                            let q = p.drop_last();
                            assert(is_walk(es, q, s, ui));
                            assert(q.no_duplicates()) by {
                                assert forall|a: int, b: int| 0 <= a < b < q.len() implies q[a] != q[b] by {
                                    assert(q[a] == p[a] && q[b] == p[b]);
                                }
                            }
                            assert(dist1[ui] <= walk_weight(es, q));
                            lemma_distinct_walk_bound(es, q, s, ui);
                            assert(x == vi);
                        } else {
                            assert(dist1[x] <= walk_weight(es, p));
                        }
                    }
                }
            }
            j = j + 1;
        }
        proof {
            if safe2 {
                assert forall|p: Seq<int>, x: int|
                    #[trigger] is_walk(es, p, s, x) && p.no_duplicates() && (p.len() <= r + 1 || (
                    p.len() == r + 1 + 1 && p.last() < 0)) implies dist@[x] <= walk_weight(es, p) by {
                    if p.len() == r + 1 {
                        assert(p.last() < m);
                    }
                }
            }
        }
        if !updated {
            settled = true;
        } else {
            proof {
                if safe {
                    assert((r + 1) * m == r * m + m) by (nonlinear_arith);
                }
            }
            r = r + 1;
        }
    }
    // One more pass to detect negative cycles.
    let mut j: usize = 0;
    while j < m
        invariant
            dist@.len() == n,
            wit.len() == n,
            edges@ == es,
            m == es.len(),
            n == g.num_nodes(),
            edges_within(es, n as int),
            0 <= s < n,
            weights_within(es, w_max),
            w_max >= 0,
            safe == bf_bounded(es, n as int),
            safe ==> (n * m + 1) * w_max <= INF && n * w_max < INF && (n - 1) * m <= n * m,
            j <= m,
            r <= rounds,
            rounds + 1 == n,
            !settled ==> r == rounds,
            es == g.edge_list(),
            s == source.0,
            safe && settled ==> all_relaxed(es, dist@),
            safe2 == (abs_sum(es) < INF && !reaches_negative_cycle(es, s)),
            safe2 ==> simple_bounded(es, dist@, s, r as int, 0),
            safe2 && settled ==> all_relaxed(es, dist@),
            dist@[s] <= 0,
            forall|v: int| 0 <= v < n ==> #[trigger] dist@[v] <= INF,
            safe ==> forall|v: int|
                0 <= v < n && #[trigger] dist@[v] < INF ==> is_walk(es, wit[v], s, v)
                    && walk_weight(es, wit[v]) == dist@[v],
            num_finite(dist@) <= n,
            backed(es, s, dist@),
            safe ==> forall|v: int|
                0 <= v < n && #[trigger] dist@[v] < INF ==> dist@[v] <= (num_finite(dist@) - 1)
                    * w_max,
            safe ==> forall|v: int|
                0 <= v < n && #[trigger] dist@[v] < INF ==> dist@[v] >= -((r * m) * w_max),
            safe ==> forall|p: Seq<int>, v: int|
                #[trigger] is_walk(es, p, s, v) && p.len() <= r ==> dist@[v] <= walk_weight(es, p),
            safe ==> forall|k: int|
                0 <= k < j && dist@[(#[trigger] es[k]).0 as int] < INF ==> dist@[es[k].1 as int]
                    <= dist@[es[k].0 as int] + es[k].2,
            forall|k: int| 0 <= k < j ==> #[trigger] sat_relaxed(es, dist@, k),
        decreases m - j,
    {
        let (u, v, w) = edges[j];
        let du = dist[u as usize];
        proof {
            assert(es[j as int] == (u, v, w));
            assert(-w_max <= w <= w_max);
            if safe && du < INF {
                lemma_mul_le(r as int, n - 1, m as int);
                lemma_mul_le(r * m + 1, n * m + 1, w_max);
                assert((r * m + 1) * w_max == r * m * w_max + w_max) by (nonlinear_arith);
                lemma_mul_le(num_finite(dist@) - 1, n - 1, w_max);
                assert((n - 1) * w_max + w_max == n * w_max) by (nonlinear_arith);
                assert(du + w >= i64::MIN);
                assert(du + w <= INF);
            }
            if safe2 && du < INF {
                lemma_abs_sum_edge(es, j as int);
                lemma_backed_lower(es, n as int, s, dist@, u as int);
                assert(i64::MIN <= du + w <= i64::MAX);
            }
        }
        if du < INF && sat_add(du, w) < dist[v as usize] {
            proof {
                if safe {
                    if settled {
                        assert(dist@[v as int] <= dist@[u as int] + w);
                        assert(false);
                    } else {
                        assert(r == rounds);
                        assert(es[j as int].0 == u);
                        assert(dist@[u as int] + w < dist@[v as int]);
                        assert(is_walk(es, wit[u as int], s, u as int));
                        lemma_bf_final_none(es, dist@, wit, n as int, s, j as int);
                        assert(reaches_negative_cycle(es, s));
                    }
                }
                if safe2 {
                    assert(es[j as int].0 == u && es[j as int].1 == v);
                    if settled {
                        assert(dist@[v as int] <= dist@[u as int] + w);
                    } else {
                        lemma_bf_final_simple(es, dist@, n as int, s, j as int);
                    }
                    assert(false);
                }
            }
            return None;
        }
        j = j + 1;
    }
    proof {
        if safe2 {
            assert forall|v: int| 0 <= v < n implies is_shortest(es, s, v, #[trigger] dist@[v] as int) by {
                lemma_bf_exact_simple(es, dist@, n as int, s, v);
            }
        }
        if safe {
            lemma_mul_le(num_finite(dist@) - 1, n - 1, w_max);
            lemma_bf_final_some(es, dist@, wit, n as int, w_max, s);
        }
        assert(estimates_backed(es, s, dist@)) by {
            reveal(backed);
        }
    }
    Some(dist)
}


/// A vector of `n` copies of `false`.
fn false_vec(n: usize) -> (v: Vec<bool>)
    ensures
        v@.len() == n,
        forall|i: int| 0 <= i < n ==> !v@[i],
{
    let mut v: Vec<bool> = Vec::with_capacity(n);
    let mut i: usize = 0;
    while i < n
        invariant
            i <= n,
            v@.len() == i,
            forall|k: int| 0 <= k < i ==> !v@[k],
        decreases n - i,
    {
        v.push(false);
        i = i + 1;
    }
    v
}

/// The sum of a sequence of `i64` is at least its length times `i64::MIN`.
pub(crate) proof fn lemma_sum_lower(s: Seq<i64>)
    ensures
        sum_seq(s) >= s.len() * (i64::MIN as int),
    decreases s.len(),
{
    if s.len() > 0 {
        lemma_sum_lower(s.drop_last());
    }
}

/// The outgoing edges of `u` of non-negative weight cannot improve `dist`.
pub open spec fn nonneg_relaxed_out(es: Seq<(u32, u32, i64)>, dist: Seq<i64>, u: int) -> bool {
    forall|e: int|
        0 <= e < es.len() && (#[trigger] es[e]).0 == u && es[e].2 >= 0 ==> dist[es[e].1 as int]
            <= dist[u] + es[e].2
}

/// Every walk from `s` with at most `j` negative edges that is empty or ends
/// with a negative edge ends at a finite entry of `dist` no heavier than it.
pub open spec fn bounded_by_neg_ending(es: Seq<(u32, u32, i64)>, dist: Seq<i64>, s: int, j: int) -> bool {
    forall|q: Seq<int>, v: int|
        #[trigger] is_walk(es, q, s, v) && neg_count(es, q) <= j && (q.len() == 0 || es[q.last()].2
            < 0) ==> dist[v] <= walk_weight(es, q) && dist[v] < INF
}

/// Every walk from `s` with at most `j` negative edges ends at a finite entry
/// of `dist` no heavier than it.
pub open spec fn bounded_by_neg(es: Seq<(u32, u32, i64)>, dist: Seq<i64>, s: int, j: int) -> bool {
    forall|q: Seq<int>, v: int|
        #[trigger] is_walk(es, q, s, v) && neg_count(es, q) <= j ==> dist[v] <= walk_weight(es, q)
            && dist[v] < INF
}

/// Weights of `es` small enough for `sssp_few_negative` with `k` on `n`
/// nodes: `(n + k + 1)·W ≤ INF` for the largest absolute weight `W`, or the
/// absolute weights sum below `INF`.
pub open spec fn few_neg_bounded(es: Seq<(u32, u32, i64)>, n: int, k: int) -> bool {
    (n + k + 1) * max_abs_weight(es) <= INF || abs_sum(es) < INF
}

/// As [`lemma_extend_nonneg`] for walks that use no edge twice, when the
/// absolute weights sum below `INF`.
proof fn lemma_extend_nonneg_distinct(
    es: Seq<(u32, u32, i64)>,
    dist: Seq<i64>,
    s: int,
    j: int,
    q: Seq<int>,
    v: int,
)
    requires
        abs_sum(es) < INF,
        edges_within(es, dist.len() as int),
        0 <= s < dist.len(),
        forall|e: int|
            0 <= e < es.len() && (#[trigger] es[e]).2 >= 0 && dist[es[e].0 as int] < INF
                ==> dist[es[e].1 as int] <= dist[es[e].0 as int] + es[e].2,
        bounded_by_neg_ending(es, dist, s, j),
        is_walk(es, q, s, v),
        q.no_duplicates(),
        neg_count(es, q) <= j,
    ensures
        dist[v] <= walk_weight(es, q),
        dist[v] < INF,
    decreases q.len(),
{
    if q.len() > 0 && es[q.last()].2 >= 0 {
        let e = q.last();
        let x = es[e].0 as int;
        let q2 = q.drop_last();
        assert(q2.no_duplicates()) by {
            assert forall|a: int, b: int| 0 <= a < b < q2.len() implies q2[a] != q2[b] by {
                assert(q2[a] == q[a] && q2[b] == q[b]);
            }
        }
        lemma_extend_nonneg_distinct(es, dist, s, j, q2, x);
        assert(es[e].0 < dist.len() && es[e].1 < dist.len());
        assert(dist[es[e].1 as int] <= dist[es[e].0 as int] + es[e].2);
        lemma_distinct_walk_bound(es, q, s, v);
    }
}

/// Once the non-negative edges are relaxed, the bound for walks that end
/// with a negative edge extends to all walks with as many negative edges.
proof fn lemma_extend_nonneg(
    es: Seq<(u32, u32, i64)>,
    dist: Seq<i64>,
    s: int,
    j: int,
    ub: int,
    w: int,
    q: Seq<int>,
    v: int,
)
    requires
        weights_within(es, w),
        w >= 0,
        edges_within(es, dist.len() as int),
        0 <= s < dist.len(),
        ub + w < INF,
        forall|x: int| 0 <= x < dist.len() && #[trigger] dist[x] < INF ==> dist[x] <= ub,
        forall|e: int|
            0 <= e < es.len() && (#[trigger] es[e]).2 >= 0 && dist[es[e].0 as int] < INF
                ==> dist[es[e].1 as int] <= dist[es[e].0 as int] + es[e].2,
        bounded_by_neg_ending(es, dist, s, j),
        is_walk(es, q, s, v),
        neg_count(es, q) <= j,
    ensures
        dist[v] <= walk_weight(es, q),
        dist[v] < INF,
    decreases q.len(),
{
    if q.len() > 0 && es[q.last()].2 >= 0 {
        let e = q.last();
        let x = es[e].0 as int;
        lemma_extend_nonneg(es, dist, s, j, ub, w, q.drop_last(), x);
        assert(es[e].0 < dist.len() && es[e].1 < dist.len());
        assert(dist[es[e].1 as int] <= dist[es[e].0 as int] + es[e].2);
        assert(es[e].2 <= w);
    }
}

/// When shortest paths need at most `k` negative edges, every walk from the
/// source weighs at least `-k·w`.
proof fn lemma_lb_from_paths(es: Seq<(u32, u32, i64)>, s: int, k: int, w: int, p: Seq<int>, v: int)
    requires
        neg_paths_within(es, s, k),
        weights_within(es, w),
        w >= 0,
        k >= 0,
        is_walk(es, p, s, v),
    ensures
        walk_weight(es, p) >= -(k * w),
{
    reveal(neg_paths_within);
    let q = choose|q: Seq<int>|
        #[trigger] is_walk(es, q, s, v) && neg_count(es, q) <= k && walk_weight(es, q)
            <= walk_weight(es, p);
    lemma_neg_count_bound(es, q, s, v, w);
    lemma_mul_le(neg_count(es, q) as int, k, w);
}

/// The finite entries of `dist` are exact weights of walks from `s`, at
/// most `(f - 1)·w` where `f` is the number of finite entries, and at least
/// `-k·w`.
#[verifier::opaque]
pub open spec fn estimates_ok(es: Seq<(u32, u32, i64)>, dist: Seq<i64>, s: int, k: int, w: int) -> bool {
    &&& forall|v: int|
        0 <= v < dist.len() && #[trigger] dist[v] < INF ==> exists|p: Seq<int>|
            #[trigger] is_walk(es, p, s, v) && walk_weight(es, p) == dist[v]
    &&& forall|v: int|
        0 <= v < dist.len() && #[trigger] dist[v] < INF ==> dist[v] <= (num_finite(dist) - 1) * w
            && dist[v] >= -(k * w)
}

/// The number of rounds after which shortest paths that need at most `k`
/// negative edges are found on `n` nodes: `k`, but at most `n - 1`.
pub open spec fn few_neg_rounds(n: int, k: int) -> int {
    if k < n - 1 {
        k
    } else {
        n - 1
    }
}

/// A walk has at most as many negative edges as edges.
pub proof fn lemma_neg_count_le_len(es: Seq<(u32, u32, i64)>, p: Seq<int>)
    ensures
        neg_count(es, p) <= p.len(),
    decreases p.len(),
{
    if p.len() > 0 {
        lemma_neg_count_le_len(es, p.drop_last());
    }
}

/// When shortest paths need at most `k` negative edges, no negative cycle is
/// reachable, so on `n` nodes they need at most `n - 1`.
proof fn lemma_neg_paths_at_most_n(es: Seq<(u32, u32, i64)>, n: int, s: int, k: int)
    requires
        edges_within(es, n),
        0 <= s < n,
        k >= 0,
        neg_paths_within(es, s, k),
    ensures
        neg_paths_within(es, s, n - 1),
        !reaches_negative_cycle(es, s),
{
    let w = max_abs_weight(es);
    lemma_max_abs_weight(es);
    if reaches_negative_cycle(es, s) {
        let (a, c, x) = choose|a: Seq<int>, c: Seq<int>, x: int|
            #[trigger] is_walk(es, a, s, x) && #[trigger] is_walk(es, c, x, x) && walk_weight(es, c) < 0;
        let kw = k * w;
        let m: nat = if walk_weight(es, a) + kw + 1 >= 0 {
            (walk_weight(es, a) + kw + 1) as nat
        } else {
            0
        };
        let q = lemma_pump(es, a, c, s, x, m);
        lemma_lb_from_paths(es, s, k, w, q, x);
        lemma_lb_from_paths(es, s, k, w, a, x);
    }
    reveal(neg_paths_within);
    assert forall|p: Seq<int>, v: int| #[trigger] is_walk(es, p, s, v) implies exists|q: Seq<int>|
        #[trigger] is_walk(es, q, s, v) && neg_count(es, q) <= n - 1 && walk_weight(es, q) <= walk_weight(es, p) by {
        let q = lemma_simple_shortcut(es, n, s, p, v);
        lemma_neg_count_le_len(es, q);
    }
}

/// Shortest paths that need at most `k` negative edges within the weight
/// bound for `k` also do within the bound for [`few_neg_rounds`].
proof fn lemma_few_neg_case_rounds(es: Seq<(u32, u32, i64)>, n: int, s: int, k: int)
    requires
        edges_within(es, n),
        0 <= s < n,
        k >= 0,
        few_neg_bounded(es, n, few_neg_rounds(n, k)) || few_neg_bounded(es, n, k),
        neg_paths_within(es, s, k),
    ensures
        few_neg_case(es, n, s, few_neg_rounds(n, k)),
{
    let kk = few_neg_rounds(n, k);
    lemma_max_abs_weight(es);
    lemma_mul_le(n + kk + 1, n + k + 1, max_abs_weight(es));
    if kk < k {
        lemma_neg_paths_at_most_n(es, n, s, k);
    }
}

/// The hypothesis under which `sssp_few_negative` is exact.
pub open spec fn few_neg_case(es: Seq<(u32, u32, i64)>, n: int, s: int, k: int) -> bool {
    few_neg_bounded(es, n, k) && neg_paths_within(es, s, k)
}

/// Lowering one finite-or-infinite entry to the weight of a walk that extends
/// a finite entry by one edge keeps the estimates sound.
proof fn lemma_estimates_step(
    es: Seq<(u32, u32, i64)>,
    dist: Seq<i64>,
    s: int,
    k: int,
    w: int,
    n: int,
    u: int,
    e: int,
    nd: i64,
)
    requires
        few_neg_case(es, n, s, k),
        n == dist.len(),
        k >= 0,
        w == max_abs_weight(es),
        weights_within(es, w),
        w >= 0,
        estimates_ok(es, dist, s, k, w),
        num_finite(dist) <= n,
        0 <= u < n,
        dist[u] < INF,
        0 <= e < es.len(),
        es[e].0 == u,
        0 <= es[e].1 < n,
        nd == dist[u] + es[e].2,
        nd < dist[es[e].1 as int],
        dist[es[e].1 as int] <= INF,
    ensures
        estimates_ok(es, dist.update(es[e].1 as int, nd), s, k, w),
        num_finite(dist.update(es[e].1 as int, nd)) <= n,
        nd < INF,
{
    reveal(estimates_ok);
    let v = es[e].1 as int;
    let d2 = dist.update(v, nd);
    lemma_num_finite_update(dist, v, nd);
    lemma_num_finite_le(d2);
    let p = choose|p: Seq<int>| #[trigger] is_walk(es, p, s, u) && walk_weight(es, p) == dist[u];
    lemma_walk_push(es, p, s, u, e);
    lemma_lb_from_paths(es, s, k, w, p.push(e), v);
    assert((num_finite(dist) - 1) * w + w == num_finite(dist) * w) by (nonlinear_arith);
    assert(dist[u] <= (num_finite(dist) - 1) * w);
    assert(es[e].2 <= w);
    lemma_mul_le(num_finite(dist) - 1, num_finite(d2) - 1, w);
    assert(nd < INF);
    assert forall|x: int| 0 <= x < d2.len() && #[trigger] d2[x] < INF implies exists|q: Seq<int>|
        #[trigger] is_walk(es, q, s, x) && walk_weight(es, q) == d2[x] by {
        if x == v {
            assert(is_walk(es, p.push(e), s, x));
        } else {
            assert(d2[x] == dist[x]);
        }
    }
    assert forall|x: int| 0 <= x < d2.len() && #[trigger] d2[x] < INF implies d2[x] <= (num_finite(
        d2,
    ) - 1) * w && d2[x] >= -(k * w) by {
        if x != v {
            assert(d2[x] == dist[x]);
        }
    }
}

/// Facts about the arithmetic of one relaxation under [`few_neg_case`]:
/// `dist[u] + w` stays inside `i64`.
proof fn lemma_few_neg_no_overflow(
    es: Seq<(u32, u32, i64)>,
    dist: Seq<i64>,
    s: int,
    k: int,
    w: int,
    n: int,
    u: int,
    e: int,
)
    requires
        few_neg_case(es, n, s, k),
        n == dist.len(),
        k >= 0,
        w == max_abs_weight(es),
        weights_within(es, w),
        w >= 0,
        estimates_ok(es, dist, s, k, w),
        num_finite(dist) <= n,
        0 <= u < n,
        dist[u] < INF,
        0 <= e < es.len(),
        edges_within(es, n),
        0 <= s < n,
    ensures
        i64::MIN <= dist[u] + es[e].2 <= i64::MAX,
        dist[u] <= (n - 1) * w,
{
    reveal(estimates_ok);
    lemma_mul_le(num_finite(dist) - 1, n - 1, w);
    if !((n + k + 1) * w <= INF) {
        let p = choose|p: Seq<int>| #[trigger] is_walk(es, p, s, u) && walk_weight(es, p) == dist[u];
        lemma_neg_paths_at_most_n(es, n, s, k);
        lemma_walk_at_least_minus_abs_sum(es, n, s, p, u);
        lemma_abs_sum_edge(es, e);
    }
    assert((n + k + 1) * w == n * w + (k + 1) * w) by (nonlinear_arith);
    assert((k + 1) * w == k * w + w) by (nonlinear_arith);
    assert((n - 1) * w + w == n * w) by (nonlinear_arith);
    assert(k * w >= 0) by (nonlinear_arith)
        requires
            k >= 0,
            w >= 0,
    ;
    assert(n * w >= 0) by (nonlinear_arith)
        requires
            n >= 0,
            w >= 0,
    ;
    assert(-w <= es[e].2 <= w);
}

/// Estimates that are `INF` but for `0` at the source are backed.
proof fn lemma_source_backed(es: Seq<(u32, u32, i64)>, s: int, dist: Seq<i64>)
    requires
        0 <= s < dist.len(),
        dist[s] == 0,
        forall|v: int| 0 <= v < dist.len() && v != s ==> #[trigger] dist[v] == INF,
    ensures
        backed(es, s, dist),
{
    reveal(backed);
    assert(is_walk(es, Seq::<int>::empty(), s, s));
    assert forall|v: int| 0 <= v < dist.len() && #[trigger] dist[v] < INF implies walk_bounded(es, s, v, dist[v] as int) by {
        assert(v == s);
        assert(is_walk(es, Seq::<int>::empty(), s, v));
    }
}

/// Lowering the target of edge `e` from the finite source entry to `nd`,
/// the saturated sum of that entry and the weight, keeps the estimates backed.
proof fn lemma_backed_step(es: Seq<(u32, u32, i64)>, s: int, dist: Seq<i64>, u: int, e: int, nd: i64)
    requires
        backed(es, s, dist),
        0 <= e < es.len(),
        es[e].0 == u,
        0 <= u < dist.len(),
        0 <= es[e].1 < dist.len(),
        dist[u] < INF,
        nd == clamp64(dist[u] + es[e].2),
        nd < dist[es[e].1 as int],
        dist[es[e].1 as int] <= INF,
    ensures
        backed(es, s, dist.update(es[e].1 as int, nd)),
{
    reveal(backed);
    assert(walk_bounded(es, s, u, dist[u] as int));
    lemma_relax_backed(es, s, dist, u, dist[u] as int, e, nd);
}

/// Every finite entry of `dist` is backed by a walk from `s` (kept opaque
/// where the search carries it along).
#[verifier::opaque]
spec fn backed(es: Seq<(u32, u32, i64)>, s: int, dist: Seq<i64>) -> bool {
    estimates_backed(es, s, dist)
}

/// The Dijkstra step of `sssp_few_negative`: settles the queue over the
/// edges of non-negative weight, after which every reached node has its
/// non-negative outgoing edges relaxed.
#[verifier::loop_isolation(false)]
fn settle_nonnegative(
    g: &Graph,
    dist: &mut Vec<i64>,
    heap: MinQueue,
    Ghost(s): Ghost<int>,
    Ghost(k): Ghost<int>,
)
    requires
        g.wf(),
        old(dist)@.len() == g.num_nodes(),
        0 <= s < g.num_nodes(),
        k >= 0,
        old(dist)@[s] <= 0,
        forall|v: int| 0 <= v < g.num_nodes() ==> #[trigger] old(dist)@[v] <= INF,
        forall|x: (i64, u32)|
            #[trigger] heap.elems().contains(x) ==> x.1 < g.num_nodes() && old(dist)@[x.1 as int]
                <= x.0 && x.0 < INF,
        forall|u: int|
            0 <= u < g.num_nodes() && #[trigger] old(dist)@[u] < INF ==> heap.elems().contains(
                (old(dist)@[u], u as u32),
            ) || nonneg_relaxed_out(g.edge_list(), old(dist)@, u),
        num_finite(old(dist)@) <= g.num_nodes(),
        backed(g.edge_list(), s, old(dist)@),
        few_neg_case(g.edge_list(), g.num_nodes() as int, s, k) ==> estimates_ok(
            g.edge_list(),
            old(dist)@,
            s,
            k,
            max_abs_weight(g.edge_list()),
        ),
    ensures
        final(dist)@.len() == g.num_nodes(),
        final(dist)@[s] <= 0,
        forall|v: int| 0 <= v < g.num_nodes() ==> #[trigger] final(dist)@[v] <= old(dist)@[v],
        forall|u: int|
            0 <= u < g.num_nodes() && #[trigger] final(dist)@[u] < INF ==> nonneg_relaxed_out(
                g.edge_list(),
                final(dist)@,
                u,
            ),
        num_finite(final(dist)@) <= g.num_nodes(),
        backed(g.edge_list(), s, final(dist)@),
        few_neg_case(g.edge_list(), g.num_nodes() as int, s, k) ==> estimates_ok(
            g.edge_list(),
            final(dist)@,
            s,
            k,
            max_abs_weight(g.edge_list()),
        ),
{
    let ghost es = g.edge_list();
    let ghost w_max = max_abs_weight(es);
    let ghost c = few_neg_case(es, g.num_nodes() as int, s, k);
    let ghost n = g.num_nodes() as int;
    let ghost dist_in = dist@;
    proof {
        g.lemma_wf_edges();
        lemma_max_abs_weight(es);
        reveal(backed);
    }
    let mut heap = heap;
    loop
        invariant
            dist@.len() == n,
            dist@[s] <= 0,
            forall|v: int| 0 <= v < n ==> #[trigger] dist@[v] <= dist_in[v],
            forall|x: (i64, u32)|
                #[trigger] heap.elems().contains(x) ==> x.1 < n && dist@[x.1 as int] <= x.0 && x.0
                    < INF,
            forall|u: int|
                0 <= u < n && #[trigger] dist@[u] < INF ==> heap.elems().contains(
                    (dist@[u], u as u32),
                ) || nonneg_relaxed_out(es, dist@, u),
            num_finite(dist@) <= n,
            estimates_backed(es, s, dist@),
            c ==> estimates_ok(es, dist@, s, k, w_max),
        decreases 2 * (sum_seq(dist@) - n * (i64::MIN as int)) + heap.elems().len(),
    {
        proof {
            lemma_sum_lower(dist@);
        }
        let ghost measure0 = 2 * (sum_seq(dist@) - n * (i64::MIN as int)) + heap.elems().len();
        let ghost heap0 = heap.elems();
        let popped = heap.pop();
        let (d, u) = match popped {
            None => break,
            Some(x) => x,
        };
        proof {
            assert(heap0.contains((d, u)));
        }
        proof {
            assert(heap.elems().len() + 1 == heap0.len());
        }
        if d > dist[u as usize] {
            proof {
                assert forall|v: int|
                    0 <= v < n && #[trigger] dist@[v] < INF implies heap.elems().contains(
                    (dist@[v], v as u32),
                ) || nonneg_relaxed_out(es, dist@, v) by {
                    if heap0.contains((dist@[v], v as u32)) {
                        if (dist@[v], v as u32) == (d, u) {
                            assert(false);
                        }
                    }
                }
            }
            continue;
        }
        let ghost dist0 = dist@;
        proof {
            assert(walk_bounded(es, s, u as int, dist@[u as int] as int));
        }
        let ghost outs = incident(es, u as int, true);
        proof {
            lemma_incident_members(es, u as int, es.len() as int, true);
        }
        let mut it = g.out_edges(NodeId(u));
        loop
            invariant
                it.graph() == *g,
                outs == incident(es, u as int, true),
                it.remaining().len() <= outs.len(),
                it.remaining() == outs.subrange(
                    outs.len() - it.remaining().len(),
                    outs.len() as int,
                ),
                dist@.len() == n,
                dist@[s] <= 0,
                dist@[u as int] == d,
                forall|v: int| 0 <= v < n ==> #[trigger] dist@[v] <= dist0[v],
                forall|v: int| 0 <= v < n ==> #[trigger] dist@[v] <= dist_in[v],
                forall|x: (i64, u32)|
                    #[trigger] heap.elems().contains(x) ==> x.1 < n && dist@[x.1 as int] <= x.0
                        && x.0 < INF,
                forall|v: int|
                    0 <= v < n && v != u && #[trigger] dist@[v] < INF ==> heap.elems().contains(
                        (dist@[v], v as u32),
                    ) || nonneg_relaxed_out(es, dist@, v),
                forall|k2: int|
                    0 <= k2 < outs.len() - it.remaining().len() && es[#[trigger] outs[k2]].2 >= 0
                        ==> dist@[es[outs[k2]].1 as int] <= d + es[outs[k2]].2,
                num_finite(dist@) <= n,
                estimates_backed(es, s, dist@),
                walk_bounded(es, s, u as int, d as int),
                d < INF,
                forall|v: int| 0 <= v < n ==> #[trigger] dist_in[v] <= INF,
                c ==> estimates_ok(es, dist@, s, k, w_max),
                2 * (sum_seq(dist@) - n * (i64::MIN as int)) + heap.elems().len() < measure0,
            decreases it.remaining().len(),
        {
            let ghost rem0 = it.remaining();
            let nx = it.next();
            let e = match nx {
                None => break,
                Some(e) => e,
            };
            let ghost k0 = outs.len() - rem0.len();
            proof {
                assert(outs[k0] == rem0[0]);
                assert(it.remaining() =~= outs.subrange(
                    outs.len() - it.remaining().len(),
                    outs.len() as int,
                ));
                assert(es[e.0 as int].0 == u);
            }
            let w = g.weight(e);
            if w >= 0 {
                let v = g.target(e);
                let nd = sat_add(d, w);
                let ghost dist1 = dist@;
                let ghost vi = v.0 as int;
                proof {
                    assert(vi < n);
                    if c {
                        lemma_few_neg_no_overflow(es, dist1, s, k, w_max, n, u as int, e.0 as int);
                    }
                }
                if nd < dist[v.0 as usize] {
                    let ghost heap1 = heap.elems();
                    proof {
                        lemma_sum_update(dist1, vi, nd);
                        lemma_num_finite_update(dist1, vi, nd);
                        lemma_num_finite_le(dist1.update(vi, nd));
                        if c {
                            lemma_estimates_step(es, dist1, s, k, w_max, n, u as int, e.0 as int, nd);
                        }
                        lemma_relax_backed(es, s, dist1, u as int, d as int, e.0 as int, nd);
                    }
                    dist.set(v.0 as usize, nd);
                    heap.push((nd, v.0));
                    proof {
                        assert forall|x: (i64, u32)| #[trigger]
                            heap.elems().contains(x) implies x.1 < n && dist@[x.1 as int] <= x.0 && x.0
                            < INF by {
                            if x != (nd, v.0) {
                                assert(heap1.contains(x));
                            }
                        }
                        assert forall|y: int|
                            0 <= y < n && y != u && #[trigger] dist@[y] < INF implies heap.elems().contains(
                            (dist@[y], y as u32),
                        ) || nonneg_relaxed_out(es, dist@, y) by {
                            if y != vi {
                                if heap1.contains((dist1[y], y as u32)) {
                                    assert(heap.elems().contains((dist@[y], y as u32)));
                                } else {
                                    assert(nonneg_relaxed_out(es, dist1, y));
                                    assert forall|f: int|
                                        0 <= f < es.len() && (#[trigger] es[f]).0 == y && es[f].2 >= 0 implies dist@[es[f].1 as int]
                                        <= dist@[y] + es[f].2 by {
                                        assert(dist1[es[f].1 as int] <= dist1[y] + es[f].2);
                                    }
                                }
                            }
                        }
                    }
                }
            }
            proof {
                assert forall|k2: int|
                    0 <= k2 < outs.len() - it.remaining().len() && es[#[trigger] outs[k2]].2 >= 0 implies dist@[es[outs[k2]].1 as int]
                    <= d + es[outs[k2]].2 by {
                    if k2 == k0 {
                    }
                }
            }
        }
        proof {
            assert forall|f: int|
                0 <= f < es.len() && (#[trigger] es[f]).0 == u && es[f].2 >= 0 implies dist@[es[f].1 as int]
                <= dist@[u as int] + es[f].2 by {
                assert(outs.contains(f));
                let k2 = choose|k2: int| 0 <= k2 < outs.len() && outs[k2] == f;
            }
            assert(nonneg_relaxed_out(es, dist@, u as int));
            lemma_sum_lower(dist@);
        }
    }
}

/// The Bellman-Ford pass of `sssp_few_negative`: relaxes every negative edge
/// once, collecting the nodes it improves as seeds for the next Dijkstra
/// step.
#[verifier::loop_isolation(false)]
fn relax_negative(
    g: &Graph,
    neg_edges: &Vec<EdgeId>,
    dist: &mut Vec<i64>,
    in_seed: &mut Vec<bool>,
    seed_nodes: &mut Vec<u32>,
    Ghost(s): Ghost<int>,
    Ghost(k): Ghost<int>,
    Ghost(j): Ghost<int>,
)
    requires
        g.wf(),
        forall|t: int|
            0 <= t < neg_edges@.len() ==> (#[trigger] neg_edges@[t]).0 < g.edge_list().len()
                && g.edge_list()[neg_edges@[t].0 as int].2 < 0,
        old(dist)@.len() == g.num_nodes(),
        old(in_seed)@.len() == g.num_nodes(),
        old(seed_nodes)@.len() == 0,
        forall|v: int| 0 <= v < g.num_nodes() ==> !#[trigger] old(in_seed)@[v],
        0 <= s < g.num_nodes(),
        k >= 0,
        0 <= j <= k,
        old(dist)@[s] <= 0,
        forall|v: int| 0 <= v < g.num_nodes() ==> #[trigger] old(dist)@[v] <= INF,
        forall|u: int|
            0 <= u < g.num_nodes() && #[trigger] old(dist)@[u] < INF ==> nonneg_relaxed_out(
                g.edge_list(),
                old(dist)@,
                u,
            ),
        num_finite(old(dist)@) <= g.num_nodes(),
        backed(g.edge_list(), s, old(dist)@),
        few_neg_case(g.edge_list(), g.num_nodes() as int, s, k) ==> estimates_ok(
            g.edge_list(),
            old(dist)@,
            s,
            k,
            max_abs_weight(g.edge_list()),
        ) && bounded_by_neg(g.edge_list(), old(dist)@, s, j),
    ensures
        final(dist)@.len() == g.num_nodes(),
        final(in_seed)@.len() == g.num_nodes(),
        final(dist)@[s] <= 0,
        forall|v: int| 0 <= v < g.num_nodes() ==> #[trigger] final(dist)@[v] <= old(dist)@[v],
        forall|t: int|
            0 <= t < final(seed_nodes)@.len() ==> (#[trigger] final(seed_nodes)@[t]) < g.num_nodes()
                && final(dist)@[final(seed_nodes)@[t] as int] < INF,
        forall|v: int|
            0 <= v < g.num_nodes() && #[trigger] final(in_seed)@[v] ==> final(seed_nodes)@.contains(
                v as u32,
            ) && final(dist)@[v] < INF,
        forall|u: int|
            0 <= u < g.num_nodes() && #[trigger] final(dist)@[u] < INF ==> final(in_seed)@[u]
                || nonneg_relaxed_out(g.edge_list(), final(dist)@, u),
        final(seed_nodes)@.len() == 0 ==> final(dist)@ == old(dist)@,
        (forall|t: int|
            0 <= t < neg_edges@.len() ==> #[trigger] sat_relaxed(g.edge_list(), old(dist)@, neg_edges@[t].0 as int))
            ==> final(seed_nodes)@.len() == 0,
        num_finite(final(dist)@) <= g.num_nodes(),
        backed(g.edge_list(), s, final(dist)@),
        few_neg_case(g.edge_list(), g.num_nodes() as int, s, k) ==> {
            &&& estimates_ok(g.edge_list(), final(dist)@, s, k, max_abs_weight(g.edge_list()))
            &&& bounded_by_neg(g.edge_list(), final(dist)@, s, j)
            &&& forall|t: int, q: Seq<int>, v: int|
                0 <= t < neg_edges@.len() && #[trigger] is_walk(g.edge_list(), q, s, v) && q.len()
                    > 0 && q.last() == (#[trigger] neg_edges@[t]).0 && neg_count(g.edge_list(), q)
                    <= j + 1 ==> final(dist)@[v] <= walk_weight(g.edge_list(), q) && final(dist)@[v]
                    < INF
            &&& final(seed_nodes)@.len() == 0 ==> forall|t: int|
                0 <= t < neg_edges@.len() && final(dist)@[g.edge_list()[(#[trigger] neg_edges@[t]).0 as int].0 as int]
                    < INF ==> final(dist)@[g.edge_list()[neg_edges@[t].0 as int].1 as int]
                    <= final(dist)@[g.edge_list()[neg_edges@[t].0 as int].0 as int]
                    + g.edge_list()[neg_edges@[t].0 as int].2
        },
{
    let ghost es = g.edge_list();
    let ghost w_max = max_abs_weight(es);
    let ghost c = few_neg_case(es, g.num_nodes() as int, s, k);
    let ghost n = g.num_nodes() as int;
    let ghost dist_b0 = dist@;
    proof {
        g.lemma_wf_edges();
        lemma_max_abs_weight(es);
        reveal(backed);
    }
    let mut i: usize = 0;
    while i < neg_edges.len()
        invariant
            i <= neg_edges@.len(),
            dist@.len() == n,
            in_seed@.len() == n,
            dist@[s] <= 0,
            forall|v: int| 0 <= v < n ==> #[trigger] dist@[v] <= INF,
            forall|v: int| 0 <= v < n ==> #[trigger] dist@[v] <= dist_b0[v],
            forall|t2: int|
                0 <= t2 < seed_nodes@.len() ==> (#[trigger] seed_nodes@[t2]) < n && dist@[seed_nodes@[t2] as int]
                    < INF,
            forall|v: int|
                0 <= v < n && #[trigger] in_seed@[v] ==> seed_nodes@.contains(v as u32) && dist@[v]
                    < INF,
            forall|u: int|
                0 <= u < n && #[trigger] dist@[u] < INF ==> in_seed@[u] || nonneg_relaxed_out(
                    es,
                    dist@,
                    u,
                ),
            seed_nodes@.len() == 0 ==> dist@ == dist_b0,
            (forall|t: int|
                0 <= t < neg_edges@.len() ==> #[trigger] sat_relaxed(es, dist_b0, neg_edges@[t].0 as int))
                ==> seed_nodes@.len() == 0,
            c && seed_nodes@.len() == 0 ==> forall|t2: int|
                0 <= t2 < i && dist@[es[(#[trigger] neg_edges@[t2]).0 as int].0 as int] < INF
                    ==> dist@[es[neg_edges@[t2].0 as int].1 as int] <= dist@[es[neg_edges@[t2].0 as int].0 as int]
                    + es[neg_edges@[t2].0 as int].2,
            num_finite(dist@) <= n,
            estimates_backed(es, s, dist@),
            c ==> estimates_ok(es, dist@, s, k, w_max),
            c ==> bounded_by_neg(es, dist@, s, j),
            c ==> forall|t2: int, q: Seq<int>, v: int|
                0 <= t2 < i && #[trigger] is_walk(es, q, s, v) && q.len() > 0 && q.last()
                    == (#[trigger] neg_edges@[t2]).0 && neg_count(es, q) <= j + 1 ==> dist@[v]
                    <= walk_weight(es, q) && dist@[v] < INF,
        decreases neg_edges@.len() - i,
    {
        let e = neg_edges[i];
        let u = g.source(e);
        let v = g.target(e);
        let w = g.weight(e);
        let du = dist[u.0 as usize];
        let ghost dist1 = dist@;
        let ghost seeds1 = seed_nodes@;
        let ghost ui = u.0 as int;
        let ghost vi = v.0 as int;
        let ghost ei = e.0 as int;
        proof {
            if forall|t: int|
                0 <= t < neg_edges@.len() ==> #[trigger] sat_relaxed(es, dist_b0, neg_edges@[t].0 as int) {
                assert(sat_relaxed(es, dist_b0, neg_edges@[i as int].0 as int));
            }
            assert(ui < n && vi < n);
            assert(es[ei] == (u.0, v.0, w));
            if c && du < INF {
                lemma_few_neg_no_overflow(es, dist1, s, k, w_max, n, ui, ei);
            }
        }
        if du < INF {
            let nd = sat_add(du, w);
            if nd < dist[v.0 as usize] {
                proof {
                    lemma_num_finite_update(dist1, vi, nd);
                    lemma_num_finite_le(dist1.update(vi, nd));
                    if c {
                        lemma_estimates_step(es, dist1, s, k, w_max, n, ui, ei, nd);
                    }
                    assert(walk_bounded(es, s, ui, du as int));
                    lemma_relax_backed(es, s, dist1, ui, du as int, ei, nd);
                }
                dist.set(v.0 as usize, nd);
                if !in_seed[v.0 as usize] {
                    in_seed.set(v.0 as usize, true);
                    seed_nodes.push(v.0);
                    proof {
                        assert(seed_nodes@[seed_nodes@.len() - 1] == v.0);
                    }
                }
            }
        }
        proof {
            assert forall|y: int| 0 <= y < n && #[trigger] in_seed@[y] implies seed_nodes@.contains(
                y as u32,
            ) && dist@[y] < INF by {
                if y != vi {
                    let t2 = choose|t2: int| 0 <= t2 < seeds1.len() && seeds1[t2] == y as u32;
                    assert(seed_nodes@[t2] == y as u32);
                } else {
                    assert(dist@[y] < INF);
                }
            }
            assert forall|t2: int| 0 <= t2 < seed_nodes@.len() implies (
            #[trigger] seed_nodes@[t2]) < n && dist@[seed_nodes@[t2] as int] < INF by {
                if t2 < seeds1.len() {
                    assert(seed_nodes@[t2] == seeds1[t2]);
                }
            }
            assert forall|x: int|
                0 <= x < n && #[trigger] dist@[x] < INF implies in_seed@[x] || nonneg_relaxed_out(
                es,
                dist@,
                x,
            ) by {
                if x != vi && !in_seed@[x] {
                    assert(dist1[x] == dist@[x]);
                    assert(nonneg_relaxed_out(es, dist1, x));
                    assert forall|f: int|
                        0 <= f < es.len() && (#[trigger] es[f]).0 == x && es[f].2 >= 0 implies dist@[es[f].1 as int]
                        <= dist@[x] + es[f].2 by {
                        assert(dist1[es[f].1 as int] <= dist1[x] + es[f].2);
                    }
                }
            }
            if c {
                assert forall|t2: int, q: Seq<int>, y: int|
                    0 <= t2 < i + 1 && #[trigger] is_walk(es, q, s, y) && q.len() > 0 && q.last()
                        == (#[trigger] neg_edges@[t2]).0 && neg_count(es, q) <= j + 1 implies dist@[y]
                    <= walk_weight(es, q) && dist@[y] < INF by {
                    if t2 == i {
                        let q0 = q.drop_last();
                        assert(is_walk(es, q0, s, ui));
                        assert(neg_count(es, q0) <= j);
                        assert(dist1[ui] <= walk_weight(es, q0) && dist1[ui] < INF);
                        assert(y == vi);
                    } else {
                        assert(dist1[y] <= walk_weight(es, q) && dist1[y] < INF);
                    }
                }
                assert forall|q: Seq<int>, y: int|
                    #[trigger] is_walk(es, q, s, y) && neg_count(es, q) <= j implies dist@[y]
                    <= walk_weight(es, q) && dist@[y] < INF by {
                    assert(dist1[y] <= walk_weight(es, q) && dist1[y] < INF);
                }
            }
        }
        i = i + 1;
    }
}

// ═══════════════════════════════════════════════════════════════════════════════
// Lemma 5.5 — SSSP with at most k negative edges per shortest path
// ═══════════════════════════════════════════════════════════════════════════════
/// SSSP when every shortest path uses at most `k` negative edges (Lemma 5.5).
///
/// Alternates Dijkstra on non-negative subgraph and single Bellman-Ford passes
/// over negative edges. Runs in O(k · m log n) time.
///
/// When shortest paths need at most `k` negative edges (so no negative
/// cycle is reachable) and the weights are small enough ([`few_neg_bounded`]
/// for `min(k, n − 1)` rounds), it returns the distances. It returns `None` when a negative edge still improves a
/// distance after the last round; with small weights that happens only when
/// some walk from the source is lighter than every walk with at most `k`
/// negative edges (for instance, when a negative cycle is reachable).
/// Whatever it returns as `Some` never undercuts a distance: each finite
/// entry is backed by a walk, and no negative edge can lower an entry.
#[verifier::loop_isolation(false)]
pub fn sssp_few_negative(g: &Graph, source: NodeId, k: usize) -> (res: Option<Vec<i64>>)
    requires
        g.wf(),
        source.0 < g.num_nodes(),
    ensures
        res matches Some(d) ==> d@.len() == g.num_nodes() && d@[source.0 as int] <= 0 && (forall|v: int|
            0 <= v < g.num_nodes() ==> #[trigger] d@[v] <= INF) && estimates_backed(
            g.edge_list(),
            source.0 as int,
            d@,
        ) && (forall|e: int|
            0 <= e < g.edge_list().len() && (#[trigger] g.edge_list()[e]).2 < 0 ==> sat_relaxed(
                g.edge_list(),
                d@,
                e,
            )),
        res is None && few_neg_bounded(g.edge_list(), g.num_nodes() as int, k as int) ==> !neg_paths_within(
            g.edge_list(),
            source.0 as int,
            k as int,
        ),
        few_neg_case(g.edge_list(), g.num_nodes() as int, source.0 as int, k as int) ==> (
        res matches Some(d) && forall|v: int|
            0 <= v < g.num_nodes() ==> is_shortest(
                g.edge_list(),
                source.0 as int,
                v,
                #[trigger] d@[v] as int,
            )),
        few_neg_bounded(g.edge_list(), g.num_nodes() as int, few_neg_rounds(g.num_nodes() as int, k as int))
            && neg_paths_within(g.edge_list(), source.0 as int, k as int) ==> (
        res matches Some(d) && forall|v: int|
            0 <= v < g.num_nodes() ==> is_shortest(
                g.edge_list(),
                source.0 as int,
                v,
                #[trigger] d@[v] as int,
            )),
{
    let ghost es = g.edge_list();
    let ghost s = source.0 as int;
    let ghost w_max = max_abs_weight(es);
    let ghost kk = few_neg_rounds(g.num_nodes() as int, k as int);
    let ghost c = few_neg_case(es, g.num_nodes() as int, s, kk);
    let ghost ka: int = if c {
        kk
    } else {
        k as int
    };
    proof {
        g.lemma_wf_edges();
        lemma_max_abs_weight(es);
    }
    let n = g.node_count();
    let m = g.edge_count();
    proof {
        assert(edges_within(es, n as int));
        if neg_paths_within(es, s, k as int) && (few_neg_bounded(es, n as int, kk) || few_neg_bounded(
            es,
            n as int,
            k as int,
        )) {
            lemma_few_neg_case_rounds(es, n as int, s, k as int);
        }
        assert(few_neg_case(es, n as int, s, ka) ==> c);
    }
    // Partition edges into non-negative and negative.
    let neg_edges = negative_edges(g);
    let mut dist = inf_vec(n);
    proof {
        assert(dist@ =~= inf_seq(n as nat));
        lemma_num_finite_inf(n as nat);
        lemma_num_finite_update(dist@, s, 0);
        lemma_num_finite_le(dist@.update(s, 0));
    }
    dist.set(source.0 as usize, 0);
    proof {
        lemma_source_backed(es, s, dist@);
    }
    // Track which nodes to seed each Dijkstra pass.
    let mut in_seed = false_vec(n);
    let mut seed_nodes: Vec<u32> = Vec::new();
    seed_nodes.push(source.0);
    in_seed.set(source.0 as usize, true);
    proof {
        assert(seed_nodes@[0] == source.0);
        assert forall|q: Seq<int>, v: int|
            #[trigger] is_walk(es, q, s, v) && neg_count(es, q) <= 0 && (q.len() == 0
                || es[q.last()].2 < 0) implies dist@[v] <= walk_weight(es, q) && dist@[v] < INF by {
            if q.len() > 0 {
                assert(neg_count(es, q) >= 1);
            }
        }
        if c {
            reveal(estimates_ok);
            assert forall|v: int| 0 <= v < n && #[trigger] dist@[v] < INF implies exists|p: Seq<int>|
                #[trigger] is_walk(es, p, s, v) && walk_weight(es, p) == dist@[v] by {
                assert(v == s);
                assert(is_walk(es, Seq::<int>::empty(), s, v));
            }
            assert(kk * w_max >= 0) by (nonlinear_arith)
                requires
                    kk >= 0,
                    w_max >= 0,
            ;
        }
    }
    let mut round: usize = 0;
    let mut done = false;
    while !done
        invariant
            dist@.len() == n,
            in_seed@.len() == n,
            n == g.num_nodes(),
            round <= k,
            dist@[s] <= 0,
            forall|v: int| 0 <= v < n ==> #[trigger] dist@[v] <= INF,
            forall|t: int|
                0 <= t < seed_nodes@.len() ==> (#[trigger] seed_nodes@[t]) < n && dist@[seed_nodes@[t] as int]
                    < INF,
            forall|v: int|
                0 <= v < n && #[trigger] in_seed@[v] ==> seed_nodes@.contains(v as u32) && dist@[v]
                    < INF,
            !done ==> forall|u: int|
                0 <= u < n && #[trigger] dist@[u] < INF ==> in_seed@[u] || nonneg_relaxed_out(
                    es,
                    dist@,
                    u,
                ),
            num_finite(dist@) <= n,
            backed(es, s, dist@),
            c ==> estimates_ok(es, dist@, s, kk, w_max),
            c ==> round <= kk,
            ka == (if c {
                kk
            } else {
                k as int
            }),
            few_neg_case(es, n as int, s, ka) ==> c,
            c && !done ==> bounded_by_neg_ending(es, dist@, s, round as int),
            c && done ==> forall|p: Seq<int>, v: int|
                #[trigger] is_walk(es, p, s, v) ==> dist@[v] <= walk_weight(es, p),
        decreases k - round + (if done {
            0int
        } else {
            1int
        }),
    {
        // Dijkstra step: non-negative edges only, seeded from `seed_nodes`.
        let heap = seed_queue(&mut in_seed, &mut seed_nodes, &dist, Ghost(es));
        let ghost dist_q = dist@;
        settle_nonnegative(g, &mut dist, heap, Ghost(s), Ghost(ka));
        proof {
            if c {
                lemma_round_settled(es, dist_q, dist@, s, kk, w_max, n as int, round as int);
                if round == kk {
                    lemma_rounds_exhausted(es, dist@, s, kk, n as int);
                    lemma_few_neg_settled_all(es, dist@, s, kk, w_max, n as int, neg_edges@);
                }
            }
        }
        // Bellman-Ford pass: relax all negative edges once.
        let ghost dist_b = dist@;
        relax_negative(
            g,
            &neg_edges,
            &mut dist,
            &mut in_seed,
            &mut seed_nodes,
            Ghost(s),
            Ghost(ka),
            Ghost(round as int),
        );
        if seed_nodes.len() == 0 {
            proof {
                if c {
                    lemma_round_converged(es, dist_b, dist@, neg_edges@, s, kk, w_max, n as int, round as int);
                }
            }
            done = true;
        } else if round == k {
            proof {
                if c {
                    lemma_rounds_exhausted(es, dist@, s, kk, n as int);
                }
            }
            done = true;
        } else {
            proof {
                if c {
                    lemma_round_next(es, dist@, neg_edges@, s, round as int);
                }
            }
            round = round + 1;
        }
    }
    // Negative cycle check: one more BF pass — if anything still relaxes, cycle.
    if negative_edge_improves(g, &neg_edges, &dist) {
        proof {
            if c {
                lemma_few_neg_settled_all(es, dist@, s, kk, w_max, n as int, neg_edges@);
            }
        }
        return None;  // negative cycle detected
    }
    proof {
        assert(estimates_backed(es, s, dist@)) by {
            reveal(backed);
        }
        lemma_negatives_relaxed(es, neg_edges@, dist@);
    }
    proof {
        if c {
            reveal(estimates_ok);
            assert forall|v: int| 0 <= v < n implies is_shortest(es, s, v, #[trigger] dist@[v] as int) by {
                if dist@[v] < INF {
                    let p = choose|p: Seq<int>| #[trigger] is_walk(es, p, s, v) && walk_weight(es, p) == dist@[v];
                    assert(is_walk(es, p, s, v));
                }
            }
        }
    }
    Some(dist)
}

/// Move the seeds into a fresh queue, clearing `in_seed` and `seed_nodes`
/// for the next round.
#[verifier::loop_isolation(false)]
fn seed_queue(
    in_seed: &mut Vec<bool>,
    seed_nodes: &mut Vec<u32>,
    dist: &Vec<i64>,
    Ghost(es): Ghost<Seq<(u32, u32, i64)>>,
) -> (heap: MinQueue)
    requires
        dist@.len() <= u32::MAX,
        old(in_seed)@.len() == dist@.len(),
        forall|t2: int|
            0 <= t2 < old(seed_nodes)@.len() ==> (#[trigger] old(seed_nodes)@[t2]) < dist@.len()
                && dist@[old(seed_nodes)@[t2] as int] < INF,
        forall|v: int|
            0 <= v < dist@.len() && #[trigger] old(in_seed)@[v] ==> old(seed_nodes)@.contains(v as u32)
                && dist@[v] < INF,
        forall|u: int|
            0 <= u < dist@.len() && #[trigger] dist@[u] < INF ==> old(in_seed)@[u] || nonneg_relaxed_out(
                es,
                dist@,
                u,
            ),
    ensures
        final(in_seed)@.len() == dist@.len(),
        final(seed_nodes)@.len() == 0,
        forall|v: int| 0 <= v < dist@.len() ==> !#[trigger] final(in_seed)@[v],
        forall|x: (i64, u32)|
            #[trigger] heap.elems().contains(x) ==> x.1 < dist@.len() && dist@[x.1 as int] <= x.0 && x.0 < INF,
        forall|u: int|
            0 <= u < dist@.len() && #[trigger] dist@[u] < INF ==> heap.elems().contains((dist@[u], u as u32))
                || nonneg_relaxed_out(es, dist@, u),
{
    let ghost n = dist@.len();
    let mut heap = MinQueue::new();
    proof {
        assert forall|v: int| 0 <= v < n && #[trigger] in_seed@[v] implies exists|t2: int|
            0 <= t2 < seed_nodes@.len() && seed_nodes@[t2] == v as u32 by {
            assert(seed_nodes@.contains(v as u32));
        }
    }
    let mut t: usize = 0;
    while t < seed_nodes.len()
        invariant
            t <= seed_nodes@.len(),
            dist@.len() == n,
            n <= u32::MAX,
            in_seed@.len() == n,
            forall|t2: int|
                0 <= t2 < seed_nodes@.len() ==> (#[trigger] seed_nodes@[t2]) < n && dist@[seed_nodes@[t2] as int]
                    < INF,
            forall|v: int|
                0 <= v < n && #[trigger] in_seed@[v] ==> exists|t2: int|
                    t <= t2 < seed_nodes@.len() && seed_nodes@[t2] == v as u32,
            forall|x: (i64, u32)|
                #[trigger] heap.elems().contains(x) ==> x.1 < n && dist@[x.1 as int] <= x.0
                    && x.0 < INF,
            forall|v: int| 0 <= v < n && #[trigger] in_seed@[v] ==> dist@[v] < INF,
            forall|u: int|
                0 <= u < n && #[trigger] dist@[u] < INF ==> in_seed@[u] || heap.elems().contains(
                    (dist@[u], u as u32),
                ) || nonneg_relaxed_out(es, dist@, u),
        decreases seed_nodes@.len() - t,
    {
        let v = seed_nodes[t];
        let ghost in0 = in_seed@;
        let ghost heap0 = heap.elems();
        let dv = dist[v as usize];
        // reset in place for the next round
        in_seed.set(v as usize, false);
        heap.push((dv, v));
        proof {
            assert forall|y: int|
                0 <= y < n && #[trigger] in_seed@[y] implies exists|t2: int|
                t + 1 <= t2 < seed_nodes@.len() && seed_nodes@[t2] == y as u32 by {
                assert(in0[y]);
                let t2 = choose|t2: int|
                    t <= t2 < seed_nodes@.len() && seed_nodes@[t2] == y as u32;
                assert(t2 != t);
            }
            assert forall|x: (i64, u32)| #[trigger]
                heap.elems().contains(x) implies x.1 < n && dist@[x.1 as int] <= x.0 && x.0
                < INF by {
                if x != (dv, v) {
                    assert(heap0.contains(x));
                }
            }
            assert forall|u: int|
                0 <= u < n && #[trigger] dist@[u] < INF implies in_seed@[u]
                || heap.elems().contains((dist@[u], u as u32)) || nonneg_relaxed_out(
                es,
                dist@,
                u,
            ) by {
                if u == v as int {
                    assert(heap.elems().contains((dist@[u], u as u32)));
                } else {
                    assert(in0[u] == in_seed@[u]);
                    if heap0.contains((dist@[u], u as u32)) {
                    }
                }
            }
            assert forall|y: int| 0 <= y < n && #[trigger] in_seed@[y] implies dist@[y]
                < INF by {
                assert(in0[y]);
            }
        }
        t = t + 1;
    }
    proof {
        assert forall|v: int| 0 <= v < n implies !#[trigger] in_seed@[v] by {
            if in_seed@[v] {
                let t2 = choose|t2: int| t <= t2 < seed_nodes@.len() && seed_nodes@[t2] == v as u32;
            }
        }
    }
    seed_nodes.clear();
    heap
}

/// The edges of negative weight, in increasing order of id.
fn negative_edges(g: &Graph) -> (neg_edges: Vec<EdgeId>)
    requires
        g.wf(),
    ensures
        forall|t: int|
            0 <= t < neg_edges@.len() ==> (#[trigger] neg_edges@[t]).0 < g.edge_list().len()
                && g.edge_list()[neg_edges@[t].0 as int].2 < 0,
        forall|e: int|
            0 <= e < g.edge_list().len() && (#[trigger] g.edge_list()[e]).2 < 0 ==> neg_edges@.contains(
                EdgeId(e as u32),
            ),
{
    let ghost es = g.edge_list();
    proof {
        g.lemma_wf_edges();
    }
    let m = g.edge_count();
    let mut neg_edges: Vec<EdgeId> = Vec::new();
    let mut i: usize = 0;
    while i < m
        invariant
            i <= m,
            g.wf(),
            es == g.edge_list(),
            m == es.len(),
            m <= u32::MAX,
            forall|t: int|
                0 <= t < neg_edges@.len() ==> (#[trigger] neg_edges@[t]).0 < m && es[neg_edges@[t].0 as int].2
                    < 0,
            forall|e: int|
                0 <= e < i && (#[trigger] es[e]).2 < 0 ==> neg_edges@.contains(EdgeId(e as u32)),
        decreases m - i,
    {
        let e = EdgeId(i as u32);
        let ghost before = neg_edges@;
        if g.weight(e) < 0 {
            neg_edges.push(e);
            proof {
                assert(neg_edges@[neg_edges@.len() - 1] == e);
            }
        }
        proof {
            assert forall|f: int|
                0 <= f < i + 1 && (#[trigger] es[f]).2 < 0 implies neg_edges@.contains(
                EdgeId(f as u32),
            ) by {
                if f < i {
                    let t = choose|t: int| 0 <= t < before.len() && before[t] == EdgeId(f as u32);
                    assert(neg_edges@[t] == before[t]);
                }
            }
            assert forall|t: int| 0 <= t < neg_edges@.len() implies (#[trigger] neg_edges@[t]).0
                < m && es[neg_edges@[t].0 as int].2 < 0 by {
                if t < before.len() {
                    assert(neg_edges@[t] == before[t]);
                }
            }
        }
        i = i + 1;
    }
    neg_edges
}

/// After the Dijkstra step of round `j`, every walk with at most `j`
/// negative edges is bounded: the bound for walks ending with a negative
/// edge extends along the relaxed non-negative edges.
proof fn lemma_round_settled(
    es: Seq<(u32, u32, i64)>,
    dist_q: Seq<i64>,
    dist: Seq<i64>,
    s: int,
    k: int,
    w: int,
    n: int,
    j: int,
)
    requires
        few_neg_case(es, n, s, k),
        n == dist.len(),
        n == dist_q.len(),
        n >= 1,
        0 <= s < n,
        k >= 0,
        w == max_abs_weight(es),
        weights_within(es, w),
        w >= 0,
        edges_within(es, n),
        bounded_by_neg_ending(es, dist_q, s, j),
        forall|v: int| 0 <= v < n ==> #[trigger] dist[v] <= dist_q[v],
        forall|u: int| 0 <= u < n && #[trigger] dist[u] < INF ==> nonneg_relaxed_out(es, dist, u),
        estimates_ok(es, dist, s, k, w),
        num_finite(dist) <= n,
    ensures
        bounded_by_neg(es, dist, s, j),
{
    assert forall|q: Seq<int>, v: int| #[trigger] is_walk(es, q, s, v) && neg_count(es, q) <= j implies dist[v]
        <= walk_weight(es, q) && dist[v] < INF by {
        assert forall|q2: Seq<int>, v2: int|
            #[trigger] is_walk(es, q2, s, v2) && neg_count(es, q2) <= j && (q2.len() == 0 || es[q2.last()].2
                < 0) implies dist[v2] <= walk_weight(es, q2) && dist[v2] < INF by {
            assert(dist_q[v2] <= walk_weight(es, q2) && dist_q[v2] < INF);
            if q2.len() > 0 {
                lemma_walk_ends_within(es, q2, s, v2, n);
            }
        }
        assert forall|e: int|
            0 <= e < es.len() && (#[trigger] es[e]).2 >= 0 && dist[es[e].0 as int] < INF implies dist[es[e].1 as int]
            <= dist[es[e].0 as int] + es[e].2 by {
            assert(es[e].0 < n);
            assert(nonneg_relaxed_out(es, dist, es[e].0 as int));
        }
        if (n + k + 1) * w <= INF {
            assert forall|x: int| 0 <= x < n && #[trigger] dist[x] < INF implies dist[x] <= (n - 1) * w by {
                reveal(estimates_ok);
                lemma_mul_le(num_finite(dist) - 1, n - 1, w);
            }
            few_neg_ub_margin(es, n, k, w);
            lemma_extend_nonneg(es, dist, s, j, (n - 1) * w, w, q, v);
        } else {
            lemma_neg_paths_at_most_n(es, n, s, k);
            let q2 = lemma_simple_shortcut(es, n, s, q, v);
            lemma_extend_nonneg_distinct(es, dist, s, j, q2, v);
        }
    }
}

/// When a Bellman-Ford pass changes nothing, every edge is relaxed and no
/// walk from the source is lighter than the estimate at its end.
proof fn lemma_round_converged(
    es: Seq<(u32, u32, i64)>,
    dist_b: Seq<i64>,
    dist: Seq<i64>,
    negs: Seq<EdgeId>,
    s: int,
    k: int,
    w: int,
    n: int,
    j: int,
)
    requires
        few_neg_case(es, n, s, k),
        n == dist.len(),
        n >= 1,
        0 <= s < n,
        k >= 0,
        dist[s] <= 0,
        w == max_abs_weight(es),
        weights_within(es, w),
        w >= 0,
        edges_within(es, n),
        es.len() <= u32::MAX,
        dist == dist_b,
        forall|u: int| 0 <= u < n && #[trigger] dist_b[u] < INF ==> nonneg_relaxed_out(es, dist_b, u),
        forall|e: int| 0 <= e < es.len() && (#[trigger] es[e]).2 < 0 ==> negs.contains(EdgeId(e as u32)),
        forall|t: int|
            0 <= t < negs.len() && dist[es[(#[trigger] negs[t]).0 as int].0 as int] < INF ==> dist[es[negs[t].0 as int].1 as int]
                <= dist[es[negs[t].0 as int].0 as int] + es[negs[t].0 as int].2,
        estimates_ok(es, dist, s, k, w),
        num_finite(dist) <= n,
    ensures
        forall|p: Seq<int>, v: int| #[trigger] is_walk(es, p, s, v) ==> dist[v] <= walk_weight(es, p),
{
    assert(all_relaxed(es, dist)) by {
        assert forall|e: int| 0 <= e < es.len() && dist[(#[trigger] es[e]).0 as int] < INF implies dist[es[e].1 as int]
            <= dist[es[e].0 as int] + es[e].2 by {
            assert(es[e].0 < n);
            if es[e].2 < 0 {
                assert(negs.contains(EdgeId(e as u32)));
                let t2 = choose|t2: int| 0 <= t2 < negs.len() && negs[t2] == EdgeId(e as u32);
                assert(negs[t2].0 == e);
            } else {
                assert(nonneg_relaxed_out(es, dist_b, es[e].0 as int));
            }
        }
    }
    assert forall|p: Seq<int>, v: int| #[trigger] is_walk(es, p, s, v) implies dist[v] <= walk_weight(es, p) by {
        if (n + k + 1) * w <= INF {
            assert forall|x: int| 0 <= x < n && #[trigger] dist[x] < INF implies dist[x] <= (n - 1) * w by {
                reveal(estimates_ok);
                lemma_mul_le(num_finite(dist) - 1, n - 1, w);
            }
            few_neg_ub_margin(es, n, k, w);
            lemma_relaxed_lower_bound(es, dist, s, w, (n - 1) * w, p, v);
        } else {
            lemma_neg_paths_at_most_n(es, n, s, k);
            let q = lemma_simple_shortcut(es, n, s, p, v);
            lemma_relaxed_distinct(es, dist, s, q, v);
        }
    }
}

/// After `k` rounds, every walk with at most `k` negative edges is bounded,
/// so every walk is: shortest paths need no more.
proof fn lemma_rounds_exhausted(es: Seq<(u32, u32, i64)>, dist: Seq<i64>, s: int, k: int, n: int)
    requires
        few_neg_case(es, n, s, k),
        bounded_by_neg(es, dist, s, k),
    ensures
        forall|p: Seq<int>, v: int| #[trigger] is_walk(es, p, s, v) ==> dist[v] <= walk_weight(es, p),
{
    assert forall|p: Seq<int>, v: int| #[trigger] is_walk(es, p, s, v) implies dist[v] <= walk_weight(es, p) by {
        reveal(neg_paths_within);
        let q = choose|q: Seq<int>|
            #[trigger] is_walk(es, q, s, v) && neg_count(es, q) <= k && walk_weight(es, q) <= walk_weight(es, p);
    }
}

/// After the Bellman-Ford pass of round `j`, walks with at most `j + 1`
/// negative edges that end with one (or are empty) are bounded.
proof fn lemma_round_next(es: Seq<(u32, u32, i64)>, dist: Seq<i64>, negs: Seq<EdgeId>, s: int, j: int)
    requires
        0 <= s < dist.len(),
        dist[s] <= 0,
        es.len() <= u32::MAX,
        forall|e: int| 0 <= e < es.len() && (#[trigger] es[e]).2 < 0 ==> negs.contains(EdgeId(e as u32)),
        forall|t: int, q: Seq<int>, v: int|
            0 <= t < negs.len() && #[trigger] is_walk(es, q, s, v) && q.len() > 0 && q.last() == (
            #[trigger] negs[t]).0 && neg_count(es, q) <= j + 1 ==> dist[v] <= walk_weight(es, q) && dist[v]
                < INF,
    ensures
        bounded_by_neg_ending(es, dist, s, j + 1),
{
    assert forall|q: Seq<int>, v: int|
        #[trigger] is_walk(es, q, s, v) && neg_count(es, q) <= j + 1 && (q.len() == 0 || es[q.last()].2 < 0) implies dist[v]
        <= walk_weight(es, q) && dist[v] < INF by {
        if q.len() > 0 {
            let e = q.last();
            assert(0 <= e < es.len());
            assert(negs.contains(EdgeId(e as u32)));
            let t2 = choose|t2: int| 0 <= t2 < negs.len() && negs[t2] == EdgeId(e as u32);
            assert(negs[t2].0 == e);
        } else {
            assert(v == s);
        }
    }
}

/// Under [`few_neg_case`], estimates that are at most every walk's weight
/// leave no edge that could lower one.
proof fn lemma_few_neg_settled(es: Seq<(u32, u32, i64)>, dist: Seq<i64>, s: int, k: int, w: int, n: int, e: int)
    requires
        0 <= s < n,
        few_neg_case(es, n, s, k),
        n == dist.len(),
        k >= 0,
        w == max_abs_weight(es),
        weights_within(es, w),
        w >= 0,
        edges_within(es, n),
        estimates_ok(es, dist, s, k, w),
        num_finite(dist) <= n,
        forall|p: Seq<int>, v: int| #[trigger] is_walk(es, p, s, v) ==> dist[v] <= walk_weight(es, p),
        0 <= e < es.len(),
    ensures
        sat_relaxed(es, dist, e),
{
    let u = es[e].0 as int;
    let v = es[e].1 as int;
    if dist[u] < INF {
        reveal(estimates_ok);
        lemma_few_neg_no_overflow(es, dist, s, k, w, n, u, e);
        let p = choose|p: Seq<int>| #[trigger] is_walk(es, p, s, u) && walk_weight(es, p) == dist[u];
        lemma_walk_push(es, p, s, u, e);
        assert(is_walk(es, p.push(e), s, v));
    }
}

/// Under [`few_neg_case`], with estimates at most every walk's weight, no
/// edge of `negs` can lower an estimate.
proof fn lemma_few_neg_settled_all(
    es: Seq<(u32, u32, i64)>,
    dist: Seq<i64>,
    s: int,
    k: int,
    w: int,
    n: int,
    negs: Seq<EdgeId>,
)
    requires
        0 <= s < n,
        few_neg_case(es, n, s, k),
        n == dist.len(),
        k >= 0,
        w == max_abs_weight(es),
        weights_within(es, w),
        w >= 0,
        edges_within(es, n),
        estimates_ok(es, dist, s, k, w),
        num_finite(dist) <= n,
        forall|p: Seq<int>, v: int| #[trigger] is_walk(es, p, s, v) ==> dist[v] <= walk_weight(es, p),
        forall|t: int| 0 <= t < negs.len() ==> (#[trigger] negs[t]).0 < es.len(),
    ensures
        forall|t: int| 0 <= t < negs.len() ==> sat_relaxed(es, dist, #[trigger] negs[t].0 as int),
{
    assert forall|t: int| 0 <= t < negs.len() implies sat_relaxed(es, dist, #[trigger] negs[t].0 as int) by {
        lemma_few_neg_settled(es, dist, s, k, w, n, negs[t].0 as int);
    }
}

/// When every edge of `negs` is relaxed and `negs` lists every negative edge,
/// every negative edge is relaxed.
proof fn lemma_negatives_relaxed(es: Seq<(u32, u32, i64)>, negs: Seq<EdgeId>, dist: Seq<i64>)
    requires
        es.len() <= u32::MAX,
        forall|t: int| 0 <= t < negs.len() ==> sat_relaxed(es, dist, #[trigger] negs[t].0 as int),
        forall|e: int| 0 <= e < es.len() && (#[trigger] es[e]).2 < 0 ==> negs.contains(EdgeId(e as u32)),
    ensures
        forall|e: int| 0 <= e < es.len() && (#[trigger] es[e]).2 < 0 ==> sat_relaxed(es, dist, e),
{
    assert forall|e: int| 0 <= e < es.len() && (#[trigger] es[e]).2 < 0 implies sat_relaxed(es, dist, e) by {
        assert(negs.contains(EdgeId(e as u32)));
        let t = choose|t: int| 0 <= t < negs.len() && negs[t] == EdgeId(e as u32);
        assert(sat_relaxed(es, dist, negs[t].0 as int));
    }
}

/// Whether some edge of `neg_edges` can still lower an estimate: one more
/// Bellman-Ford pass over the negative edges, without changing anything.
fn negative_edge_improves(g: &Graph, neg_edges: &Vec<EdgeId>, dist: &Vec<i64>) -> (r: bool)
    requires
        g.wf(),
        dist@.len() == g.num_nodes(),
        forall|t: int| 0 <= t < neg_edges@.len() ==> (#[trigger] neg_edges@[t]).0 < g.edge_list().len(),
    ensures
        r <==> exists|t: int|
            0 <= t < neg_edges@.len() && !sat_relaxed(g.edge_list(), dist@, #[trigger] neg_edges@[t].0 as int),
{
    let ghost es = g.edge_list();
    proof {
        g.lemma_wf_edges();
    }
    let mut i: usize = 0;
    while i < neg_edges.len()
        invariant
            i <= neg_edges@.len(),
            es == g.edge_list(),
            g.wf(),
            dist@.len() == g.num_nodes(),
            edges_within(es, g.num_nodes() as int),
            forall|t: int| 0 <= t < neg_edges@.len() ==> (#[trigger] neg_edges@[t]).0 < es.len(),
            forall|t: int| 0 <= t < i ==> sat_relaxed(es, dist@, #[trigger] neg_edges@[t].0 as int),
        decreases neg_edges@.len() - i,
    {
        let e = neg_edges[i];
        let u = g.source(e);
        let v = g.target(e);
        let w = g.weight(e);
        let du = dist[u.0 as usize];
        if du < INF {
            let nd = sat_add(du, w);
            if nd < dist[v.0 as usize] {
                proof {
                    assert(!sat_relaxed(es, dist@, neg_edges@[i as int].0 as int));
                }
                return true;
            }
        }
        i = i + 1;
    }
    false
}

/// Under [`few_neg_bounded`], finite entries at most `(n-1)·w` leave room for
/// one more edge below `INF`.
proof fn few_neg_ub_margin(es: Seq<(u32, u32, i64)>, n: int, k: int, w: int)
    requires
        (n + k + 1) * w <= INF,
        n >= 1,
        k >= 0,
        w >= 0,
    ensures
        (n - 1) * w + w < INF,
{
    assert((n - 1) * w + w == n * w) by (nonlinear_arith);
    assert((n + k + 1) * w == n * w + (k + 1) * w) by (nonlinear_arith);
    assert((k + 1) * w >= w) by (nonlinear_arith)
        requires
            k >= 0,
            w >= 0,
    ;
    if w == 0 {
        assert(n * w == 0) by (nonlinear_arith)
            requires
                w == 0,
        ;
    }
}

} // verus!
