//! Potentials: reweighting a graph so that every edge weight becomes
//! non-negative while walks keep their order by weight.
//!
//! With a potential `φ`, the edge `(u, v, w)` gets the reduced weight
//! `w + φ(u) − φ(v)`. Along a walk from `s` to `t` the reduced weights sum to
//! the original weight plus `φ(s) − φ(t)`, so shortest walks stay shortest.
//! A potential whose reduced weights are all non-negative is *feasible*; one
//! exists exactly when the graph has no negative cycle, and Bellman-Ford
//! from an extra node joined to every node by weight-0 edges computes one.
use vstd::prelude::*;

use crate::arith::{clamp64, sat_add, sat_sub};
use crate::graph::{EdgeId, Graph, NodeId};
use crate::paths::{
    edges_within, has_negative_cycle, is_shortest, is_walk, lemma_max_abs_weight, lemma_shortcut,
    lemma_walk_push, lemma_walk_weight_bound, max_abs_weight, non_negative,
    reaches_negative_cycle, walk_weight, weights_within, abs_sum, lemma_abs_sum_edge, lemma_distinct_walk_bound,
    lemma_simple_shortcut,
};
use crate::scc::{estimates_backed, walk_bounded};
use crate::sssp::{bellman_ford, bf_bounded, dijkstra, INF};

verus! {

/// The largest magnitude of a potential that the final reweighting accepts
/// (`INF / 4`): reduced weights and recovered distances then stay far from
/// the bounds of `i64`.
pub const POT_LIMIT: i64 = 1152921504606846975i64;

/// Weights of `es` small enough for [`crate::sssp::sssp`] on `n` nodes: every
/// sum it forms, including those of Bellman-Ford on the graph with an extra
/// node, is exact, and every shortest distance stays below `INF / 2`.
pub open spec fn sssp_bounded(es: Seq<(u32, u32, i64)>, n: int) -> bool {
    4 * (n + 1) * (es.len() + n + 2) * max_abs_weight(es) <= INF
}

/// The edges of `es` followed by an edge of weight 0 from the extra node `n`
/// to each node `0..n`, in order.
pub open spec fn augmented(es: Seq<(u32, u32, i64)>, n: nat) -> Seq<(u32, u32, i64)> {
    es + Seq::new(n, |v: int| (n as u32, v as u32, 0i64))
}

/// Every reduced weight `w + φ(u) − φ(v)` is non-negative.
pub open spec fn feasible(es: Seq<(u32, u32, i64)>, phi: Seq<i64>) -> bool {
    forall|e: int|
        0 <= e < es.len() ==> (#[trigger] es[e]).2 + phi[es[e].0 as int] - phi[es[e].1 as int] >= 0
}

/// Every entry of `phi` lies in `[-lim, lim]`.
pub open spec fn pot_within(phi: Seq<i64>, lim: int) -> bool {
    forall|v: int| 0 <= v < phi.len() ==> -lim <= #[trigger] phi[v] <= lim
}

/// The reduced weight of `(u, v, w)` as computed with saturating `i64`
/// arithmetic: `(w + φ(u)) − φ(v)`, each step clamped to the range of `i64`.
pub open spec fn reduced_weight(w: i64, pu: i64, pv: i64) -> i64 {
    clamp64(clamp64(w + pu) - pv) as i64
}

/// The edges of `es` with their reduced weights.
pub open spec fn reduced(es: Seq<(u32, u32, i64)>, phi: Seq<i64>) -> Seq<(u32, u32, i64)> {
    Seq::new(
        es.len(),
        |e: int| (es[e].0, es[e].1, reduced_weight(es[e].2, phi[es[e].0 as int], phi[es[e].1 as int])),
    )
}

/// A bound on the edge weights bounds the largest absolute weight.
pub proof fn lemma_max_abs_weight_le(es: Seq<(u32, u32, i64)>, w: int)
    requires
        weights_within(es, w),
        w >= 0,
    ensures
        max_abs_weight(es) <= w,
    decreases es.len(),
{
    if es.len() > 0 {
        assert(weights_within(es.drop_last(), w)) by {
            assert forall|e: int| 0 <= e < es.drop_last().len() implies -w <= (
            #[trigger] es.drop_last()[e]).2 <= w by {
                assert(es.drop_last()[e] == es[e]);
            }
        }
        lemma_max_abs_weight_le(es.drop_last(), w);
        assert(-w <= es[es.len() - 1].2 <= w);
    }
}

/// A walk through `es` is a walk, of the same weight, through any extension
/// of `es`.
pub proof fn lemma_walk_extend(
    es: Seq<(u32, u32, i64)>,
    ext: Seq<(u32, u32, i64)>,
    p: Seq<int>,
    s: int,
    t: int,
)
    requires
        is_walk(es, p, s, t),
    ensures
        is_walk(es + ext, p, s, t),
        walk_weight(es + ext, p) == walk_weight(es, p),
    decreases p.len(),
{
    if p.len() > 0 {
        let e = p.last();
        lemma_walk_extend(es, ext, p.drop_last(), s, es[e].0 as int);
        assert((es + ext)[e] == es[e]);
    }
}

/// A walk through the augmented edges between two nodes of `0..n` never
/// uses an edge of the extra node: it is a walk through `es`.
pub proof fn lemma_augmented_walk(es: Seq<(u32, u32, i64)>, n: nat, p: Seq<int>, a: int, b: int)
    requires
        edges_within(es, n as int),
        is_walk(augmented(es, n), p, a, b),
        n <= u32::MAX,
        0 <= a < n,
        0 <= b < n,
    ensures
        is_walk(es, p, a, b),
        walk_weight(augmented(es, n), p) == walk_weight(es, p),
    decreases p.len(),
{
    let aug = augmented(es, n);
    let m = es.len() as int;
    if p.len() > 0 {
        let e = p.last();
        let q = p.drop_last();
        if e >= m {
            assert(aug[e].0 == n);
            assert(is_walk(aug, q, a, n as int));
            if q.len() > 0 {
                let f = q.last();
                if f < m {
                    assert(aug[f] == es[f]);
                    assert(es[f].1 < n);
                }
                assert(aug[f].1 < n);
            }
            assert(false);
        }
        assert(aug[e] == es[e]);
        assert(es[e].0 < n);
        lemma_augmented_walk(es, n, q, a, es[e].0 as int);
    }
}

/// The extra node reaches a negative cycle of the augmented edges exactly
/// when `es` has a negative cycle.
pub proof fn lemma_augmented_negative_cycle(es: Seq<(u32, u32, i64)>, n: nat)
    requires
        edges_within(es, n as int),
        n <= u32::MAX,
    ensures
        reaches_negative_cycle(augmented(es, n), n as int) <==> has_negative_cycle(es),
{
    let aug = augmented(es, n);
    let ext = Seq::new(n, |v: int| (n as u32, v as u32, 0i64));
    let m = es.len() as int;
    if has_negative_cycle(es) {
        let (c, x) = choose|c: Seq<int>, x: int| #[trigger] is_walk(es, c, x, x) && walk_weight(es, c) < 0;
        lemma_walk_extend(es, ext, c, x, x);
        if c.len() == 0 {
            assert(false);
        }
        assert(es[c.last()].1 == x);
        assert(0 <= x < n);
        let p = seq![m + x];
        assert(aug[m + x] == (n as u32, x as u32, 0i64));
        assert(p.drop_last() =~= Seq::<int>::empty());
        assert(aug[m + x].0 == n);
        assert(is_walk(aug, p.drop_last(), n as int, n as int));
        assert(is_walk(aug, p, n as int, x));
        assert(reaches_negative_cycle(aug, n as int));
    }
    if reaches_negative_cycle(aug, n as int) {
        let (p, c, x) = choose|p: Seq<int>, c: Seq<int>, x: int|
            #[trigger] is_walk(aug, p, n as int, x) && #[trigger] is_walk(aug, c, x, x) && walk_weight(
                aug,
                c,
            ) < 0;
        if c.len() == 0 {
            assert(false);
        }
        let e = c.last();
        if e < m {
            assert(aug[e] == es[e]);
        }
        assert(aug[e].1 < n);
        assert(0 <= x < n);
        lemma_augmented_walk(es, n, c, x, x);
        assert(has_negative_cycle(es));
    }
}

/// Along a walk, a feasible potential makes the weight plus `φ(s) − φ(t)`
/// non-negative.
pub proof fn lemma_feasible_walk(es: Seq<(u32, u32, i64)>, phi: Seq<i64>, p: Seq<int>, s: int, t: int)
    requires
        feasible(es, phi),
        is_walk(es, p, s, t),
    ensures
        walk_weight(es, p) + phi[s] - phi[t] >= 0,
    decreases p.len(),
{
    if p.len() > 0 {
        let e = p.last();
        lemma_feasible_walk(es, phi, p.drop_last(), s, es[e].0 as int);
        assert(es[e].2 + phi[es[e].0 as int] - phi[es[e].1 as int] >= 0);
    }
}

/// A graph with a feasible potential has no negative cycle.
pub proof fn lemma_feasible_no_negative_cycle(es: Seq<(u32, u32, i64)>, phi: Seq<i64>)
    requires
        feasible(es, phi),
    ensures
        !has_negative_cycle(es),
{
    if has_negative_cycle(es) {
        let (c, x) = choose|c: Seq<int>, x: int| #[trigger] is_walk(es, c, x, x) && walk_weight(es, c) < 0;
        lemma_feasible_walk(es, phi, c, x, x);
    }
}

/// Without a negative cycle no walk reaches one.
pub proof fn lemma_no_cycle_not_reached(es: Seq<(u32, u32, i64)>, s: int)
    requires
        !has_negative_cycle(es),
    ensures
        !reaches_negative_cycle(es, s),
{
    if reaches_negative_cycle(es, s) {
        let (p, c, x) = choose|p: Seq<int>, c: Seq<int>, x: int|
            #[trigger] is_walk(es, p, s, x) && #[trigger] is_walk(es, c, x, x) && walk_weight(es, c)
                < 0;
        assert(has_negative_cycle(es));
    }
}

/// With weights and potentials small enough, the reduced edges have the same
/// walks, each weighing its original weight plus `φ(s) − φ(t)`.
pub proof fn lemma_reduced_walk(es: Seq<(u32, u32, i64)>, phi: Seq<i64>, p: Seq<int>, s: int, t: int)
    requires
        weights_within(es, INF as int),
        pot_within(phi, POT_LIMIT as int),
        edges_within(es, phi.len() as int),
        is_walk(es, p, s, t) || is_walk(reduced(es, phi), p, s, t),
    ensures
        is_walk(es, p, s, t),
        is_walk(reduced(es, phi), p, s, t),
        walk_weight(reduced(es, phi), p) == walk_weight(es, p) + phi[s] - phi[t],
    decreases p.len(),
{
    let red = reduced(es, phi);
    if p.len() > 0 {
        let e = p.last();
        assert(0 <= e < es.len());
        assert(red[e].0 == es[e].0 && red[e].1 == es[e].1);
        lemma_reduced_walk(es, phi, p.drop_last(), s, es[e].0 as int);
        let u = es[e].0 as int;
        let v = es[e].1 as int;
        assert(-(INF as int) <= es[e].2 <= INF);
        assert(-(POT_LIMIT as int) <= phi[u] <= POT_LIMIT && -(POT_LIMIT as int) <= phi[v] <= POT_LIMIT);
        assert(red[e].2 == es[e].2 + phi[u] - phi[v]);
    }
}

/// Under a feasible potential, a walk through the reduced edges that weighs
/// less than `INF` uses no saturated edge: it is a walk through `es` whose
/// weight is its reduced weight minus `φ(s)`, plus `φ(t)`. This holds for
/// weights of any size.
pub proof fn lemma_light_reduced_walk(es: Seq<(u32, u32, i64)>, phi: Seq<i64>, p: Seq<int>, s: int, t: int)
    requires
        feasible(es, phi),
        pot_within(phi, POT_LIMIT as int),
        edges_within(es, phi.len() as int),
        is_walk(reduced(es, phi), p, s, t),
        walk_weight(reduced(es, phi), p) < INF,
    ensures
        is_walk(es, p, s, t),
        0 <= walk_weight(reduced(es, phi), p),
        walk_weight(es, p) == walk_weight(reduced(es, phi), p) - phi[s] + phi[t],
    decreases p.len(),
{
    let red = reduced(es, phi);
    if p.len() > 0 {
        let e = p.last();
        assert(0 <= e < es.len());
        let u = es[e].0 as int;
        let v = es[e].1 as int;
        assert(red[e].0 == es[e].0 && red[e].1 == es[e].1);
        assert(-(POT_LIMIT as int) <= phi[u] <= POT_LIMIT && -(POT_LIMIT as int) <= phi[v] <= POT_LIMIT);
        assert(es[e].2 + phi[u] - phi[v] >= 0);
        // A saturated step would leave a reduced weight of at least INF.
        assert(red[e].2 >= 0);
        if walk_weight(red, p.drop_last()) >= INF {
            assert(false);
        }
        lemma_light_reduced_walk(es, phi, p.drop_last(), s, u);
        assert(red[e].2 < INF);
        assert(red[e].2 == es[e].2 + phi[u] - phi[v]);
    }
}

/// Shortest distances through the reduced edges give shortest distances
/// through `es`: a finite `dadj` becomes `dadj + φ(v) − φ(s)`, and `INF`
/// stays `INF`.
pub proof fn lemma_recover_distance(
    es: Seq<(u32, u32, i64)>,
    n: int,
    phi: Seq<i64>,
    s: int,
    v: int,
    dadj: int,
)
    requires
        sssp_bounded(es, n),
        edges_within(es, n),
        phi.len() == n,
        pot_within(phi, POT_LIMIT as int),
        feasible(es, phi),
        0 <= s < n,
        0 <= v < n,
        is_shortest(reduced(es, phi), s, v, dadj),
    ensures
        dadj < INF ==> dadj >= 0,
        dadj < INF ==> is_shortest(es, s, v, dadj + phi[v] - phi[s]),
        dadj < INF ==> dadj + phi[v] - phi[s] < INF,
        dadj >= INF ==> is_shortest(es, s, v, INF as int),
{
    let red = reduced(es, phi);
    let w = max_abs_weight(es);
    lemma_max_abs_weight(es);
    assert(w <= INF) by (nonlinear_arith)
        requires
            4 * (n + 1) * (es.len() + n + 2) * w <= INF,
            w >= 0,
            n >= 1,
    ;
    assert((n - 1) * w * 2 < INF) by (nonlinear_arith)
        requires
            4 * (n + 1) * (es.len() + n + 2) * w <= INF,
            w >= 0,
            n >= 1,
    ;
    assert(weights_within(es, INF as int));
    lemma_feasible_no_negative_cycle(es, phi);
    lemma_no_cycle_not_reached(es, s);
    if dadj < INF {
        let p = choose|p: Seq<int>| #[trigger] is_walk(red, p, s, v) && walk_weight(red, p) == dadj;
        lemma_reduced_walk(es, phi, p, s, v);
        lemma_feasible_walk(es, phi, p, s, v);
        let r = dadj + phi[v] - phi[s];
        assert forall|q: Seq<int>| #[trigger] is_walk(es, q, s, v) implies r <= walk_weight(es, q) by {
            lemma_reduced_walk(es, phi, q, s, v);
        }
        let q = lemma_shortcut(es, n, s, p, v);
        lemma_walk_weight_bound(es, q, s, v, w);
        assert(q.len() * w <= (n - 1) * w) by (nonlinear_arith)
            requires
                q.len() <= n - 1,
                w >= 0,
        ;
        assert(r <= walk_weight(es, q));
    } else {
        assert forall|q: Seq<int>| #[trigger] is_walk(es, q, s, v) implies INF <= walk_weight(es, q) by {
            let q2 = lemma_shortcut(es, n, s, q, v);
            lemma_walk_weight_bound(es, q2, s, v, w);
            assert(q2.len() * w <= (n - 1) * w) by (nonlinear_arith)
                requires
                    q2.len() <= n - 1,
                    w >= 0,
            ;
            lemma_reduced_walk(es, phi, q2, s, v);
            assert(dadj <= walk_weight(red, q2));
        }
    }
}

/// Appending edges of weight 0 leaves the sum of absolute weights as it is.
proof fn lemma_abs_sum_zero_tail(es: Seq<(u32, u32, i64)>, z: Seq<(u32, u32, i64)>)
    requires
        forall|i: int| 0 <= i < z.len() ==> (#[trigger] z[i]).2 == 0,
    ensures
        abs_sum(es + z) == abs_sum(es),
    decreases z.len(),
{
    if z.len() == 0 {
        assert(es + z =~= es);
    } else {
        assert((es + z).drop_last() =~= es + z.drop_last());
        assert(z.last().2 == 0);
        lemma_abs_sum_zero_tail(es, z.drop_last());
    }
}

/// The extra node's edges weigh 0: the augmented edges have the same sum of
/// absolute weights.
proof fn lemma_augmented_abs_sum(es: Seq<(u32, u32, i64)>, n: nat)
    ensures
        abs_sum(augmented(es, n)) == abs_sum(es),
{
    lemma_abs_sum_zero_tail(es, Seq::new(n, |v: int| (n as u32, v as u32, 0i64)));
}

/// As [`lemma_recover_distance`], when the absolute weights sum below
/// `INF − 2·POT_LIMIT` (every simple walk then stays well below `INF`, also
/// after reweighting).
pub proof fn lemma_recover_distance_sum(
    es: Seq<(u32, u32, i64)>,
    n: int,
    phi: Seq<i64>,
    s: int,
    v: int,
    dadj: int,
)
    requires
        abs_sum(es) + 2 * POT_LIMIT < INF,
        edges_within(es, n),
        phi.len() == n,
        pot_within(phi, POT_LIMIT as int),
        feasible(es, phi),
        0 <= s < n,
        0 <= v < n,
        is_shortest(reduced(es, phi), s, v, dadj),
    ensures
        dadj < INF ==> dadj >= 0,
        dadj < INF ==> is_shortest(es, s, v, dadj + phi[v] - phi[s]),
        dadj < INF ==> dadj + phi[v] - phi[s] < INF,
        dadj >= INF ==> is_shortest(es, s, v, INF as int),
{
    let red = reduced(es, phi);
    assert forall|e: int| 0 <= e < es.len() implies -(INF as int) <= (#[trigger] es[e]).2 <= INF by {
        lemma_abs_sum_edge(es, e);
    }
    assert(weights_within(es, INF as int));
    lemma_feasible_no_negative_cycle(es, phi);
    lemma_no_cycle_not_reached(es, s);
    if dadj < INF {
        let p = choose|p: Seq<int>| #[trigger] is_walk(red, p, s, v) && walk_weight(red, p) == dadj;
        lemma_reduced_walk(es, phi, p, s, v);
        lemma_feasible_walk(es, phi, p, s, v);
        let r = dadj + phi[v] - phi[s];
        assert forall|q: Seq<int>| #[trigger] is_walk(es, q, s, v) implies r <= walk_weight(es, q) by {
            lemma_reduced_walk(es, phi, q, s, v);
        }
        let q = lemma_simple_shortcut(es, n, s, p, v);
        lemma_distinct_walk_bound(es, q, s, v);
        assert(r <= walk_weight(es, q));
    } else {
        assert forall|q: Seq<int>| #[trigger] is_walk(es, q, s, v) implies INF <= walk_weight(es, q) by {
            let q2 = lemma_simple_shortcut(es, n, s, q, v);
            lemma_distinct_walk_bound(es, q2, s, v);
            lemma_reduced_walk(es, phi, q2, s, v);
            assert(dadj <= walk_weight(red, q2));
        }
    }
}

/// Bellman-Ford on the augmented edges yields, when no negative cycle is
/// reached, a feasible potential with entries in `[-n·W, 0]`.
proof fn lemma_johnson_potential(es: Seq<(u32, u32, i64)>, n: nat, d: Seq<i64>)
    requires
        sssp_bounded(es, n as int),
        edges_within(es, n as int),
        n < u32::MAX,
        d.len() == n + 1,
        !reaches_negative_cycle(augmented(es, n), n as int),
        forall|v: int| 0 <= v <= n ==> is_shortest(augmented(es, n), n as int, v, #[trigger] d[v] as int),
    ensures
        pot_within(d.subrange(0, n as int), POT_LIMIT as int),
        feasible(es, d.subrange(0, n as int)),
{
    let aug = augmented(es, n);
    let m = es.len() as int;
    let w = max_abs_weight(es);
    let p = d.subrange(0, n as int);
    lemma_max_abs_weight(es);
    assert(weights_within(aug, w)) by {
        assert forall|e: int| 0 <= e < aug.len() implies -w <= (#[trigger] aug[e]).2 <= w by {
            if e < m {
                assert(aug[e] == es[e]);
            }
        }
    }
    assert(edges_within(aug, n + 1 as int)) by {
        assert forall|e: int| 0 <= e < aug.len() implies (#[trigger] aug[e]).0 < n + 1 && aug[e].1 < n + 1 by {
            if e < m {
                assert(aug[e] == es[e]);
            }
        }
    }
    assert(n * w <= POT_LIMIT) by (nonlinear_arith)
        requires
            4 * (n + 1) * (m + n + 2) * w <= INF,
            w >= 0,
            m >= 0,
    ;
    assert forall|v: int| 0 <= v < p.len() implies -(POT_LIMIT as int) <= #[trigger] p[v] <= POT_LIMIT by {
        let e0 = seq![m + v];
        assert(e0.drop_last() =~= Seq::<int>::empty());
        assert(aug[m + v].0 == n && aug[m + v].1 == v);
        assert(is_walk(aug, e0.drop_last(), n as int, n as int));
        assert(is_walk(aug, e0, n as int, v));
        assert(d[v] <= walk_weight(aug, e0));
        let q = choose|q: Seq<int>| #[trigger] is_walk(aug, q, n as int, v) && walk_weight(aug, q) == d[v];
        let q2 = lemma_shortcut(aug, n + 1 as int, n as int, q, v);
        lemma_walk_weight_bound(aug, q2, n as int, v, w);
        assert(q2.len() * w <= n * w) by (nonlinear_arith)
            requires
                q2.len() <= n,
                w >= 0,
        ;
        assert(d[v] <= walk_weight(aug, q2));
    }
    assert forall|e: int| 0 <= e < es.len() implies (#[trigger] es[e]).2 + p[es[e].0 as int] - p[
        es[e].1 as int
    ] >= 0 by {
        let u = es[e].0 as int;
        let v = es[e].1 as int;
        assert(aug[e] == es[e]);
        assert(p[u] == d[u] && p[v] == d[v]);
        assert(p[u] <= POT_LIMIT);
        let q = choose|q: Seq<int>| #[trigger] is_walk(aug, q, n as int, u) && walk_weight(aug, q) == d[u];
        lemma_walk_push(aug, q, n as int, u, e);
        assert(d[v] <= walk_weight(aug, q.push(e)));
    }
}

/// The bound for the whole computation covers Bellman-Ford on the
/// augmented edges.
proof fn lemma_augmented_bounded(es: Seq<(u32, u32, i64)>, n: nat)
    requires
        sssp_bounded(es, n as int),
    ensures
        bf_bounded(augmented(es, n), n + 1 as int),
{
    let aug = augmented(es, n);
    let m = es.len() as int;
    let w = max_abs_weight(es);
    lemma_max_abs_weight(es);
    assert(weights_within(aug, w)) by {
        assert forall|e: int| 0 <= e < aug.len() implies -w <= (#[trigger] aug[e]).2 <= w by {
            if e < m {
                assert(aug[e] == es[e]);
            }
        }
    }
    lemma_max_abs_weight_le(aug, w);
    let w2 = max_abs_weight(aug);
    lemma_max_abs_weight(aug);
    assert(((n + 1) * (m + n) + (n + 1) + 1) * w2 <= INF) by (nonlinear_arith)
        requires
            4 * (n + 1) * (m + n + 2) * w <= INF,
            0 <= w2 <= w,
            m >= 0,
    ;
}

/// A feasible potential of `g`, from Bellman-Ford started at an extra node
/// joined to every node by an edge of weight 0; `None` when `g` has a
/// negative cycle. The entries lie in `[-n·W, 0]`.
pub fn johnson_potential(g: &Graph) -> (r: Option<Vec<i64>>)
    requires
        g.wf(),
        g.num_nodes() < u32::MAX,
        g.edge_list().len() + g.num_nodes() < u32::MAX,
    ensures
        r matches Some(p) ==> p@.len() == g.num_nodes(),
        sssp_bounded(g.edge_list(), g.num_nodes() as int) ==> (r is None <==> has_negative_cycle(
            g.edge_list(),
        )),
        sssp_bounded(g.edge_list(), g.num_nodes() as int) ==> (r matches Some(p) ==> feasible(
            g.edge_list(),
            p@,
        ) && pot_within(p@, POT_LIMIT as int)),
        abs_sum(g.edge_list()) < INF && !has_negative_cycle(g.edge_list()) ==> r is Some,
{
    let ghost es = g.edge_list();
    proof {
        g.lemma_wf_edges();
    }
    let n = g.node_count();
    let m = g.edge_count();
    let ghost ext = Seq::new(n as nat, |v: int| (n as u32, v as u32, 0i64));
    let mut aug = Graph::with_capacity(n + 1, m + n);
    aug.add_nodes(n + 1);
    let mut e: usize = 0;
    while e < m
        invariant
            e <= m,
            m == es.len(),
            n == g.num_nodes(),
            g.wf(),
            es == g.edge_list(),
            m + n < u32::MAX,
            aug.wf(),
            aug.num_nodes() == n + 1,
            aug.edge_list() == es.subrange(0, e as int),
            forall|i: int| 0 <= i < es.len() ==> (#[trigger] es[i]).0 < n && es[i].1 < n,
        decreases m - e,
    {
        let id = EdgeId(e as u32);
        aug.add_edge(g.source(id), g.target(id), g.weight(id));
        proof {
            assert(es.subrange(0, e + 1) =~= es.subrange(0, e as int).push(es[e as int]));
        }
        e = e + 1;
    }
    let mut v: usize = 0;
    while v < n
        invariant
            v <= n,
            m == es.len(),
            n == g.num_nodes(),
            m + n < u32::MAX,
            aug.wf(),
            aug.num_nodes() == n + 1,
            aug.edge_list() == es + ext.subrange(0, v as int),
            ext == Seq::new(n as nat, |x: int| (n as u32, x as u32, 0i64)),
        decreases n - v,
    {
        aug.add_edge(NodeId(n as u32), NodeId(v as u32), 0);
        proof {
            assert(es + ext.subrange(0, v + 1) =~= (es + ext.subrange(0, v as int)).push(ext[v as int]));
        }
        v = v + 1;
    }
    proof {
        assert(ext.subrange(0, n as int) =~= ext);
        assert(aug.edge_list() == augmented(es, n as nat));
        lemma_augmented_negative_cycle(es, n as nat);
        lemma_augmented_abs_sum(es, n as nat);
        if sssp_bounded(es, n as int) {
            lemma_augmented_bounded(es, n as nat);
        }
    }
    let d = bellman_ford(&aug, NodeId(n as u32));
    match d {
        None => None,
        Some(d) => {
            let mut p: Vec<i64> = Vec::with_capacity(n);
            let mut v: usize = 0;
            while v < n
                invariant
                    v <= n,
                    d@.len() == n + 1,
                    p@ == d@.subrange(0, v as int),
                decreases n - v,
            {
                p.push(d[v]);
                proof {
                    assert(d@.subrange(0, v + 1) =~= d@.subrange(0, v as int).push(d@[v as int]));
                }
                v = v + 1;
            }
            proof {
                if sssp_bounded(es, n as int) {
                    lemma_johnson_potential(es, n as nat, d@);
                }
            }
            Some(p)
        },
    }
}

/// Whether `phi` is a potential of `g` that the final reweighting accepts:
/// one entry per node, each within `POT_LIMIT`, and feasible.
pub fn potential_ok(g: &Graph, phi: &Vec<i64>) -> (b: bool)
    requires
        g.wf(),
    ensures
        b == (phi@.len() == g.num_nodes() && pot_within(phi@, POT_LIMIT as int) && feasible(
            g.edge_list(),
            phi@,
        )),
{
    let ghost es = g.edge_list();
    proof {
        g.lemma_wf_edges();
    }
    let n = g.node_count();
    if phi.len() != n {
        return false;
    }
    let mut v: usize = 0;
    while v < n
        invariant
            v <= n,
            n == phi@.len(),
            forall|x: int| 0 <= x < v ==> -(POT_LIMIT as int) <= #[trigger] phi@[x] <= POT_LIMIT,
        decreases n - v,
    {
        if phi[v] < -POT_LIMIT || phi[v] > POT_LIMIT {
            return false;
        }
        v = v + 1;
    }
    let m = g.edge_count();
    let mut e: usize = 0;
    while e < m
        invariant
            e <= m,
            m == es.len(),
            n == phi@.len(),
            n == g.num_nodes(),
            g.wf(),
            es == g.edge_list(),
            pot_within(phi@, POT_LIMIT as int),
            m <= u32::MAX,
            forall|i: int| 0 <= i < es.len() ==> (#[trigger] es[i]).0 < n && es[i].1 < n,
            forall|f: int|
                0 <= f < e ==> (#[trigger] es[f]).2 + phi@[es[f].0 as int] - phi@[es[f].1 as int] >= 0,
        decreases m - e,
    {
        let id = EdgeId(e as u32);
        let u = g.source(id);
        let t = g.target(id);
        let pu = phi[u.0 as usize];
        let pt = phi[t.0 as usize];
        let r = sat_sub(sat_add(g.weight(id), pu), pt);
        proof {
            assert(-(POT_LIMIT as int) <= pt <= POT_LIMIT);
        }
        if r < 0 {
            proof {
                assert(es[e as int].2 + phi@[es[e as int].0 as int] - phi@[es[e as int].1 as int] < 0);
            }
            return false;
        }
        proof {
            assert(es[e as int].2 + phi@[es[e as int].0 as int] - phi@[es[e as int].1 as int] >= 0);
        }
        e = e + 1;
    }
    true
}

/// `g` with every edge weight replaced by its reduced weight.
fn reduced_graph(g: &Graph, phi: &Vec<i64>) -> (h: Graph)
    requires
        g.wf(),
        phi@.len() == g.num_nodes(),
    ensures
        h.wf(),
        h.num_nodes() == g.num_nodes(),
        h.edge_list() == reduced(g.edge_list(), phi@),
{
    let ghost es = g.edge_list();
    let ghost red = reduced(es, phi@);
    proof {
        g.lemma_wf_edges();
    }
    let n = g.node_count();
    let m = g.edge_count();
    let mut h = Graph::with_capacity(n, m);
    h.add_nodes(n);
    let mut e: usize = 0;
    while e < m
        invariant
            e <= m,
            m == es.len(),
            n == g.num_nodes(),
            n == phi@.len(),
            g.wf(),
            es == g.edge_list(),
            red == reduced(es, phi@),
            m <= u32::MAX,
            h.wf(),
            h.num_nodes() == n,
            h.edge_list() == red.subrange(0, e as int),
            forall|i: int| 0 <= i < es.len() ==> (#[trigger] es[i]).0 < n && es[i].1 < n,
        decreases m - e,
    {
        let id = EdgeId(e as u32);
        let u = g.source(id);
        let t = g.target(id);
        let w = sat_sub(sat_add(g.weight(id), phi[u.0 as usize]), phi[t.0 as usize]);
        h.add_edge(u, t, w);
        proof {
            assert(red.subrange(0, e + 1) =~= red.subrange(0, e as int).push(red[e as int]));
        }
        e = e + 1;
    }
    proof {
        assert(red.subrange(0, m as int) =~= red);
    }
    h
}

/// Shortest distances from `source` through a feasible potential: Dijkstra
/// on the reduced weights, then each finite distance `d` to `v` becomes
/// `d + φ(v) − φ(source)`.
pub fn distances_from_potential(g: &Graph, source: NodeId, phi: &Vec<i64>) -> (dist: Vec<i64>)
    requires
        g.wf(),
        source.0 < g.num_nodes(),
        phi@.len() == g.num_nodes(),
        pot_within(phi@, POT_LIMIT as int),
        feasible(g.edge_list(), phi@),
    ensures
        dist@.len() == g.num_nodes(),
        dist@[source.0 as int] == 0,
        estimates_backed(g.edge_list(), source.0 as int, dist@),
        sssp_bounded(g.edge_list(), g.num_nodes() as int) || abs_sum(g.edge_list()) + 2 * POT_LIMIT < INF
            ==> forall|v: int|
            0 <= v < g.num_nodes() ==> is_shortest(
                g.edge_list(),
                source.0 as int,
                v,
                #[trigger] dist@[v] as int,
            ),
{
    let ghost es = g.edge_list();
    let ghost s = source.0 as int;
    proof {
        g.lemma_wf_edges();
    }
    let n = g.node_count();
    let h = reduced_graph(g, phi);
    proof {
        let red = h.edge_list();
        assert forall|e: int| 0 <= e < red.len() implies (#[trigger] red[e]).2 >= 0 by {
            assert(es[e].2 + phi@[es[e].0 as int] - phi@[es[e].1 as int] >= 0);
            assert(-(POT_LIMIT as int) <= phi@[es[e].1 as int] <= POT_LIMIT);
        }
    }
    let dadj = dijkstra(&h, source);
    let phi_s = phi[source.0 as usize];
    let mut dist: Vec<i64> = Vec::with_capacity(n);
    let mut v: usize = 0;
    while v < n
        invariant
            v <= n,
            n == g.num_nodes(),
            dist@.len() == v,
            dadj@.len() == n,
            phi@.len() == n,
            phi_s == phi@[s],
            0 <= s < n,
            g.wf(),
            es == g.edge_list(),
            h.edge_list() == reduced(es, phi@),
            pot_within(phi@, POT_LIMIT as int),
            feasible(es, phi@),
            forall|i: int| 0 <= i < es.len() ==> (#[trigger] es[i]).0 < n && es[i].1 < n,
            forall|x: int|
                0 <= x < n ==> is_shortest(h.edge_list(), s, x, #[trigger] dadj@[x] as int),
            sssp_bounded(es, n as int) || abs_sum(es) + 2 * POT_LIMIT < INF ==> forall|x: int|
                0 <= x < v ==> is_shortest(es, s, x, #[trigger] dist@[x] as int),
            s < v ==> dist@[s] == 0,
            forall|x: int| 0 <= x < v && #[trigger] dist@[x] < INF ==> walk_bounded(es, s, x, dist@[x] as int),
        decreases n - v,
    {
        let d = dadj[v];
        proof {
            if sssp_bounded(es, n as int) {
                lemma_recover_distance(es, n as int, phi@, s, v as int, d as int);
            } else if abs_sum(es) + 2 * POT_LIMIT < INF {
                lemma_recover_distance_sum(es, n as int, phi@, s, v as int, d as int);
            }
            assert(-(POT_LIMIT as int) <= phi@[v as int] <= POT_LIMIT);
            assert(-(POT_LIMIT as int) <= phi_s <= POT_LIMIT);
            if v as int == s {
                assert(is_walk(h.edge_list(), Seq::<int>::empty(), s, s));
                assert(d <= 0);
            }
        }
        if d < INF {
            let ghost p = choose|p: Seq<int>| #[trigger] is_walk(h.edge_list(), p, s, v as int) && walk_weight(h.edge_list(), p) == d;
            proof {
                lemma_light_reduced_walk(es, phi@, p, s, v as int);
            }
            let r = sat_sub(sat_add(d, phi[v]), phi_s);
            proof {
                assert(r == d + phi@[v as int] - phi_s);
                assert(is_walk(es, p, s, v as int) && walk_weight(es, p) == r);
            }
            dist.push(r);
        } else {
            dist.push(INF);
        }
        v = v + 1;
    }
    dist
}

} // verus!
