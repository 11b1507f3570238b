//! Walks in an edge list and the distances they define.
//!
//! A walk is a sequence of edge indices, each edge starting where the
//! previous one ended. Distances are stated over walks: a distance `d`
//! from `s` to `v` is *the shortest* when it is the weight of some walk
//! (or the sentinel `INF` when none is short enough) and no walk is lighter.
use vstd::prelude::*;

use crate::sssp::INF;

verus! {

/// `p` is a walk from `s` to `t` through the edges of `es`.
pub open spec fn is_walk(es: Seq<(u32, u32, i64)>, p: Seq<int>, s: int, t: int) -> bool
    decreases p.len(),
{
    if p.len() == 0 {
        s == t
    } else {
        let e = p.last();
        &&& 0 <= e < es.len()
        &&& es[e].1 == t
        &&& is_walk(es, p.drop_last(), s, es[e].0 as int)
    }
}

/// Total weight of the edges of `p`.
pub open spec fn walk_weight(es: Seq<(u32, u32, i64)>, p: Seq<int>) -> int
    decreases p.len(),
{
    if p.len() == 0 {
        0
    } else {
        walk_weight(es, p.drop_last()) + es[p.last()].2
    }
}

/// `d` is the distance from `s` to `v`: the least weight of a walk from `s`
/// to `v`, capped at `INF` (and `INF` when `v` cannot be reached).
pub open spec fn is_shortest(es: Seq<(u32, u32, i64)>, s: int, v: int, d: int) -> bool {
    &&& d <= INF
    &&& d < INF ==> exists|p: Seq<int>| #[trigger] is_walk(es, p, s, v) && walk_weight(es, p) == d
    &&& forall|p: Seq<int>| #[trigger] is_walk(es, p, s, v) ==> d <= walk_weight(es, p)
}

/// Every edge of `es` has a non-negative weight.
pub open spec fn non_negative(es: Seq<(u32, u32, i64)>) -> bool {
    forall|e: int| 0 <= e < es.len() ==> (#[trigger] es[e]).2 >= 0
}

/// Every edge of `es` joins two of the nodes `0..n`.
pub open spec fn edges_within(es: Seq<(u32, u32, i64)>, n: int) -> bool {
    forall|e: int| 0 <= e < es.len() ==> (#[trigger] es[e]).0 < n && es[e].1 < n
}

/// Every finite entry of `dist` is at most the entry of the source of an
/// edge plus its weight: no edge leaving a reached node can improve `dist`.
pub open spec fn all_relaxed(es: Seq<(u32, u32, i64)>, dist: Seq<i64>) -> bool {
    forall|e: int|
        0 <= e < es.len() && dist[(#[trigger] es[e]).0 as int] < INF ==> dist[es[e].1 as int]
            <= dist[es[e].0 as int] + es[e].2
}

/// The outgoing edges of `u` cannot improve `dist`.
pub open spec fn relaxed_out(es: Seq<(u32, u32, i64)>, dist: Seq<i64>, u: int) -> bool {
    forall|e: int|
        0 <= e < es.len() && (#[trigger] es[e]).0 == u ==> dist[es[e].1 as int] <= dist[u]
            + es[e].2
}

/// Appending an edge that leaves the end of a walk gives a walk.
pub proof fn lemma_walk_push(es: Seq<(u32, u32, i64)>, p: Seq<int>, s: int, t: int, e: int)
    requires
        is_walk(es, p, s, t),
        0 <= e < es.len(),
        es[e].0 == t,
    ensures
        is_walk(es, p.push(e), s, es[e].1 as int),
        walk_weight(es, p.push(e)) == walk_weight(es, p) + es[e].2,
{
    assert(p.push(e).drop_last() =~= p);
}

/// The endpoints of a walk through edges within `0..n` lie within `0..n`
/// (the start, when the walk is not empty).
pub proof fn lemma_walk_ends_within(es: Seq<(u32, u32, i64)>, p: Seq<int>, s: int, t: int, n: int)
    requires
        is_walk(es, p, s, t),
        edges_within(es, n),
        p.len() > 0,
    ensures
        0 <= s < n,
        0 <= t < n,
    decreases p.len(),
{
    let e = p.last();
    assert(es[e].0 < n);
    if p.len() > 1 {
        lemma_walk_ends_within(es, p.drop_last(), s, es[e].0 as int, n);
    } else {
        assert(p.drop_last().len() == 0);
    }
}

/// With non-negative weights, a source at distance 0 and every reached node
/// relaxed, no walk from the source is lighter than `dist` at its end.
pub proof fn lemma_relaxed_lower_bound_nonneg(
    es: Seq<(u32, u32, i64)>,
    dist: Seq<i64>,
    s: int,
    p: Seq<int>,
    v: int,
)
    requires
        non_negative(es),
        edges_within(es, dist.len() as int),
        0 <= s < dist.len(),
        dist[s] <= 0,
        forall|x: int| 0 <= x < dist.len() ==> #[trigger] dist[x] <= INF,
        all_relaxed(es, dist),
        is_walk(es, p, s, v),
    ensures
        dist[v] <= walk_weight(es, p),
    decreases p.len(),
{
    if p.len() > 0 {
        let e = p.last();
        let x = es[e].0 as int;
        lemma_relaxed_lower_bound_nonneg(es, dist, s, p.drop_last(), x);
        assert(es[e].0 < dist.len() && es[e].1 < dist.len());
        assert(es[e].2 >= 0);
        if dist[x] < INF {
            assert(dist[es[e].1 as int] <= dist[es[e].0 as int] + es[e].2);
        } else {
            assert(dist[v] <= INF);
        }
    }
}


/// The walk `p` from `s` reaches a cycle of negative weight.
pub open spec fn reaches_negative_cycle(es: Seq<(u32, u32, i64)>, s: int) -> bool {
    exists|p: Seq<int>, c: Seq<int>, x: int|
        #[trigger] is_walk(es, p, s, x) && #[trigger] is_walk(es, c, x, x) && walk_weight(es, c)
            < 0
}

/// Some node lies on a cycle of negative weight.
pub open spec fn has_negative_cycle(es: Seq<(u32, u32, i64)>) -> bool {
    exists|c: Seq<int>, x: int| #[trigger] is_walk(es, c, x, x) && walk_weight(es, c) < 0
}

/// Every edge weight lies in `[-w, w]`.
pub open spec fn weights_within(es: Seq<(u32, u32, i64)>, w: int) -> bool {
    forall|e: int| 0 <= e < es.len() ==> -w <= (#[trigger] es[e]).2 <= w
}

/// The largest absolute edge weight (0 without edges).
pub open spec fn max_abs_weight(es: Seq<(u32, u32, i64)>) -> int
    decreases es.len(),
{
    if es.len() == 0 {
        0
    } else {
        let rest = max_abs_weight(es.drop_last());
        let w = es.last().2 as int;
        let a = if w < 0 {
            -w
        } else {
            w
        };
        if a > rest {
            a
        } else {
            rest
        }
    }
}

pub proof fn lemma_max_abs_weight(es: Seq<(u32, u32, i64)>)
    ensures
        max_abs_weight(es) >= 0,
        weights_within(es, max_abs_weight(es)),
    decreases es.len(),
{
    if es.len() > 0 {
        lemma_max_abs_weight(es.drop_last());
        assert forall|e: int| 0 <= e < es.len() implies -max_abs_weight(es) <= (
        #[trigger] es[e]).2 <= max_abs_weight(es) by {
            if e < es.len() - 1 {
                assert(es.drop_last()[e] == es[e]);
            }
        }
    }
}

/// The `i`-th node visited by the walk `p` that starts at `s`.
pub open spec fn node_at(es: Seq<(u32, u32, i64)>, p: Seq<int>, s: int, i: int) -> int {
    if i <= 0 {
        s
    } else {
        es[p[i - 1]].1 as int
    }
}

/// A walk ends at the last node it visits.
pub proof fn lemma_walk_end(es: Seq<(u32, u32, i64)>, p: Seq<int>, s: int, t: int)
    requires
        is_walk(es, p, s, t),
    ensures
        node_at(es, p, s, p.len() as int) == t,
{
}

/// Joining a walk from `s` to `x` and a walk from `x` to `t` gives a walk
/// from `s` to `t` whose weight is the sum of theirs.
pub proof fn lemma_walk_concat(
    es: Seq<(u32, u32, i64)>,
    a: Seq<int>,
    b: Seq<int>,
    s: int,
    x: int,
    t: int,
)
    requires
        is_walk(es, a, s, x),
        is_walk(es, b, x, t),
    ensures
        is_walk(es, a + b, s, t),
        walk_weight(es, a + b) == walk_weight(es, a) + walk_weight(es, b),
    decreases b.len(),
{
    if b.len() == 0 {
        assert(a + b =~= a);
    } else {
        let e = b.last();
        lemma_walk_concat(es, a, b.drop_last(), s, x, es[e].0 as int);
        assert((a + b).drop_last() =~= a + b.drop_last());
    }
}

/// Cutting a walk after `i` edges gives a walk to the `i`-th node visited and
/// a walk from it to the end.
pub proof fn lemma_walk_split(es: Seq<(u32, u32, i64)>, p: Seq<int>, s: int, t: int, i: int)
    requires
        is_walk(es, p, s, t),
        0 <= i <= p.len(),
    ensures
        is_walk(es, p.take(i), s, node_at(es, p, s, i)),
        is_walk(es, p.skip(i), node_at(es, p, s, i), t),
        walk_weight(es, p) == walk_weight(es, p.take(i)) + walk_weight(es, p.skip(i)),
    decreases p.len(),
{
    if i == p.len() {
        assert(p.take(i) =~= p);
        assert(p.skip(i) =~= Seq::<int>::empty());
        lemma_walk_end(es, p, s, t);
    } else {
        let e = p.last();
        let q = p.drop_last();
        lemma_walk_split(es, q, s, es[e].0 as int, i);
        assert(q.take(i) =~= p.take(i));
        assert(node_at(es, q, s, i) == node_at(es, p, s, i));
        assert(p.skip(i) =~= q.skip(i).push(e));
        assert(p.skip(i).drop_last() =~= q.skip(i));
        lemma_walk_concat(es, p.take(i), p.skip(i), s, node_at(es, p, s, i), t);
        assert(p.take(i) + p.skip(i) =~= p);
    }
}

/// Every weight within `[-w, w]` bounds the weight of a walk by its length.
pub proof fn lemma_walk_weight_bound(es: Seq<(u32, u32, i64)>, p: Seq<int>, s: int, t: int, w: int)
    requires
        is_walk(es, p, s, t),
        weights_within(es, w),
        w >= 0,
    ensures
        -(p.len() * w) <= walk_weight(es, p) <= p.len() * w,
    decreases p.len(),
{
    if p.len() > 0 {
        let e = p.last();
        lemma_walk_weight_bound(es, p.drop_last(), s, es[e].0 as int, w);
        let l = p.len() as int;
        assert((l - 1) * w + w == l * w) by (nonlinear_arith);
        assert(-w <= es[e].2 <= w);
    }
}

/// A sequence of more than `n` values in `0..n` repeats a value.
pub proof fn lemma_pigeonhole(v: Seq<int>, n: int)
    requires
        0 <= n < v.len(),
        forall|i: int| 0 <= i < v.len() ==> 0 <= #[trigger] v[i] < n,
    ensures
        exists|i: int, j: int| 0 <= i < j < v.len() && #[trigger] v[i] == #[trigger] v[j],
{
    if v.no_duplicates() {
        v.unique_seq_to_set();
        vstd::set_lib::lemma_int_range(0, n);
        assert(v.to_set().subset_of(vstd::set_lib::set_int_range(0, n)));
        vstd::set_lib::lemma_len_subset(v.to_set(), vstd::set_lib::set_int_range(0, n));
        assert(false);
    }
    let (i, j) = choose|i: int, j: int| 0 <= i < v.len() && 0 <= j < v.len() && i != j && v[i] == v[j];
    if i < j {
        assert(v[i] == v[j]);
    } else {
        assert(v[j] == v[i]);
    }
}

/// The nodes a walk visits, in order (one more than its edges).
pub open spec fn visited(es: Seq<(u32, u32, i64)>, p: Seq<int>, s: int) -> Seq<int> {
    Seq::new((p.len() + 1) as nat, |i: int| node_at(es, p, s, i))
}

/// The negative edges of two walks laid end to end add up.
pub proof fn lemma_neg_count_concat(es: Seq<(u32, u32, i64)>, a: Seq<int>, b: Seq<int>)
    ensures
        neg_count(es, a + b) == neg_count(es, a) + neg_count(es, b),
    decreases b.len(),
{
    if b.len() == 0 {
        assert(a + b =~= a);
    } else {
        assert((a + b).drop_last() =~= a + b.drop_last());
        assert((a + b).last() == b.last());
        lemma_neg_count_concat(es, a, b.drop_last());
    }
}

/// Cutting a stretch out of a walk leaves no more negative edges.
pub proof fn lemma_neg_count_cut(es: Seq<(u32, u32, i64)>, p: Seq<int>, i: int, j: int)
    requires
        0 <= i <= j <= p.len(),
    ensures
        neg_count(es, p.take(i) + p.skip(j)) <= neg_count(es, p),
{
    assert(p =~= p.take(i) + (p.subrange(i, j) + p.skip(j)));
    lemma_neg_count_concat(es, p.take(i), p.subrange(i, j) + p.skip(j));
    lemma_neg_count_concat(es, p.subrange(i, j), p.skip(j));
    lemma_neg_count_concat(es, p.take(i), p.skip(j));
}

/// When no negative cycle is reachable from `s`, every walk from `s` can be
/// replaced by one of fewer than `n` edges that is no heavier.
pub proof fn lemma_shortcut(es: Seq<(u32, u32, i64)>, n: int, s: int, p: Seq<int>, t: int) -> (q: Seq<int>)
    requires
        edges_within(es, n),
        0 <= s < n,
        !reaches_negative_cycle(es, s),
        is_walk(es, p, s, t),
    ensures
        is_walk(es, q, s, t),
        q.len() < n,
        walk_weight(es, q) <= walk_weight(es, p),
        neg_count(es, q) <= neg_count(es, p),
    decreases p.len(),
{
    if p.len() < n {
        p
    } else {
        let vs = visited(es, p, s);
        assert forall|i: int| 0 <= i < vs.len() implies 0 <= #[trigger] vs[i] < n by {
            if i > 0 {
                assert(0 <= p[i - 1] < es.len()) by {
                    lemma_walk_split(es, p, s, t, i);
                    let pre = p.take(i);
                    assert(pre.last() == p[i - 1]);
                }
                assert(es[p[i - 1]].1 < n);
            }
        }
        lemma_pigeonhole(vs, n);
        let (i, j) = choose|i: int, j: int| 0 <= i < j < vs.len() && #[trigger] vs[i] == #[trigger] vs[j];
        let x = node_at(es, p, s, i);
        assert(vs[i] == x && vs[j] == node_at(es, p, s, j));
        lemma_walk_split(es, p, s, t, j);
        let pj = p.take(j);
        lemma_walk_split(es, pj, s, x, i);
        assert(pj.take(i) =~= p.take(i));
        assert(node_at(es, pj, s, i) == x);
        let c = pj.skip(i);
        assert(is_walk(es, p.take(i), s, x));
        assert(is_walk(es, c, x, x));
        if walk_weight(es, c) < 0 {
            assert(reaches_negative_cycle(es, s));
        }
        lemma_walk_concat(es, p.take(i), p.skip(j), s, x, t);
        let r = p.take(i) + p.skip(j);
        lemma_neg_count_cut(es, p, i, j);
        lemma_shortcut(es, n, s, r, t)
    }
}

/// Cutting the closed part between two visits of the same node out of a
/// walk from `s` leaves a walk that is no heavier, when no negative cycle is
/// reachable from `s`.
pub proof fn lemma_cut_cycle(es: Seq<(u32, u32, i64)>, s: int, p: Seq<int>, t: int, i: int, j: int)
    requires
        !reaches_negative_cycle(es, s),
        is_walk(es, p, s, t),
        0 <= i < j <= p.len(),
        node_at(es, p, s, i) == node_at(es, p, s, j),
    ensures
        is_walk(es, p.take(i) + p.skip(j), s, t),
        walk_weight(es, p.take(i) + p.skip(j)) <= walk_weight(es, p),
        (p.take(i) + p.skip(j)).len() < p.len(),
        neg_count(es, p.take(i) + p.skip(j)) <= neg_count(es, p),
{
    lemma_neg_count_cut(es, p, i, j);
    let x = node_at(es, p, s, i);
    lemma_walk_split(es, p, s, t, j);
    let pj = p.take(j);
    lemma_walk_split(es, pj, s, x, i);
    assert(pj.take(i) =~= p.take(i));
    assert(node_at(es, pj, s, i) == x) by {
        if i > 0 {
            assert(pj[i - 1] == p[i - 1]);
        }
    }
    let c = pj.skip(i);
    assert(is_walk(es, p.take(i), s, x));
    assert(is_walk(es, c, x, x));
    if walk_weight(es, c) < 0 {
        assert(reaches_negative_cycle(es, s));
    }
    lemma_walk_concat(es, p.take(i), p.skip(j), s, x, t);
}

/// When no negative cycle is reachable from `s`, every walk from `s` can be
/// replaced by one that is no heavier, has fewer than `n` edges and uses no
/// edge twice.
pub proof fn lemma_simple_shortcut(es: Seq<(u32, u32, i64)>, n: int, s: int, p: Seq<int>, t: int) -> (q: Seq<int>)
    requires
        edges_within(es, n),
        0 <= s < n,
        !reaches_negative_cycle(es, s),
        is_walk(es, p, s, t),
    ensures
        is_walk(es, q, s, t),
        q.len() < n,
        q.no_duplicates(),
        walk_weight(es, q) <= walk_weight(es, p),
        neg_count(es, q) <= neg_count(es, p),
    decreases p.len(),
{
    if p.len() >= n {
        let q0 = lemma_shortcut(es, n, s, p, t);
        assert(q0.len() < p.len());
        lemma_simple_shortcut(es, n, s, q0, t)
    } else if p.no_duplicates() {
        p
    } else {
        let (i0, j0) = choose|i0: int, j0: int| 0 <= i0 < p.len() && 0 <= j0 < p.len() && i0 != j0 && p[i0] == p[j0];
        let i = if i0 < j0 { i0 } else { j0 };
        let j = if i0 < j0 { j0 } else { i0 };
        assert(p[i] == p[j]);
        assert(node_at(es, p, s, i + 1) == node_at(es, p, s, j + 1));
        lemma_cut_cycle(es, s, p, t, i + 1, j + 1);
        let r = p.take(i + 1) + p.skip(j + 1);
        lemma_simple_shortcut(es, n, s, r, t)
    }
}

/// `|w|`.
pub open spec fn abs_weight(w: i64) -> int {
    if w < 0 {
        -w
    } else {
        w as int
    }
}

/// The sum of the absolute weights of the edges of `es`.
pub open spec fn abs_sum(es: Seq<(u32, u32, i64)>) -> int
    decreases es.len(),
{
    if es.len() == 0 {
        0
    } else {
        abs_sum(es.drop_last()) + abs_weight(es.last().2)
    }
}

/// The sum of the absolute weights of the edges of `es` that `p` lists.
spec fn listed_abs_sum(es: Seq<(u32, u32, i64)>, p: Seq<int>) -> int
    decreases p.len(),
{
    if p.len() == 0 {
        0
    } else {
        listed_abs_sum(es, p.drop_last()) + abs_weight(es[p.last()].2)
    }
}

proof fn lemma_listed_abs_sum_remove(es: Seq<(u32, u32, i64)>, p: Seq<int>, i: int)
    requires
        0 <= i < p.len(),
    ensures
        listed_abs_sum(es, p) == listed_abs_sum(es, p.remove(i)) + abs_weight(es[p[i]].2),
    decreases p.len(),
{
    if i < p.len() - 1 {
        lemma_listed_abs_sum_remove(es, p.drop_last(), i);
        assert(p.remove(i).drop_last() =~= p.drop_last().remove(i));
        assert(p.remove(i).last() == p.last());
    } else {
        assert(p.remove(i) =~= p.drop_last());
    }
}

proof fn lemma_listed_abs_sum_prefix(es: Seq<(u32, u32, i64)>, b: int, p: Seq<int>)
    requires
        0 <= b <= es.len(),
        forall|k: int| 0 <= k < p.len() ==> 0 <= #[trigger] p[k] < b,
    ensures
        listed_abs_sum(es, p) == listed_abs_sum(es.take(b), p),
    decreases p.len(),
{
    if p.len() > 0 {
        lemma_listed_abs_sum_prefix(es, b, p.drop_last());
        assert(es.take(b)[p.last()] == es[p.last()]);
    }
}

/// Edges listed once each weigh, in absolute value, no more than all the
/// edges together.
proof fn lemma_listed_abs_sum_le(es: Seq<(u32, u32, i64)>, p: Seq<int>)
    requires
        p.no_duplicates(),
        forall|k: int| 0 <= k < p.len() ==> 0 <= #[trigger] p[k] < es.len(),
    ensures
        listed_abs_sum(es, p) <= abs_sum(es),
    decreases es.len(),
{
    if es.len() == 0 {
        if p.len() > 0 {
            assert(0 <= p[0] < es.len());
        }
    } else {
        let l = es.len() - 1;
        let es2 = es.drop_last();
        assert(es.take(l) =~= es2);
        if p.contains(l) {
            let i = choose|i: int| 0 <= i < p.len() && p[i] == l;
            lemma_listed_abs_sum_remove(es, p, i);
            let p2 = p.remove(i);
            assert forall|k: int| 0 <= k < p2.len() implies 0 <= #[trigger] p2[k] < l by {
                if k < i {
                    assert(p2[k] == p[k]);
                } else {
                    assert(p2[k] == p[k + 1]);
                }
            }
            assert(p2.no_duplicates()) by {
                assert forall|a: int, b: int| 0 <= a < b < p2.len() implies p2[a] != p2[b] by {
                    let a2 = if a < i { a } else { a + 1 };
                    let b2 = if b < i { b } else { b + 1 };
                    assert(p2[a] == p[a2] && p2[b] == p[b2]);
                }
            }
            lemma_listed_abs_sum_prefix(es, l, p2);
            lemma_listed_abs_sum_le(es2, p2);
            assert(es.last() == es[l]);
        } else {
            assert forall|k: int| 0 <= k < p.len() implies 0 <= #[trigger] p[k] < l by {
                if p[k] == l {
                    assert(p.contains(l));
                }
            }
            lemma_listed_abs_sum_prefix(es, l, p);
            lemma_listed_abs_sum_le(es2, p);
        }
    }
}

/// A walk weighs, in absolute value, at most the absolute weights of the
/// edges it lists.
proof fn lemma_walk_listed_abs(es: Seq<(u32, u32, i64)>, p: Seq<int>, s: int, t: int)
    requires
        is_walk(es, p, s, t),
    ensures
        -listed_abs_sum(es, p) <= walk_weight(es, p) <= listed_abs_sum(es, p),
        forall|k: int| 0 <= k < p.len() ==> 0 <= #[trigger] p[k] < es.len(),
    decreases p.len(),
{
    if p.len() > 0 {
        let e = p.last();
        lemma_walk_listed_abs(es, p.drop_last(), s, es[e].0 as int);
        assert forall|k: int| 0 <= k < p.len() implies 0 <= #[trigger] p[k] < es.len() by {
            if k < p.len() - 1 {
                assert(p[k] == p.drop_last()[k]);
            }
        }
    }
}

/// A walk that uses no edge twice weighs between `−abs_sum` and `abs_sum`.
pub proof fn lemma_distinct_walk_bound(es: Seq<(u32, u32, i64)>, p: Seq<int>, s: int, t: int)
    requires
        is_walk(es, p, s, t),
        p.no_duplicates(),
    ensures
        -abs_sum(es) <= walk_weight(es, p) <= abs_sum(es),
{
    lemma_walk_listed_abs(es, p, s, t);
    lemma_listed_abs_sum_le(es, p);
}

/// One edge weighs, in absolute value, at most `abs_sum`.
pub proof fn lemma_abs_sum_edge(es: Seq<(u32, u32, i64)>, k: int)
    requires
        0 <= k < es.len(),
    ensures
        -abs_sum(es) <= es[k].2 <= abs_sum(es),
        abs_sum(es) >= 0,
    decreases es.len(),
{
    let w = es.last().2;
    assert(abs_weight(w) >= 0 && -abs_weight(w) <= w <= abs_weight(w));
    assert(abs_sum(es) == abs_sum(es.drop_last()) + abs_weight(w));
    if es.len() > 1 {
        if k < es.len() - 1 {
            lemma_abs_sum_edge(es.drop_last(), k);
            assert(es.drop_last()[k] == es[k]);
        } else {
            lemma_abs_sum_edge(es.drop_last(), 0);
        }
    } else {
        assert(abs_sum(es.drop_last()) == 0);
    }
}

/// When no negative cycle is reachable from `s`, no walk from `s` weighs less
/// than `−abs_sum`.
pub proof fn lemma_walk_at_least_minus_abs_sum(es: Seq<(u32, u32, i64)>, n: int, s: int, p: Seq<int>, t: int)
    requires
        edges_within(es, n),
        0 <= s < n,
        !reaches_negative_cycle(es, s),
        is_walk(es, p, s, t),
    ensures
        walk_weight(es, p) >= -abs_sum(es),
{
    let q = lemma_simple_shortcut(es, n, s, p, t);
    lemma_distinct_walk_bound(es, q, s, t);
}

/// Going round a negative cycle `k` more times yields a walk at least `k`
/// lighter.
pub proof fn lemma_pump(es: Seq<(u32, u32, i64)>, a: Seq<int>, c: Seq<int>, s: int, x: int, k: nat) -> (q: Seq<int>)
    requires
        is_walk(es, a, s, x),
        is_walk(es, c, x, x),
        walk_weight(es, c) < 0,
    ensures
        is_walk(es, q, s, x),
        walk_weight(es, q) <= walk_weight(es, a) - k,
    decreases k,
{
    if k == 0 {
        a
    } else {
        let q0 = lemma_pump(es, a, c, s, x, (k - 1) as nat);
        lemma_walk_concat(es, q0, c, s, x, x);
        q0 + c
    }
}

/// With a source at distance at most 0, every reached node relaxed, and
/// finite entries at most `ub` where `ub + w < INF`, every walk from the
/// source ends at a finite entry no heavier than the walk.
pub proof fn lemma_relaxed_lower_bound(
    es: Seq<(u32, u32, i64)>,
    dist: Seq<i64>,
    s: int,
    w: int,
    ub: int,
    p: Seq<int>,
    v: int,
)
    requires
        weights_within(es, w),
        edges_within(es, dist.len() as int),
        0 <= s < dist.len(),
        dist[s] <= 0,
        ub + w < INF,
        forall|x: int| 0 <= x < dist.len() && #[trigger] dist[x] < INF ==> dist[x] <= ub,
        all_relaxed(es, dist),
        is_walk(es, p, s, v),
    ensures
        dist[v] <= walk_weight(es, p),
        dist[v] < INF,
    decreases p.len(),
{
    if p.len() > 0 {
        let e = p.last();
        let x = es[e].0 as int;
        lemma_relaxed_lower_bound(es, dist, s, w, ub, p.drop_last(), x);
        assert(es[e].0 < dist.len() && es[e].1 < dist.len());
        assert(dist[es[e].1 as int] <= dist[es[e].0 as int] + es[e].2);
        assert(es[e].2 <= w);
    }
}


/// Number of edges of negative weight on the walk `p`.
pub open spec fn neg_count(es: Seq<(u32, u32, i64)>, p: Seq<int>) -> nat
    decreases p.len(),
{
    if p.len() == 0 {
        0
    } else {
        neg_count(es, p.drop_last()) + if es[p.last()].2 < 0 {
            1nat
        } else {
            0nat
        }
    }
}

/// Every walk from `s` can be replaced by a walk to the same node that uses
/// at most `k` edges of negative weight and is no heavier: shortest paths
/// need at most `k` negative edges.
#[verifier::opaque]
pub open spec fn neg_paths_within(es: Seq<(u32, u32, i64)>, s: int, k: int) -> bool {
    forall|p: Seq<int>, v: int|
        #[trigger] is_walk(es, p, s, v) ==> exists|q: Seq<int>|
            #[trigger] is_walk(es, q, s, v) && neg_count(es, q) <= k && walk_weight(es, q)
                <= walk_weight(es, p)
}

/// A walk with `c` negative edges, weights within `[-w, w]`, weighs at
/// least `-c·w`.
pub proof fn lemma_neg_count_bound(es: Seq<(u32, u32, i64)>, p: Seq<int>, s: int, t: int, w: int)
    requires
        is_walk(es, p, s, t),
        weights_within(es, w),
        w >= 0,
    ensures
        walk_weight(es, p) >= -(neg_count(es, p) * w),
    decreases p.len(),
{
    if p.len() > 0 {
        let e = p.last();
        lemma_walk_weight_bound(es, p.drop_last(), s, es[e].0 as int, w);
        lemma_neg_count_bound(es, p.drop_last(), s, es[e].0 as int, w);
        let c = neg_count(es, p.drop_last()) as int;
        assert((c + 1) * w == c * w + w) by (nonlinear_arith);
        assert(-w <= es[e].2 <= w);
    }
}

/// Shortest distances are unique: two values that are both the distance
/// from `s` to `v` are equal. So `dijkstra`, `bellman_ford`,
/// `sssp_few_negative` and `sssp` return the same value for a node wherever
/// their guarantees apply.
pub proof fn lemma_shortest_unique(es: Seq<(u32, u32, i64)>, s: int, v: int, d1: int, d2: int)
    requires
        is_shortest(es, s, v, d1),
        is_shortest(es, s, v, d2),
    ensures
        d1 == d2,
{
    if d1 < INF {
        let p = choose|p: Seq<int>| #[trigger] is_walk(es, p, s, v) && walk_weight(es, p) == d1;
        assert(d2 <= d1);
    }
    if d2 < INF {
        let p = choose|p: Seq<int>| #[trigger] is_walk(es, p, s, v) && walk_weight(es, p) == d2;
        assert(d1 <= d2);
    }
}

} // verus!
