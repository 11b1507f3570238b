//! Benchmark graph generators.
//!
//! Each generator follows the structure of the corresponding DIMACS 9th
//! challenge SPLIB generator, differing only in the choice of PRNG
//! (xorshift64 here vs. the Park–Miller multiplicative congruential generator
//! of the C programs).
use vstd::prelude::*;

use crate::graph::{Graph, NodeId};

verus! {

// ── RNG ───────────────────────────────────────────────────────────────────────

/// One xorshift64 step (shifts 13, 7, 17).
pub open spec fn xorshift(x: u64) -> u64 {
    let a = x ^ ((x << 13u64) as u64);
    let b = a ^ (a >> 7u64);
    b ^ ((b << 17u64) as u64)
}

/// xorshift64 step: period 2⁶⁴ − 1, adequate for graph generation.
fn next(r: &mut u64) -> (out: u64)
    ensures
        *final(r) == xorshift(*old(r)),
        out == *final(r),
{
    *r = *r ^ (*r << 13u64);
    *r = *r ^ (*r >> 7u64);
    *r = *r ^ (*r << 17u64);
    *r
}

/// `k` xorshift steps from the state `x`.
pub open spec fn xorshift_steps(x: u64, k: nat) -> u64
    decreases k,
{
    if k == 0 {
        x
    } else {
        xorshift(xorshift_steps(x, (k - 1) as nat))
    }
}

/// The weight in `[-w_max, w_max]` that the draw `x` gives: its remainder
/// modulo `2·w_max + 1`, less `w_max`.
pub open spec fn weight_of(x: u64, w_max: i64) -> i64 {
    ((x as int % (2 * w_max + 1)) - w_max) as i64
}

/// The arcs that `rounds` rounds of the random generator give from the
/// state `x`: each round draws a source and a target in `0..n`, and, unless
/// they coincide, a weight.
pub open spec fn random_arcs(n: usize, rounds: nat, w_max: i64, x: u64) -> Seq<(u32, u32, i64)>
    decreases rounds,
{
    if rounds == 0 {
        Seq::empty()
    } else {
        let a = xorshift(x);
        let b = xorshift(a);
        let u = ((a as usize) % n) as u32;
        let v = ((b as usize) % n) as u32;
        if u == v {
            random_arcs(n, (rounds - 1) as nat, w_max, b)
        } else {
            let c = xorshift(b);
            seq![(u, v, weight_of(c, w_max))] + random_arcs(n, (rounds - 1) as nat, w_max, c)
        }
    }
}

/// A weight drawn uniformly from `[-w_max, w_max]`.
fn draw_weight(rng: &mut u64, w_max: i64) -> (w: i64)
    requires
        0 <= w_max <= i64::MAX / 2,
    ensures
        -w_max <= w <= w_max,
        *final(rng) == xorshift(*old(rng)),
        w == weight_of(*final(rng), w_max),
{
    let r = next(rng);
    let span: u64 = 2 * (w_max as u64) + 1;
    let k = r % span;
    (k as i64) - w_max
}

// ── Generators ────────────────────────────────────────────────────────────────

/// Random directed graph with `n` nodes and up to `m` arcs (**sprand**).
///
/// Arc endpoints `(u, v)` are drawn independently and uniformly from
/// `[0, n)`.  Self-loops are discarded, so the actual arc count is slightly
/// below `m` (by roughly `m / n` on average).  Weights are drawn uniformly
/// from `[-w_max, w_max]`.
///
/// This matches the structure of Goldberg's **sprand** generator from SPLIB:
/// both draw `m` uniform random pairs and skip self-loops. The draws are the
/// successive xorshift64 states from `seed` (see [`random_arcs`]). Drawing needs a
/// node when `m > 0`, and a weight bound with `2·w_max` in range.
pub fn make_random_graph(n: usize, m: usize, w_max: i64, seed: u64) -> (r: (Graph, NodeId))
    requires
        m == 0 || n > 0,
        n <= u32::MAX,
        m < u32::MAX,
        0 <= w_max <= i64::MAX / 2,
    ensures
        r.0.wf(),
        r.0.num_nodes() == n,
        r.0.edge_list().len() <= m,
        forall|e: int|
            0 <= e < r.0.edge_list().len() ==> {
                let x = #[trigger] r.0.edge_list()[e];
                &&& x.0 < n
                &&& x.1 < n
                &&& x.0 != x.1
                &&& -w_max <= x.2 <= w_max
            },
        r.0.edge_list() == random_arcs(n, m as nat, w_max, seed),
        r.1 == NodeId(0),
{
    let mut g = Graph::with_capacity(n, m);
    g.add_nodes(n);
    let mut rng = seed;
    proof {
        assert(g.edge_list() + random_arcs(n, m as nat, w_max, rng) =~= random_arcs(n, m as nat, w_max, seed));
    }
    let mut i: usize = 0;
    while i < m
        invariant
            i <= m,
            m < u32::MAX,
            m == 0 || n > 0,
            n <= u32::MAX,
            0 <= w_max <= i64::MAX / 2,
            g.wf(),
            g.num_nodes() == n,
            g.edge_list().len() <= i,
            forall|e: int|
                0 <= e < g.edge_list().len() ==> {
                    let x = #[trigger] g.edge_list()[e];
                    &&& x.0 < n
                    &&& x.1 < n
                    &&& x.0 != x.1
                    &&& -w_max <= x.2 <= w_max
                },
            g.edge_list() + random_arcs(n, (m - i) as nat, w_max, rng) == random_arcs(n, m as nat, w_max, seed),
        decreases m - i,
    {
        let ghost before = g.edge_list();
        let ghost x0 = rng;
        let u = ((next(&mut rng) as usize) % n) as u32;
        let v = ((next(&mut rng) as usize) % n) as u32;
        if u != v {
            let w = draw_weight(&mut rng, w_max);
            g.add_edge(NodeId(u), NodeId(v), w);
            proof {
                let rest = random_arcs(n, (m - i - 1) as nat, w_max, rng);
                assert(random_arcs(n, (m - i) as nat, w_max, x0) == seq![(u, v, w)] + rest);
                assert(g.edge_list() + rest =~= before + (seq![(u, v, w)] + rest));
            }
        }
        i = i + 1;
    }
    (g, NodeId(0))
}

/// Path graph `0 → 1 → 2 → … → (n-1)` with negative-capable weights
/// (**sppath**).
///
/// Weights are drawn uniformly from `[-w_max, w_max]`: edge `e` takes the
/// weight of the `(e + 1)`-th xorshift64 state from `seed`.  The graph is a
/// DAG and therefore contains no cycles of any kind. `n` must be at least 1.
pub fn make_path_graph(n: usize, w_max: i64, seed: u64) -> (r: (Graph, NodeId))
    requires
        1 <= n <= u32::MAX,
        0 <= w_max <= i64::MAX / 2,
    ensures
        r.0.wf(),
        r.0.num_nodes() == n,
        r.0.edge_list().len() == n - 1,
        forall|e: int|
            0 <= e < n - 1 ==> {
                let x = #[trigger] r.0.edge_list()[e];
                &&& x.0 == e
                &&& x.1 == e + 1
                &&& -w_max <= x.2 <= w_max
                &&& x.2 == weight_of(xorshift_steps(seed, (e + 1) as nat), w_max)
            },
        r.1 == NodeId(0),
{
    let mut g = Graph::with_capacity(n, n - 1);
    g.add_nodes(n);
    let mut rng = seed;
    let mut u: usize = 0;
    while u < n - 1
        invariant
            u <= n - 1,
            1 <= n <= u32::MAX,
            0 <= w_max <= i64::MAX / 2,
            g.wf(),
            g.num_nodes() == n,
            g.edge_list().len() == u,
            rng == xorshift_steps(seed, u as nat),
            forall|e: int|
                0 <= e < u ==> {
                    let x = #[trigger] g.edge_list()[e];
                    &&& x.0 == e
                    &&& x.1 == e + 1
                    &&& -w_max <= x.2 <= w_max
                    &&& x.2 == weight_of(xorshift_steps(seed, (e + 1) as nat), w_max)
                },
        decreases n - 1 - u,
    {
        let w = draw_weight(&mut rng, w_max);
        g.add_edge(NodeId(u as u32), NodeId((u + 1) as u32), w);
        u = u + 1;
    }
    (g, NodeId(0))
}

/// Arc `a` comes before arc `b` in order of source, then of target.
pub open spec fn arc_before(a: (u32, u32, i64), b: (u32, u32, i64)) -> bool {
    a.0 < b.0 || (a.0 == b.0 && a.1 < b.1)
}

/// Number of edges of a `rows × cols` grid after the cells before `(r, c)`
/// in row-major order have added theirs.
pub open spec fn grid_edges_before(rows: int, cols: int, r: int, c: int) -> int {
    r * (cols - 1) + (if r < rows {
        r
    } else {
        rows - 1
    }) * cols + (if c < cols - 1 {
        c
    } else {
        cols - 1
    }) + (if r + 1 < rows {
        c
    } else {
        0
    })
}

proof fn grid_index_bounds(rows: int, cols: int, r: int, c: int)
    requires
        0 <= r < rows,
        0 <= c < cols,
    ensures
        r * cols + c < rows * cols,
        (r + 1) * cols == r * cols + cols,
        r + 1 < rows ==> r * cols + c + cols < rows * cols,
        r * cols >= 0,
        2 * (r * cols + c) + 2 <= 2 * rows * cols,
        cols <= rows * cols,
        2 * rows * cols == 2 * (rows * cols),
{
    assert(2 * rows * cols == 2 * (rows * cols)) by (nonlinear_arith);
    assert(cols <= rows * cols) by (nonlinear_arith)
        requires
            rows >= 1,
            cols >= 0,
    ;
    assert((r + 1) * cols == r * cols + cols) by (nonlinear_arith);
    assert((r + 1) * cols <= rows * cols) by (nonlinear_arith)
        requires
            r + 1 <= rows,
            cols >= 0,
    ;
    assert(r * cols >= 0) by (nonlinear_arith)
        requires
            r >= 0,
            cols >= 0,
    ;
    if r + 1 < rows {
        assert((r + 2) * cols <= rows * cols) by (nonlinear_arith)
            requires
                r + 2 <= rows,
                cols >= 0,
        ;
        assert((r + 2) * cols == r * cols + 2 * cols) by (nonlinear_arith);
    }
}

/// The row-major index of cell `(r, c)` in a grid with `cols` columns.
pub open spec fn cell(r: int, cols: int, c: int) -> int {
    r * cols + c
}

/// `x` is an arc of the `rows × cols` grid: from some cell `(r, c)` to its
/// right neighbour `(r, c + 1)` or to the cell below, `(r + 1, c)`.
pub open spec fn grid_arc(rows: int, cols: int, x: (u32, u32, i64)) -> bool {
    exists|r: int, c: int|
        0 <= r < rows && 0 <= c < cols && x.0 == #[trigger] cell(r, cols, c) && ((c + 1 < cols && x.1 == x.0
            + 1) || (r + 1 < rows && x.1 == x.0 + cols))
}

/// Directed `rows × cols` grid graph with negative-capable weights
/// (**spgrid**).
///
/// Each node `(r, c)` has an edge to `(r, c+1)` (right) and to `(r+1, c)`
/// (down), with weights drawn uniformly from `[-w_max, w_max]`.  All edges
/// increase the row-major index, so the graph is a DAG with no negative
/// cycles. Arcs are added in order of source, then target, and edge `e`
/// takes the weight of the `(e + 1)`-th xorshift64 state from `seed`.
///
/// The total arc count is `rows*(cols-1) + (rows-1)*cols` (for a grid with
/// at least one row and one column).
pub fn make_grid_graph(rows: usize, cols: usize, w_max: i64, seed: u64) -> (r: (Graph, NodeId))
    requires
        2 * rows * cols < u32::MAX,
        0 <= w_max <= i64::MAX / 2,
    ensures
        r.0.wf(),
        r.0.num_nodes() == rows * cols,
        rows >= 1 && cols >= 1 ==> r.0.edge_list().len() == rows * (cols - 1) + (rows - 1) * cols,
        forall|e: int|
            0 <= e < r.0.edge_list().len() ==> {
                let x = #[trigger] r.0.edge_list()[e];
                &&& x.0 < x.1 < rows * cols
                &&& x.1 == x.0 + 1 || x.1 == x.0 + cols
                &&& -w_max <= x.2 <= w_max
                &&& x.2 == weight_of(xorshift_steps(seed, (e + 1) as nat), w_max)
                &&& grid_arc(rows as int, cols as int, x)
            },
        forall|e1: int, e2: int|
            0 <= e1 < e2 < r.0.edge_list().len() ==> arc_before(
                #[trigger] r.0.edge_list()[e1],
                #[trigger] r.0.edge_list()[e2],
            ),
        r.1 == NodeId(0),
{
    proof {
        assert(2 * rows * cols == 2 * (rows * cols)) by (nonlinear_arith);
        assert(rows * cols >= 0) by (nonlinear_arith)
            requires
                rows >= 0,
                cols >= 0,
        ;
    }
    let n = rows * cols;
    let mut g = Graph::with_capacity(n, 2 * n);
    g.add_nodes(n);
    let mut rng = seed;
    let mut r: usize = 0;
    while r < rows
        invariant
            r <= rows,
            n == rows * cols,
            2 * rows * cols < u32::MAX,
            0 <= w_max <= i64::MAX / 2,
            g.wf(),
            g.num_nodes() == n,
            rows >= 1 && cols >= 1 ==> g.edge_list().len() == grid_edges_before(rows as int, cols as int, r as int, 0),
            g.edge_list().len() <= 2 * (r * cols),
            forall|e: int|
                0 <= e < g.edge_list().len() ==> {
                    let x = #[trigger] g.edge_list()[e];
                    &&& x.0 < x.1 < rows * cols
                    &&& x.1 == x.0 + 1 || x.1 == x.0 + cols
                    &&& -w_max <= x.2 <= w_max
                    &&& x.2 == weight_of(xorshift_steps(seed, (e + 1) as nat), w_max)
                    &&& x.0 < r * cols
                    &&& grid_arc(rows as int, cols as int, x)
                },
            rng == xorshift_steps(seed, g.edge_list().len() as nat),
            forall|e1: int, e2: int|
                0 <= e1 < e2 < g.edge_list().len() ==> arc_before(
                    #[trigger] g.edge_list()[e1],
                    #[trigger] g.edge_list()[e2],
                ),
        decreases rows - r,
    {
        let mut c: usize = 0;
        while c < cols
            invariant
                c <= cols,
                r < rows,
                n == rows * cols,
                2 * rows * cols < u32::MAX,
                0 <= w_max <= i64::MAX / 2,
                g.wf(),
                g.num_nodes() == n,
                rows >= 1 && cols >= 1 ==> g.edge_list().len() == grid_edges_before(rows as int, cols as int, r as int, c as int),
                g.edge_list().len() <= 2 * (r * cols + c),
                forall|e: int|
                    0 <= e < g.edge_list().len() ==> {
                        let x = #[trigger] g.edge_list()[e];
                        &&& x.0 < x.1 < rows * cols
                        &&& x.1 == x.0 + 1 || x.1 == x.0 + cols
                        &&& -w_max <= x.2 <= w_max
                        &&& x.2 == weight_of(xorshift_steps(seed, (e + 1) as nat), w_max)
                        &&& x.0 < r * cols + c
                        &&& grid_arc(rows as int, cols as int, x)
                    },
                rng == xorshift_steps(seed, g.edge_list().len() as nat),
                forall|e1: int, e2: int|
                    0 <= e1 < e2 < g.edge_list().len() ==> arc_before(
                        #[trigger] g.edge_list()[e1],
                        #[trigger] g.edge_list()[e2],
                    ),
            decreases cols - c,
        {
            proof {
                grid_index_bounds(rows as int, cols as int, r as int, c as int);
            }
            let here = (r * cols + c) as u32;
            if c + 1 < cols {
                let ghost es0 = g.edge_list();
                let w = draw_weight(&mut rng, w_max);
                g.add_edge(NodeId(here), NodeId(here + 1), w);
                proof {
                    let es = g.edge_list();
                    assert(cell(r as int, cols as int, c as int) == here);
                    assert(grid_arc(rows as int, cols as int, es[es.len() - 1]));
                    assert(rng == xorshift_steps(seed, es.len() as nat));
                    assert(es[es.len() - 1].2 == weight_of(xorshift_steps(seed, es.len() as nat), w_max));
                    assert forall|e1: int, e2: int| 0 <= e1 < e2 < es.len() implies arc_before(
                        #[trigger] es[e1],
                        #[trigger] es[e2],
                    ) by {
                        if e2 < es0.len() {
                            assert(es[e1] == es0[e1] && es[e2] == es0[e2]);
                        } else {
                            assert(es[e1] == es0[e1]);
                        }
                    }
                }
            }
            if r + 1 < rows {
                let ghost es0 = g.edge_list();
                let w = draw_weight(&mut rng, w_max);
                g.add_edge(NodeId(here), NodeId(here + cols as u32), w);
                proof {
                    let es = g.edge_list();
                    assert(cell(r as int, cols as int, c as int) == here);
                    assert(grid_arc(rows as int, cols as int, es[es.len() - 1]));
                    assert(rng == xorshift_steps(seed, es.len() as nat));
                    assert(es[es.len() - 1].2 == weight_of(xorshift_steps(seed, es.len() as nat), w_max));
                    assert forall|e1: int, e2: int| 0 <= e1 < e2 < es.len() implies arc_before(
                        #[trigger] es[e1],
                        #[trigger] es[e2],
                    ) by {
                        if e2 < es0.len() {
                            assert(es[e1] == es0[e1] && es[e2] == es0[e2]);
                        } else {
                            assert(es[e1] == es0[e1]);
                        }
                    }
                }
            }
            proof {
                assert forall|e: int| 0 <= e < g.edge_list().len() implies (#[trigger] g.edge_list()[e]).0 < r * cols + c + 1 by {
                }
            }
            c = c + 1;
        }
        proof {
            if cols >= 1 {
                grid_index_bounds(rows as int, cols as int, r as int, 0);
                let (R, C, rr) = (rows as int, cols as int, r as int);
                assert(grid_edges_before(R, C, rr, C) == grid_edges_before(R, C, rr + 1, 0)) by (nonlinear_arith)
                    requires
                        0 <= rr < R,
                        C >= 1,
                ;
            }
        }
        r = r + 1;
    }
    proof {
        if rows >= 1 && cols >= 1 {
            assert(grid_edges_before(rows as int, cols as int, rows as int, 0) == rows * (cols - 1) + (rows - 1) * cols);
        }
    }
    (g, NodeId(0))
}

} // verus!
