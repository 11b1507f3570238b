# hjs_sssp

Single-source shortest paths in directed graphs with negative integer
weights, after Haeupler, Jiang and Saranurak (2025), with Bellman-Ford,
Dijkstra, strongly connected components and the d-path-cover construction
as building blocks. The library in `src/` is written in Verus; its
contracts state what each function guarantees, and the section below says
where they stop.

## Layout

| Module | Contents |
|--------|----------|
| `graph` | Arena-backed directed graph; its model is the edge list `(source, target, weight)` |
| `paths` | Walks, walk weights, shortest distances and negative cycles as spec functions |
| `arith` | Saturating `i64` arithmetic, `⌊ln x⌋` and bit lengths |
| `queue` | The min-queue the Dijkstra loops use |
| `sssp` | Dijkstra, Bellman-Ford, SSSP with few negative edges per path |
| `scc` | Tarjan's components (exactly the strongly connected components, in reverse topological order) and SSSP when negative edges join components |
| `potential` | Feasible potentials, Johnson reweighting and distance recovery |
| `projection` | Projections of one graph onto another and their layering |
| `path_cover` | The d-path cover |
| `scaling` | Weight scaling, the restricted SSSP recursion and the top-level `sssp` |
| `generators` | Random, path and grid benchmark graphs |

`tests/` exercises the library from outside; `app/` holds the Python
bindings (PyO3), which are ordinary Rust around the library.

## Main guarantees

Below, `W` is the largest absolute weight and `Σ|w|` the sum of all
absolute weights.

* `sssp` returns `None` exactly when the graph has a negative cycle, and
  otherwise the shortest distances, whenever `4(n+1)(m+n+2)·W ≤ INF`
  (`sssp_bounded`). Without a negative cycle it also returns the shortest
  distances whenever `Σ|w| + 2·POT_LIMIT < INF`. For weights of any size,
  each finite entry it returns is the weight of a real walk from the source.
* `dijkstra` (non-negative weights) returns exact distances.
  `bellman_ford` returns exact distances when `(nm+n+1)·W ≤ INF`, and also
  when `Σ|w| < INF` and no negative cycle is reachable from the source; under
  the first bound it returns `None` exactly when a negative cycle is
  reachable.
* `sssp_few_negative` is exact when shortest paths need at most `k`
  negative edges and `(n + min(k, n−1) + 1)·W ≤ INF` or `Σ|w| < INF`;
  `restricted_sssp` is exact below its base-case cutoff when no negative
  cycle is reachable and `(2n+1)·W ≤ INF` or `Σ|w| < INF`.
* `scc` labels two nodes alike exactly when each reaches the other, no edge
  leads to a larger label, and every label below the count is used.
* `sssp_cross_scc` leaves every edge relaxed and never undercuts a distance;
  when negative edges only join components its result is exact, if
  `n·W < INF` or `Σ|w| < INF`.

## What the contracts leave open

* The path cover is stated to project onto the graph, to represent every
  node, to be the graph itself on at most one node, and to lift every edge
  of weight at most `d`. Paths of several edges of weight at most `d` can
  be left without a lift by the layering, so no such lift is stated; the
  clustering of its components is not stated either.
* The recursive case of `k_sssp` (above the base-case cutoff of about 10⁹
  nodes) is stated only to return its length: it can return entries below
  the distances (nodes 0 and 1, edges 1 → 0 of weight −1 and 0 → 1 of
  weight 1, `k = 2`, cutoff 0 gives `[−1, 0]`).
* `bellman_ford` under `Σ|w| < INF` alone can miss a reachable negative
  cycle once its entries saturate at `i64::MIN`, so `None` is promised only
  under the product bound.
