use hjs_sssp::arith::{bit_length, floor_ln, sat_add, sat_double, sat_mul_nonneg, sat_sub};
use hjs_sssp::generators::{make_grid_graph, make_path_graph, make_random_graph};
use hjs_sssp::graph::{Graph, NodeId};
use hjs_sssp::path_cover::path_cover;
use hjs_sssp::projection::Projection;
use hjs_sssp::sssp::{bellman_ford, dijkstra, restricted_sssp, scc, sssp, sssp_cross_scc, sssp_few_negative, INF};

fn out_list(g: &Graph, v: NodeId) -> Vec<(NodeId, i64)> {
    let mut it = g.out_edges(v);
    let mut out = Vec::new();
    while let Some(e) = it.next() {
        out.push((g.target(e), g.weight(e)));
    }
    out
}

// ── Generators (documented examples) ─────────────────────────────────────────

#[test]
fn random_graph_example() {
    let n = 50;
    let m = 4 * n;
    let w_max = 10;
    let (g, src) = make_random_graph(n, m, w_max, 42);
    assert_eq!(src, NodeId(0));
    assert_eq!(g.node_count(), n);
    assert!(g.edge_count() <= m);
    for e in g.edges() {
        assert!(g.source(e) != g.target(e));
        assert!(g.weight(e).abs() <= w_max);
    }
}

#[test]
fn path_graph_example() {
    let n = 20;
    let w_max = 5;
    let (g, _src) = make_path_graph(n, w_max, 99);
    assert_eq!(g.node_count(), n);
    assert_eq!(g.edge_count(), n - 1);
    for e in g.edges() {
        assert!(g.weight(e).abs() <= w_max);
        // Each edge i connects node i to node i+1.
        assert_eq!(g.target(e).0, g.source(e).0 + 1);
    }
}

#[test]
fn grid_graph_example() {
    let (rows, cols) = (5, 6);
    let w_max = 3;
    let (g, _src) = make_grid_graph(rows, cols, w_max, 7);
    assert_eq!(g.node_count(), rows * cols);
    assert_eq!(g.edge_count(), rows * (cols - 1) + (rows - 1) * cols);
    for e in g.edges() {
        assert!(g.weight(e).abs() <= w_max);
    }
}

#[test]
fn generators_are_deterministic() {
    let (a, _) = make_random_graph(30, 90, 7, 5);
    let (b, _) = make_random_graph(30, 90, 7, 5);
    assert_eq!(a.edge_count(), b.edge_count());
    for e in a.edges() {
        assert_eq!(a.source(e), b.source(e));
        assert_eq!(a.target(e), b.target(e));
        assert_eq!(a.weight(e), b.weight(e));
    }
}

// ── Agreement of the shortest-path functions ────────────────────────────────

#[test]
fn sssp_agrees_with_bellman_ford_on_dags() {
    for seed in 1..6u64 {
        let (g, s) = make_path_graph(40, 5, seed);
        assert_eq!(sssp(&g, s), bellman_ford(&g, s));
        let (g, s) = make_grid_graph(6, 7, 3, seed);
        assert_eq!(sssp(&g, s), bellman_ford(&g, s));
    }
}

#[test]
fn sssp_agrees_with_bellman_ford_on_random_graphs() {
    for seed in 1..25u64 {
        let (g, s) = make_random_graph(25, 60, 10, seed);
        match sssp(&g, s) {
            Some(d) => assert_eq!(Some(d), bellman_ford(&g, s)),
            None => {
                // A negative cycle exists somewhere: Bellman-Ford from a node
                // joined to all others finds it.
                let mut h = Graph::new();
                h.add_nodes(26);
                for e in g.edges() {
                    h.add_edge(g.source(e), g.target(e), g.weight(e));
                }
                for v in 0..25u32 {
                    h.add_edge(NodeId(25), NodeId(v), 0);
                }
                assert_eq!(bellman_ford(&h, NodeId(25)), None);
            }
        }
    }
}

#[test]
fn sssp_agrees_with_dijkstra_on_non_negative_weights() {
    for seed in 1..10u64 {
        let (g, s) = make_random_graph(30, 100, 10, seed);
        let mut h = Graph::new();
        h.add_nodes(30);
        for e in g.edges() {
            h.add_edge(g.source(e), g.target(e), g.weight(e).abs());
        }
        assert_eq!(sssp(&h, s), Some(dijkstra(&h, s)));
        assert_eq!(sssp_few_negative(&h, s, 0), Some(dijkstra(&h, s)));
    }
}

#[test]
fn distances_satisfy_triangle_inequality() {
    let (g, s) = make_grid_graph(5, 5, 4, 11);
    let d = sssp(&g, s).unwrap();
    for e in g.edges() {
        let (u, v) = (g.source(e).0 as usize, g.target(e).0 as usize);
        if d[u] < INF {
            assert!(d[v] <= d[u] + g.weight(e));
        }
    }
    assert_eq!(d[0], 0);
}

#[test]
fn sssp_some_never_undercuts_with_huge_weights() {
    let big: i64 = 1 << 61;
    let mut g = Graph::new();
    g.add_nodes(4);
    g.add_edge(NodeId(0), NodeId(1), big);
    g.add_edge(NodeId(1), NodeId(2), -(big / 2));
    g.add_edge(NodeId(0), NodeId(2), 2 * big);
    g.add_edge(NodeId(2), NodeId(3), big);
    let exact = [0i64, big, big / 2, big + big / 2];
    let d = sssp(&g, NodeId(0)).unwrap();
    assert_eq!(d.len(), 4);
    assert!(d[0] <= 0);
    for v in 0..4 {
        if d[v] < INF {
            assert!(d[v] >= exact[v]);
        }
    }
}

#[test]
fn cross_scc_never_undercuts_distances() {
    for seed in 1..10u64 {
        let (g, s) = make_random_graph(20, 40, 6, seed);
        let Some(exact) = bellman_ford(&g, s) else { continue };
        let est = sssp_cross_scc(&g, s);
        for v in 0..20 {
            assert!(est[v] >= exact[v]);
            if est[v] < INF {
                assert!(exact[v] < INF);
            }
        }
    }
}

#[test]
fn few_negative_some_never_undercuts() {
    for seed in 1..12u64 {
        let (g, s) = make_random_graph(18, 40, 5, seed);
        let Some(d) = sssp_few_negative(&g, s, 2) else { continue };
        assert_eq!(d[s.0 as usize], 0);
        if let Some(exact) = bellman_ford(&g, s) {
            for v in 0..18 {
                assert!(d[v] >= exact[v]);
            }
        }
        for e in g.edges() {
            let (u, v) = (g.source(e).0 as usize, g.target(e).0 as usize);
            if g.weight(e) < 0 && d[u] < INF {
                assert!(d[v] <= sat_add(d[u], g.weight(e)));
            }
        }
    }
}

fn xorshift(x: u64) -> u64 {
    let a = x ^ (x << 13);
    let b = a ^ (a >> 7);
    b ^ (b << 17)
}

#[test]
fn path_graph_weights_follow_the_draws() {
    let (g, _) = make_path_graph(12, 7, 5);
    let mut x = 5u64;
    for e in g.edges() {
        x = xorshift(x);
        assert_eq!(g.weight(e), (x % 15) as i64 - 7);
    }
}

#[test]
fn random_graph_follows_the_draws() {
    let (n, m, w_max, seed) = (9usize, 30usize, 4i64, 11u64);
    let (g, _) = make_random_graph(n, m, w_max, seed);
    let mut x = seed;
    let mut expected = Vec::new();
    for _ in 0..m {
        x = xorshift(x);
        let u = (x as usize % n) as u32;
        x = xorshift(x);
        let v = (x as usize % n) as u32;
        if u != v {
            x = xorshift(x);
            expected.push((u, v, (x % 9) as i64 - 4));
        }
    }
    let got: Vec<(u32, u32, i64)> = g.edges().iter().map(|&e| (g.source(e).0, g.target(e).0, g.weight(e))).collect();
    assert_eq!(got, expected);
}

#[test]
fn grid_arcs_in_order_of_source_then_target() {
    let (rows, cols) = (4, 5);
    let (g, _) = make_grid_graph(rows, cols, 3, 8);
    let arcs: Vec<(u32, u32)> = g.edges().iter().map(|&e| (g.source(e).0, g.target(e).0)).collect();
    let mut expected = Vec::new();
    for r in 0..rows as u32 {
        for c in 0..cols as u32 {
            let here = r * cols as u32 + c;
            if c + 1 < cols as u32 {
                expected.push((here, here + 1));
            }
            if r + 1 < rows as u32 {
                expected.push((here, here + cols as u32));
            }
        }
    }
    assert_eq!(arcs, expected);
    let mut x = 8u64;
    for e in g.edges() {
        x = xorshift(x);
        assert_eq!(g.weight(e), (x % 7) as i64 - 3);
    }
}

#[test]
fn bellman_ford_some_is_a_fixpoint() {
    for seed in 1..12u64 {
        let (g, s) = make_random_graph(15, 35, 9, seed);
        let Some(d) = bellman_ford(&g, s) else { continue };
        assert_eq!(d[s.0 as usize], 0);
        for e in g.edges() {
            let (u, v) = (g.source(e).0 as usize, g.target(e).0 as usize);
            if d[u] < INF {
                assert!(d[v] <= sat_add(d[u], g.weight(e)));
            }
        }
    }
}

// ── SCC labels ───────────────────────────────────────────────────────────────

#[test]
fn scc_labels_within_count() {
    for seed in 1..10u64 {
        let (g, _) = make_random_graph(40, 60, 3, seed);
        let (comp, num) = scc(&g);
        assert!(num <= 40);
        assert_eq!(comp.len(), 40);
        assert!(comp.iter().all(|&c| c < num));
    }
    let g = Graph::new();
    assert_eq!(scc(&g), (Vec::new(), 0));
}

fn reach_matrix(g: &Graph) -> Vec<Vec<bool>> {
    let n = g.node_count();
    let mut r = vec![vec![false; n]; n];
    for v in 0..n {
        r[v][v] = true;
    }
    for e in g.edges() {
        r[g.source(e).0 as usize][g.target(e).0 as usize] = true;
    }
    for k in 0..n {
        for i in 0..n {
            if r[i][k] {
                for j in 0..n {
                    if r[k][j] {
                        r[i][j] = true;
                    }
                }
            }
        }
    }
    r
}

#[test]
fn scc_labels_are_the_components() {
    for seed in 1..12u64 {
        let (g, _) = make_random_graph(25, 45, 3, seed);
        let (comp, num) = scc(&g);
        let r = reach_matrix(&g);
        for x in 0..25 {
            for y in 0..25 {
                assert_eq!(comp[x] == comp[y], r[x][y] && r[y][x]);
            }
        }
        for e in g.edges() {
            assert!(comp[g.target(e).0 as usize] <= comp[g.source(e).0 as usize]);
        }
        for c in 0..num {
            assert!(comp.contains(&c));
        }
    }
}

#[test]
fn cross_scc_leaves_every_edge_relaxed() {
    for seed in 1..10u64 {
        let (g, s) = make_random_graph(20, 50, 7, seed);
        // A negative cycle inside a component keeps the queue busy until the
        // estimates saturate, so only graphs without one reachable are run.
        if bellman_ford(&g, s).is_none() {
            continue;
        }
        let d = sssp_cross_scc(&g, s);
        for e in g.edges() {
            let (u, v) = (g.source(e).0 as usize, g.target(e).0 as usize);
            if d[u] < INF {
                assert!(d[v] <= sat_add(d[u], g.weight(e)));
            }
        }
    }
}

#[test]
fn cross_scc_exact_when_negatives_cross() {
    for seed in 1..12u64 {
        let (base, s) = make_random_graph(20, 45, 6, seed);
        let (comp, _) = scc(&base);
        // Keep the edges, making every edge inside a component non-negative.
        let mut g = Graph::new();
        g.add_nodes(20);
        for e in base.edges() {
            let (u, v, w) = (base.source(e), base.target(e), base.weight(e));
            let w = if comp[u.0 as usize] == comp[v.0 as usize] { w.abs() } else { w };
            g.add_edge(u, v, w);
        }
        let exact = bellman_ford(&g, s).unwrap();
        assert_eq!(sssp_cross_scc(&g, s), exact);
    }
}

// ── Projections ──────────────────────────────────────────────────────────────

#[test]
fn layer_edges_go_forward() {
    let (g, _) = make_random_graph(12, 40, 4, 3);
    let a: Vec<NodeId> = (0..6).map(NodeId).collect();
    let b: Vec<NodeId> = (4..12).map(NodeId).collect();
    let c: Vec<NodeId> = (0..12).step_by(3).map(NodeId).collect();
    let sizes = [a.len() as u32, b.len() as u32, c.len() as u32];
    let p = Projection::layer(
        vec![
            Projection::identity_subgraph(&g, &a),
            Projection::identity_subgraph(&g, &b),
            Projection::identity_subgraph(&g, &c),
        ],
        &g,
    );
    let piece = |x: u32| {
        if x < sizes[0] {
            0
        } else if x < sizes[0] + sizes[1] {
            1
        } else {
            2
        }
    };
    for e in p.graph.edges() {
        let (u, v) = (p.graph.source(e), p.graph.target(e));
        assert!(piece(u.0) <= piece(v.0));
        // Every edge maps onto an edge of g with the same weight.
        assert!(out_list(&g, p.original_of(u)).contains(&(p.original_of(v), p.graph.weight(e))));
    }
    for v in 0..12u32 {
        let r = p.representative(NodeId(v)).unwrap();
        assert_eq!(p.original_of(r), NodeId(v));
    }
}

#[test]
fn path_cover_projects_and_represents_every_node() {
    for seed in 1..6u64 {
        let (g0, _) = make_random_graph(20, 50, 6, seed);
        let mut g = Graph::new();
        g.add_nodes(20);
        for e in g0.edges() {
            g.add_edge(g0.source(e), g0.target(e), g0.weight(e).abs());
        }
        let p = path_cover(&g, 4, 3);
        assert_eq!(p.original_size(), 20);
        for v in 0..20u32 {
            let r = p.representative(NodeId(v)).unwrap();
            assert_eq!(p.original_of(r), NodeId(v));
        }
        for e in p.graph.edges() {
            let u = p.original_of(p.graph.source(e));
            let v = p.original_of(p.graph.target(e));
            assert!(out_list(&g, u).contains(&(v, p.graph.weight(e))));
        }
    }
}

// ── Integer helpers ──────────────────────────────────────────────────────────

#[test]
fn integer_helpers_exact_values() {
    assert_eq!(floor_ln(1), 0);
    assert_eq!(floor_ln(2), 0);
    assert_eq!(floor_ln(3), 1);
    assert_eq!(floor_ln(20), 2);
    assert_eq!(floor_ln(21), 3);
    assert_eq!(floor_ln(1_000_000), 13);
    assert_eq!(floor_ln(u64::MAX), 44);
    assert_eq!(bit_length(0), 0);
    assert_eq!(bit_length(1), 1);
    assert_eq!(bit_length(255), 8);
    assert_eq!(bit_length(256), 9);
    assert_eq!(sat_add(i64::MAX, 1), i64::MAX);
    assert_eq!(sat_add(-5, 3), -2);
    assert_eq!(sat_sub(i64::MIN, 1), i64::MIN);
    assert_eq!(sat_sub(7, 10), -3);
    assert_eq!(sat_double(1 << 62), i64::MAX);
    assert_eq!(sat_double(-21), -42);
    assert_eq!(sat_mul_nonneg(1 << 62, 4), i64::MAX);
    assert_eq!(sat_mul_nonneg(6, 7), 42);
}

// ── Exact distances when the absolute weights sum below INF ──────────────────

#[test]
fn bellman_ford_exact_with_one_heavy_edge() {
    // A single edge of weight 2^61: the absolute weights sum below INF.
    let mut g = Graph::new();
    g.add_nodes(3);
    g.add_edge(NodeId(0), NodeId(1), 1i64 << 61);
    g.add_edge(NodeId(1), NodeId(2), -7);
    assert_eq!(bellman_ford(&g, NodeId(0)), Some(vec![0, (1i64 << 61), (1i64 << 61) - 7]));
}

#[test]
fn cross_scc_exact_with_one_heavy_edge() {
    let mut g = Graph::new();
    g.add_nodes(4);
    g.add_edge(NodeId(0), NodeId(1), 1i64 << 60);
    g.add_edge(NodeId(1), NodeId(2), -(1i64 << 59));
    g.add_edge(NodeId(2), NodeId(3), 5);
    g.add_edge(NodeId(3), NodeId(2), 5);
    let expected = vec![0, 1i64 << 60, (1i64 << 60) - (1i64 << 59), (1i64 << 60) - (1i64 << 59) + 5];
    assert_eq!(sssp_cross_scc(&g, NodeId(0)), expected);
}

#[test]
fn sssp_exact_with_one_heavy_edge() {
    // Absolute weights sum to 2^60 + 8, below INF - 2 * POT_LIMIT.
    let mut g = Graph::new();
    g.add_nodes(3);
    g.add_edge(NodeId(0), NodeId(1), 1i64 << 60);
    g.add_edge(NodeId(1), NodeId(2), -3);
    g.add_edge(NodeId(2), NodeId(0), 5);
    assert_eq!(sssp(&g, NodeId(0)), Some(vec![0, 1i64 << 60, (1i64 << 60) - 3]));
    assert_eq!(sssp(&g, NodeId(2)), Some(vec![5, 5 + (1i64 << 60), 0]));
}

#[test]
fn few_negative_exact_with_large_k() {
    // (n + k + 1) * W exceeds INF for k = 10, but n - 1 rounds suffice.
    let mut g = Graph::new();
    g.add_nodes(3);
    g.add_edge(NodeId(0), NodeId(1), 1i64 << 59);
    g.add_edge(NodeId(1), NodeId(2), -5);
    assert_eq!(
        sssp_few_negative(&g, NodeId(0), 10),
        Some(vec![0, 1i64 << 59, (1i64 << 59) - 5])
    );
}

#[test]
fn few_negative_exact_when_weights_sum_below_inf() {
    let mut g = Graph::new();
    g.add_nodes(3);
    g.add_edge(NodeId(0), NodeId(1), 1i64 << 61);
    g.add_edge(NodeId(1), NodeId(2), -5);
    assert_eq!(
        sssp_few_negative(&g, NodeId(0), 1),
        Some(vec![0, 1i64 << 61, (1i64 << 61) - 5])
    );
}

#[test]
fn restricted_exact_when_weights_sum_below_inf() {
    let mut g = Graph::new();
    g.add_nodes(3);
    g.add_edge(NodeId(0), NodeId(1), 0);
    g.add_edge(NodeId(0), NodeId(2), 0);
    g.add_edge(NodeId(2), NodeId(1), -1);
    g.add_edge(NodeId(1), NodeId(2), 1i64 << 61);
    assert_eq!(restricted_sssp(&g, NodeId(0)), vec![0, -1, 0]);
}
