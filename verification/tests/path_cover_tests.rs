use hjs_sssp::graph::{Graph, NodeId};
use hjs_sssp::path_cover::path_cover;
use hjs_sssp::projection::Projection;

fn make_graph(n: usize, edges: &[(usize, usize, i64)]) -> (Graph, Vec<NodeId>) {
    let mut g = Graph::new();
    let nodes: Vec<NodeId> = (0..n).map(|_| g.add_node()).collect();
    for &(u, v, w) in edges {
        g.add_edge(nodes[u], nodes[v], w);
    }
    (g, nodes)
}

fn out_list(g: &Graph, v: NodeId) -> Vec<(NodeId, i64)> {
    let mut it = g.out_edges(v);
    let mut out = Vec::new();
    while let Some(e) = it.next() {
        out.push((g.target(e), g.weight(e)));
    }
    out
}

/// Verify that every path of weight ≤ d in `g` is covered by projection `p`.
/// Checks all simple paths (for small graphs) by DFS with distance tracking.
fn paths_covered(g: &Graph, p: &Projection, d: i64) -> bool {
    let n = g.node_count();
    for s in 0..n as u32 {
        for t in 0..n as u32 {
            if s == t {
                continue;
            }
            let paths = enumerate_paths(g, NodeId(s), NodeId(t), d);
            for path in &paths {
                if !path_has_lift(g, p, path) {
                    return false;
                }
            }
        }
    }
    true
}

/// Enumerate all simple paths from `src` to `tgt` with total weight ≤ `d`.
fn enumerate_paths(g: &Graph, src: NodeId, tgt: NodeId, d: i64) -> Vec<Vec<NodeId>> {
    let mut result = Vec::new();
    let mut visited = vec![false; g.node_count()];
    let mut path = vec![src];
    visited[src.0 as usize] = true;
    dfs_paths(g, tgt, d, 0, &mut path, &mut visited, &mut result);
    result
}

fn dfs_paths(
    g: &Graph,
    tgt: NodeId,
    budget: i64,
    spent: i64,
    path: &mut Vec<NodeId>,
    visited: &mut Vec<bool>,
    result: &mut Vec<Vec<NodeId>>,
) {
    let cur = *path.last().unwrap();
    if cur == tgt {
        result.push(path.clone());
        return;
    }
    for (v, w) in out_list(g, cur) {
        let new_spent = spent + w;
        if new_spent <= budget && !visited[v.0 as usize] {
            visited[v.0 as usize] = true;
            path.push(v);
            dfs_paths(g, tgt, budget, new_spent, path, visited, result);
            path.pop();
            visited[v.0 as usize] = false;
        }
    }
}

/// Check that an original path `p_orig` (sequence of nodes) has a lift in
/// the projection `proj`.
fn path_has_lift(_g: &Graph, proj: &Projection, p_orig: &[NodeId]) -> bool {
    if p_orig.is_empty() {
        return true;
    }
    let n_prime = proj.graph.node_count();
    for start in 0..n_prime as u32 {
        if proj.original_of(NodeId(start)) != p_orig[0] {
            continue;
        }
        if lift_from(proj, p_orig, 0, NodeId(start)) {
            return true;
        }
    }
    false
}

fn lift_from(proj: &Projection, p: &[NodeId], idx: usize, cur_prime: NodeId) -> bool {
    if idx + 1 == p.len() {
        return true; // all nodes placed
    }
    let next_orig = p[idx + 1];
    for (v_prime, _) in out_list(&proj.graph, cur_prime) {
        if proj.original_of(v_prime) == next_orig {
            if lift_from(proj, p, idx + 1, v_prime) {
                return true;
            }
        }
    }
    false
}

// ── Basic tests ───────────────────────────────────────────────────────────

#[test]
fn cover_single_node() {
    let (g, nodes) = make_graph(1, &[]);
    let p = path_cover(&g, 5, 100);
    assert_eq!(p.graph.node_count(), 1);
    assert!(p.representative(nodes[0]).is_some());
}

#[test]
fn cover_two_nodes_one_edge() {
    let (g, nodes) = make_graph(2, &[(0, 1, 3)]);
    let p = path_cover(&g, 5, 100);
    // The single edge (0→1, weight 3 ≤ 5) must be covered.
    assert!(paths_covered(&g, &p, 5), "d=5 path 0→1 not covered");
    assert!(p.representative(nodes[0]).is_some());
    assert!(p.representative(nodes[1]).is_some());
}

#[test]
fn cover_chain_of_four() {
    // 0→1(1)→2(1)→3(1): all 1-paths and 2-paths must be covered.
    let (g, _) = make_graph(4, &[(0, 1, 1), (1, 2, 1), (2, 3, 1)]);
    let p = path_cover(&g, 2, 200);
    assert!(paths_covered(&g, &p, 2), "2-paths not all covered");
}

#[test]
fn cover_complete_graph_k3() {
    // Fully connected 3-node graph with uniform weight 1.
    let edges = [
        (0, 1, 1),
        (0, 2, 1),
        (1, 0, 1),
        (1, 2, 1),
        (2, 0, 1),
        (2, 1, 1),
    ];
    let (g, _) = make_graph(3, &edges);
    let p = path_cover(&g, 1, 500);
    assert!(
        paths_covered(&g, &p, 1),
        "All 1-weight edges must be covered"
    );
}

#[test]
fn cover_star_graph() {
    // Star: center 0, leaves 1..4, all weight 2.
    let edges: Vec<(usize, usize, i64)> =
        (1..5).flat_map(|i| vec![(0, i, 2), (i, 0, 2)]).collect();
    let (g, _) = make_graph(5, &edges);
    let p = path_cover(&g, 2, 200);
    assert!(paths_covered(&g, &p, 2), "Star edges not all covered");
}

#[test]
fn all_nodes_have_representatives() {
    // Every node that is active should have a representative.
    let edges = [(0, 1, 1), (1, 2, 1), (2, 3, 1), (3, 0, 1)]; // cycle
    let (g, nodes) = make_graph(4, &edges);
    let p = path_cover(&g, 10, 100);
    for &nd in &nodes {
        assert!(p.representative(nd).is_some(), "node {:?} has no rep", nd);
    }
}

#[test]
fn cover_disconnected_graph() {
    // Two disconnected components: {0,1} and {2,3}.
    let (g, _) = make_graph(4, &[(0, 1, 1), (2, 3, 1)]);
    let p = path_cover(&g, 1, 100);
    assert!(
        paths_covered(&g, &p, 1),
        "Disconnected: 1-paths not covered"
    );
}

#[test]
fn cover_zero_weight_edges() {
    let (g, _) = make_graph(3, &[(0, 1, 0), (1, 2, 0)]);
    let p = path_cover(&g, 0, 100);
    assert!(paths_covered(&g, &p, 0), "0-weight paths not covered");
}

#[test]
fn projection_maps_back_to_original() {
    let (g, nodes) = make_graph(3, &[(0, 1, 2), (1, 2, 3)]);
    let p = path_cover(&g, 5, 100);
    // Every G′-node should map back to some original node.
    for v_prime in p.graph.nodes() {
        let orig = p.original_of(v_prime);
        assert!(
            nodes.contains(&orig),
            "proj node maps to unknown original {:?}",
            orig
        );
    }
}

// ── Further checks ────────────────────────────────────────────────────────

#[test]
fn cover_empty_graph() {
    let g = Graph::new();
    let p = path_cover(&g, 3, 10);
    assert_eq!(p.graph.node_count(), 0);
    assert_eq!(p.original_size(), 0);
}

#[test]
fn cover_edges_project_onto_graph() {
    // Every cover edge maps onto an edge of the graph with the same weight.
    let (g, _) = make_graph(5, &[(0, 1, 1), (1, 2, 2), (2, 0, 3), (2, 3, 1), (3, 4, 5), (4, 3, 1)]);
    let p = path_cover(&g, 3, 50);
    for e in p.graph.edges() {
        let u = p.original_of(p.graph.source(e));
        let v = p.original_of(p.graph.target(e));
        let w = p.graph.weight(e);
        assert!(out_list(&g, u).contains(&(v, w)));
    }
    assert!(paths_covered(&g, &p, 3));
}

#[test]
fn cover_layers_follow_distance_order() {
    // Node ids are not in distance order here; the balls of the thin-layer
    // search must be grown in distance order for this cover to come out.
    let (g, _) = make_graph(4, &[(1, 2, 0), (3, 2, 1), (1, 0, 3), (0, 3, 1), (3, 2, 0)]);
    let p = path_cover(&g, 2, 3);
    assert_eq!(p.graph.node_count(), 4);
    assert_eq!(p.graph.edge_count(), 4);
    let originals: Vec<u32> = p.graph.nodes().iter().map(|&v| p.original_of(v).0).collect();
    assert_eq!(originals, vec![0, 1, 3, 2]);
    let reps: Vec<u32> = (0..4u32).map(|v| p.representative(NodeId(v)).unwrap().0).collect();
    assert_eq!(reps, vec![0, 1, 3, 2]);

    let (g, _) = make_graph(6, &[(5, 0, 2), (2, 5, 2)]);
    let p = path_cover(&g, 3, 10);
    assert_eq!(p.graph.node_count(), 6);
    assert_eq!(p.graph.edge_count(), 2);
    let originals: Vec<u32> = p.graph.nodes().iter().map(|&v| p.original_of(v).0).collect();
    assert_eq!(originals, vec![2, 5, 4, 3, 1, 0]);
}

#[test]
fn cover_lifts_every_short_edge() {
    // Each edge of weight at most d has an edge of the cover over it.
    for seed in 1..8u64 {
        let (g0, _) = hjs_sssp::generators::make_random_graph(30, 90, 6, seed);
        let mut g = Graph::new();
        g.add_nodes(30);
        for e in g0.edges() {
            g.add_edge(g0.source(e), g0.target(e), g0.weight(e).abs());
        }
        let d = 3;
        let p = path_cover(&g, d, 20);
        for e in g.edges() {
            if g.weight(e) > d {
                continue;
            }
            let (u, v, w) = (g.source(e), g.target(e), g.weight(e));
            let lifted = p.graph.edges().into_iter().any(|f| {
                p.original_of(p.graph.source(f)) == u
                    && p.original_of(p.graph.target(f)) == v
                    && p.graph.weight(f) == w
            });
            assert!(lifted);
        }
    }
}
