use hjs_sssp::graph::{Graph, NodeId};
use hjs_sssp::sssp::{
    bellman_ford, dijkstra, restricted_sssp, scc, sssp, sssp_cross_scc, sssp_few_negative, INF,
};

fn make_graph(n: usize, edges: &[(usize, usize, i64)]) -> (Graph, Vec<NodeId>) {
    let mut g = Graph::new();
    let nodes: Vec<NodeId> = (0..n).map(|_| g.add_node()).collect();
    for &(u, v, w) in edges {
        g.add_edge(nodes[u], nodes[v], w);
    }
    (g, nodes)
}

// ── Dijkstra ──────────────────────────────────────────────────────────────

#[test]
fn dijkstra_simple() {
    let (g, nodes) = make_graph(4, &[(0, 1, 1), (0, 2, 4), (1, 2, 2), (1, 3, 5), (2, 3, 1)]);
    let dist = dijkstra(&g, nodes[0]);
    assert_eq!(dist[nodes[0].0 as usize], 0);
    assert_eq!(dist[nodes[1].0 as usize], 1);
    assert_eq!(dist[nodes[2].0 as usize], 3);
    assert_eq!(dist[nodes[3].0 as usize], 4);
}

#[test]
fn dijkstra_unreachable() {
    let (g, nodes) = make_graph(3, &[(0, 1, 1)]);
    let dist = dijkstra(&g, nodes[0]);
    assert_eq!(dist[nodes[2].0 as usize], INF);
}

// ── SCC ───────────────────────────────────────────────────────────────────

#[test]
fn scc_simple_dag() {
    // 0→1→2: three singleton SCCs
    let (g, _) = make_graph(3, &[(0, 1, 1), (1, 2, 1)]);
    let (comp, num) = scc(&g);
    assert_eq!(num, 3);
    assert!(comp[0] != comp[1] && comp[1] != comp[2]);
}

#[test]
fn scc_cycle() {
    // 0→1→2→0: one SCC
    let (g, _) = make_graph(3, &[(0, 1, 1), (1, 2, 1), (2, 0, 1)]);
    let (comp, num) = scc(&g);
    assert_eq!(num, 1);
    assert_eq!(comp[0], comp[1]);
    assert_eq!(comp[1], comp[2]);
}

#[test]
fn scc_two_components() {
    // 0→1→0, 2→3→2
    let (g, _) = make_graph(4, &[(0, 1, 1), (1, 0, 1), (2, 3, 1), (3, 2, 1)]);
    let (comp, num) = scc(&g);
    assert_eq!(num, 2);
    assert_eq!(comp[0], comp[1]);
    assert_eq!(comp[2], comp[3]);
    assert_ne!(comp[0], comp[2]);
}

// ── sssp_cross_scc ────────────────────────────────────────────────────────

#[test]
fn cross_scc_negative_edge_between_sccs() {
    // 0 → 1 with weight -3 (different SCCs since no back-edge)
    // 1 → 2 with weight 5
    let (g, nodes) = make_graph(3, &[(0, 1, -3), (1, 2, 5)]);
    let dist = sssp_cross_scc(&g, nodes[0]);
    assert_eq!(dist[nodes[0].0 as usize], 0);
    assert_eq!(dist[nodes[1].0 as usize], -3);
    assert_eq!(dist[nodes[2].0 as usize], 2);
}

#[test]
fn cross_scc_dag_with_negatives() {
    // DAG: 0→1 (w=-1), 0→2 (w=2), 1→2 (w=3)
    let (g, nodes) = make_graph(3, &[(0, 1, -1), (0, 2, 2), (1, 2, 3)]);
    let dist = sssp_cross_scc(&g, nodes[0]);
    assert_eq!(dist[nodes[1].0 as usize], -1);
    assert_eq!(dist[nodes[2].0 as usize], 2); // min(2, -1+3)
}

// ── sssp_few_negative ─────────────────────────────────────────────────────

#[test]
fn few_neg_basic() {
    let (g, nodes) = make_graph(3, &[(0, 1, -2), (1, 2, 5), (0, 2, 10)]);
    let dist = sssp_few_negative(&g, nodes[0], 2).unwrap();
    assert_eq!(dist[nodes[1].0 as usize], -2);
    assert_eq!(dist[nodes[2].0 as usize], 3);
}

#[test]
fn few_neg_no_negative_cycle() {
    // Positive cycle: should not trigger negative cycle detection.
    let (g, nodes) = make_graph(3, &[(0, 1, 1), (1, 2, 1), (2, 0, 1), (0, 2, -1)]);
    let result = sssp_few_negative(&g, nodes[0], 3);
    assert!(result.is_some());
    let dist = result.unwrap();
    assert_eq!(dist[nodes[2].0 as usize], -1);
}

// ── Full SSSP ─────────────────────────────────────────────────────────────

#[test]
fn sssp_all_non_negative() {
    let (g, nodes) = make_graph(4, &[(0, 1, 1), (0, 2, 4), (1, 2, 2), (1, 3, 5), (2, 3, 1)]);
    let dist = sssp(&g, nodes[0]).unwrap();
    assert_eq!(dist[nodes[0].0 as usize], 0);
    assert_eq!(dist[nodes[1].0 as usize], 1);
    assert_eq!(dist[nodes[2].0 as usize], 3);
    assert_eq!(dist[nodes[3].0 as usize], 4);
}

#[test]
fn sssp_with_negative_edges() {
    // Classic Johnson's example: 0→1(w=-1), 1→2(w=3), 0→2(w=10)
    let (g, nodes) = make_graph(3, &[(0, 1, -1), (1, 2, 3), (0, 2, 10)]);
    let dist = sssp(&g, nodes[0]).unwrap();
    assert_eq!(dist[nodes[0].0 as usize], 0);
    assert_eq!(dist[nodes[1].0 as usize], -1);
    assert_eq!(dist[nodes[2].0 as usize], 2);
}

#[test]
fn sssp_johnson_style() {
    // 0→1(-2), 1→2(4), 2→0(1) — positive cycle, no negative cycle
    let (g, nodes) = make_graph(3, &[(0, 1, -2), (1, 2, 4), (2, 0, 1)]);
    let dist = sssp(&g, nodes[0]).unwrap();
    assert_eq!(dist[nodes[0].0 as usize], 0);
    assert_eq!(dist[nodes[1].0 as usize], -2);
    assert_eq!(dist[nodes[2].0 as usize], 2);
}

#[test]
fn sssp_single_node() {
    let (g, nodes) = make_graph(1, &[]);
    let dist = sssp(&g, nodes[0]).unwrap();
    assert_eq!(dist[nodes[0].0 as usize], 0);
}

#[test]
fn sssp_disconnected() {
    let (g, nodes) = make_graph(3, &[(0, 1, 1)]);
    let dist = sssp(&g, nodes[0]).unwrap();
    assert_eq!(dist[nodes[0].0 as usize], 0);
    assert_eq!(dist[nodes[1].0 as usize], 1);
    assert_eq!(dist[nodes[2].0 as usize], INF);
}

// ── Further scenarios ─────────────────────────────────────────────────────

#[test]
fn readme_example() {
    // Build a small graph with a negative edge.
    let mut g = Graph::with_capacity(4, 4);
    g.add_nodes(4);
    g.add_edge(NodeId(0), NodeId(1), 5);
    g.add_edge(NodeId(1), NodeId(2), -3);
    g.add_edge(NodeId(0), NodeId(2), 8);
    g.add_edge(NodeId(2), NodeId(3), 2);

    let dist = sssp(&g, NodeId(0)).expect("no negative cycle");

    assert_eq!(dist[0], 0); // source
    assert_eq!(dist[1], 5);
    assert_eq!(dist[2], 2); // via 0→1→2: 5 + (−3) = 2
    assert_eq!(dist[3], 4); // via 0→1→2→3
}

#[test]
fn sssp_empty_graph() {
    let g = Graph::new();
    assert_eq!(sssp(&g, NodeId(0)), Some(Vec::new()));
}

#[test]
fn sssp_negative_cycle_is_none() {
    // 1 → 2 → 1 weighs -1.
    let (g, nodes) = make_graph(3, &[(0, 1, 2), (1, 2, 1), (2, 1, -2)]);
    assert_eq!(sssp(&g, nodes[0]), None);
}

#[test]
fn sssp_unreachable_negative_cycle_is_none() {
    // The negative cycle 1 ⇄ 2 cannot be reached from 0, yet it is a
    // negative cycle of the graph.
    let (g, nodes) = make_graph(3, &[(1, 2, -4), (2, 1, 1)]);
    assert_eq!(sssp(&g, nodes[0]), None);
    // Bellman-Ford only looks at what the source reaches.
    let bf = bellman_ford(&g, nodes[0]).unwrap();
    assert_eq!(bf, vec![0, INF, INF]);
}

#[test]
fn sssp_zero_weights() {
    let (g, nodes) = make_graph(3, &[(0, 1, 0), (1, 0, 0), (1, 2, 0)]);
    assert_eq!(sssp(&g, nodes[0]), Some(vec![0, 0, 0]));
}

#[test]
fn bellman_ford_negative_cycle() {
    let (g, nodes) = make_graph(2, &[(0, 1, 1), (1, 0, -2)]);
    assert_eq!(bellman_ford(&g, nodes[0]), None);
}

#[test]
fn bellman_ford_distances() {
    let (g, nodes) = make_graph(4, &[(0, 1, 4), (0, 2, 5), (2, 1, -3), (1, 3, 2)]);
    assert_eq!(bellman_ford(&g, nodes[0]), Some(vec![0, 2, 5, 4]));
}

#[test]
fn few_neg_reports_remaining_improvement() {
    // With k = 0 the negative edge 1 → 2 still improves node 2 after the
    // last round; with k = 1 a second round settles it.
    let (g, nodes) = make_graph(3, &[(1, 2, -1), (0, 1, -1)]);
    assert_eq!(sssp_few_negative(&g, nodes[0], 0), None);
    assert_eq!(sssp_few_negative(&g, nodes[0], 1), Some(vec![0, -1, -2]));
}

#[test]
fn restricted_sssp_from_super_source() {
    // Definition 5.1 shape: weights in {-1, 0, …, n} and a super-source (3).
    let (g, nodes) = make_graph(
        4,
        &[(0, 1, -1), (1, 2, 2), (2, 0, 0), (3, 0, 0), (3, 1, 0), (3, 2, 0)],
    );
    assert_eq!(restricted_sssp(&g, nodes[3]), vec![0, -1, 0, 0]);
}

#[test]
fn cross_scc_within_component() {
    // 0 ⇄ 1 form one SCC with non-negative edges; 1 → 2 crosses with -5.
    let (g, nodes) = make_graph(3, &[(0, 1, 2), (1, 0, 3), (1, 2, -5)]);
    assert_eq!(sssp_cross_scc(&g, nodes[0]), vec![0, 2, -3]);
}

#[test]
fn scc_labels_in_reverse_topological_order() {
    // 0 → {1 ⇄ 2} → 3: the SCC of the source gets the largest label.
    let (g, _) = make_graph(4, &[(0, 1, 1), (1, 2, 1), (2, 1, 1), (2, 3, 1)]);
    let (comp, num) = scc(&g);
    assert_eq!(num, 3);
    assert_eq!(comp[1], comp[2]);
    assert!(comp[0] > comp[1] && comp[1] > comp[3]);
}
