use hjs_sssp::graph::{Graph, NodeId};
use hjs_sssp::projection::Projection;

// Helper: collect all result-graph neighbours of a node.
fn out_targets(proj: &Projection, v: NodeId) -> Vec<NodeId> {
    let mut it = proj.graph.out_edges(v);
    let mut out = Vec::new();
    while let Some(e) = it.next() {
        out.push(proj.graph.target(e));
    }
    out
}

// ── identity_subgraph ─────────────────────────────────────────────────

#[test]
fn identity_full_graph() {
    // G: a →(3) b →(2) c, a →(-1) c
    let mut g = Graph::new();
    let a = g.add_node();
    let b = g.add_node();
    let c = g.add_node();
    g.add_edge(a, b, 3);
    g.add_edge(a, c, -1);
    g.add_edge(b, c, 2);

    let proj = Projection::identity_subgraph(&g, &[a, b, c]);

    assert_eq!(proj.graph.node_count(), 3);
    assert_eq!(proj.graph.edge_count(), 3);

    // Every original node is present.
    assert!(proj.is_present(a));
    assert!(proj.is_present(b));
    assert!(proj.is_present(c));

    // Representatives map back to the right original nodes.
    let rep_a = proj.representative(a).unwrap();
    let rep_b = proj.representative(b).unwrap();
    let rep_c = proj.representative(c).unwrap();
    assert_eq!(proj.original_of(rep_a), a);
    assert_eq!(proj.original_of(rep_b), b);
    assert_eq!(proj.original_of(rep_c), c);
}

#[test]
fn identity_proper_subgraph_excludes_cut_edges() {
    // G: a → b → c; subgraph = {a, b} should include only a→b.
    let mut g = Graph::new();
    let a = g.add_node();
    let b = g.add_node();
    let c = g.add_node();
    g.add_edge(a, b, 1);
    g.add_edge(b, c, 2);

    let proj = Projection::identity_subgraph(&g, &[a, b]);

    assert_eq!(proj.graph.node_count(), 2);
    assert_eq!(proj.graph.edge_count(), 1); // only a→b

    assert!(proj.is_present(a));
    assert!(proj.is_present(b));
    assert!(!proj.is_present(c)); // c not in subgraph
}

// ── layer ─────────────────────────────────────────────────────────────

/// Chain graph a→b→c split into two layers {a} and {b,c}.
#[test]
fn layer_two_pieces_chain() {
    let mut g = Graph::new();
    let a = g.add_node(); // 0
    let b = g.add_node(); // 1
    let c = g.add_node(); // 2
    g.add_edge(a, b, 5);
    g.add_edge(b, c, 7);

    let piece0 = Projection::identity_subgraph(&g, &[a]);
    let piece1 = Projection::identity_subgraph(&g, &[b, c]);
    let result = Projection::layer(vec![piece0, piece1], &g);

    // 1 node in piece 0 + 2 nodes in piece 1
    assert_eq!(result.graph.node_count(), 3);

    // Representatives are in the correct pieces.
    let rep_a = result.representative(a).unwrap();
    let rep_b = result.representative(b).unwrap();
    let rep_c = result.representative(c).unwrap();

    // a' is in piece 0 → offset 0; b', c' are in piece 1 → offset 1, 2.
    assert_eq!(rep_a.0, 0);
    assert_eq!(rep_b.0, 1);
    assert_eq!(rep_c.0, 2);

    // Original nodes are preserved by proj_map.
    assert_eq!(result.original_of(rep_a), a);
    assert_eq!(result.original_of(rep_b), b);
    assert_eq!(result.original_of(rep_c), c);

    // Edge counts: 1 internal (b→c) + 1 cross (a→b).
    assert_eq!(result.graph.edge_count(), 2);

    // Cross-edge a'→b' with weight 5.
    let a_nbrs = out_targets(&result, rep_a);
    assert_eq!(a_nbrs, vec![rep_b]);
    let cross_e = result.graph.out_edges(rep_a).next().unwrap();
    assert_eq!(result.graph.weight(cross_e), 5);

    // Internal edge b'→c' with weight 7.
    let b_nbrs = out_targets(&result, rep_b);
    assert_eq!(b_nbrs, vec![rep_c]);
    let int_e = result.graph.out_edges(rep_b).next().unwrap();
    assert_eq!(result.graph.weight(int_e), 7);
}

/// A node present in multiple pieces should be represented by the
/// *first* piece only; no cross-edge should be added for the later copies.
#[test]
fn layer_first_piece_wins_representative() {
    let mut g = Graph::new();
    let a = g.add_node();
    let b = g.add_node();
    g.add_edge(a, b, 1);

    // Both pieces cover {a, b}.
    let piece0 = Projection::identity_subgraph(&g, &[a, b]);
    let piece1 = Projection::identity_subgraph(&g, &[a, b]);
    let result = Projection::layer(vec![piece0, piece1], &g);

    // 2 + 2 = 4 nodes in result.
    assert_eq!(result.graph.node_count(), 4);

    // Representatives must be in piece 0 (offset 0 and 1).
    let rep_a = result.representative(a).unwrap();
    let rep_b = result.representative(b).unwrap();
    assert!(rep_a.0 < 2, "rep(a) should be in piece 0");
    assert!(rep_b.0 < 2, "rep(b) should be in piece 0");
}

/// No cross-edges should be added if the target's representative is in
/// the same or an earlier layer.
#[test]
fn layer_no_backward_cross_edges() {
    // G: a → b. Both covered by piece 0; piece 1 only covers a.
    let mut g = Graph::new();
    let a = g.add_node();
    let b = g.add_node();
    g.add_edge(a, b, 3);

    let piece0 = Projection::identity_subgraph(&g, &[a, b]); // rep(a)=0, rep(b)=1
    let piece1 = Projection::identity_subgraph(&g, &[a]); // rep(a) already in piece 0

    let result = Projection::layer(vec![piece0, piece1], &g);

    // piece 0: 2 nodes (a, b); piece 1: 1 node (a copy)
    assert_eq!(result.graph.node_count(), 3);

    // The a' in piece 1 (offset 2) has original edge a→b, but rep(b) is
    // in piece 0 which is *earlier*, so NO cross-edge.
    let a_prime_in_piece1 = NodeId(2); // the copy of a in piece 1
    let a_prime_nbrs = out_targets(&result, a_prime_in_piece1);
    assert!(
        a_prime_nbrs.is_empty(),
        "no forward cross-edge should exist from piece 1's a-copy"
    );

    // The internal edge a→b in piece 0 still exists.
    assert_eq!(result.graph.edge_count(), 1);
}

/// Three-layer construction: piece 0 = {a}, piece 1 = {b}, piece 2 = {c}.
/// Original: a→b→c. Cross-edges: a'→b', b'→c'.
#[test]
fn layer_three_pieces() {
    let mut g = Graph::new();
    let a = g.add_node();
    let b = g.add_node();
    let c = g.add_node();
    g.add_edge(a, b, 1);
    g.add_edge(b, c, 2);

    let p0 = Projection::identity_subgraph(&g, &[a]);
    let p1 = Projection::identity_subgraph(&g, &[b]);
    let p2 = Projection::identity_subgraph(&g, &[c]);
    let result = Projection::layer(vec![p0, p1, p2], &g);

    assert_eq!(result.graph.node_count(), 3);
    // 2 cross-edges, no internal edges (each piece has 1 node, no intra-piece edges).
    assert_eq!(result.graph.edge_count(), 2);

    let rep_a = result.representative(a).unwrap();
    let rep_b = result.representative(b).unwrap();
    let rep_c = result.representative(c).unwrap();

    assert_eq!(out_targets(&result, rep_a), vec![rep_b]);
    assert_eq!(out_targets(&result, rep_b), vec![rep_c]);
    assert!(out_targets(&result, rep_c).is_empty());
}

/// Path-covering property: the lift of path a→b→c exists in the result.
#[test]
fn layer_covers_path() {
    let mut g = Graph::new();
    let a = g.add_node();
    let b = g.add_node();
    let c = g.add_node();
    g.add_edge(a, b, 10);
    g.add_edge(b, c, 20);

    let result = Projection::layer(
        vec![
            Projection::identity_subgraph(&g, &[a]),
            Projection::identity_subgraph(&g, &[b, c]),
        ],
        &g,
    );

    let rep_a = result.representative(a).unwrap();
    let rep_b = result.representative(b).unwrap();
    let rep_c = result.representative(c).unwrap();

    // Lift of a→b→c starts at rep(a) and follows cross then internal edge.
    assert!(out_targets(&result, rep_a).contains(&rep_b));
    assert!(out_targets(&result, rep_b).contains(&rep_c));
}

// ── Further checks ────────────────────────────────────────────────────

#[test]
fn preimages_and_sizes() {
    let mut g = Graph::new();
    let a = g.add_node();
    let b = g.add_node();
    g.add_edge(a, b, 4);
    let result = Projection::layer(
        vec![
            Projection::identity_subgraph(&g, &[a, b]),
            Projection::identity_subgraph(&g, &[b, a]),
        ],
        &g,
    );
    assert_eq!(result.original_size(), 2);
    assert_eq!(result.preimages_of(a), vec![NodeId(0), NodeId(3)]);
    assert_eq!(result.preimages_of(b), vec![NodeId(1), NodeId(2)]);
    // Every edge of the result maps onto the edge a→b with weight 4.
    let mut count = 0;
    for e in result.graph.edges() {
        assert_eq!(result.original_of(result.graph.source(e)), a);
        assert_eq!(result.original_of(result.graph.target(e)), b);
        assert_eq!(result.graph.weight(e), 4);
        count += 1;
    }
    // Internal a→b in each piece; no forward cross-edge (rep(b) is in piece 0).
    assert_eq!(count, 2);
}

#[test]
fn with_graph_replaces_edges() {
    let mut g = Graph::new();
    let a = g.add_node();
    let b = g.add_node();
    g.add_edge(a, b, -3);
    let p = Projection::identity_subgraph(&g, &[a, b]);
    let mut h = Graph::new();
    h.add_nodes(2);
    h.add_edge(NodeId(0), NodeId(1), 9);
    let q = p.with_graph(h);
    assert_eq!(q.graph.edge_count(), 1);
    assert_eq!(q.graph.weight(hjs_sssp::graph::EdgeId(0)), 9);
    assert_eq!(q.representative(b), Some(NodeId(1)));
}
