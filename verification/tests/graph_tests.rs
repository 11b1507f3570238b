use hjs_sssp::graph::{EdgeId, EdgeIter, Graph, NodeId};

fn collect(mut it: EdgeIter<'_>) -> Vec<EdgeId> {
    let mut out = Vec::new();
    while let Some(e) = it.next() {
        out.push(e);
    }
    out
}

#[test]
fn add_nodes_and_edges() {
    let mut g = Graph::new();
    let a = g.add_node();
    let b = g.add_node();
    let c = g.add_node();

    let e1 = g.add_edge(a, b, 3);
    let e2 = g.add_edge(a, c, -1);
    let e3 = g.add_edge(b, c, 2);

    assert_eq!(g.node_count(), 3);
    assert_eq!(g.edge_count(), 3);

    assert_eq!(g.weight(e1), 3);
    assert_eq!(g.weight(e2), -1);
    assert_eq!(g.weight(e3), 2);
}

#[test]
fn out_edges_correct() {
    let mut g = Graph::new();
    let a = g.add_node();
    let b = g.add_node();
    let c = g.add_node();
    g.add_edge(a, b, 1);
    g.add_edge(a, c, 2);
    g.add_edge(b, c, 3);

    let out_a = collect(g.out_edges(a));
    assert_eq!(out_a.len(), 2);
    // Both outgoing edges from a reach b or c
    for e in out_a {
        assert!(g.target(e) == b || g.target(e) == c);
    }

    let out_b = collect(g.out_edges(b));
    assert_eq!(out_b.len(), 1);
    assert_eq!(g.target(out_b[0]), c);

    let out_c = collect(g.out_edges(c));
    assert_eq!(out_c.len(), 0);
}

#[test]
fn in_edges_correct() {
    let mut g = Graph::new();
    let a = g.add_node();
    let b = g.add_node();
    let c = g.add_node();
    g.add_edge(a, c, 10);
    g.add_edge(b, c, 20);

    let in_c = collect(g.in_edges(c));
    assert_eq!(in_c.len(), 2);

    let in_a = collect(g.in_edges(a));
    assert_eq!(in_a.len(), 0);
}

#[test]
fn add_nodes_bulk() {
    let mut g = Graph::new();
    let first = g.add_nodes(5);
    assert_eq!(first.0, 0);
    assert_eq!(g.node_count(), 5);
}

#[test]
#[should_panic]
fn out_of_range_edge_panics() {
    let mut g = Graph::new();
    let a = g.add_node();
    g.add_edge(a, NodeId(99), 0);
}

// ── Further checks of the adjacency lists ─────────────────────────────────────

#[test]
fn adjacency_lists_latest_first() {
    let mut g = Graph::with_capacity(3, 3);
    g.add_nodes(3);
    let e0 = g.add_edge(NodeId(0), NodeId(1), 5);
    let e1 = g.add_edge(NodeId(0), NodeId(2), 6);
    let e2 = g.add_edge(NodeId(2), NodeId(1), 7);
    assert_eq!(collect(g.out_edges(NodeId(0))), vec![e1, e0]);
    assert_eq!(collect(g.in_edges(NodeId(1))), vec![e2, e0]);
    assert_eq!(g.first_out_edge(NodeId(0)), Some(e1));
    assert_eq!(g.next_out_edge(e1), Some(e0));
    assert_eq!(g.next_out_edge(e0), None);
    assert_eq!(g.first_out_edge(NodeId(1)), None);
    assert_eq!(g.source(e2), NodeId(2));
    assert_eq!(g.target(e2), NodeId(1));
}

#[test]
fn node_and_edge_ids_in_order() {
    let mut g = Graph::default();
    g.add_nodes(4);
    g.add_edge(NodeId(3), NodeId(0), -2);
    g.add_edge(NodeId(1), NodeId(2), 4);
    assert_eq!(g.nodes(), vec![NodeId(0), NodeId(1), NodeId(2), NodeId(3)]);
    assert_eq!(g.edges(), vec![EdgeId(0), EdgeId(1)]);
    let second = g.add_nodes(2);
    assert_eq!(second, NodeId(4));
    assert_eq!(g.node_count(), 6);
}
