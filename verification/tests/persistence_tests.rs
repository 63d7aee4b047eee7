use rustworks::{
    generate_graph, load_graph, Edge, EdgeIdentifier, Graph, GraphError, Node, NodeIdentifier,
    NodeLike,
};

#[test]
fn save_empty_graph_exact_text() {
    let g = Graph::new();
    let s = g.save_to_buffer();
    assert_eq!(s, "graph{matrix:0:nodes:0:edges:0:}");
}

#[test]
fn save_single_node_exact_text() {
    let mut g = Graph::new();
    g.add_node(NodeLike::IdentifierOnly(NodeIdentifier::Int(42)));
    let s = g.save_to_buffer();
    assert_eq!(s, "graph{matrix:0:nodes:1:I42:0:edges:0:}");
}

#[test]
fn save_text_identifier_exact_text() {
    let mut g = Graph::new();
    g.add_node(NodeLike::IdentifierOnly(NodeIdentifier::Text(String::from("ab"))));
    let s = g.save_to_buffer();
    assert_eq!(s, "graph{matrix:0:nodes:1:T2:ab0:edges:0:}");
}

#[test]
fn round_trip_nodes_and_edges() {
    let mut g = Graph::new();
    let full = Node {
        identifier: NodeIdentifier::Int(1),
        edges: vec![(NodeIdentifier::Int(2), EdgeIdentifier::Int(0))],
    };
    g.add_node(NodeLike::FullNode(full));
    g.add_node(NodeLike::IdentifierOnly(NodeIdentifier::Text(String::from(
        "h\u{e9}llo",
    ))));
    g.add_node(NodeLike::FullNode(Node {
        identifier: NodeIdentifier::Int(3),
        edges: vec![(NodeIdentifier::Text(String::from("x")), EdgeIdentifier::Test(
            String::from("s"),
        ))],
    }));
    let edges: Vec<Edge> = vec![Edge::from((Node::from(1), Node::from(7)))];
    g.add_edges_from(edges);
    let s = g.save_to_buffer();
    let g2 = load_graph(&s).unwrap();
    assert_eq!(g.nodes, g2.nodes);
    assert_eq!(g.edges, g2.edges);
    assert_eq!(g.adjacency_matrix.shape(), g2.adjacency_matrix.shape());
}

#[test]
fn round_trip_generated_matrix() {
    let g = generate_graph(4);
    let s = g.save_to_buffer();
    let g2 = load_graph(&s).unwrap();
    assert_eq!(g2.adjacency_matrix.shape(), vec![4, 4]);
    for i in 0..4 {
        for j in 0..4 {
            assert_eq!(g.adjacency_matrix.entry(i, j), g2.adjacency_matrix.entry(i, j));
        }
    }
    assert_eq!(0, g2.nodes.len());
    assert_eq!(0, g2.edges.len());
}

#[test]
fn malformed_input_is_decode_failure() {
    assert!(matches!(
        load_graph("this is not a graph"),
        Err(GraphError::DecodeFailure)
    ));
    assert!(matches!(load_graph(""), Err(GraphError::DecodeFailure)));
    assert!(matches!(
        load_graph("graph{matrix:0:nodes:0:edges:0:"),
        Err(GraphError::DecodeFailure)
    ));
}

#[test]
fn trailing_content_is_rejected() {
    assert!(load_graph("graph{matrix:0:nodes:0:edges:0:}x").is_err());
}

#[test]
fn duplicate_node_identifiers_are_rejected() {
    assert!(load_graph("graph{matrix:0:nodes:2:I1:0:I1:0:edges:0:}").is_err());
}

#[test]
fn non_square_matrix_is_rejected() {
    assert!(load_graph("graph{matrix:1:2:0:0:nodes:0:edges:0:}").is_err());
}

#[test]
fn leading_zero_number_is_rejected() {
    assert!(load_graph("graph{matrix:00:nodes:0:edges:0:}").is_err());
}

#[test]
fn well_formed_text_is_accepted() {
    let g = load_graph("graph{matrix:2:2:0:1:2:1:0:nodes:1:I1:0:edges:1:I1:I2:}").unwrap();
    assert_eq!(g.adjacency_matrix.shape(), vec![2, 2]);
    assert_eq!(g.adjacency_matrix.entry(0, 1), 1);
    assert_eq!(g.adjacency_matrix.entry(1, 0), 1);
    assert_eq!(g.adjacency_matrix.entry(0, 0), 0);
    assert_eq!(1, g.nodes.len());
    assert_eq!(1, g.edges.len());
}
