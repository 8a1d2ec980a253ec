use tsg::{
    parse_line, EdgeData, GraphError, GraphSection, LoadError, NodeData, ParseError, ParseReason,
    Record, TSGraph,
};

fn node(id: &str) -> NodeData {
    NodeData::from_str(&format!("N\t{}\tchr1:+:100-200\tr1:IN", id)).unwrap()
}

fn edge(id: &str, source: &str, target: &str) -> EdgeData {
    EdgeData::from_str(&format!("E\t{}\t{}\t{}", id, source, target)).unwrap()
}

#[test]
fn lines_are_told_apart_by_their_first_token() {
    assert_eq!(parse_line(b"", 1), Ok(Record::Ignorable));
    assert_eq!(parse_line(b"  \t \r", 1), Ok(Record::Ignorable));
    assert_eq!(parse_line(b"# a comment", 1), Ok(Record::Ignorable));
    assert_eq!(parse_line(b"   #indented", 1), Ok(Record::Ignorable));
    assert_eq!(parse_line(b"G\tg1", 1), Ok(Record::SectionHeader { id: b"g1".to_vec() }));
    assert_eq!(parse_line(b"N n1 chr1:+:100-200 r1:IN", 1), Ok(Record::Node(node("n1"))));
    assert_eq!(parse_line(b"E e1 n1 n2\r", 1), Ok(Record::Edge(edge("e1", "n1", "n2"))));
}

#[test]
fn short_node_line_is_refused_with_its_text_and_number() {
    let raw = b"N\tn1\tchr1:+:100-200";
    assert_eq!(
        parse_line(raw, 17),
        Err(ParseError { line: 17, text: raw.to_vec(), reason: ParseReason::MissingFields })
    );
}

#[test]
fn malformed_lines_are_refused() {
    let reason = |raw: &[u8]| parse_line(raw, 1).unwrap_err().reason;
    assert_eq!(reason(b"Q what"), ParseReason::UnknownRecord);
    assert_eq!(reason(b"NN n1 chr1:+:1-2 r:SO"), ParseReason::UnknownRecord);
    assert_eq!(reason(b"G"), ParseReason::MissingFields);
    assert_eq!(reason(b"G g1 more"), ParseReason::UnexpectedField);
    assert_eq!(reason(b"E e1 n1"), ParseReason::MissingFields);
    assert_eq!(reason(b"E e1 n1 n2 bad"), ParseReason::InvalidAttribute);
    assert_eq!(reason(b"N n1 chr1:?:1-2 r:SO"), ParseReason::InvalidStrand);
}

#[test]
fn nodes_and_edges_keep_their_index() {
    let mut g = GraphSection::new(b"g1");
    assert_eq!(g.id(), &b"g1".to_vec());
    assert_eq!(g.add_node(node("a")), Ok(0));
    assert_eq!(g.add_node(node("b")), Ok(1));
    assert_eq!(g.add_node(node("c")), Ok(2));
    assert_eq!(g.add_edge(edge("e1", "a", "c")), Ok(0));
    assert_eq!(g.add_edge(edge("e2", "c", "b")), Ok(1));
    assert_eq!(g.add_edge(edge("e3", "a", "b")), Ok(2));
    assert_eq!(g.node_count(), 3);
    assert_eq!(g.edge_count(), 3);
    assert_eq!(g.node_by_id(b"c"), Some(2));
    assert_eq!(g.node_by_id(b"z"), None);
    assert_eq!(g.node_by_idx(1), Some(&node("b")));
    assert_eq!(g.node_by_idx(3), None);
    assert_eq!(g.edge_by_id(b"e2"), Some(1));
    assert_eq!(g.edge_by_id(b"e9"), None);
    assert_eq!(g.edge_by_idx(2), Some(&edge("e3", "a", "b")));
    assert_eq!(g.edge_by_idx(3), None);
    assert_eq!(g.edge_source(1), 2);
    assert_eq!(g.edge_target(1), 1);
    assert_eq!(g.out_edges(0), &vec![0, 2]);
    assert_eq!(g.out_edges(1), &Vec::<usize>::new());
    assert_eq!(g.out_edges(2), &vec![1]);
    let ids: Vec<Vec<u8>> = g.nodes().iter().map(|n| n.id.clone()).collect();
    assert_eq!(ids, vec![b"a".to_vec(), b"b".to_vec(), b"c".to_vec()]);
    let ids: Vec<Vec<u8>> = g.edges().iter().map(|e| e.id.clone()).collect();
    assert_eq!(ids, vec![b"e1".to_vec(), b"e2".to_vec(), b"e3".to_vec()]);
}

#[test]
fn duplicate_node_and_unknown_endpoint_are_refused() {
    let mut g = GraphSection::new(b"g1");
    g.add_node(node("a")).unwrap();
    assert_eq!(g.add_node(node("a")), Err(GraphError::DuplicateNodeId { id: b"a".to_vec() }));
    assert_eq!(g.node_count(), 1);
    assert_eq!(
        g.add_edge(edge("e1", "a", "b")),
        Err(GraphError::UnknownEndpoint { id: b"b".to_vec() })
    );
    assert_eq!(
        g.add_edge(edge("e1", "x", "y")),
        Err(GraphError::UnknownEndpoint { id: b"x".to_vec() })
    );
    assert_eq!(g.edge_count(), 0);
    assert_eq!(g.add_edge(edge("loop", "a", "a")), Ok(0));
}

#[test]
fn sources_and_sinks() {
    let mut g = GraphSection::new(b"g1");
    g.add_node(NodeData::from_str("N a chr1:+:1-2 r1:SO,r2:IN").unwrap()).unwrap();
    g.add_node(NodeData::from_str("N b chr1:+:1-2 r1:IN,r2:SI").unwrap()).unwrap();
    assert!(g.node_is_source(0));
    assert!(!g.node_is_sink(0));
    assert!(!g.node_is_source(1));
    assert!(g.node_is_sink(1));
    assert!(!g.node_is_source(2));
    assert!(!g.node_is_sink(2));
}

#[test]
fn a_text_is_read_into_sections_in_the_order_of_their_headers() {
    let text = "# two graphs\nG\tg1\nN\ta\tchr1:+:1-2\tr:SO\nN\tb\tchr1:+:3-4\tr:SI\nE\te1\ta\tb\n\n\
                G\tg2\nN\ta\tchr2:-:1-2\tr:IN\n\
                G\tg1\nN\tc\tchr1:+:5-6\tr:SI\nE\te2\tb\tc";
    let graph = TSGraph::load(text.as_bytes()).unwrap();
    assert_eq!(graph.section_count(), 2);
    assert_eq!(graph.section_by_id(b"g1"), Some(0));
    assert_eq!(graph.section_by_id(b"g2"), Some(1));
    assert_eq!(graph.section_by_id(b"g3"), None);
    assert_eq!(graph.active_section(), Some(0));
    let g1 = graph.section(0).unwrap();
    assert_eq!(g1.id(), &b"g1".to_vec());
    assert_eq!(g1.node_count(), 3);
    assert_eq!(g1.edge_count(), 2);
    assert_eq!(graph.section(1).unwrap().node_count(), 1);
    assert!(graph.section(2).is_none());
    assert_eq!(graph.graphs().len(), 2);
    let ids: Vec<Vec<u8>> = graph.all_nodes().iter().map(|n| n.id.clone()).collect();
    assert_eq!(ids, vec![b"a".to_vec(), b"b".to_vec(), b"c".to_vec(), b"a".to_vec()]);
    let ids: Vec<Vec<u8>> = graph.all_edges().iter().map(|e| e.id.clone()).collect();
    assert_eq!(ids, vec![b"e1".to_vec(), b"e2".to_vec()]);
    let nodes: Vec<Vec<usize>> = g1.enumerate_paths().iter().map(|p| p.nodes.clone()).collect();
    assert_eq!(nodes, vec![vec![0, 1], vec![0, 1, 2]]);
}

#[test]
fn an_empty_text_gives_an_empty_collection() {
    let graph = TSGraph::load(b"").unwrap();
    assert_eq!(graph.section_count(), 0);
    assert_eq!(graph.active_section(), None);
    assert!(graph.all_nodes().is_empty());
    assert!(graph.traverse_all_graphs().is_empty());
}

#[test]
fn the_first_refused_line_ends_the_reading() {
    let error = |text: &str| TSGraph::load(text.as_bytes()).unwrap_err();
    assert_eq!(
        error("G g1\nN a chr1:+:1-2\nN broken"),
        LoadError::Parse(ParseError {
            line: 2,
            text: b"N a chr1:+:1-2".to_vec(),
            reason: ParseReason::MissingFields,
        })
    );
    assert_eq!(
        error("N a chr1:+:1-2 r:SO"),
        LoadError::Graph {
            line: 1,
            text: b"N a chr1:+:1-2 r:SO".to_vec(),
            error: GraphError::MissingSection,
        }
    );
    assert_eq!(
        error("\nE e1 a b"),
        LoadError::Graph { line: 2, text: b"E e1 a b".to_vec(), error: GraphError::MissingSection }
    );
    assert_eq!(
        error("G g1\nN a chr1:+:1-2 r:SO\nN a chr1:+:3-4 r:SI\n"),
        LoadError::Graph {
            line: 3,
            text: b"N a chr1:+:3-4 r:SI".to_vec(),
            error: GraphError::DuplicateNodeId { id: b"a".to_vec() },
        }
    );
    assert_eq!(
        error("G g1\nN a chr1:+:1-2 r:SO\nG g2\nN b chr1:+:1-2 r:SI\nE e1 a b"),
        LoadError::Graph {
            line: 5,
            text: b"E e1 a b".to_vec(),
            error: GraphError::UnknownEndpoint { id: b"a".to_vec() },
        }
    );
}

#[test]
fn records_can_be_added_one_by_one() {
    let mut graph = TSGraph::new();
    assert_eq!(graph.add_node(node("a")), Err(GraphError::MissingSection));
    assert_eq!(graph.add_edge(edge("e", "a", "a")), Err(GraphError::MissingSection));
    graph.open_section(b"g1");
    assert_eq!(graph.add_node(node("a")), Ok(0));
    assert_eq!(graph.add_record(Record::Ignorable), Ok(()));
    assert_eq!(graph.add_record(Record::Node(node("b"))), Ok(()));
    assert_eq!(graph.add_record(Record::Edge(edge("e1", "a", "b"))), Ok(()));
    assert_eq!(graph.add_record(Record::SectionHeader { id: b"g2".to_vec() }), Ok(()));
    assert_eq!(graph.active_section(), Some(1));
    assert_eq!(
        graph.add_record(Record::Edge(edge("e2", "a", "b"))),
        Err(GraphError::UnknownEndpoint { id: b"a".to_vec() })
    );
    graph.open_section(b"g1");
    assert_eq!(graph.active_section(), Some(0));
    assert_eq!(graph.add_edge(edge("e2", "b", "a")), Ok(1));
}
