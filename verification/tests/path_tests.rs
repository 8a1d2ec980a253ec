use tsg::{
    to_fa, to_gtf, Attribute, AttributeValue, GraphSection, NodeData, EdgeData, PathError, TSGPath,
    TSGraph,
};

fn node(id: &str, reads: &str) -> NodeData {
    let line = format!("N\t{}\tchr1:+:100-200\t{}\tAC", id, reads);
    NodeData::from_str(&line).unwrap()
}

fn edge(id: &str, source: &str, target: &str) -> EdgeData {
    let line = format!("E\t{}\t{}\t{}", id, source, target);
    EdgeData::from_str(&line).unwrap()
}

fn chain() -> GraphSection {
    let mut g = GraphSection::new(b"g1");
    g.add_node(node("n1", "r1:SO")).unwrap();
    g.add_node(node("n2", "r1:IN")).unwrap();
    g.add_node(node("n3", "r1:SI")).unwrap();
    g.add_edge(edge("e1", "n1", "n2")).unwrap();
    g.add_edge(edge("e2", "n2", "n3")).unwrap();
    g
}

fn text(bytes: Vec<u8>) -> String {
    String::from_utf8(bytes).unwrap()
}

#[test]
fn test_path_creation_and_accessors() {
    let path = TSGPath::new();
    assert!(path.is_empty());
    assert_eq!(path.nodes.len(), 0);
    assert_eq!(path.edges.len(), 0);
    assert!(path.graph().is_none());
}

#[test]
fn chain_has_one_path() {
    let g = chain();
    let paths = g.enumerate_paths();
    assert_eq!(paths.len(), 1);
    assert_eq!(paths[0].nodes, vec![0, 1, 2]);
    assert_eq!(paths[0].edges, vec![0, 1]);
    assert_eq!(paths[0].nodes.len(), 3);
    assert_eq!(paths[0].edges.len(), 2);
    assert_eq!(paths[0].validate(), Ok(()));
    assert!(paths[0].attributes.is_empty());
    assert_eq!(paths[0].get_id(), None);
    assert_eq!(paths[0].get_graph(), None);
}

#[test]
fn branching_has_two_distinct_paths() {
    let mut g = GraphSection::new(b"g1");
    g.add_node(node("n1", "r1:SO")).unwrap();
    g.add_node(node("n2", "r1:SI")).unwrap();
    g.add_node(node("n3", "r2:SI")).unwrap();
    g.add_edge(edge("e1", "n1", "n2")).unwrap();
    g.add_edge(edge("e2", "n1", "n3")).unwrap();
    let paths = g.enumerate_paths();
    assert_eq!(paths.len(), 2);
    assert_eq!(paths[0].nodes, vec![0, 1]);
    assert_eq!(paths[0].edges, vec![0]);
    assert_eq!(paths[1].nodes, vec![0, 2]);
    assert_eq!(paths[1].edges, vec![1]);
    assert_ne!(paths[0].nodes, paths[1].nodes);
}

#[test]
fn edges_are_followed_in_the_order_in_which_they_were_added() {
    let mut g = GraphSection::new(b"g1");
    g.add_node(node("n1", "r1:SO")).unwrap();
    g.add_node(node("n2", "r1:SI")).unwrap();
    g.add_node(node("n3", "r2:SI")).unwrap();
    g.add_edge(edge("e1", "n1", "n3")).unwrap();
    g.add_edge(edge("e2", "n1", "n2")).unwrap();
    let paths = g.enumerate_paths();
    assert_eq!(paths.len(), 2);
    assert_eq!(paths[0].nodes, vec![0, 2]);
    assert_eq!(paths[1].nodes, vec![0, 1]);
}

#[test]
fn cycle_ends_the_branch_and_keeps_the_other_paths() {
    let mut g = GraphSection::new(b"g1");
    g.add_node(node("n1", "r1:SO")).unwrap();
    g.add_node(node("n2", "r1:IN")).unwrap();
    g.add_node(node("n3", "r1:SI")).unwrap();
    g.add_node(node("n4", "r1:IN")).unwrap();
    g.add_edge(edge("e1", "n1", "n2")).unwrap();
    g.add_edge(edge("back", "n2", "n1")).unwrap();
    g.add_edge(edge("e2", "n2", "n3")).unwrap();
    g.add_edge(edge("e3", "n2", "n4")).unwrap();
    g.add_edge(edge("e4", "n4", "n2")).unwrap();
    g.add_edge(edge("self", "n3", "n3")).unwrap();
    let paths = g.enumerate_paths();
    assert_eq!(paths.len(), 1);
    assert_eq!(paths[0].nodes, vec![0, 1, 2]);
    assert_eq!(paths[0].edges, vec![0, 2]);
}

#[test]
fn a_cycle_through_a_sink_is_walked_once_in_each_direction() {
    let mut g = GraphSection::new(b"g1");
    g.add_node(node("a", "r1:SO,r2:SI")).unwrap();
    g.add_node(node("b", "r1:SI,r2:SO")).unwrap();
    g.add_edge(edge("ab", "a", "b")).unwrap();
    g.add_edge(edge("ba", "b", "a")).unwrap();
    let paths = g.enumerate_paths();
    let nodes: Vec<Vec<usize>> = paths.iter().map(|p| p.nodes.clone()).collect();
    assert_eq!(nodes, vec![vec![0], vec![0, 1], vec![1], vec![1, 0]]);
}

#[test]
fn dead_ends_are_given_up() {
    let mut g = GraphSection::new(b"g1");
    g.add_node(node("n1", "r1:SO")).unwrap();
    g.add_node(node("n2", "r1:IN")).unwrap();
    g.add_edge(edge("e1", "n1", "n2")).unwrap();
    assert!(g.enumerate_paths().is_empty());
    assert!(GraphSection::new(b"empty").enumerate_paths().is_empty());
}

#[test]
fn of_two_edges_between_two_nodes_the_first_is_taken() {
    let mut g = GraphSection::new(b"g1");
    g.add_node(node("n1", "r1:SO")).unwrap();
    g.add_node(node("n2", "r1:SI")).unwrap();
    g.add_edge(edge("e1", "n1", "n2")).unwrap();
    g.add_edge(edge("e2", "n1", "n2")).unwrap();
    let paths = g.enumerate_paths();
    assert_eq!(paths.len(), 1);
    assert_eq!(paths[0].nodes, vec![0, 1]);
    assert_eq!(paths[0].edges, vec![0]);
}

#[test]
fn a_path_goes_on_through_a_sink() {
    let mut g = GraphSection::new(b"g1");
    g.add_node(node("n1", "r1:SO")).unwrap();
    g.add_node(node("n2", "r1:SI")).unwrap();
    g.add_node(node("n3", "r2:SI")).unwrap();
    g.add_edge(edge("e1", "n1", "n2")).unwrap();
    g.add_edge(edge("e2", "n2", "n3")).unwrap();
    let nodes: Vec<Vec<usize>> = g.enumerate_paths().iter().map(|p| p.nodes.clone()).collect();
    assert_eq!(nodes, vec![vec![0, 1], vec![0, 1, 2]]);
}

#[test]
fn enumeration_is_the_same_each_time() {
    let g = chain();
    assert_eq!(g.enumerate_paths(), g.enumerate_paths());
}

#[test]
fn identity_is_sixteen_characters_and_depends_on_node_ids_alone() {
    let g = chain();
    let path = &g.enumerate_paths()[0];
    let id = path.id(&g).unwrap();
    assert_eq!(id.len(), 16);
    assert_eq!(text(id.clone()), "9d81150843d90da5");
    assert_eq!(path.id(&g).unwrap(), id);

    let mut other = GraphSection::new(b"g2");
    other.add_node(node("n3", "r1:SO")).unwrap();
    other.add_node(node("n1", "r1:SO")).unwrap();
    other.add_node(node("n2", "r1:SO")).unwrap();
    let mut same = TSGPath::new();
    same.add_node(1);
    same.add_node(2);
    same.add_node(0);
    assert_eq!(same.id(&other).unwrap(), id);

    let mut shorter = TSGPath::new();
    shorter.add_node(0);
    shorter.add_node(1);
    assert_eq!(text(shorter.id(&g).unwrap()), "adf513901bd636cb");
    assert_ne!(shorter.id(&g).unwrap(), id);
}

#[test]
fn identity_errors() {
    let g = chain();
    assert_eq!(TSGPath::new().id(&g), Err(PathError::EmptyPath));
    let mut path = TSGPath::new();
    path.add_node(0);
    path.add_node(9);
    path.add_node(12);
    assert_eq!(path.id(&g), Err(PathError::NodeNotFound { index: 9 }));
}

#[test]
fn digest_of_known_strings() {
    assert_eq!(text(tsg::hash::to_hash_identifier(b"")), "cbf29ce484222325");
    assert_eq!(text(tsg::hash::to_hash_identifier(b"a")), "af63dc4c8601ec8c");
    assert_eq!(text(tsg::hash::to_hash_identifier(b"n1")), "08b37b07b558d4c0");
}

#[test]
fn validate_checks_the_shape() {
    let mut path = TSGPath::new();
    assert_eq!(path.validate(), Ok(()));
    path.add_edge(0);
    assert_eq!(path.validate(), Err(PathError::StructuralInvariantViolation));
    path.add_node(0);
    assert_eq!(path.validate(), Err(PathError::StructuralInvariantViolation));
    path.add_node(1);
    assert_eq!(path.validate(), Ok(()));
    assert_eq!(path.node_count(), 2);
    assert_eq!(path.edge_count(), 1);
    assert!(!path.is_empty());
}

#[test]
fn path_name_and_section() {
    let mut path = TSGPath::new();
    path.set_id(b"transcript2");
    assert_eq!(path.get_id(), Some(&b"transcript2".to_vec()));
    path.set_graph(3);
    assert_eq!(path.get_graph(), Some(3));
    assert_eq!(path.graph(), Some(3));
    *path.graph_mut() = None;
    assert_eq!(path.graph(), None);
    *path.graph_mut() = Some(1);
    assert_eq!(path.get_graph(), Some(1));
}

#[test]
fn path_line() {
    let g = chain();
    let path = &g.enumerate_paths()[0];
    assert_eq!(
        text(path.to_bytes(&g).unwrap()),
        "P\t9d81150843d90da5\tn1+\te1+\tn2+\te2+\tn3+"
    );
    assert_eq!(TSGPath::new().to_bytes(&g), Err(PathError::EmptyPath));
    let mut odd = TSGPath::new();
    odd.add_node(0);
    odd.add_node(1);
    assert_eq!(odd.to_bytes(&g), Err(PathError::StructuralInvariantViolation));
    odd.add_edge(7);
    assert_eq!(odd.to_bytes(&g), Err(PathError::EdgeNotFound { index: 7 }));
    let mut lost = TSGPath::new();
    lost.add_node(5);
    assert_eq!(lost.to_bytes(&g), Err(PathError::NodeNotFound { index: 5 }));
}

#[test]
fn path_sequence() {
    let mut g = chain();
    let path = g.enumerate_paths().remove(0);
    assert_eq!(path.to_fa(&g), Ok(b"ACACAC".to_vec()));
    assert_eq!(TSGPath::new().to_fa(&g), Ok(Vec::new()));
    g.add_node(NodeData::from_str("N n4 chr1:+:1-2 r:IN").unwrap()).unwrap();
    let mut bare = TSGPath::new();
    bare.add_node(0);
    bare.add_node(3);
    assert_eq!(bare.to_fa(&g), Err(PathError::MissingSequence { index: 3 }));
    bare.add_node(8);
    assert_eq!(bare.to_fa(&g), Err(PathError::NodeNotFound { index: 8 }));
}

#[test]
fn path_annotation() {
    let mut g = GraphSection::new(b"g1");
    g.add_node(node("n1", "r1:SO")).unwrap();
    g.add_node(NodeData::from_str("N n2 chr2:-:5-9,20-30 r1:SI").unwrap()).unwrap();
    g.add_edge(edge("e1", "n1", "n2")).unwrap();
    let mut path = g.enumerate_paths().remove(0);
    path.attributes.push(Attribute { tag: b"tpm".to_vec(), value: AttributeValue::Integer(3) });
    assert_eq!(
        text(path.to_gtf(&g).unwrap()),
        ".\ttsg\ttranscript\t.\t.\t.\t.\t.\ttranscript_id \"adf513901bd636cb\";tpm \"3\";\n\
         chr1\ttsg\texon\t100\t200\t.\t+\t.\texon_id \"001\"; segment_id \"001\"; transcript_id \"adf513901bd636cb\"; \n\
         chr2\ttsg\texon\t5\t9\t.\t-\t.\texon_id \"001\"; segment_id \"002\"; transcript_id \"adf513901bd636cb\"; \n\
         chr2\ttsg\texon\t20\t30\t.\t-\t.\texon_id \"002\"; segment_id \"002\"; transcript_id \"adf513901bd636cb\"; "
    );
    assert_eq!(TSGPath::new().to_gtf(&g), Err(PathError::EmptyPath));
}

#[test]
fn collection_exports() {
    let text_in = "G\tg1\nN\tn1\tchr1:+:100-200\tr1:SO\tAC\nN\tn2\tchr1:+:300-400\tr1:SI\tGT\nE\te1\tn1\tn2\n\
                   G\tg2\nN\ta\tchr2:-:1-2\tr:SO,r:SI\tTTT\n";
    let graph = TSGraph::load(text_in.as_bytes()).unwrap();
    assert_eq!(
        text(to_fa(&graph).unwrap()),
        ">adf513901bd636cb\nACGT\n>af63dc4c8601ec8c\nTTT\n"
    );
    assert_eq!(
        text(to_gtf(&graph)),
        ".\ttsg\ttranscript\t.\t.\t.\t.\t.\ttranscript_id \"adf513901bd636cb\";\n\
         chr1\ttsg\texon\t100\t200\t.\t+\t.\texon_id \"001\"; segment_id \"001\"; transcript_id \"adf513901bd636cb\"; \n\
         chr1\ttsg\texon\t300\t400\t.\t+\t.\texon_id \"001\"; segment_id \"002\"; transcript_id \"adf513901bd636cb\"; \n\
         .\ttsg\ttranscript\t.\t.\t.\t.\t.\ttranscript_id \"af63dc4c8601ec8c\";\n\
         chr2\ttsg\texon\t1\t2\t.\t-\t.\texon_id \"001\"; segment_id \"001\"; transcript_id \"af63dc4c8601ec8c\"; \n"
    );
    let paths = graph.traverse_all_graphs();
    assert_eq!(paths.len(), 2);
    assert_eq!(paths[0].graph(), Some(0));
    assert_eq!(paths[0].nodes, vec![0, 1]);
    assert_eq!(paths[1].graph(), Some(1));
    assert_eq!(paths[1].nodes, vec![0]);
    assert!(paths[1].edges.is_empty());
}

#[test]
fn sequences_stop_at_the_first_path_without_one() {
    let text_in = "G g1\nN n1 chr1:+:100-200 r1:SO AC\nN n2 chr1:+:300-400 r1:SI\nE e1 n1 n2\n";
    let graph = TSGraph::load(text_in.as_bytes()).unwrap();
    assert_eq!(to_fa(&graph), Err(PathError::MissingSequence { index: 1 }));
}
