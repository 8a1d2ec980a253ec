use tsg::{
    Attribute, AttributeValue, EdgeData, Exons, Interval, NodeData, ReadData, ReadIdentity, Strand,
};

fn full_node() -> NodeData {
    NodeData {
        id: b"n1".to_vec(),
        reference_id: b"chr1".to_vec(),
        strand: Strand::Reverse,
        exons: Exons {
            exons: vec![Interval { start: 100, end: 200 }, Interval { start: 300, end: 400 }],
        },
        reads: vec![
            ReadData { id: b"read1".to_vec(), identity: ReadIdentity::SO },
            ReadData { id: b"read2".to_vec(), identity: ReadIdentity::IN },
        ],
        sequence: Some(b"ACGTACGT".to_vec()),
        attributes: vec![
            Attribute { tag: b"ptc".to_vec(), value: AttributeValue::Integer(-12) },
            Attribute { tag: b"ptf".to_vec(), value: AttributeValue::Float(b"-1.5e-3".to_vec()) },
            Attribute { tag: b"note".to_vec(), value: AttributeValue::Text(b"a:b".to_vec()) },
        ],
    }
}

#[test]
fn node_line_is_exact() {
    assert_eq!(
        String::from_utf8(full_node().to_bytes()).unwrap(),
        "N\tn1\tchr1:-:100-200,300-400\tread1:SO,read2:IN\tACGTACGT\tptc:i:-12\tptf:f:-1.5e-3\tnote:Z:a:b"
    );
}

#[test]
fn node_round_trip() {
    let node = full_node();
    assert_eq!(NodeData::from_bytes(&node.to_bytes()), Ok(node));
}

#[test]
fn node_round_trip_without_sequence() {
    let mut node = full_node();
    node.sequence = None;
    let line = node.to_bytes();
    assert_eq!(
        String::from_utf8(line.clone()).unwrap(),
        "N\tn1\tchr1:-:100-200,300-400\tread1:SO,read2:IN\t\tptc:i:-12\tptf:f:-1.5e-3\tnote:Z:a:b"
    );
    assert_eq!(NodeData::from_bytes(&line), Ok(node));
}

#[test]
fn node_round_trip_with_nothing_optional() {
    let mut node = full_node();
    node.sequence = None;
    node.attributes = Vec::new();
    let line = node.to_bytes();
    assert_eq!(
        String::from_utf8(line.clone()).unwrap(),
        "N\tn1\tchr1:-:100-200,300-400\tread1:SO,read2:IN\t"
    );
    assert_eq!(NodeData::from_bytes(&line), Ok(node));
}

#[test]
fn node_round_trip_at_the_limits_of_numbers() {
    let mut node = full_node();
    node.exons = Exons { exons: vec![Interval { start: 0, end: usize::MAX }] };
    node.attributes = vec![
        Attribute { tag: b"lo".to_vec(), value: AttributeValue::Integer(i64::MIN) },
        Attribute { tag: b"hi".to_vec(), value: AttributeValue::Integer(i64::MAX) },
    ];
    assert_eq!(NodeData::from_bytes(&node.to_bytes()), Ok(node));
}

#[test]
fn edge_round_trip() {
    let edge = EdgeData {
        id: b"e1".to_vec(),
        source: b"n1".to_vec(),
        target: b"n2".to_vec(),
        attributes: vec![Attribute { tag: b"w".to_vec(), value: AttributeValue::Integer(4) }],
    };
    let line = edge.to_bytes();
    assert_eq!(String::from_utf8(line.clone()).unwrap(), "E\te1\tn1\tn2\tw:i:4");
    assert_eq!(EdgeData::from_bytes(&line), Ok(edge));
}
