use tsg::{Attribute, AttributeValue, Exons, Interval, NodeData, ParseReason, ReadIdentity, Strand};

fn text(bytes: &[u8]) -> String {
    String::from_utf8(bytes.to_vec()).unwrap()
}

fn two_exon_node() -> NodeData {
    NodeData {
        id: b"node1".to_vec(),
        reference_id: b"chr1".to_vec(),
        exons: Exons {
            exons: vec![Interval { start: 100, end: 200 }, Interval { start: 300, end: 400 }],
        },
        ..Default::default()
    }
}

#[test]
fn test_node_from_str() {
    let node1 = NodeData::from_str("N\tn1\tchr1:+:1000-2000\tread1:SO").unwrap();
    assert_eq!(node1.id, b"n1".to_vec());
}

#[test]
fn test_exons_introns() {
    let exons = Exons::from_str("100-200,300-400,500-600").unwrap();
    let introns = exons.introns();
    assert_eq!(introns.len(), 2);
    assert_eq!(introns[0].start, 201);
    assert_eq!(introns[0].end, 300);
    assert_eq!(introns[1].start, 401);
    assert_eq!(introns[1].end, 500);
}

#[test]
fn test_exons_len() {
    let exons = Exons::from_str("100-200,300-400,500-600").unwrap();
    assert_eq!(exons.len(), 3);
}

#[test]
fn test_exons_span() {
    let exons = Exons::from_str("100-200,300-400,500-600").unwrap();
    // (200-100) + (400-300) + (600-500) = 100 + 100 + 100 = 300
    assert_eq!(exons.span(), 300);
}

#[test]
fn test_exons_first_last() {
    let exons = Exons::from_str("100-200,300-400,500-600").unwrap();
    assert_eq!(exons.first_exon().start, 100);
    assert_eq!(exons.first_exon().end, 200);
    assert_eq!(exons.last_exon().start, 500);
    assert_eq!(exons.last_exon().end, 600);
}

#[test]
fn test_node_reference_start_end() {
    let node = two_exon_node();
    assert_eq!(node.reference_start(), 100);
    assert_eq!(node.reference_end(), 400);
}

#[test]
fn test_node_to_gtf() {
    let mut node = two_exon_node();
    node.strand = Strand::Forward;
    node.attributes = vec![Attribute {
        tag: b"segment_id".to_vec(),
        value: AttributeValue::Text(b"001".to_vec()),
    }];

    let gtf = node.to_gtf(None);
    let gtf_str = text(&gtf);
    let lines: Vec<&str> = gtf_str.split('\n').collect();

    assert_eq!(lines.len(), 2);
    assert!(lines[0].starts_with("chr1\ttsg\texon\t100\t200\t.\t+\t.\texon_id \"001\""));
    assert!(lines[0].contains("segment_id \"001\""));
    assert!(lines[1].starts_with("chr1\ttsg\texon\t300\t400\t.\t+\t.\texon_id \"002\""));

    let additional_attrs = vec![Attribute {
        tag: b"transcript_id".to_vec(),
        value: AttributeValue::Text(b"1".to_vec()),
    }];

    let gtf_with_attrs = node.to_gtf(Some(&additional_attrs));
    let gtf_str = text(&gtf_with_attrs);
    let lines: Vec<&str> = gtf_str.split('\n').collect();

    assert!(lines[0].contains("transcript_id \"1\""));
    assert!(lines[1].contains("transcript_id \"1\""));
}

#[test]
fn node_gtf_is_exact() {
    let mut node = two_exon_node();
    node.strand = Strand::Reverse;
    node.attributes = vec![Attribute {
        tag: b"ptc".to_vec(),
        value: AttributeValue::Integer(-7),
    }];
    let extra = vec![
        Attribute { tag: b"a".to_vec(), value: AttributeValue::Text(b"x".to_vec()) },
        Attribute { tag: b"b".to_vec(), value: AttributeValue::Float(b"1.5".to_vec()) },
    ];
    let gtf = text(&node.to_gtf(Some(&extra)));
    assert_eq!(
        gtf,
        "chr1\ttsg\texon\t100\t200\t.\t-\t.\texon_id \"001\"; ptc \"-7\"; b \"1.5\"; a \"x\"; \n\
         chr1\ttsg\texon\t300\t400\t.\t-\t.\texon_id \"002\"; ptc \"-7\"; b \"1.5\"; a \"x\"; "
    );
}

#[test]
fn node_without_exons_has_empty_gtf() {
    let node = NodeData::default();
    assert_eq!(node.to_gtf(None), Vec::<u8>::new());
}

#[test]
fn node_line_fields_are_read() {
    let node =
        NodeData::from_str("N n7 chrX:-:10-20,30-45 r1:SO,r2:IN,r3:SI ACGT ptc:i:3 ptf:f:0.5 gene:Z:abc")
            .unwrap();
    assert_eq!(node.id, b"n7".to_vec());
    assert_eq!(node.reference_id, b"chrX".to_vec());
    assert_eq!(node.strand, Strand::Reverse);
    assert_eq!(
        node.exons.exons,
        vec![Interval { start: 10, end: 20 }, Interval { start: 30, end: 45 }]
    );
    assert_eq!(node.reads.len(), 3);
    assert_eq!(node.reads[0].id, b"r1".to_vec());
    assert_eq!(node.reads[0].identity, ReadIdentity::SO);
    assert_eq!(node.reads[1].identity, ReadIdentity::IN);
    assert_eq!(node.reads[2].identity, ReadIdentity::SI);
    assert_eq!(node.sequence, Some(b"ACGT".to_vec()));
    assert_eq!(
        node.attributes,
        vec![
            Attribute { tag: b"ptc".to_vec(), value: AttributeValue::Integer(3) },
            Attribute { tag: b"ptf".to_vec(), value: AttributeValue::Float(b"0.5".to_vec()) },
            Attribute { tag: b"gene".to_vec(), value: AttributeValue::Text(b"abc".to_vec()) },
        ]
    );
    assert!(node.is_source());
    assert!(node.is_sink());
}

#[test]
fn node_line_without_sequence_takes_attributes_from_fifth_field() {
    let node = NodeData::from_str("N\tn1\tchr1:+:1-2\tr:IN\tk:Z:v").unwrap();
    assert_eq!(node.sequence, None);
    assert_eq!(
        node.attributes,
        vec![Attribute { tag: b"k".to_vec(), value: AttributeValue::Text(b"v".to_vec()) }]
    );
    assert!(!node.is_source());
    assert!(!node.is_sink());
}

#[test]
fn later_attribute_with_same_tag_takes_the_place_of_the_earlier() {
    let node = NodeData::from_str("N n1 chr1:+:1-2 r:IN a:i:1 b:i:2 a:i:3").unwrap();
    assert_eq!(
        node.attributes,
        vec![
            Attribute { tag: b"a".to_vec(), value: AttributeValue::Integer(3) },
            Attribute { tag: b"b".to_vec(), value: AttributeValue::Integer(2) },
        ]
    );
}

#[test]
fn node_line_errors() {
    assert_eq!(NodeData::from_str("N n1 chr1:+:1-2"), Err(ParseReason::MissingFields));
    assert_eq!(NodeData::from_str("X n1 chr1:+:1-2 r:SO"), Err(ParseReason::UnknownRecord));
    assert_eq!(NodeData::from_str(""), Err(ParseReason::UnknownRecord));
    assert_eq!(NodeData::from_str("N n1 chr1:+ r:SO"), Err(ParseReason::InvalidLocation));
    assert_eq!(NodeData::from_str("N n1 a:b:+:1-2 r:SO"), Err(ParseReason::InvalidLocation));
    assert_eq!(NodeData::from_str("N n1 chr1:*:1-2 r:SO"), Err(ParseReason::InvalidStrand));
    assert_eq!(NodeData::from_str("N n1 chr1:+:1-x r:SO"), Err(ParseReason::InvalidInterval));
    assert_eq!(NodeData::from_str("N n1 chr1:+:1-2-3 r:SO"), Err(ParseReason::InvalidInterval));
    assert_eq!(NodeData::from_str("N n1 chr1:+:5-2 r:SO"), Err(ParseReason::UnorderedExons));
    assert_eq!(NodeData::from_str("N n1 chr1:+:1-5,5-9 r:SO"), Err(ParseReason::UnorderedExons));
    assert_eq!(NodeData::from_str("N n1 chr1:+:1-2 r:XX"), Err(ParseReason::InvalidRead));
    assert_eq!(NodeData::from_str("N n1 chr1:+:1-2 r"), Err(ParseReason::InvalidRead));
    assert_eq!(NodeData::from_str("N n1 chr1:+:1-2 r:SO ACGT extra"), Err(ParseReason::InvalidAttribute));
    assert_eq!(NodeData::from_str("N n1 chr1:+:1-2 r:SO a:i:x"), Err(ParseReason::InvalidAttribute));
    assert_eq!(NodeData::from_str("N n1 chr1:+:1-2 r:SO a:f:1e"), Err(ParseReason::InvalidAttribute));
    assert_eq!(NodeData::from_str("N n1 chr1:+:1-2 r:SO a:q:1"), Err(ParseReason::InvalidAttribute));
    assert_eq!(NodeData::from_str("N n1 chr1:+:1-2 r:SO :i:1"), Err(ParseReason::InvalidAttribute));
}

#[test]
fn exons_text_and_order() {
    let exons = Exons::from_str("100-200,300-400").unwrap();
    assert_eq!(exons.to_bytes(), b"100-200,300-400".to_vec());
    assert!(exons.is_ordered());
    assert!(!exons.is_empty());
    assert!(Exons::default().is_empty());
    assert!(Exons::default().is_ordered());
    assert_eq!(Exons::default().introns(), Vec::<Interval>::new());
    assert_eq!(Exons::default().span(), 0);
    assert!(!Exons { exons: vec![Interval { start: 2, end: 1 }] }.is_ordered());
    assert_eq!(Exons::from_str("+7-+9").unwrap().exons, vec![Interval { start: 7, end: 9 }]);
    assert_eq!(Exons::from_str("7-9,8-10"), Err(ParseReason::UnorderedExons));
    assert_eq!(Exons::from_str(""), Err(ParseReason::InvalidInterval));
    assert_eq!(Exons::from_str("1-2,"), Err(ParseReason::InvalidInterval));
    assert_eq!(
        Exons::from_str("1-99999999999999999999999999"),
        Err(ParseReason::InvalidInterval)
    );
}

#[test]
fn interval_span_and_text() {
    let iv = Interval::from_str("100-250").unwrap();
    assert_eq!(iv, Interval { start: 100, end: 250 });
    assert_eq!(iv.span(), 150);
    assert_eq!(Interval { start: 5, end: 5 }.span(), 0);
    let mut out = Vec::new();
    iv.render_into(&mut out);
    assert_eq!(out, b"100-250".to_vec());
    assert_eq!(Interval::from_str("100"), Err(ParseReason::InvalidInterval));
    assert_eq!(Interval::from_str("-100"), Err(ParseReason::InvalidInterval));
}
