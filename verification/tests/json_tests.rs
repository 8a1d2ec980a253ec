use serde_json::{Number, Value};
use tsg::json::{JsonValue, NodeJson};
use tsg::{Attribute, AttributeValue, Exons, Interval, NodeData, ReadData, ReadIdentity, Strand};

fn text(bytes: &[u8]) -> Value {
    Value::String(String::from_utf8(bytes.to_vec()).unwrap())
}

fn value(v: &JsonValue) -> Value {
    match v {
        JsonValue::Number(n) => Value::Number(Number::from(*n as u64)),
        JsonValue::Integer(n) => Value::Number(Number::from(*n)),
        JsonValue::Float(t) => {
            let f: f64 = String::from_utf8(t.clone()).unwrap().parse().unwrap();
            Value::Number(Number::from_f64(f).unwrap())
        }
        JsonValue::Text(t) => text(t),
        JsonValue::Texts(ts) => Value::Array(ts.iter().map(|t| text(t)).collect()),
    }
}

fn document(record: &NodeJson) -> Value {
    let mut data = serde_json::Map::new();
    for field in &record.data {
        data.insert(String::from_utf8(field.key.clone()).unwrap(), value(&field.value));
    }
    let mut root = serde_json::Map::new();
    root.insert("data".to_string(), Value::Object(data));
    Value::Object(root)
}

fn node() -> NodeData {
    NodeData {
        id: b"node1".to_vec(),
        reference_id: b"chr1".to_vec(),
        strand: Strand::Forward,
        exons: Exons {
            exons: vec![Interval { start: 100, end: 200 }, Interval { start: 300, end: 400 }],
        },
        reads: vec![
            ReadData { id: b"read1".to_vec(), identity: ReadIdentity::SO },
            ReadData { id: b"read2".to_vec(), identity: ReadIdentity::IN },
        ],
        attributes: vec![
            Attribute { tag: b"ptc".to_vec(), value: AttributeValue::Text(b"1".to_vec()) },
            Attribute { tag: b"ptf".to_vec(), value: AttributeValue::Text(b"0.0".to_vec()) },
        ],
        ..Default::default()
    }
}

#[test]
fn test_node_to_json() {
    let node = node();

    let json = document(&node.to_json(None));

    // Check basic structure
    assert!(json.get("data").is_some());
    let data = json["data"].as_object().unwrap();

    // Check fields
    assert_eq!(data["chrom"], "chr1");
    assert_eq!(data["ref_start"], 100);
    assert_eq!(data["ref_end"], 400);
    assert_eq!(data["strand"], "+");
    assert_eq!(data["id"], "node1");
    assert_eq!(data["ptc"], "1");
    assert_eq!(data["ptf"], "0.0");

    // Test with additional attributes
    let additional_attrs = vec![Attribute {
        tag: b"is_head".to_vec(),
        value: AttributeValue::Text(b"true".to_vec()),
    }];

    let json_with_attrs = document(&node.to_json(Some(&additional_attrs)));
    let data = json_with_attrs["data"].as_object().unwrap();
    assert_eq!(data["is_head"], "true");
}

#[test]
fn node_record_is_exact() {
    let mut node = node();
    node.attributes = vec![
        Attribute { tag: b"n".to_vec(), value: AttributeValue::Integer(-3) },
        Attribute { tag: b"id".to_vec(), value: AttributeValue::Text(b"renamed".to_vec()) },
    ];
    let extra = vec![
        Attribute { tag: b"n".to_vec(), value: AttributeValue::Float(b"2.5".to_vec()) },
        Attribute { tag: b"z".to_vec(), value: AttributeValue::Integer(9) },
    ];
    let record = node.to_json(Some(&extra));
    let keys: Vec<String> =
        record.data.iter().map(|f| String::from_utf8(f.key.clone()).unwrap()).collect();
    assert_eq!(
        keys,
        vec!["chrom", "ref_start", "ref_end", "strand", "exons", "reads", "id", "n", "z"]
    );
    assert_eq!(record.data[0].value, JsonValue::Text(b"chr1".to_vec()));
    assert_eq!(record.data[1].value, JsonValue::Number(100));
    assert_eq!(record.data[2].value, JsonValue::Number(400));
    assert_eq!(record.data[3].value, JsonValue::Text(b"+".to_vec()));
    assert_eq!(record.data[4].value, JsonValue::Text(b"[100-200,300-400]".to_vec()));
    assert_eq!(
        record.data[5].value,
        JsonValue::Texts(vec![b"read1:SO".to_vec(), b"read2:IN".to_vec()])
    );
    assert_eq!(record.data[6].value, JsonValue::Text(b"renamed".to_vec()));
    assert_eq!(record.data[7].value, JsonValue::Float(b"2.5".to_vec()));
    assert_eq!(record.data[8].value, JsonValue::Integer(9));
}
