use tsg::attribute::{find_tag, merge_attribute};
use tsg::float::is_float_bytes;
use tsg::number::{parse_i64_bytes, parse_usize_bytes, push_decimal, push_int, push_padded3};
use tsg::scan::{split_bytes, tokenize};
use tsg::{Attribute, AttributeValue, ParseReason, ReadData, ReadIdentity, Strand};

#[test]
fn attributes_are_typed() {
    assert_eq!(
        Attribute::from_bytes(b"ptc:i:-42"),
        Ok(Attribute { tag: b"ptc".to_vec(), value: AttributeValue::Integer(-42) })
    );
    assert_eq!(
        Attribute::from_bytes(b"ptf:f:+.5E+10"),
        Ok(Attribute { tag: b"ptf".to_vec(), value: AttributeValue::Float(b"+.5E+10".to_vec()) })
    );
    assert_eq!(
        Attribute::from_bytes(b"note:Z:"),
        Ok(Attribute { tag: b"note".to_vec(), value: AttributeValue::Text(Vec::new()) })
    );
    assert_eq!(
        Attribute::from_bytes(b"loc:Z:chr1:5"),
        Ok(Attribute { tag: b"loc".to_vec(), value: AttributeValue::Text(b"chr1:5".to_vec()) })
    );
    for bad in [&b"ptc"[..], b"ptc:i", b"ptc:ii:4", b":i:4", b"ptc:i:", b"ptc:i:4.5", b"ptc:f:abc", b"ptc:A:x", b"ptc:i:9223372036854775808"] {
        assert_eq!(Attribute::from_bytes(bad), Err(ParseReason::InvalidAttribute));
    }
    assert_eq!(
        Attribute::from_bytes(b"lo:i:-9223372036854775808").unwrap().value,
        AttributeValue::Integer(i64::MIN)
    );
    let a = Attribute { tag: b"ptc".to_vec(), value: AttributeValue::Integer(-42) };
    assert_eq!(a.to_bytes(), b"ptc:i:-42".to_vec());
    assert_eq!(a.value.kind(), b'i');
    assert_eq!(AttributeValue::Float(b"1".to_vec()).kind(), b'f');
    assert_eq!(AttributeValue::Text(b"1".to_vec()).kind(), b'Z');
}

#[test]
fn attributes_are_merged_by_tag() {
    let mut attrs = Vec::new();
    merge_attribute(&mut attrs, Attribute { tag: b"a".to_vec(), value: AttributeValue::Integer(1) });
    merge_attribute(&mut attrs, Attribute { tag: b"b".to_vec(), value: AttributeValue::Integer(2) });
    merge_attribute(&mut attrs, Attribute { tag: b"a".to_vec(), value: AttributeValue::Integer(3) });
    assert_eq!(attrs.len(), 2);
    assert_eq!(attrs[0].value, AttributeValue::Integer(3));
    assert_eq!(find_tag(&attrs, b"b"), 1);
    assert_eq!(find_tag(&attrs, b"c"), 2);
}

#[test]
fn float_literals() {
    for good in [&b"1"[..], b"-1", b"+1.", b".5", b"1.5", b"1e5", b"1.5E-10", b"0.0", b"-.5e+3"] {
        assert!(is_float_bytes(good));
    }
    for bad in [&b""[..], b".", b"-", b"e5", b"1e", b"1e+", b"1.5.2", b"1 ", b"--1", b"1.5x", b"nan", b"1e5.0"] {
        assert!(!is_float_bytes(bad));
    }
}

#[test]
fn numbers_are_read_and_written() {
    assert_eq!(parse_usize_bytes(b"0"), Some(0));
    assert_eq!(parse_usize_bytes(b"007"), Some(7));
    assert_eq!(parse_usize_bytes(b"+12"), Some(12));
    assert_eq!(parse_usize_bytes(usize::MAX.to_string().as_bytes()), Some(usize::MAX));
    assert_eq!(parse_usize_bytes(b"18446744073709551616"), None);
    assert_eq!(parse_usize_bytes(b""), None);
    assert_eq!(parse_usize_bytes(b"+"), None);
    assert_eq!(parse_usize_bytes(b"-1"), None);
    assert_eq!(parse_usize_bytes(b"1a"), None);
    assert_eq!(parse_i64_bytes(b"-0"), Some(0));
    assert_eq!(parse_i64_bytes(b"+5"), Some(5));
    assert_eq!(parse_i64_bytes(b"9223372036854775807"), Some(i64::MAX));
    assert_eq!(parse_i64_bytes(b"9223372036854775808"), None);
    assert_eq!(parse_i64_bytes(b"-9223372036854775809"), None);
    assert_eq!(parse_i64_bytes(b"-"), None);
    let mut out = Vec::new();
    push_decimal(&mut out, 0);
    out.push(b' ');
    push_decimal(&mut out, 1234567890);
    out.push(b' ');
    push_int(&mut out, -15);
    out.push(b' ');
    push_int(&mut out, i64::MIN);
    out.push(b' ');
    push_padded3(&mut out, 7);
    out.push(b' ');
    push_padded3(&mut out, 42);
    out.push(b' ');
    push_padded3(&mut out, 1234);
    assert_eq!(
        String::from_utf8(out).unwrap(),
        "0 1234567890 -15 -9223372036854775808 007 042 1234"
    );
}

#[test]
fn splitting_and_tokens() {
    assert_eq!(split_bytes(b"a,b,,c", b','), vec![&b"a"[..], b"b", b"", b"c"]);
    assert_eq!(split_bytes(b"", b','), vec![&b""[..]]);
    assert_eq!(split_bytes(b",", b','), vec![&b""[..], b""]);
    assert_eq!(tokenize(b"  a\tbc \r\n d  "), vec![&b"a"[..], b"bc", b"d"]);
    assert!(tokenize(b" \t ").is_empty());
}

#[test]
fn reads_and_strands() {
    assert_eq!(
        ReadData::from_str("read1:SO"),
        Ok(ReadData { id: b"read1".to_vec(), identity: ReadIdentity::SO })
    );
    assert_eq!(ReadData::from_str("read1:so"), Err(ParseReason::InvalidRead));
    assert_eq!(ReadData::from_str("a:b:SO"), Err(ParseReason::InvalidRead));
    assert_eq!(ReadData::from_str("r:IN").unwrap().to_bytes(), b"r:IN".to_vec());
    assert_eq!(ReadIdentity::from_str("SI"), Ok(ReadIdentity::SI));
    assert_eq!(ReadIdentity::from_str("S"), Err(ParseReason::InvalidRead));
    assert_eq!(ReadIdentity::SI.to_bytes(), b"SI".to_vec());
    assert_eq!(Strand::from_str("+"), Ok(Strand::Forward));
    assert_eq!(Strand::from_str("-"), Ok(Strand::Reverse));
    assert_eq!(Strand::from_str("++"), Err(ParseReason::InvalidStrand));
    assert_eq!(Strand::Forward.symbol(), b'+');
    assert_eq!(Strand::Reverse.symbol(), b'-');
    assert_eq!(Strand::default(), Strand::Forward);
}
