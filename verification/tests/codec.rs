use fatty::bwine::{StreamingReader, Token, Value};
use fatty::codec::{stream_table, stream_table_no_headers, Decoding};
use fatty::wire::ReadError;

fn encoded(v: &Value) -> Vec<u8> {
    let mut out = Vec::new();
    v.write(&mut out);
    out
}

fn text(s: &str) -> Value {
    Value::Text(s.to_string())
}

#[test]
fn scalars_encode_in_their_shortest_form() {
    assert_eq!(encoded(&Value::Int(5)), vec![0x05]);
    assert_eq!(encoded(&Value::Int(24)), vec![0x18, 24]);
    assert_eq!(encoded(&Value::Int(256)), vec![0x19, 1, 0]);
    assert_eq!(encoded(&Value::Int(-1)), vec![0x20]);
    assert_eq!(encoded(&Value::Int(-100)), vec![0x38, 99]);
    assert_eq!(encoded(&Value::Int(1 << 40)), vec![0x1b, 0, 0, 1, 0, 0, 0, 0, 0]);
    assert_eq!(encoded(&Value::Bool(true)), vec![0xf5]);
    assert_eq!(encoded(&Value::Null), vec![0xf6]);
    assert_eq!(encoded(&Value::Undefined), vec![0xf7]);
    assert_eq!(encoded(&Value::Simple(3)), vec![0xe3]);
    assert_eq!(encoded(&Value::Simple(30)), vec![0xf8, 30]);
    assert_eq!(encoded(&Value::Float(0x3ff8000000000000)), vec![0xfb, 0x3f, 0xf8, 0, 0, 0, 0, 0, 0]);
    assert_eq!(encoded(&text("hé")), vec![0x63, b'h', 0xc3, 0xa9]);
    assert_eq!(encoded(&Value::Bytes(vec![1, 2])), vec![0x42, 1, 2]);
    assert_eq!(encoded(&Value::Timestamp(-1)), vec![0xc1, 0x20]);
}

#[test]
fn compound_values_encode_their_parts_in_order() {
    let v = Value::Array(vec![Value::Int(1), text("a")]);
    assert_eq!(encoded(&v), vec![0x82, 0x01, 0x61, b'a']);
    let v = Value::Dict(vec![(text("k"), Value::Null)]);
    assert_eq!(encoded(&v), vec![0xa1, 0x61, b'k', 0xf6]);
    let v = Value::Path(b"/x".to_vec());
    assert_eq!(encoded(&v), vec![0xdb, 0, 0, 0, 1, 0xfa, 0x77, 0x20, 0x11, 0x42, b'/', b'x']);
    let v = Value::Table { header: vec![text("x")], rows: vec![vec![Value::Int(1)]] };
    assert_eq!(
        encoded(&v),
        vec![0xdb, 0, 0, 0, 1, 0xfa, 0x77, 0x20, 0x10, 0x81, 0x61, b'x', 0x81, 0x81, 0x01]
    );
}

#[test]
fn decoding_gives_back_what_was_written() {
    let values = vec![
        Value::Int(-7),
        Value::Int(1 << 63),
        text("hello"),
        Value::Bytes(vec![0, 255]),
        Value::Array(vec![Value::Bool(false), Value::Array(vec![])]),
        Value::Dict(vec![(Value::Int(1), text("one")), (Value::Int(2), text("two"))]),
        Value::Path(b"/tmp/a".to_vec()),
        Value::Table {
            header: vec![text("name"), text("size")],
            rows: vec![vec![text("a"), Value::Int(10)], vec![text("b"), Value::Int(20)]],
        },
        Value::Tag(42, Box::new(Value::Float(0x4000000000000000))),
        Value::Simple(99),
    ];
    for v in values {
        let bytes = encoded(&v);
        match Value::read(&bytes, 0) {
            Ok((back, end)) => {
                assert_eq!(end, bytes.len());
                assert_eq!(format!("{back:?}"), format!("{v:?}"));
            },
            Err(e) => panic!("cannot read back {v:?}: {e:?}"),
        }
    }
}

#[test]
fn a_timestamp_reads_back_as_its_tag() {
    let bytes = encoded(&Value::Timestamp(1000));
    assert!(matches!(Value::read(&bytes, 0), Ok((Value::Tag(1, _), 4))));
}

#[test]
fn the_decoder_and_the_streaming_reader_agree() {
    let v = Value::Table {
        header: vec![text("x"), text("y")],
        rows: vec![vec![Value::Int(1), Value::Bytes(vec![7])], vec![Value::Null, text("z")]],
    };
    let bytes = encoded(&v);
    let mut r = StreamingReader::new();
    let mut ast = Vec::new();
    let mut at = 0;
    while !r.is_done() {
        at += r.read_once(&bytes[at..], &mut ast).unwrap();
    }
    assert_eq!(at, bytes.len());
    let (_, gathered) = Token::collect(&ast).unwrap();
    let (decoded, _) = Value::read(&bytes, 0).unwrap();
    assert_eq!(format!("{gathered:?}"), format!("{decoded:?}"));
}

#[test]
fn indefinite_items_decode_whole() {
    let bytes = [0x9f, 0x7f, 0x61, b'a', 0x61, b'b', 0xff, 0x5f, 0x41, 1, 0xff, 0xff];
    match Value::read(&bytes, 0) {
        Ok((Value::Array(items), 12)) => {
            assert!(matches!(&items[0], Value::Text(t) if t == "ab"));
            assert!(matches!(&items[1], Value::Bytes(b) if b == &vec![1]));
        },
        other => panic!("unexpected {other:?}"),
    }
    let bytes = [0xbf, 0x01, 0x02, 0xff];
    assert!(matches!(Value::read(&bytes, 0), Ok((Value::Dict(_), 4))));
}

#[test]
fn decoding_fails_or_gives_up_where_it_must() {
    assert!(matches!(Value::read(&[0x82, 0x01], 0), Err(ReadError::EndOfInput)));
    assert!(matches!(Value::read(&[0x62, b'a'], 0), Err(ReadError::EndOfInput)));
    assert!(matches!(Value::read(&[0x61, 0xff], 0), Err(ReadError::Decode(_))));
    assert!(matches!(Value::read(&[0xf9, 0, 0], 0), Err(ReadError::HalfFloat)));
    assert!(matches!(Value::decode(&[0xff], 0), Decoding::GivesUp));
    assert!(matches!(Value::decode(&[0x1c], 0), Decoding::GivesUp));
    // A table whose header is not an array.
    let bytes = [0xdb, 0, 0, 0, 1, 0xfa, 0x77, 0x20, 0x10, 0x01];
    assert!(matches!(Value::decode(&bytes, 0), Decoding::GivesUp));
    // A value after a prefix.
    assert!(matches!(Value::read(&[0xf6, 0x05], 1), Ok((Value::Int(5), 2))));
}

#[test]
fn a_streamed_table_reads_back_whole() {
    let mut out = Vec::new();
    let mut t = stream_table_no_headers(&mut out);
    assert!(t.width.is_none());
    t.headers(&mut out, &vec![text("a"), text("b")]);
    assert_eq!(t.width, Some(2));
    t.row(&mut out, &vec![Value::Int(1), Value::Int(2)]);
    t.row(&mut out, &vec![Value::Null, text("x")]);
    t.end(&mut out);
    match Value::read(&out, 0) {
        Ok((Value::Table { header, rows }, end)) => {
            assert_eq!(end, out.len());
            assert_eq!(header.len(), 2);
            assert_eq!(rows.len(), 2);
            assert!(matches!(rows[1].as_slice(), [Value::Null, Value::Text(x)] if x == "x"));
        },
        other => panic!("unexpected {other:?}"),
    }
    let mut out2 = Vec::new();
    let t2 = stream_table(&mut out2, &vec![text("a"), text("b")]);
    t2.end(&mut out2);
    assert_eq!(out2.last(), Some(&0xff));
    assert!(matches!(Value::read(&out2, 0), Ok((Value::Table { .. }, _))));
    // The streaming reader reads it too.
    let mut r = StreamingReader::new();
    let mut ast = Vec::new();
    let mut at = 0;
    while !r.is_done() {
        at += r.read_once(&out[at..], &mut ast).unwrap();
    }
    assert_eq!(at, out.len());
    assert!(matches!(Token::collect(&ast), Some((_, Value::Table { .. }))));
}
