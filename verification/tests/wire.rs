use fatty::bwine::{Expecting, StreamingReader, Token, Value};
use fatty::wire::ReadError;

/// Reads `bytes` to the end of the value, or until a step fails; gives the
/// tokens, what is left of the input, and the failing step's result.
fn read_all(bytes: &[u8]) -> (Vec<Token>, usize, Option<Option<Result<usize, ReadError>>>) {
    let mut r = StreamingReader::new();
    let mut ast = Vec::new();
    let mut at = 0;
    while !r.is_done() {
        match r.try_read_once(&bytes[at..], &mut ast) {
            Some(Ok(n)) => at += n,
            other => return (ast, at, Some(other)),
        }
    }
    (ast, at, None)
}

#[test]
fn an_integer_is_one_token() {
    let mut r = StreamingReader::new();
    let mut ast = Vec::new();
    assert_eq!(r.read_once(&[0x05, 0x99], &mut ast).unwrap(), 1);
    assert!(matches!(ast.as_slice(), [Token::Int(5)]));
    assert!(r.is_done());
    // Nothing is read once the value is complete.
    assert_eq!(r.read_once(&[0x01], &mut ast).unwrap(), 0);
    assert_eq!(ast.len(), 1);
    let (ast, _, end) = read_all(&[0x38, 0x63]);
    assert!(end.is_none());
    assert!(matches!(ast.as_slice(), [Token::Int(-100)]));
    let (ast, _, _) = read_all(&[0x1b, 0xff, 0xff, 0xff, 0xff, 0xff, 0xff, 0xff, 0xff]);
    assert!(matches!(ast.as_slice(), [Token::Int(18446744073709551615)]));
}

#[test]
fn short_input_asks_for_more_and_changes_nothing() {
    let mut r = StreamingReader::new();
    let mut ast = Vec::new();
    assert!(matches!(r.read_once(&[0x19, 0x01], &mut ast), Err(ReadError::EndOfInput)));
    assert!(ast.is_empty());
    assert_eq!(r.stack, vec![Expecting::Something]);
    assert!(matches!(r.read_once(&[0x38], &mut ast), Err(ReadError::EndOfInput)));
    assert!(matches!(r.read_once(&[], &mut ast), Err(ReadError::EndOfInput)));
    assert_eq!(r.read_once(&[0x19, 0x01, 0x00], &mut ast).unwrap(), 3);
    assert!(matches!(ast.as_slice(), [Token::Int(256)]));
}

#[test]
fn scalars_of_major_type_seven() {
    let (ast, _, _) = read_all(&[0xf5]);
    assert!(matches!(ast.as_slice(), [Token::Bool(true)]));
    let (ast, _, _) = read_all(&[0xf4]);
    assert!(matches!(ast.as_slice(), [Token::Bool(false)]));
    let (ast, _, _) = read_all(&[0xf6]);
    assert!(matches!(ast.as_slice(), [Token::Null]));
    let (ast, _, _) = read_all(&[0xf7]);
    assert!(matches!(ast.as_slice(), [Token::Undefined]));
    let (ast, _, _) = read_all(&[0xe5]);
    assert!(matches!(ast.as_slice(), [Token::Simple(5)]));
    let (ast, _, _) = read_all(&[0xf8, 0x20]);
    assert!(matches!(ast.as_slice(), [Token::Simple(32)]));
}

#[test]
fn floats_become_the_bits_of_a_double() {
    let (ast, at, _) = read_all(&[0xfb, 0x3f, 0xf8, 0, 0, 0, 0, 0, 0]);
    assert_eq!(at, 9);
    assert!(matches!(ast.as_slice(), [Token::Float(0x3ff8000000000000)]));
    let (ast, at, _) = read_all(&[0xfa, 0x3f, 0xc0, 0, 0]);
    assert_eq!(at, 5);
    assert!(matches!(ast.as_slice(), [Token::Float(0x3ff8000000000000)]));
    // The smallest subnormal single, 2^-149.
    let (ast, _, _) = read_all(&[0xfa, 0, 0, 0, 1]);
    assert!(matches!(ast.as_slice(), [Token::Float(0x36a0000000000000)]));
    let (ast, _, _) = read_all(&[0xfa, 0x80, 0, 0, 0]);
    assert!(matches!(ast.as_slice(), [Token::Float(0x8000000000000000)]));
    let (ast, _, _) = read_all(&[0xfa, 0x7f, 0x80, 0, 0]);
    assert!(matches!(ast.as_slice(), [Token::Float(0x7ff0000000000000)]));
    let (ast, _, _) = read_all(&[0xfa, 0x7f, 0xc0, 0, 0]);
    assert!(matches!(ast.as_slice(), [Token::Float(0x7ff8000000000000)]));
    let (_, _, end) = read_all(&[0xf9, 0x3c, 0x00]);
    assert!(matches!(end, Some(Some(Err(ReadError::HalfFloat)))));
    let (_, _, end) = read_all(&[0xfb, 0x3f]);
    assert!(matches!(end, Some(Some(Err(ReadError::EndOfInput)))));
}

#[test]
fn an_array_is_read_item_by_item() {
    let bytes = [0x82, 0x01, 0x61, b'a'];
    let mut r = StreamingReader::new();
    let mut ast = Vec::new();
    assert_eq!(r.read_once(&bytes, &mut ast).unwrap(), 1);
    assert_eq!(r.stack, vec![Expecting::Array(0, Some(2))]);
    assert_eq!(r.read_once(&bytes[1..], &mut ast).unwrap(), 1);
    assert_eq!(r.stack, vec![Expecting::Array(0, Some(1))]);
    assert_eq!(r.read_once(&bytes[2..], &mut ast).unwrap(), 1);
    assert_eq!(r.stack, vec![Expecting::Array(0, Some(0)), Expecting::String(2, Some(1))]);
    assert_eq!(r.read_once(&bytes[3..], &mut ast).unwrap(), 1);
    assert_eq!(r.read_once(&bytes[4..], &mut ast).unwrap(), 0);
    assert!(r.is_done());
    match Token::collect(&ast) {
        Some((6, Value::Array(items))) => {
            assert!(matches!(items.as_slice(), [Value::Int(1), Value::Text(t)] if t == "a"));
        },
        other => panic!("unexpected {other:?}"),
    }
}

#[test]
fn indefinite_strings_come_in_chunks() {
    let (ast, at, end) = read_all(&[0x7f, 0x61, b'a', 0x62, b'b', b'c', 0xff]);
    assert!(end.is_none());
    assert_eq!(at, 7);
    match Token::collect(&ast) {
        Some((4, Value::Text(t))) => assert_eq!(t, "abc"),
        other => panic!("unexpected {other:?}"),
    }
    let (ast, _, end) = read_all(&[0x5f, 0x41, 1, 0x42, 2, 3, 0xff]);
    assert!(end.is_none());
    match Token::collect(&ast) {
        Some((_, Value::Bytes(b))) => assert_eq!(b, vec![1, 2, 3]),
        other => panic!("unexpected {other:?}"),
    }
    let (ast, _, end) = read_all(&[0x9f, 0x01, 0x02, 0xff]);
    assert!(end.is_none());
    assert!(matches!(Token::collect(&ast), Some((4, Value::Array(_)))));
    // A chunk of another type inside an indefinite text is refused.
    let (_, _, end) = read_all(&[0x7f, 0x01]);
    assert!(matches!(end, Some(Some(Err(ReadError::Decode(_))))));
}

#[test]
fn tables_paths_and_timestamps_are_tagged() {
    let table = [
        0xdb, 0, 0, 0, 1, 0xfa, 0x77, 0x20, 0x10, 0x81, 0x61, b'x', 0x81, 0x81, 0x01,
    ];
    let (ast, at, end) = read_all(&table);
    assert!(end.is_none());
    assert_eq!(at, table.len());
    match Token::collect(&ast) {
        Some((_, Value::Table { header, rows })) => {
            assert!(matches!(header.as_slice(), [Value::Text(t)] if t == "x"));
            assert_eq!(rows.len(), 1);
            assert!(matches!(rows[0].as_slice(), [Value::Int(1)]));
        },
        other => panic!("unexpected {other:?}"),
    }
    let path = [0xdb, 0, 0, 0, 1, 0xfa, 0x77, 0x20, 0x11, 0x43, b'/', b'a', b'b'];
    let (ast, _, end) = read_all(&path);
    assert!(end.is_none());
    match Token::collect(&ast) {
        Some((_, Value::Path(p))) => assert_eq!(p, b"/ab".to_vec()),
        other => panic!("unexpected {other:?}"),
    }
    let (ast, _, end) = read_all(&[0xc1, 0x1a, 0x00, 0x01, 0x00, 0x00]);
    assert!(end.is_none());
    assert!(matches!(Token::collect(&ast), Some((2, Value::Timestamp(65536)))));
    let (ast, _, _) = read_all(&[0xc2, 0x03]);
    assert!(matches!(Token::collect(&ast), Some((2, Value::Tag(2, _)))));
}

#[test]
fn the_reader_gives_up_where_it_cannot_go_on() {
    // A map is not supported past its head.
    let mut r = StreamingReader::new();
    let mut ast = Vec::new();
    assert_eq!(r.read_once(&[0xa1, 0x01, 0x02], &mut ast).unwrap(), 1);
    assert!(matches!(ast.as_slice(), [Token::Dict(Some(2))]));
    assert!(r.gives_up(&[0x01, 0x02], ast.len()));
    assert!(r.try_read_once(&[0x01, 0x02], &mut ast).is_none());
    assert_eq!(ast.len(), 1);
    // A break where a value should come.
    let (_, _, end) = read_all(&[0xff]);
    assert!(matches!(end, Some(None)));
    // A timestamp that is not an integer.
    let (_, _, end) = read_all(&[0xc1, 0xf5]);
    assert!(matches!(end, Some(None)));
    // A table header that opens something other than an array.
    let (_, _, end) = read_all(&[0xdb, 0, 0, 0, 1, 0xfa, 0x77, 0x20, 0x10, 0x61, b'x']);
    assert!(matches!(end, Some(None)));
    // A scalar where a table header should come asks for more input.
    let (_, _, end) = read_all(&[0xdb, 0, 0, 0, 1, 0xfa, 0x77, 0x20, 0x10, 0x01]);
    assert!(matches!(end, Some(Some(Err(ReadError::EndOfInput)))));
    // A definite text that is not UTF-8.
    let (_, _, end) = read_all(&[0x61, 0xff]);
    assert!(matches!(end, Some(None)));
}

#[test]
fn a_path_length_with_a_reserved_size_is_refused() {
    let (_, _, end) = read_all(&[0xdb, 0, 0, 0, 1, 0xfa, 0x77, 0x20, 0x11, 0x5c]);
    assert!(matches!(end, Some(Some(Err(ReadError::BadLength(9))))));
}

#[test]
fn every_proper_prefix_of_a_step_is_short() {
    // An integer with a two-byte argument, a single float, a simple value
    // and the head of an array, each read in one step.
    let items: [&[u8]; 4] = [
        &[0x19, 0x01, 0x00],
        &[0xfa, 0x3f, 0x80, 0x00, 0x00],
        &[0xf8, 0x20],
        &[0x98, 0x02],
    ];
    for item in items.iter() {
        for m in 0..item.len() {
            let mut r = StreamingReader::new();
            let mut ast = Vec::new();
            assert!(matches!(r.read_once(&item[..m], &mut ast), Err(ReadError::EndOfInput)));
            assert!(ast.is_empty());
            assert!(!r.is_done());
        }
        let mut r = StreamingReader::new();
        let mut ast = Vec::new();
        assert_eq!(r.read_once(item, &mut ast).unwrap(), item.len());
        assert_eq!(ast.len(), 1);
    }
}

#[test]
fn a_written_value_streams_back() {
    let value = Value::Array(vec![
        Value::Int(-100),
        Value::Text("hé".to_string()),
        Value::Bytes(vec![1, 2, 3]),
        Value::Path(b"/tmp".to_vec()),
        Value::Tag(2, Box::new(Value::Bool(true))),
        Value::Timestamp(65536),
        Value::Simple(30),
        Value::Float(0x3ff8000000000000),
        Value::Table {
            header: vec![Value::Text("a".to_string())],
            rows: vec![vec![Value::Int(1)], vec![Value::Null]],
        },
    ]);
    let mut bytes = Vec::new();
    value.write(&mut bytes);
    let written = bytes.len();
    bytes.extend_from_slice(&[0xf6, 0xf6]);
    let (ast, at, end) = read_all(&bytes);
    assert!(end.is_none());
    assert_eq!(at, written);
    let (n, back) = Token::collect(&ast).unwrap();
    assert_eq!(n, ast.len());
    assert_eq!(format!("{back:?}"), format!("{value:?}"));
}
