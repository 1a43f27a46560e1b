use fatty::bwine::{StreamingReader, Token, Value, Expecting};

fn text_value(v: &Value) -> Option<&str> {
    match v {
        Value::Text(s) => Some(s.as_str()),
        _ => None,
    }
}

#[test]
fn scalars_take_one_token() {
    let ast = vec![Token::Int(-3), Token::End];
    match Token::collect(&ast) {
        Some((1, Value::Int(-3))) => {},
        other => panic!("unexpected {other:?}"),
    }
    let ast = vec![Token::Float(0x3ff0000000000000)];
    assert!(matches!(Token::collect(&ast), Some((1, Value::Float(0x3ff0000000000000)))));
    assert!(Token::collect(&[]).is_none());
    assert!(Token::collect(&[Token::End]).is_none());
}

#[test]
fn text_is_joined_from_its_parts() {
    let ast = vec![
        Token::Text,
        Token::TextPart("hel".to_string()),
        Token::TextPart("lo".to_string()),
        Token::End,
        Token::Int(1),
    ];
    let (n, v) = Token::collect(&ast).unwrap();
    assert_eq!(n, 4);
    assert_eq!(text_value(&v), Some("hello"));
    // Without its end the text is not complete yet.
    assert!(Token::collect(&ast[..3]).is_none());
    // A byte part inside a text is malformed.
    let bad = vec![Token::Text, Token::BytesPart(vec![1]), Token::End];
    assert!(Token::collect(&bad).is_none());
}

#[test]
fn arrays_tags_tables_and_timestamps() {
    let ast = vec![
        Token::Array(Some(2)),
        Token::Int(1),
        Token::Tag(7),
        Token::Bool(true),
        Token::End,
    ];
    match Token::collect(&ast) {
        Some((5, Value::Array(items))) => {
            assert_eq!(items.len(), 2);
            assert!(matches!(items[0], Value::Int(1)));
            match &items[1] {
                Value::Tag(7, inner) => assert!(matches!(**inner, Value::Bool(true))),
                other => panic!("unexpected {other:?}"),
            }
        },
        other => panic!("unexpected {other:?}"),
    }
    let table = vec![
        Token::Table,
        Token::Array(None),
        Token::Text,
        Token::TextPart("size".to_string()),
        Token::End,
        Token::End,
        Token::Array(None),
        Token::Array(None),
        Token::Int(10),
        Token::End,
        Token::End,
    ];
    match Token::collect(&table) {
        Some((11, Value::Table { header, rows })) => {
            assert_eq!(header.len(), 1);
            assert_eq!(text_value(&header[0]), Some("size"));
            assert_eq!(rows.len(), 1);
            assert!(matches!(rows[0][0], Value::Int(10)));
        },
        other => panic!("unexpected {other:?}"),
    }
    let ts = vec![Token::Timestamp, Token::Int(1_700_000_000_000)];
    assert!(matches!(Token::collect(&ts), Some((2, Value::Timestamp(1_700_000_000_000)))));
    let bad_ts = vec![Token::Timestamp, Token::Bool(false)];
    assert!(Token::collect(&bad_ts).is_none());
    let path = vec![Token::Path, Token::BytesPart(b"/tm".to_vec()), Token::BytesPart(b"p".to_vec()), Token::End];
    match Token::collect(&path) {
        Some((4, Value::Path(p))) => assert_eq!(p, b"/tmp".to_vec()),
        other => panic!("unexpected {other:?}"),
    }
}

#[test]
fn reader_expects_one_value() {
    let mut sr = StreamingReader::new();
    assert_eq!(sr.stack, vec![Expecting::Something]);
    assert!(!sr.is_done());
    sr.stack.pop();
    assert!(sr.is_done());
}

#[test]
fn duplicates_are_equal_item_by_item() {
    let v = Value::Table {
        header: vec![Value::Text("a".to_string())],
        rows: vec![vec![Value::Bytes(vec![1, 2]), Value::Null]],
    };
    let d = v.duplicate();
    assert_eq!(format!("{v:?}"), format!("{d:?}"));
    assert!(Value::Text("ab".to_string()).is_text(&['a', 'b']));
    assert!(!Value::Text("ab".to_string()).is_text(&['a']));
    assert!(!Value::Int(1).is_text(&[]));
}

#[test]
fn guarded_collect_refuses_maps_and_tables_of_other_rows() {
    assert!(Token::try_collect(&[Token::Dict(Some(0)), Token::End]).is_none());
    assert!(Token::try_collect(&[Token::Array(None), Token::Dict(None), Token::End, Token::End]).is_none());
    let bad_table = [
        Token::Table,
        Token::Array(Some(0)),
        Token::End,
        Token::Array(Some(1)),
        Token::Int(1),
        Token::End,
    ];
    assert!(Token::try_collect(&bad_table).is_none());
    match Token::try_collect(&[Token::Array(Some(1)), Token::Int(4), Token::End]) {
        Some(Some((3, Value::Array(items)))) => assert!(matches!(items[0], Value::Int(4))),
        _ => panic!("an array of one integer"),
    }
    assert!(matches!(Token::try_collect(&[Token::Array(None), Token::Int(4)]), Some(None)));
}

#[test]
fn every_proper_prefix_of_a_value_is_incomplete() {
    let ast = vec![
        Token::Table,
        Token::Array(Some(1)),
        Token::Text,
        Token::TextPart("n".to_string()),
        Token::End,
        Token::End,
        Token::Array(None),
        Token::Array(Some(1)),
        Token::Int(2),
        Token::End,
        Token::End,
    ];
    let whole = Token::collect(&ast);
    assert!(matches!(whole, Some((11, Value::Table { .. }))));
    for k in 0..ast.len() {
        assert!(Token::collect(&ast[..k]).is_none(), "prefix of {k} tokens");
    }
}
