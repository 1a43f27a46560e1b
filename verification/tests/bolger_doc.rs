use fatty::bolger::Parser;
use fatty::bolger_doc::{is_float_text, parse, AttrValue, DocError, Node};

fn chars(s: &str) -> Vec<char> {
    s.chars().collect()
}

#[test]
fn float_syntax_agrees_with_std() {
    for s in [
        "1", "-1", "+1", "1.", ".5", "-.5e-3", "1e5", "1E+5", "1e", "e5", ".", "", "-", "inf",
        "-Infinity", "NaN", "nan1", "1.2.3", "12a", "0x10", " 1", "1_0", "infinit", "+.e1",
        "00.00", "9e99999",
    ] {
        assert_eq!(is_float_text(&chars(s)), s.parse::<f64>().is_ok(), "{s:?}");
    }
}

#[test]
fn reads_elements_with_attributes_and_children() {
    let nodes = parse("(row :node \"foo\" :dist 3 :cols [\"a\" \"b\"] (b \"x\") \"t\" 2.50)").unwrap();
    assert_eq!(nodes.len(), 1);
    match &nodes[0] {
        Node::Sexp { tag, attrs, children } => {
            assert_eq!(tag, "row");
            assert_eq!(attrs.len(), 3);
            assert_eq!(attrs[0].0, "node");
            assert!(matches!(&attrs[0].1, AttrValue::String(s) if s == "foo"));
            assert!(matches!(&attrs[1].1, AttrValue::Number(s) if s == "3"));
            match &attrs[2].1 {
                AttrValue::Array(items) => assert_eq!(items.len(), 2),
                other => panic!("unexpected {other:?}"),
            }
            assert_eq!(children.len(), 3);
            assert!(matches!(&children[0], Node::Sexp { tag, .. } if tag == "b"));
            assert!(matches!(&children[1], Node::Text(s) if s == "t"));
            assert!(matches!(&children[2], Node::Figure(s) if s == "2.50"));
        },
        other => panic!("unexpected {other:?}"),
    }
}

#[test]
fn reads_top_level_texts_and_numbers() {
    let nodes = parse("\"hi\" (b \"x\")\n-3.5").unwrap();
    assert_eq!(nodes.len(), 3);
    assert!(matches!(&nodes[0], Node::Text(s) if s == "hi"));
    assert!(matches!(&nodes[1], Node::Sexp { tag, .. } if tag == "b"));
    assert!(matches!(&nodes[2], Node::Number(s) if s == "-3.5"));
    // Free text runs up to the next bracket or quote, spaces included.
    assert!(matches!(parse("12 (b)"), Err(DocError::InvalidNumberText(ref t)) if t == "12 "));
}

#[test]
fn document_errors() {
    assert!(matches!(parse(")"), Err(DocError::UnexpectedClose)));
    assert!(matches!(&parse("x").unwrap()[..], [Node::Text(t)] if t == "x"));
    assert!(matches!(parse("(a"), Err(DocError::UnexpectedEof)));
    assert!(matches!(parse("(a %)"), Err(DocError::UnexpectedInElement('%'))));
    assert!(matches!(parse("(a :k)"), Err(DocError::InvalidAttr(Some(')')))));
    assert!(matches!(parse("(a :k"), Err(DocError::InvalidAttr(None))));
    assert!(matches!(parse("(a 1.2.3)"), Err(DocError::InvalidNumber)));
    assert!(matches!(parse("-x"), Err(DocError::InvalidNumberText(ref t)) if t == "-x"));
    assert!(matches!(parse("( )"), Err(DocError::Reader(ref m)) if m == "Expected identifier"));
    assert!(matches!(parse("\"open"), Err(DocError::Reader(ref m)) if m == "Unterminated string"));
    assert!(parse("").unwrap().is_empty());
}

#[test]
fn the_reader_reads_one_number() {
    let mut p = Parser::new("-12.5)");
    assert_eq!(p.read_number().unwrap(), "-12.5");
    assert_eq!(p.peek_char(), Some(')'));
    let mut p = Parser::new("-)");
    assert!(matches!(p.read_number(), Err(DocError::InvalidNumber)));
}

#[test]
fn test_number_dist_attr() {
    let src = r#"(row :dist 3)"#;
    let nodes = parse(src).unwrap();
    if let Node::Sexp { attrs, .. } = &nodes[0] {
        let dist = attrs.iter().find(|(k, _)| k == "dist").unwrap();
        // Numbers keep the text they were written with; it reads as 3.0.
        assert!(matches!(&dist.1, AttrValue::Number(t) if t.parse::<f64>() == Ok(3.0)));
    }
}

#[test]
fn error_messages() {
    assert_eq!(DocError::UnexpectedClose.message(), "Unexpected ')'");
    assert_eq!(DocError::InvalidNumberText("12 ".to_string()).message(), "Invalid number 12 ");
    assert_eq!(DocError::UnexpectedInElement('%').message(), "Unexpected character inside element '%'");
    assert_eq!(DocError::UnexpectedInElement('\n').message(), "Unexpected character inside element '\\n'");
    assert_eq!(DocError::UnexpectedEof.message(), "Unexpected EOF inside element");
    assert_eq!(DocError::InvalidAttr(None).message(), "Invalid attribute value None");
    assert_eq!(DocError::InvalidAttr(Some(')')).message(), "Invalid attribute value Some(')')");
    assert_eq!(DocError::InvalidNumber.message(), "Invalid number");
    assert_eq!(DocError::Reader("Expected identifier".to_string()).message(), "Expected identifier");
    assert_eq!(parse("(a").unwrap_err().message(), "Unexpected EOF inside element");
}

#[test]
fn test_bold_italic() {
    let src = r#"Hello (b "world") and (i "stuff")"#;
    let nodes = parse(src).unwrap();
    assert!(nodes.len() >= 3);
    // "Hello " is free text at index 0, <b> is at index 1
    let b = nodes.iter().find(|n| matches!(n, Node::Sexp { tag, .. } if tag == "b"));
    assert!(matches!(b.unwrap(), Node::Sexp { children, .. } if !children.is_empty()));
}

#[test]
fn test_nested() {
    let src = r#"(b (i "amazing"))"#;
    let nodes = parse(src).unwrap();
    assert_eq!(nodes.len(), 1);
    if let Node::Sexp { tag, children, .. } = &nodes[0] {
        assert_eq!(tag, "b");
        if let Some(Node::Sexp { tag: inner_tag, .. }) = children.first() {
            assert_eq!(inner_tag, "i");
        } else {
            panic!("inner should be element");
        }
    } else {
        panic!("expected element with inner");
    }
}

#[test]
fn test_void_element_no_inner() {
    let src = r#"(row :node "foo" :pred "bar" :dist "baz")"#;
    let nodes = parse(src).unwrap();
    assert_eq!(nodes.len(), 1);
    if let Node::Sexp { tag, children, attrs } = &nodes[0] {
        assert_eq!(tag, "row");
        assert!(children.is_empty(), "row should have no inner text");
        assert_eq!(attrs.len(), 3);
    } else {
        panic!("expected element");
    }
}

#[test]
fn test_table() {
    let src = r#"(table :columns ["node" "pred" "dist"] :id "mytable"
            (row :node "foo" :pred "bar" :dist "dist")
            (row :node "bar" :pred "baz" :dist 3))"#;
    let nodes = parse(src).unwrap();
    assert_eq!(nodes.len(), 1);
    if let Node::Sexp { tag, children, attrs } = &nodes[0] {
        assert_eq!(tag, "table");
        assert!(children.iter().all(|c| !matches!(c, Node::Text(_))));
        assert_eq!(children.len(), 2);
        // :columns attr is an array
        let col_attr = attrs.iter().find(|(k, _)| k == "columns").unwrap();
        assert!(matches!(&col_attr.1, AttrValue::Array(_)));
    } else {
        panic!("expected table element");
    }
}

#[test]
fn test_full_example() {
    let src = r#"Hey, it's me again, here's an (b "example") of bold text, and here's an (i "example") of italic text. (b (i "amazing")) huh? Here's a table, even:

(table :columns ["node" "pred" "dist"] :id "mytable"
    (row :node "foo" :pred "bar" :dist "dist")
    (row :node "bar" :pred "baz" :dist 3))"#;
    let nodes = parse(src).unwrap();
    // Should have: free text, b, free text, i, free text, b(i), free text, table
    // At minimum these element nodes:
    let elements: Vec<_> = nodes.iter().filter(|n| matches!(n, Node::Sexp { .. })).collect();
    assert!(elements.len() >= 4, "Expected at least 4 elements, got {}", elements.len());
}
