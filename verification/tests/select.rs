use fatty::bwine::Value;
use fatty::bwine::Token;
use fatty::select::{nav, parse_expr, select_from_row, select_step, Expr, Seg, SelectPhase, SelectState, SelectStep};

fn text(s: &str) -> Value {
    Value::Text(s.to_string())
}

#[test]
fn reads_paths() {
    let e = parse_expr(".name.0.x1").unwrap();
    assert_eq!(e.raw, ".name.0.x1");
    assert_eq!(e.segments.len(), 3);
    assert!(matches!(&e.segments[0], Seg::Field(f) if f == "name"));
    assert!(matches!(e.segments[1], Seg::Index(0)));
    assert!(matches!(&e.segments[2], Seg::Field(f) if f == "x1"));
    assert!(matches!(parse_expr(".+3").unwrap().segments[0], Seg::Index(3)));
}

#[test]
fn path_errors() {
    assert_eq!(parse_expr("name").unwrap_err(), "expr `name` must be prefixed with `.`");
    assert_eq!(parse_expr("").unwrap_err(), "expr `` must be prefixed with `.`");
    assert_eq!(parse_expr(".").unwrap_err(), "expr is empty");
    assert_eq!(parse_expr(".a..b").unwrap_err(), "expr `.a..b` has empty path segment");
    assert_eq!(parse_expr(".a.").unwrap_err(), "expr `.a.` has empty path segment");
}

#[test]
fn follows_paths_into_values() {
    let v = Value::Tag(
        1,
        Box::new(Value::Array(vec![Value::Int(5), Value::Array(vec![text("deep")])])),
    );
    let r = nav(&v, &[Seg::Index(1), Seg::Index(0)]).unwrap();
    assert!(matches!(r, Value::Text(ref s) if s == "deep"));
    assert!(nav(&v, &[Seg::Index(2)]).is_none());
    assert!(nav(&v, &[Seg::Field("x".to_string())]).is_none());
    assert!(matches!(nav(&Value::Int(3), &[]), Some(Value::Int(3))));
    let t = Value::Table { header: vec![text("a")], rows: vec![vec![Value::Int(9)]] };
    assert!(matches!(nav(&t, &[Seg::Index(0), Seg::Index(0)]), Some(Value::Int(9))));
}

#[test]
fn selects_from_rows() {
    let header = vec![text("name"), text("size")];
    let row = vec![text("f"), Value::Int(12)];
    let by_name = parse_expr(".size").unwrap();
    assert!(matches!(select_from_row(&header, &row, &by_name), Value::Int(12)));
    let by_pos = parse_expr(".0").unwrap();
    assert!(matches!(select_from_row(&header, &row, &by_pos), Value::Text(ref s) if s == "f"));
    let missing = parse_expr(".nope").unwrap();
    assert!(matches!(select_from_row(&header, &row, &missing), Value::Null));
    let too_deep = parse_expr(".size.0").unwrap();
    assert!(matches!(select_from_row(&header, &row, &too_deep), Value::Null));
}

fn select_run(mut ast: Vec<Token>, exprs: &[Expr]) -> (Vec<Vec<Value>>, SelectState, bool) {
    let mut st = SelectState::new();
    let mut rows = Vec::new();
    for _ in 0..100 {
        match select_step(&mut st, &ast, exprs) {
            SelectStep::Row { values, consumed } => {
                ast.drain(0..consumed);
                rows.push(values);
            }
            SelectStep::Moved => {}
            SelectStep::Finished => return (rows, st, true),
            _ => return (rows, st, false),
        }
    }
    (rows, st, false)
}

#[test]
fn select_steps_through_a_table() {
    let t = |s: &str| vec![Token::Text, Token::TextPart(s.to_string()), Token::End];
    let mut ast = vec![Token::Table, Token::Array(Some(2))];
    ast.extend(t("name"));
    ast.extend(t("size"));
    ast.push(Token::End);
    ast.push(Token::Array(None));
    for (n, s) in [("a", 1), ("b", 22)] {
        ast.push(Token::Array(Some(2)));
        ast.extend(t(n));
        ast.push(Token::Int(s));
        ast.push(Token::End);
    }
    ast.push(Token::End);
    let exprs = vec![parse_expr(".size").unwrap(), parse_expr(".0").unwrap()];
    let (rows, st, finished) = select_run(ast, &exprs);
    assert!(finished);
    assert_eq!(st.phase, SelectPhase::Fin);
    assert_eq!(rows.len(), 2);
    assert!(matches!(rows[0][0], Value::Int(1)));
    assert!(matches!(&rows[0][1], Value::Text(s) if s == "a"));
    assert!(matches!(rows[1][0], Value::Int(22)));
}

#[test]
fn select_steps_through_an_array_and_stops_on_other_input() {
    let ast = vec![
        Token::Array(None),
        Token::Array(Some(2)),
        Token::Int(7),
        Token::Int(8),
        Token::End,
        Token::End,
    ];
    let exprs = vec![parse_expr(".1").unwrap(), parse_expr(".5").unwrap()];
    let (rows, _, finished) = select_run(ast, &exprs);
    assert!(finished);
    assert_eq!(rows.len(), 1);
    assert!(matches!(rows[0][0], Value::Int(8)));
    assert!(matches!(rows[0][1], Value::Null));

    let mut st = SelectState::new();
    assert!(matches!(select_step(&mut st, &[Token::Int(1)], &exprs), SelectStep::Unexpected { at: 0 }));
    let mut st = SelectState::new();
    assert!(matches!(select_step(&mut st, &[], &exprs), SelectStep::Waiting));
}
