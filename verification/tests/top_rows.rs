use fatty::bwine::{Token, Value};
use fatty::top_rows::{max_step, try_max_step, MaxOpts, MaxPhase, MaxState, MaxStep};

fn table_tokens(values: &[i128]) -> Vec<Token> {
    let mut t = vec![
        Token::Table,
        Token::Array(Some(1)),
        Token::Text,
        Token::TextPart("n".to_string()),
        Token::End,
        Token::End,
        Token::Array(None),
    ];
    for v in values {
        t.push(Token::Array(Some(1)));
        t.push(Token::Int(*v));
        t.push(Token::End);
    }
    t
}

fn run(ast: &[Token], opts: &MaxOpts) -> (MaxState, Vec<String>) {
    let mut st = MaxState::new();
    let mut stops = Vec::new();
    for _ in 0..(ast.len() + 2) {
        match max_step(&mut st, ast, opts) {
            MaxStep::Stop(m) => {
                stops.push(m);
                break;
            },
            _ => {},
        }
    }
    (st, stops)
}

fn kept(st: &MaxState) -> Vec<i128> {
    st.rows
        .iter()
        .map(|r| match r[0] {
            Value::Int(i) => i,
            _ => panic!("not an int"),
        })
        .collect()
}

#[test]
fn keeps_the_first_rows_then_replaces_smaller_ones() {
    let ast = table_tokens(&[3, 1, 4, 1, 5]);
    let opts = MaxOpts { num: 2, field: Some("n".to_string()) };
    let (st, stops) = run(&ast, &opts);
    assert!(stops.is_empty());
    assert_eq!(st.phase, MaxPhase::Rows);
    assert_eq!(st.seen, 5);
    assert_eq!(st.field_pos, 0);
    // 4 replaces the first kept row smaller than it, then 5 does.
    assert_eq!(kept(&st), vec![5, 1]);
}

#[test]
fn stops_with_the_reason() {
    let ast = table_tokens(&[1]);
    let (_, stops) = run(&ast, &MaxOpts { num: 1, field: None });
    assert_eq!(stops, vec!["Found a table without any field specified.".to_string()]);
    let (_, stops) = run(&ast, &MaxOpts { num: 1, field: Some("m".to_string()) });
    assert_eq!(stops, vec!["Table doesn't have that field.".to_string()]);
    let (_, stops) = run(&[Token::Int(1)], &MaxOpts { num: 1, field: None });
    assert_eq!(stops, vec!["Expected table or array.".to_string()]);
    let (_, stops) = run(&[Token::Array(None)], &MaxOpts { num: 1, field: Some("n".to_string()) });
    assert_eq!(stops, vec!["Found an array, but a field was specified.".to_string()]);
    let mut mixed = table_tokens(&[1]);
    mixed.push(Token::Array(Some(1)));
    mixed.push(Token::Float(0x4000000000000000));
    mixed.push(Token::End);
    let (_, stops) = run(&mixed, &MaxOpts { num: 1, field: Some("n".to_string()) });
    assert_eq!(stops, vec!["Expected homogenous column of either Int or Float.".to_string()]);
}

#[test]
fn floats_compare_as_numbers() {
    let mut ast = table_tokens(&[]);
    for f in [1.5f64, -2.0, 3.25, f64::NAN, -0.0] {
        ast.push(Token::Array(Some(1)));
        ast.push(Token::Float(f.to_bits()));
        ast.push(Token::End);
    }
    let opts = MaxOpts { num: 1, field: Some("n".to_string()) };
    let (st, stops) = run(&ast, &opts);
    assert!(stops.is_empty());
    match st.rows[0][0] {
        Value::Float(b) => assert_eq!(f64::from_bits(b), 3.25),
        _ => panic!("not a float"),
    }
}

#[test]
fn guarded_steps_refuse_what_would_stop_the_program() {
    let opts = MaxOpts { num: 1, field: None };
    let mut st = MaxState::new();
    let ast = vec![Token::Array(None), Token::Int(1), Token::End];
    assert!(matches!(try_max_step(&mut st, &ast, &opts), Some(MaxStep::Waiting)));
    assert_eq!(st.phase, MaxPhase::Items);
    let next = st.next;
    assert!(try_max_step(&mut st, &ast, &opts).is_none());
    assert_eq!(st.next, next);

    let mut ast = table_tokens(&[3]);
    ast.push(Token::Array(Some(0)));
    ast.push(Token::End);
    let opts = MaxOpts { num: 1, field: Some("n".to_string()) };
    let mut st = MaxState::new();
    let mut refused = false;
    for _ in 0..20 {
        match try_max_step(&mut st, &ast, &opts) {
            None => {
                refused = true;
                break;
            }
            Some(MaxStep::Stop(_)) => break,
            Some(_) => {}
        }
    }
    assert!(refused);
    assert_eq!(st.seen, 1);
}
