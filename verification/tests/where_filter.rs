use fatty::bwine::{Token, Value};
use fatty::fatty_vm::{execute_step, Block, Instr, StackValue, VmAction, VmState};
use fatty::marish_syntax::Token as Word;
use fatty::marish_syntax::Operator;
use fatty::fatty_vm::Fault;
use fatty::where_filter::{row_verdict, start_item, start_row, Filter, FilterAction, FilterFault};

fn ints(v: &[Value]) -> Vec<i128> {
    v.iter()
        .map(|x| match x {
            Value::Int(i) => *i,
            other => panic!("expected an integer, found {other:?}"),
        })
        .collect()
}

#[test]
fn a_table_is_taken_header_first_then_row_by_row() {
    let mut ast = vec![
        Token::Table,
        Token::Array(Some(2)),
        Token::Int(1),
        Token::Int(2),
        Token::End,
        Token::Array(None),
        Token::Array(Some(2)),
        Token::Int(5),
        Token::Int(6),
        Token::End,
        Token::Array(Some(2)),
        Token::Int(7),
    ];
    let mut f = Filter::new();
    assert!(matches!(f.next(&ast[..0]), FilterAction::Wait));
    assert!(matches!(f.next(&ast), FilterAction::Wait));
    assert_eq!(f.ai, 1);
    match f.next(&ast) {
        FilterAction::Header(h) => assert_eq!(ints(&h), vec![1, 2]),
        other => panic!("unexpected {other:?}"),
    }
    assert_eq!(f.ai, 6);
    match f.next(&ast) {
        FilterAction::Row { header, row } => {
            assert_eq!(ints(&header), vec![1, 2]);
            assert_eq!(ints(&row), vec![5, 6]);
        },
        other => panic!("unexpected {other:?}"),
    }
    assert_eq!(f.ai, 10);
    assert!(matches!(f.next(&ast), FilterAction::Wait));
    ast.push(Token::Int(8));
    ast.push(Token::End);
    match f.next(&ast) {
        FilterAction::Row { row, .. } => assert_eq!(ints(&row), vec![7, 8]),
        other => panic!("unexpected {other:?}"),
    }
}

#[test]
fn other_inputs_stop_the_filter() {
    assert!(matches!(
        Filter::new().next(&[Token::Int(1)]),
        FilterAction::Stop(FilterFault::ExpectedTableOrArray)
    ));
    let ast = [Token::Table, Token::Array(Some(1)), Token::Dict(Some(0))];
    let mut f = Filter::new();
    assert!(matches!(f.next(&ast), FilterAction::Wait));
    assert!(matches!(f.next(&ast), FilterAction::Stop(FilterFault::Unsupported)));
}

#[test]
fn the_condition_sees_the_row_as_underscore() {
    let program = vec![Block {
        contents: vec![
            Instr::VarRef("_".to_string()),
            Instr::Load(Word::String("b".to_string())),
            Instr::GetColumn,
            Instr::Deref,
            Instr::Load(Word::Int(6)),
            Instr::Op(Operator::Eq),
            Instr::Return,
        ],
    }];
    let mut vm = VmState::new(program, 0);
    vm.scope.clear();
    let header = vec![Value::Text("a".to_string()), Value::Text("b".to_string())];
    start_row(&mut vm, 0, header, vec![Value::Int(5), Value::Int(6)]);
    loop {
        match execute_step(&mut vm, None) {
            VmAction::Continue => {},
            VmAction::Done { .. } => break,
            other => panic!("unexpected {other:?}"),
        }
    }
    assert_eq!(row_verdict(&mut vm), Ok(true));
    assert!(vm.stack.is_empty());
    assert!(matches!(vm.stack.last(), None::<&StackValue>));
}

#[test]
fn an_array_is_taken_item_by_item() {
    let mut ast = vec![Token::Array(None), Token::Int(4), Token::Text, Token::TextPart("x".to_string())];
    let mut f = Filter::new();
    assert!(matches!(f.next(&ast), FilterAction::Wait));
    assert!(matches!(f.next(&ast), FilterAction::Item(Value::Int(4))));
    assert_eq!(f.ai, 2);
    assert!(matches!(f.next(&ast), FilterAction::Wait));
    ast.push(Token::End);
    assert!(matches!(f.next(&ast), FilterAction::Item(Value::Text(t)) if t == "x"));
    ast.push(Token::End);
    assert!(matches!(f.next(&ast), FilterAction::Wait));
    assert_eq!(f.ai, 5);
}

#[test]
fn a_condition_that_is_not_a_boolean_is_an_error() {
    let program = vec![Block { contents: vec![Instr::VarRef("_".to_string()), Instr::Deref, Instr::Return] }];
    let mut vm = VmState::new(program, 0);
    vm.scope.clear();
    start_item(&mut vm, 0, Value::Int(1));
    loop {
        match execute_step(&mut vm, None) {
            VmAction::Continue => {},
            VmAction::Done { .. } => break,
            other => panic!("unexpected {other:?}"),
        }
    }
    assert_eq!(row_verdict(&mut vm), Err(Fault::NotBoolean));
}
