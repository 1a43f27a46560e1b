use fatty::bwine::Value;
use fatty::exit_status::ExitReason;
use fatty::fatty_vm::{
    execute_step, Block, Command2, Fault, Field, Instr, StackValue, VmAction, VmEvent, VmState,
};
use fatty::marish_syntax::{Operator, Token};

fn machine(blocks: Vec<Vec<Instr>>) -> VmState {
    VmState::new(blocks.into_iter().map(|contents| Block { contents }).collect(), 0)
}

/// Steps while the machine asks for nothing, and returns the first other
/// action.
fn run(vm: &mut VmState) -> VmAction {
    loop {
        let a = execute_step(vm, None);
        if !matches!(a, VmAction::Continue) {
            return a;
        }
    }
}

fn top_int(vm: &VmState) -> i128 {
    match vm.stack.last() {
        Some(StackValue::Value(Value::Int(i))) => *i,
        other => panic!("expected an integer on top, found {other:?}"),
    }
}

fn arith(a: i128, b: i128, op: Operator) -> VmState {
    let mut vm = machine(vec![vec![
        Instr::Load(Token::Int(a)),
        Instr::Load(Token::Int(b)),
        Instr::Op(op),
        Instr::Return,
    ]]);
    let _ = run(&mut vm);
    vm
}

#[test]
fn a_variable_reads_back_what_was_set() {
    let mut vm = machine(vec![vec![
        Instr::Load(Token::Int(5)),
        Instr::VarRef("x".to_string()),
        Instr::SetVar,
        Instr::VarRef("x".to_string()),
        Instr::Deref,
        Instr::Return,
    ]]);
    assert!(matches!(run(&mut vm), VmAction::Done { last_exit_reason: None }));
    assert!(vm.done);
    assert_eq!(top_int(&vm), 5);
    assert!(matches!(vm.get_var(&"x".to_string()), Some(Value::Int(5))));
}

#[test]
fn integer_arithmetic_is_checked_and_truncates() {
    assert_eq!(top_int(&arith(2, 3, Operator::Add)), 5);
    assert_eq!(top_int(&arith(2, 3, Operator::Sub)), -1);
    assert_eq!(top_int(&arith(-7, 2, Operator::Div)), -3);
    assert!(matches!(
        run(&mut machine(vec![vec![
            Instr::Load(Token::Int(i128::MAX)),
            Instr::Load(Token::Int(2)),
            Instr::Op(Operator::Mul),
            Instr::Return,
        ]])),
        VmAction::Fault(Fault::Overflow)
    ));
    assert!(matches!(
        run(&mut machine(vec![vec![
            Instr::Load(Token::Int(1)),
            Instr::Load(Token::Int(0)),
            Instr::Op(Operator::Div),
            Instr::Return,
        ]])),
        VmAction::Fault(Fault::DivideByZero)
    ));
}

#[test]
fn comparisons_and_text() {
    let vm = arith(1, 2, Operator::Lt);
    assert!(matches!(vm.stack.last(), Some(StackValue::Value(Value::Bool(true)))));
    let mut vm = machine(vec![vec![
        Instr::Load(Token::String("ab".to_string())),
        Instr::Load(Token::String("cd".to_string())),
        Instr::Op(Operator::Add),
        Instr::Load(Token::String("abcd".to_string())),
        Instr::Op(Operator::Eq),
        Instr::Return,
    ]]);
    assert!(matches!(run(&mut vm), VmAction::Done { .. }));
    assert!(matches!(vm.stack.last(), Some(StackValue::Value(Value::Bool(true)))));
}

#[test]
fn floats_are_computed_by_the_caller() {
    let mut vm = machine(vec![vec![
        Instr::Load(Token::Float("1.5".to_string())),
        Instr::Load(Token::Int(2)),
        Instr::Op(Operator::Lt),
        Instr::Return,
    ]]);
    assert!(matches!(run(&mut vm), VmAction::ParseFloat { block: 0, index: 0 }));
    let a = execute_step(&mut vm, Some(VmEvent::Evaluated(Value::Float(1.5f64.to_bits()))));
    assert!(matches!(a, VmAction::Continue));
    match run(&mut vm) {
        VmAction::Compute { op: Operator::Lt, a: Value::Float(_), b: Value::Int(2) } => {},
        other => panic!("unexpected {other:?}"),
    }
    let _ = execute_step(&mut vm, Some(VmEvent::Evaluated(Value::Bool(true))));
    assert!(matches!(run(&mut vm), VmAction::Done { .. }));
    assert!(matches!(vm.stack.last(), Some(StackValue::Value(Value::Bool(true)))));
}

#[test]
fn a_call_returns_to_the_caller() {
    let mut vm = machine(vec![
        vec![Instr::Call { block: 1 }, Instr::Load(Token::Int(2)), Instr::Return],
        vec![Instr::Load(Token::Int(1)), Instr::Return],
    ]);
    assert!(matches!(execute_step(&mut vm, None), VmAction::Continue));
    assert_eq!(vm.pc, (1, None));
    assert_eq!(vm.scope.len(), 2);
    assert!(matches!(run(&mut vm), VmAction::Done { .. }));
    assert_eq!(vm.stack.len(), 2);
    assert_eq!(top_int(&vm), 2);
    assert_eq!(vm.scope.len(), 1);
}

#[test]
fn commands_are_spawned_and_reaped() {
    let command = Command2 { path: "/bin/true".to_string(), orig: "true".to_string(), args: vec![] };
    let mut vm = machine(vec![vec![Instr::Run { command }, Instr::Return]]);
    assert!(matches!(execute_step(&mut vm, None), VmAction::Spawn { block: 0, index: 0 }));
    let a = execute_step(&mut vm, Some(VmEvent::Exited(ExitReason::Normal(3))));
    assert!(matches!(a, VmAction::Reaped(ExitReason::Normal(3))));
    assert!(matches!(
        execute_step(&mut vm, None),
        VmAction::Done { last_exit_reason: Some(ExitReason::Normal(3)) }
    ));
}

#[test]
fn words_are_expanded_by_the_caller() {
    let mut vm = machine(vec![vec![Instr::Load(Token::Word("*.rs".to_string())), Instr::Return]]);
    assert!(matches!(execute_step(&mut vm, None), VmAction::Expand { block: 0, index: 0 }));
    let words = vec!["a.rs".to_string(), "b.rs".to_string()];
    let _ = execute_step(&mut vm, Some(VmEvent::Expanded(words)));
    assert!(matches!(&vm.stack[..], [StackValue::Value(Value::Text(a)), StackValue::Value(Value::Text(b))] if a == "a.rs" && b == "b.rs"));
}

#[test]
fn arrays_and_tables_are_gathered_top_first() {
    let mut vm = machine(vec![vec![
        Instr::Load(Token::String("h".to_string())),
        Instr::CollectArray(1),
        Instr::Load(Token::Int(1)),
        Instr::Load(Token::Int(2)),
        Instr::CollectArray(2),
        Instr::CollectTable(1),
        Instr::Return,
    ]]);
    assert!(matches!(run(&mut vm), VmAction::Done { .. }));
    match vm.stack.last() {
        Some(StackValue::Value(Value::Table { header, rows })) => {
            assert!(matches!(&header[..], [Value::Text(h)] if h == "h"));
            assert_eq!(rows.len(), 1);
            assert!(matches!(&rows[0][..], [Value::Int(2), Value::Int(1)]));
        },
        other => panic!("expected a table, found {other:?}"),
    }
}

fn load(i: i128) -> Instr {
    Instr::Load(Token::Int(i))
}

fn text(s: &str) -> Instr {
    Instr::Load(Token::String(s.to_string()))
}

fn var(s: &str) -> Instr {
    Instr::VarRef(s.to_string())
}

/// `t` = the table with header `a b` and the given rows of two numbers.
fn table_setup(rows: &[(i128, i128)]) -> Vec<Instr> {
    let mut code = vec![text("b"), text("a"), Instr::CollectArray(2)];
    for (x, y) in rows.iter().rev() {
        code.extend([load(*y), load(*x), Instr::CollectArray(2)]);
    }
    code.extend([Instr::CollectTable(rows.len()), var("t"), Instr::SetVar]);
    code
}

#[test]
fn rows_and_columns_are_selected() {
    // a = [10, 20, 30]; a[1]
    let mut vm = machine(vec![vec![
        load(30),
        load(20),
        load(10),
        Instr::CollectArray(3),
        var("a"),
        Instr::SetVar,
        var("a"),
        load(1),
        Instr::GetIndex,
        Instr::Deref,
        Instr::Return,
    ]]);
    assert!(matches!(run(&mut vm), VmAction::Done { .. }));
    assert_eq!(top_int(&vm), 20);

    // t.b of a table with one row is that row's item
    let mut code = table_setup(&[(1, 2)]);
    code.extend([var("t"), text("b"), Instr::GetColumn, Instr::Deref, Instr::Return]);
    let mut vm = machine(vec![code]);
    assert!(matches!(run(&mut vm), VmAction::Done { .. }));
    assert_eq!(top_int(&vm), 2);

    // t.a of a table with two rows is the column
    let mut code = table_setup(&[(1, 2), (3, 4)]);
    code.extend([var("t"), text("a"), Instr::GetColumn, Instr::Deref, Instr::Return]);
    let mut vm = machine(vec![code]);
    assert!(matches!(run(&mut vm), VmAction::Done { .. }));
    assert!(matches!(vm.stack.last(), Some(StackValue::Value(Value::Array(c))) if matches!(&c[..], [Value::Int(1), Value::Int(3)])));

    // a missing column, and a row past the end, select nil
    let mut code = table_setup(&[(1, 2)]);
    code.extend([var("t"), text("z"), Instr::GetColumn, Instr::Deref, Instr::Return]);
    let mut vm = machine(vec![code]);
    assert!(matches!(run(&mut vm), VmAction::Done { .. }));
    assert!(matches!(vm.stack.last(), Some(StackValue::Value(Value::Null))));
    let mut code = table_setup(&[(1, 2)]);
    code.extend([var("t"), load(5), Instr::GetIndex, Instr::Deref, Instr::Return]);
    let mut vm = machine(vec![code]);
    assert!(matches!(run(&mut vm), VmAction::Done { .. }));
    assert!(matches!(vm.stack.last(), Some(StackValue::Value(Value::Null))));
}

#[test]
fn indexing_out_of_bounds_gives_nil() {
    // $var = [1 2 3]; $var[5]
    let mut vm = machine(vec![vec![
        load(3),
        load(2),
        load(1),
        Instr::CollectArray(3),
        var("var"),
        Instr::SetVar,
        var("var"),
        load(5),
        Instr::GetIndex,
        Instr::Deref,
        Instr::Return,
    ]]);
    assert!(matches!(run(&mut vm), VmAction::Done { .. }));
    assert!(matches!(vm.stack.last(), Some(StackValue::Value(Value::Null))));
}

#[test]
fn not_negates_a_boolean() {
    let mut vm = machine(vec![vec![load(1), load(2), Instr::Op(Operator::Lt), Instr::Negate, Instr::Return]]);
    assert!(matches!(run(&mut vm), VmAction::Done { .. }));
    assert!(matches!(vm.stack.last(), Some(StackValue::Value(Value::Bool(false)))));
}

#[test]
fn items_and_cells_are_assigned() {
    // a = [10, 20, 30]; a[1] = 99; a[1]
    let mut vm = machine(vec![vec![
        load(30),
        load(20),
        load(10),
        Instr::CollectArray(3),
        var("a"),
        Instr::SetVar,
        load(99),
        var("a"),
        load(1),
        Instr::GetIndex,
        Instr::SetVar,
        var("a"),
        Instr::Deref,
        Instr::Return,
    ]]);
    assert!(matches!(run(&mut vm), VmAction::Done { .. }));
    assert!(matches!(vm.stack.last(), Some(StackValue::Value(Value::Array(a))) if matches!(&a[..], [Value::Int(10), Value::Int(99), Value::Int(30)])));

    // t.b[1] = 7 sets the second row's cell; t.b = 7 on two rows is refused
    let mut code = table_setup(&[(1, 2), (3, 4)]);
    code.extend([load(7), var("t"), text("b"), Instr::GetColumn, load(1), Instr::GetIndex, Instr::SetVar]);
    code.extend([var("t"), text("b"), Instr::GetColumn, Instr::Deref, Instr::Return]);
    let mut vm = machine(vec![code]);
    assert!(matches!(run(&mut vm), VmAction::Done { .. }));
    assert!(matches!(vm.stack.last(), Some(StackValue::Value(Value::Array(c))) if matches!(&c[..], [Value::Int(2), Value::Int(7)])));
    let mut code = table_setup(&[(1, 2), (3, 4)]);
    code.extend([load(7), var("t"), text("b"), Instr::GetColumn, Instr::SetVar, Instr::Return]);
    assert!(matches!(run(&mut machine(vec![code])), VmAction::Fault(Fault::ColumnAssign)));
}

#[test]
fn float_indices_are_asked_of_the_caller() {
    let mut vm = machine(vec![vec![
        load(7),
        Instr::CollectArray(1),
        var("t"),
        Instr::SetVar,
        var("t"),
        Instr::Load(Token::Float("0.0".to_string())),
        Instr::GetIndex,
        Instr::Deref,
        Instr::Return,
    ]]);
    assert!(matches!(run(&mut vm), VmAction::ParseFloat { .. }));
    let _ = execute_step(&mut vm, Some(VmEvent::Evaluated(Value::Float(0.0f64.to_bits()))));
    match run(&mut vm) {
        VmAction::Select { value: Value::Array(_), fields } => {
            assert!(matches!(&fields[..], [Field::Index(Value::Float(_))]));
        },
        other => panic!("unexpected {other:?}"),
    }
    let _ = execute_step(&mut vm, Some(VmEvent::Evaluated(Value::Int(7))));
    assert!(matches!(run(&mut vm), VmAction::Done { .. }));
    assert_eq!(top_int(&vm), 7);
}

#[test]
fn faults_stop_the_machine() {
    let mut vm = machine(vec![vec![Instr::VarRef("nope".to_string()), Instr::Deref, Instr::Return]]);
    assert!(matches!(run(&mut vm), VmAction::Fault(Fault::UnknownVariable)));
    assert!(vm.done);
    let mut vm = machine(vec![vec![Instr::Op(Operator::Add), Instr::Return]]);
    assert!(matches!(run(&mut vm), VmAction::Fault(Fault::EmptyStack)));
    let mut vm = machine(vec![vec![Instr::Load(Token::Int(1)), Instr::Negate, Instr::Return]]);
    assert!(matches!(run(&mut vm), VmAction::Fault(Fault::InvalidOperands)));
}

#[test]
fn a_new_reference_selects_nothing() {
    let r = fatty::fatty_vm::VarRef::new("x");
    assert_eq!(r.name, "x");
    assert!(r.fields.is_empty());
}

#[test]
fn a_machine_is_ready_only_for_what_it_waits_for() {
    let vm = machine(vec![vec![Instr::Load(Token::Int(1)), Instr::Return]]);
    assert!(fatty::fatty_vm::ready(&vm, &None));
    assert!(!fatty::fatty_vm::ready(&vm, &Some(VmEvent::BuiltinDone)));
    let unended = machine(vec![vec![Instr::Load(Token::Int(1))]]);
    assert!(!fatty::fatty_vm::ready(&unended, &None));
    let bad_call = machine(vec![vec![Instr::Call { block: 4 }, Instr::Return]]);
    assert!(!fatty::fatty_vm::ready(&bad_call, &None));
}
