use fatty::exit_status::ExitReason;
use fatty::expansion::Expansion;
use fatty::fatty_syntax::Token;
use fatty::program::{compile, prepare_invocation, print_program, token_expansion, Action, Instr, VM};
use fatty::shell_syntax::{Ast, Command, Pipeline, Stmt, SubOrCommand};

fn word(s: &str) -> Token {
    Token::Word(s.to_string())
}

fn command(words: &[&str]) -> Command {
    Command { argv: words.iter().map(|w| word(w)).collect() }
}

fn stmt(s: Stmt) -> Ast {
    Ast::Stmt(s)
}

fn sample() -> Vec<Ast> {
    vec![
        stmt(Stmt::Command(command(&["ls", "-l"]))),
        stmt(Stmt::Background(Box::new(stmt(Stmt::Command(command(&["sleep", "1"])))))),
        stmt(Stmt::Pipeline(Pipeline {
            items: vec![
                SubOrCommand::Command(command(&["cat", "f"])),
                SubOrCommand::Command(command(&["wc"])),
            ],
        })),
    ]
}

#[test]
fn statements_compile_into_an_entry_block_and_background_blocks() {
    let blocks = compile(&sample());
    assert_eq!(blocks.len(), 2);
    let entry = &blocks[0].contents;
    assert_eq!(entry.len(), 4);
    assert!(matches!(&entry[0], Instr::Run { command } if command.to_string() == "ls -l"));
    assert!(matches!(&entry[1], Instr::CallAsync { block: 1 }));
    match &entry[2] {
        Instr::RunSimplePipeline { commands } => {
            let texts: Vec<String> = commands.iter().map(|c| c.to_string()).collect();
            assert_eq!(texts, vec!["cat f".to_string(), "wc".to_string()]);
        }
        _ => panic!("expected a pipeline"),
    }
    assert!(matches!(&entry[3], Instr::DoneProgram));
    let body = &blocks[1].contents;
    assert_eq!(body.len(), 2);
    assert!(matches!(&body[0], Instr::Run { command } if command.to_string() == "sleep 1"));
    assert!(matches!(&body[1], Instr::DoneProgram));
}

#[test]
fn nothing_compiles_to_a_lone_done() {
    let blocks = compile(&[]);
    assert_eq!(blocks.len(), 1);
    assert_eq!(blocks[0].contents.len(), 1);
    assert!(matches!(&blocks[0].contents[0], Instr::DoneProgram));
}

#[test]
fn nested_background_calls_the_first_block_added() {
    let inner = stmt(Stmt::Background(Box::new(stmt(Stmt::Command(command(&["a"]))))));
    let blocks = compile(&[stmt(Stmt::Background(Box::new(inner)))]);
    assert_eq!(blocks.len(), 3);
    assert!(matches!(&blocks[0].contents[0], Instr::CallAsync { block: 1 }));
    assert!(matches!(&blocks[2].contents[0], Instr::CallAsync { block: 1 }));
    assert!(matches!(&blocks[1].contents[0], Instr::Run { .. }));
}

#[test]
fn listing_shows_each_block_and_instruction() {
    let blocks = compile(&sample());
    let lines = print_program(&blocks);
    let expected = vec![
        "Block 0:",
        "  - run ls -l",
        "  - call_async 1",
        "  - create_pipe",
        "  - run cat f",
        "  - run wc",
        "  - done",
        "Block 1:",
        "  - run sleep 1",
        "  - done",
    ];
    assert_eq!(lines, expected.iter().map(|s| s.to_string()).collect::<Vec<_>>());
}

#[test]
fn machine_steps_through_its_block_and_keeps_exit_reasons() {
    let blocks = compile(&sample());
    let mut vm = VM::new(blocks, 0);
    match vm.execute() {
        Action::Run(c) => assert_eq!(c.to_string(), "ls -l"),
        _ => panic!("expected a command"),
    }
    assert_eq!(vm.pc, (0, Some(0)));
    vm.started(Some(41));
    assert_eq!(vm.waiting_on, Some(41));
    vm.handle_exit(41, ExitReason::Normal(2));
    assert_eq!(vm.waiting_on, None);
    assert_eq!(vm.child_exit_stack, vec![ExitReason::Normal(2)]);
    assert!(matches!(vm.execute(), Action::CallAsync(1)));
    vm.started(None);
    match vm.execute() {
        Action::RunSimplePipeline(cs) => assert_eq!(cs.len(), 2),
        _ => panic!("expected a pipeline"),
    }
    vm.started(Some(7));
    vm.handle_exit(7, ExitReason::Normal(0));
    assert!(!vm.done);
    assert!(matches!(vm.execute(), Action::Done));
    assert!(vm.done);
    assert_eq!(vm.child_exit_stack.len(), 2);
}

#[test]
fn tokens_expand_by_kind() {
    match token_expansion(&Token::String("~/*".to_string()), Some("/home/u")) {
        Expansion::Literal(s) => assert_eq!(s, "~/*"),
        _ => panic!("quoted text is literal"),
    }
    match token_expansion(&word("~/*.rs"), Some("/home/u")) {
        Expansion::Glob(p) => assert_eq!(p, "/home/u/*.rs"),
        _ => panic!("a bare word with a star is a pattern"),
    }
    match token_expansion(&word("~"), Some("/home/u")) {
        Expansion::Literal(s) => assert_eq!(s, "/home/u"),
        _ => panic!("no glob character"),
    }
}

#[test]
fn invocation_is_the_first_word_and_the_rest() {
    let expanded = vec![
        vec!["ls".to_string()],
        vec![],
        vec!["a.rs".to_string(), "b.rs".to_string()],
    ];
    let (cmd, args) = prepare_invocation(&expanded);
    assert_eq!(cmd, "ls");
    assert_eq!(args, vec!["a.rs".to_string(), "b.rs".to_string()]);
    let (cmd, args) = prepare_invocation(&vec![vec![], vec!["x".to_string()]]);
    assert_eq!(cmd, "x");
    assert!(args.is_empty());
}
