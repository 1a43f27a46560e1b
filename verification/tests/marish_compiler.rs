use fatty::marish_compiler::{compile, Block, BlockId, Command2, Instr, RunPipelineItem, Warning};
use fatty::marish_syntax::{
    Array, Assert, Assignment, Ast, BoolExpr, Command, FieldExpr, LineCol, Operator, Pipeline,
    PipelineItem, Single, Stmt, TestDecl, Token, Var,
};

fn lc() -> LineCol {
    LineCol(1, 0, 3)
}

fn stmt(s: Stmt) -> Ast {
    Ast::Stmt(lc(), s)
}

fn word(s: &str) -> Single {
    Single::Token(Token::Word(s.to_string()))
}

fn num(i: i128) -> Single {
    Single::Token(Token::Int(i))
}

fn command(name: &str, argv: Vec<Single>) -> Command {
    Command { lc: lc(), cmd: name.to_string(), argv }
}

fn known() -> Vec<(String, Option<String>)> {
    vec![("ls".to_string(), Some("/bin/ls".to_string())), ("grep".to_string(), Some("/bin/grep".to_string()))]
}

fn block(id: BlockId, contents: Vec<Instr>) -> Block {
    Block { id, contents }
}

fn ls(argc: usize) -> Command2 {
    Command2 { lc: lc(), orig: "ls".to_string(), path: Some("/bin/ls".to_string()), argc }
}

#[test]
fn a_command_loads_its_arguments_last_first_then_runs() {
    let prog = vec![stmt(Stmt::Command(command("ls", vec![word("-l"), word("/tmp")])))];
    let (warnings, blocks) = compile(&known(), &prog).unwrap();
    assert_eq!(warnings, vec![]);
    assert_eq!(
        blocks,
        vec![
            block(
                BlockId::Entry,
                vec![
                    Instr::Load(Token::Word("/tmp".to_string())),
                    Instr::Load(Token::Word("-l".to_string())),
                    Instr::Run { muffle: false, command: ls(2) },
                    Instr::Return,
                ]
            ),
            block(BlockId::TestsEntry, vec![Instr::Return]),
        ]
    );
}

#[test]
fn an_unknown_command_is_warned_about_and_still_run() {
    let prog = vec![stmt(Stmt::Command(command("nope", vec![])))];
    let (warnings, blocks) = compile(&known(), &prog).unwrap();
    assert_eq!(warnings, vec![Warning::CommandNotFound(lc(), "nope".to_string())]);
    assert_eq!(
        blocks[0].contents,
        vec![
            Instr::Run {
                muffle: false,
                command: Command2 { lc: lc(), orig: "nope".to_string(), path: None, argc: 0 },
            },
            Instr::Return,
        ]
    );
}

#[test]
fn cd_changes_directory_to_its_argument() {
    let prog = vec![stmt(Stmt::Command(command("cd", vec![word("/tmp")])))];
    let (warnings, blocks) = compile(&known(), &prog).unwrap();
    assert_eq!(warnings, vec![]);
    assert_eq!(
        blocks[0].contents,
        vec![Instr::Load(Token::Word("/tmp".to_string())), Instr::ChangeDir, Instr::Return]
    );
}

#[test]
fn an_assignment_stores_into_the_selected_column() {
    let lhs = Var { name: "x".to_string(), fields: vec![FieldExpr::Column(word("a")), FieldExpr::Index(num(0))] };
    let prog = vec![stmt(Stmt::Assignment(Assignment { lhs, rhs: num(5) }))];
    let (_, blocks) = compile(&known(), &prog).unwrap();
    assert_eq!(
        blocks[0].contents,
        vec![
            Instr::Load(Token::Int(5)),
            Instr::VarRef("x".to_string()),
            Instr::Load(Token::Word("a".to_string())),
            Instr::GetColumn,
            Instr::Load(Token::Int(0)),
            Instr::GetIndex,
            Instr::SetVar,
            Instr::Return,
        ]
    );
}

#[test]
fn an_assigned_subshell_becomes_a_called_muffled_block() {
    let inner = stmt(Stmt::Command(command("ls", vec![])));
    let prog = vec![stmt(Stmt::Assignment(Assignment {
        lhs: Var { name: "files".to_string(), fields: vec![] },
        rhs: Single::Sub(Box::new(inner)),
    }))];
    let (_, blocks) = compile(&known(), &prog).unwrap();
    assert_eq!(
        blocks,
        vec![
            block(
                BlockId::Entry,
                vec![Instr::Call { block: 1 }, Instr::VarRef("files".to_string()), Instr::SetVar, Instr::Return]
            ),
            block(BlockId::Internal, vec![Instr::Run { muffle: true, command: ls(0) }, Instr::Return]),
            block(BlockId::TestsEntry, vec![Instr::Return]),
        ]
    );
}

#[test]
fn arrays_and_variables_compile_to_stack_instructions() {
    let arr = Token::Array(Array { items: vec![num(1), num(2)] });
    let var = Token::Var(Var { name: "y".to_string(), fields: vec![FieldExpr::Index(num(1))] });
    let prog = vec![stmt(Stmt::Token(arr)), stmt(Stmt::Token(var))];
    let (_, blocks) = compile(&known(), &prog).unwrap();
    assert_eq!(
        blocks[0].contents,
        vec![
            Instr::Load(Token::Int(2)),
            Instr::Load(Token::Int(1)),
            Instr::CollectArray(2),
            Instr::VarRef("y".to_string()),
            Instr::Load(Token::Int(1)),
            Instr::GetIndex,
            Instr::Deref,
            Instr::Return,
        ]
    );
}

#[test]
fn tests_get_blocks_of_their_own_that_the_last_block_calls() {
    let check = stmt(Stmt::BoolExpr(BoolExpr { lhs: num(1), rhs: num(1), op: Operator::Eq }));
    let assertion = stmt(Stmt::Assert(Assert { lc: LineCol(2, 4, 9), body: Box::new(check) }));
    let prog = vec![
        stmt(Stmt::TestDecl(TestDecl { name: "one".to_string(), body: vec![assertion] })),
        stmt(Stmt::Background(Box::new(stmt(Stmt::Command(command("ls", vec![])))))),
    ];
    let (_, blocks) = compile(&known(), &prog).unwrap();
    assert_eq!(
        blocks,
        vec![
            block(BlockId::Entry, vec![Instr::CallAsync { block: 3 }, Instr::Return]),
            block(
                BlockId::Internal,
                vec![Instr::Load(Token::Int(1)), Instr::Load(Token::Int(1)), Instr::Op(Operator::Eq), Instr::Return]
            ),
            block(
                BlockId::Test { name: "one".to_string() },
                vec![
                    Instr::EnterTest("one".to_string()),
                    Instr::Call { block: 1 },
                    Instr::Assert(LineCol(2, 4, 9)),
                    Instr::RecordTestSuccess,
                    Instr::Return,
                ]
            ),
            block(BlockId::Internal, vec![Instr::Run { muffle: false, command: ls(0) }, Instr::Return]),
            block(BlockId::TestsEntry, vec![Instr::Call { block: 2 }, Instr::Return]),
        ]
    );
}

#[test]
fn a_pipeline_runs_its_stages_with_where_filters_in_blocks() {
    let cond = stmt(Stmt::BoolExpr(BoolExpr { lhs: word("a"), rhs: word("b"), op: Operator::Ne }));
    let pipeline = Pipeline {
        initial_value: None,
        items: vec![
            PipelineItem::Command(command("ls", vec![word("-a")])),
            PipelineItem::Where(Box::new(cond), LineCol(1, 5, 10)),
            PipelineItem::Command(command("grep", vec![])),
        ],
    };
    let (warnings, blocks) = compile(&known(), &vec![stmt(Stmt::Pipeline(pipeline))]).unwrap();
    assert_eq!(warnings, vec![]);
    assert_eq!(
        blocks,
        vec![
            block(
                BlockId::Entry,
                vec![
                    Instr::Load(Token::Word("-a".to_string())),
                    Instr::RunPipeline {
                        muffle: false,
                        is_there_initial_value: false,
                        items: vec![
                            RunPipelineItem::Command(ls(1)),
                            RunPipelineItem::Where { block: 1, lc: LineCol(1, 5, 10) },
                            RunPipelineItem::Command(Command2 {
                                lc: lc(),
                                orig: "grep".to_string(),
                                path: Some("/bin/grep".to_string()),
                                argc: 0,
                            }),
                        ],
                    },
                    Instr::Return,
                ]
            ),
            block(
                BlockId::Internal,
                vec![
                    Instr::Load(Token::Word("a".to_string())),
                    Instr::Load(Token::Word("b".to_string())),
                    Instr::Op(Operator::Ne),
                    Instr::Return,
                ]
            ),
            block(BlockId::TestsEntry, vec![Instr::Return]),
        ]
    );
}
