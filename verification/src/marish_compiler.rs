//! The Marish compiler: statements become blocks of instructions for the
//! Marish machine. Block 0 is the entry; the last block calls every test
//! block in turn.
use vstd::prelude::*;
use crate::bolger_ui::same_text;
use crate::marish_syntax::{
    Ast, BoolExpr, Command, FieldExpr, LineCol, Operator, Pipeline, PipelineItem, Single, Stmt, Token,
};

verus! {

/// A command as the machine runs it: where it stands in the source, its
/// name as written, the executable found for it at compile time, and how
/// many arguments it takes from the stack.
#[derive(Debug, Clone, PartialEq)]
pub struct Command2 {
    pub lc: LineCol,
    pub orig: String,
    pub path: Option<String>,
    pub argc: usize,
}

/// A stage of a pipeline as the machine runs it.
#[derive(Debug, Clone, PartialEq)]
pub enum RunPipelineItem {
    Command(Command2),
    Where { block: usize, lc: LineCol },
}

/// An instruction of the Marish machine.
#[derive(Debug, PartialEq)]
pub enum Instr {
    /// Change directory to the value on top of the stack.
    ChangeDir,
    /// Run a command with arguments taken from the stack.
    Run { muffle: bool, command: Command2 },
    /// Run the stages of a pipeline, the first fed the value on top of the
    /// stack when there is one.
    RunPipeline { muffle: bool, is_there_initial_value: bool, items: Vec<RunPipelineItem> },
    /// Run a block on a machine of its own, without waiting.
    CallAsync { block: usize },
    /// Run a block in the current context.
    Call { block: usize },
    /// Push a number, string or word.
    Load(Token),
    /// Start a reference to a variable.
    VarRef(String),
    /// Select a column of the reference being built.
    GetColumn,
    /// Select a row of the reference being built.
    GetIndex,
    /// Replace the reference by the value it names.
    Deref,
    /// Store the value under the reference.
    SetVar,
    /// Gather the top values into an array.
    CollectArray(usize),
    /// Gather the top arrays and a header into a table.
    CollectTable(usize),
    /// Apply an operator to the top two values.
    Op(Operator),
    /// Negate the top value.
    Negate,
    /// Drop the top value.
    Pop,
    /// Leave the block.
    Return,
    /// Fail the current test unless the top value holds.
    Assert(LineCol),
    /// Begin the named test.
    EnterTest(String),
    /// Record that the current test passed.
    RecordTestSuccess,
}

/// What a block is for.
#[derive(Debug, Clone, PartialEq)]
pub enum BlockId {
    Entry,
    Internal,
    Test { name: String },
    TestsEntry,
}

/// A block of instructions.
#[derive(Debug, PartialEq)]
pub struct Block {
    pub id: BlockId,
    pub contents: Vec<Instr>,
}

/// Something the compiler noticed that does not stop it.
#[derive(Debug, Clone, PartialEq)]
pub enum Warning {
    CommandNotFound(LineCol, String),
}

/// A reason the compiler stops: a statement it does not compile. The
/// contract of every compiling function leaves such statements out, so none
/// comes back from them.
#[derive(Debug, Clone)]
pub struct CompileError {}

/// How a statement is compiled: whether the commands it runs keep their
/// output to themselves.
#[derive(Debug, Copy, Clone)]
pub struct Flags {
    pub muffle: bool,
}

impl Flags {
    /// The same flags, muffled.
    pub fn muffle(self) -> (r: Flags)
        ensures
            r.muffle,
    {
        Flags { muffle: true }
    }
}

/// The compiler's state: the warnings so far and the blocks made so far.
pub struct Compiler {
    pub warnings: Vec<Warning>,
    pub blocks: Vec<Block>,
}

/// A literal a `Load` pushes.
pub enum Lit {
    Int(i128),
    Float(Seq<char>),
    Text(Seq<char>),
    Word(Seq<char>),
}

/// A command taken by its parts.
pub struct CmdM {
    pub lc: LineCol,
    pub orig: Seq<char>,
    pub path: Option<Seq<char>>,
    pub argc: int,
}

/// A pipeline stage taken by its parts.
pub enum ItemM {
    Command(CmdM),
    Where(int, LineCol),
}

/// What an instruction does.
pub enum Op {
    ChangeDir,
    Run(bool, CmdM),
    RunPipeline(bool, bool, Seq<ItemM>),
    CallAsync(int),
    Call(int),
    Load(Lit),
    VarRef(Seq<char>),
    GetColumn,
    GetIndex,
    Deref,
    SetVar,
    CollectArray(int),
    CollectTable(int),
    BinOp(Operator),
    Negate,
    Pop,
    Return,
    Assert(LineCol),
    EnterTest(Seq<char>),
    RecordTestSuccess,
}

/// What a block is for, with a test's name as text.
pub enum BlockKind {
    Entry,
    Internal,
    Test(Seq<char>),
    TestsEntry,
}

/// The text of an optional string.
pub open spec fn opt_text(o: Option<String>) -> Option<Seq<char>> {
    match o {
        Some(s) => Some(s@),
        None => None,
    }
}

/// A command by its parts.
pub open spec fn cmd_model(c: Command2) -> CmdM {
    CmdM { lc: c.lc, orig: c.orig@, path: opt_text(c.path), argc: c.argc as int }
}

/// A pipeline stage by its parts.
pub open spec fn item_model(i: RunPipelineItem) -> ItemM {
    match i {
        RunPipelineItem::Command(c) => ItemM::Command(cmd_model(c)),
        RunPipelineItem::Where { block, lc } => ItemM::Where(block as int, lc),
    }
}

/// Pipeline stages by their parts.
pub open spec fn items_model(s: Seq<RunPipelineItem>) -> Seq<ItemM> {
    s.map_values(|i: RunPipelineItem| item_model(i))
}

/// The literal of a number, string or word. Other tokens are never loaded.
pub open spec fn lit_of(t: Token) -> Lit {
    match t {
        Token::Int(i) => Lit::Int(i),
        Token::Float(s) => Lit::Float(s@),
        Token::String(s) => Lit::Text(s@),
        Token::Word(s) => Lit::Word(s@),
        _ => Lit::Word(Seq::empty()),
    }
}

/// What an instruction does.
pub open spec fn op_of(i: Instr) -> Op {
    match i {
        Instr::ChangeDir => Op::ChangeDir,
        Instr::Run { muffle, command } => Op::Run(muffle, cmd_model(command)),
        Instr::RunPipeline { muffle, is_there_initial_value, items } => Op::RunPipeline(
            muffle,
            is_there_initial_value,
            items_model(items@),
        ),
        Instr::CallAsync { block } => Op::CallAsync(block as int),
        Instr::Call { block } => Op::Call(block as int),
        Instr::Load(t) => Op::Load(lit_of(t)),
        Instr::VarRef(s) => Op::VarRef(s@),
        Instr::GetColumn => Op::GetColumn,
        Instr::GetIndex => Op::GetIndex,
        Instr::Deref => Op::Deref,
        Instr::SetVar => Op::SetVar,
        Instr::CollectArray(n) => Op::CollectArray(n as int),
        Instr::CollectTable(n) => Op::CollectTable(n as int),
        Instr::Op(o) => Op::BinOp(o),
        Instr::Negate => Op::Negate,
        Instr::Pop => Op::Pop,
        Instr::Return => Op::Return,
        Instr::Assert(lc) => Op::Assert(lc),
        Instr::EnterTest(s) => Op::EnterTest(s@),
        Instr::RecordTestSuccess => Op::RecordTestSuccess,
    }
}

/// What a sequence of instructions does.
pub open spec fn ops_of(s: Seq<Instr>) -> Seq<Op> {
    s.map_values(|i: Instr| op_of(i))
}

/// What a block is for.
pub open spec fn kind_of(id: BlockId) -> BlockKind {
    match id {
        BlockId::Entry => BlockKind::Entry,
        BlockId::Internal => BlockKind::Internal,
        BlockId::Test { name } => BlockKind::Test(name@),
        BlockId::TestsEntry => BlockKind::TestsEntry,
    }
}

/// Each block by what it is for and what it does.
pub open spec fn blocks_model(bs: Seq<Block>) -> Seq<(BlockKind, Seq<Op>)> {
    bs.map_values(|b: Block| (kind_of(b.id), ops_of(b.contents@)))
}

/// A warning by its position and the command's name.
pub open spec fn warn_model(w: Warning) -> (LineCol, Seq<char>) {
    match w {
        Warning::CommandNotFound(lc, s) => (lc, s@),
    }
}

/// Warnings by their parts.
pub open spec fn warns_model(ws: Seq<Warning>) -> Seq<(LineCol, Seq<char>)> {
    ws.map_values(|w: Warning| warn_model(w))
}

/// The executable that the first entry of `known` named `name`, from
/// entry `i` on, gives; `None` where there is no such entry or it gives
/// none.
pub open spec fn resolved_from(
    known: Seq<(String, Option<String>)>,
    name: Seq<char>,
    i: int,
) -> Option<Seq<char>>
    decreases known.len() - i,
{
    if i < 0 || i >= known.len() {
        None
    } else if known[i].0@ == name {
        opt_text(known[i].1)
    } else {
        resolved_from(known, name, i + 1)
    }
}

/// The executable a command name resolves to.
pub open spec fn resolved_path(known: Seq<(String, Option<String>)>, name: Seq<char>) -> Option<
    Seq<char>,
> {
    resolved_from(known, name, 0)
}

/// What compiling something adds: instructions to the block being
/// written, blocks after those made so far, and warnings.
pub struct Em {
    pub out: Seq<Op>,
    pub blocks: Seq<(BlockKind, Seq<Op>)>,
    pub warns: Seq<(LineCol, Seq<char>)>,
}

/// Nothing added.
pub open spec fn em_empty() -> Em {
    Em { out: Seq::empty(), blocks: Seq::empty(), warns: Seq::empty() }
}

/// What `a` adds, then what `b` adds.
pub open spec fn em_then(a: Em, b: Em) -> Em {
    Em { out: a.out + b.out, blocks: a.blocks + b.blocks, warns: a.warns + b.warns }
}

/// What `a` adds, then one more instruction.
pub open spec fn em_push(a: Em, o: Op) -> Em {
    Em { out: a.out.push(o), blocks: a.blocks, warns: a.warns }
}

/// A body's instructions made into a block of their own, ended by
/// `Return`, after the blocks the body made; the current block calls it,
/// at once or on a machine of its own.
pub open spec fn em_sub(e: Em, n: int, is_async: bool) -> Em {
    let i = n + e.blocks.len();
    Em {
        out: seq![if is_async { Op::CallAsync(i) } else { Op::Call(i) }],
        blocks: e.blocks.push((BlockKind::Internal, e.out.push(Op::Return))),
        warns: e.warns,
    }
}

/// The warning for a command that resolves to nothing.
pub open spec fn not_found(known: Seq<(String, Option<String>)>, lc: LineCol, name: Seq<char>) -> Seq<
    (LineCol, Seq<char>),
> {
    if resolved_path(known, name) is None {
        seq![(lc, name)]
    } else {
        Seq::empty()
    }
}

/// Whether no stage of a pipeline is a subshell.
pub open spec fn pipeline_simple(p: Pipeline) -> bool {
    forall|i: int| 0 <= i < p.items@.len() ==> !(#[trigger] p.items@[i] is Sub)
}

/// What compiling a token adds, when `n` blocks are made so far; `None`
/// where it holds something that does not compile.
pub open spec fn em_token(f: bool, kn: Seq<(String, Option<String>)>, t: Token, n: int) -> Option<Em>
    decreases t, 0nat,
{
    match t {
        Token::Var(v) => match em_fields(f, kn, v.fields@, v.fields@.len(), n) {
            Some(e) => Some(
                Em { out: seq![Op::VarRef(v.name@)] + e.out.push(Op::Deref), blocks: e.blocks, warns: e.warns },
            ),
            None => None,
        },
        Token::Array(a) => match em_rev(f, kn, a.items@, a.items@.len(), n) {
            Some(e) => Some(em_push(e, Op::CollectArray(a.items@.len() as int))),
            None => None,
        },
        Token::Table(tb) => match em_rev(f, kn, tb.header@, tb.header@.len(), n) {
            Some(h) => {
                let h2 = em_push(h, Op::CollectArray(tb.header@.len() as int));
                match em_rows_rev(f, kn, tb.rows@, tb.rows@.len(), n + h2.blocks.len()) {
                    Some(r) => Some(em_push(em_then(h2, r), Op::CollectTable(tb.rows@.len() as int))),
                    None => None,
                }
            },
            None => None,
        },
        _ => Some(Em { out: seq![Op::Load(lit_of(t))], blocks: Seq::empty(), warns: Seq::empty() }),
    }
}

/// What compiling an operand adds.
pub open spec fn em_single(f: bool, kn: Seq<(String, Option<String>)>, s: Single, n: int) -> Option<
    Em,
>
    decreases s, 0nat,
{
    match s {
        Single::Token(t) => em_token(f, kn, t, n),
        Single::Sub(body) => match em_ast(f, kn, *body, n) {
            Some(e) => Some(em_sub(e, n, false)),
            None => None,
        },
    }
}

/// What compiling a selection adds: its operand, then the selection.
pub open spec fn em_field(f: bool, kn: Seq<(String, Option<String>)>, fe: FieldExpr, n: int) -> Option<
    Em,
>
    decreases fe, 0nat,
{
    match fe {
        FieldExpr::Column(o) => match em_single(f, kn, o, n) {
            Some(e) => Some(em_push(e, Op::GetColumn)),
            None => None,
        },
        FieldExpr::Index(o) => match em_single(f, kn, o, n) {
            Some(e) => Some(em_push(e, Op::GetIndex)),
            None => None,
        },
    }
}

/// What compiling the first `k` selections, in order, adds.
pub open spec fn em_fields(
    f: bool,
    kn: Seq<(String, Option<String>)>,
    fs: Seq<FieldExpr>,
    k: nat,
    n: int,
) -> Option<Em>
    decreases fs, k,
{
    if k == 0 || k > fs.len() {
        Some(em_empty())
    } else {
        match em_fields(f, kn, fs, (k - 1) as nat, n) {
            Some(a) => match em_field(f, kn, fs[k - 1], n + a.blocks.len()) {
                Some(b) => Some(em_then(a, b)),
                None => None,
            },
            None => None,
        }
    }
}

/// What compiling operands `k - 1` down to `0`, last first, adds.
pub open spec fn em_rev(
    f: bool,
    kn: Seq<(String, Option<String>)>,
    items: Seq<Single>,
    k: nat,
    n: int,
) -> Option<Em>
    decreases items, k,
{
    if k == 0 || k > items.len() {
        Some(em_empty())
    } else {
        match em_single(f, kn, items[k - 1], n) {
            Some(a) => match em_rev(f, kn, items, (k - 1) as nat, n + a.blocks.len()) {
                Some(b) => Some(em_then(a, b)),
                None => None,
            },
            None => None,
        }
    }
}

/// What compiling rows `k - 1` down to `0` of a table, last first, each
/// gathered into an array, adds.
pub open spec fn em_rows_rev(
    f: bool,
    kn: Seq<(String, Option<String>)>,
    rows: Seq<Vec<Single>>,
    k: nat,
    n: int,
) -> Option<Em>
    decreases rows, k,
{
    if k == 0 || k > rows.len() {
        Some(em_empty())
    } else {
        match em_rev(f, kn, rows[k - 1]@, rows[k - 1]@.len(), n) {
            Some(a) => {
                let a2 = em_push(a, Op::CollectArray(rows[k - 1]@.len() as int));
                match em_rows_rev(f, kn, rows, (k - 1) as nat, n + a2.blocks.len()) {
                    Some(b) => Some(em_then(a2, b)),
                    None => None,
                }
            },
            None => None,
        }
    }
}

/// What compiling the first `k` statements, in order, adds.
pub open spec fn em_asts(
    f: bool,
    kn: Seq<(String, Option<String>)>,
    body: Seq<Ast>,
    k: nat,
    n: int,
) -> Option<Em>
    decreases body, k,
{
    if k == 0 || k > body.len() {
        Some(em_empty())
    } else {
        match em_asts(f, kn, body, (k - 1) as nat, n) {
            Some(a) => match em_ast(f, kn, body[k - 1], n + a.blocks.len()) {
                Some(b) => Some(em_then(a, b)),
                None => None,
            },
            None => None,
        }
    }
}

/// What compiling a pipeline stage adds, and the stage as it is run. A
/// command's arguments are compiled last first, muffled; a `where` stage's
/// condition becomes a block of its own.
pub open spec fn em_item(f: bool, kn: Seq<(String, Option<String>)>, it: PipelineItem, n: int) -> Option<
    (Em, ItemM),
>
    decreases it, 0nat,
{
    match it {
        PipelineItem::Command(c) => match em_rev(true, kn, c.argv@, c.argv@.len(), n) {
            Some(a) => Some(
                (
                    Em {
                        out: a.out,
                        blocks: a.blocks,
                        warns: not_found(kn, c.lc, c.cmd@) + a.warns,
                    },
                    ItemM::Command(
                        CmdM {
                            lc: c.lc,
                            orig: c.cmd@,
                            path: resolved_path(kn, c.cmd@),
                            argc: c.argv@.len() as int,
                        },
                    ),
                ),
            ),
            None => None,
        },
        PipelineItem::Where(func, lc) => match em_ast(f, kn, *func, n) {
            Some(e) => Some(
                (
                    Em {
                        out: Seq::empty(),
                        blocks: e.blocks.push((BlockKind::Internal, e.out.push(Op::Return))),
                        warns: e.warns,
                    },
                    ItemM::Where(n + e.blocks.len(), lc),
                ),
            ),
            None => None,
        },
        PipelineItem::Sub(_) => None,
    }
}

/// What compiling the first `k` stages of a pipeline adds, and the stages
/// as they are run.
pub open spec fn em_pipe(
    f: bool,
    kn: Seq<(String, Option<String>)>,
    items: Seq<PipelineItem>,
    k: nat,
    n: int,
) -> Option<(Em, Seq<ItemM>)>
    decreases items, k,
{
    if k == 0 || k > items.len() {
        Some((em_empty(), Seq::empty()))
    } else {
        match em_pipe(f, kn, items, (k - 1) as nat, n) {
            Some((a, ia)) => match em_item(f, kn, items[k - 1], n + a.blocks.len()) {
                Some((b, it)) => Some((em_then(a, b), ia.push(it))),
                None => None,
            },
            None => None,
        }
    }
}

/// What compiling a command statement adds: `cd` with its one argument
/// changes directory; any other command is resolved, warned about when it
/// resolves to nothing, and run with its arguments compiled last first,
/// muffled. `cd` with another number of arguments does not compile.
pub open spec fn em_command(f: bool, kn: Seq<(String, Option<String>)>, c: Command, n: int) -> Option<
    Em,
>
    decreases c, 0nat,
{
    if c.cmd@ == "cd"@ {
        if c.argv@.len() != 1 {
            None
        } else {
            match em_single(f, kn, c.argv@[0], n) {
                Some(a) => Some(em_push(a, Op::ChangeDir)),
                None => None,
            }
        }
    } else {
        match em_rev(true, kn, c.argv@, c.argv@.len(), n) {
            Some(a) => Some(
                Em {
                    out: a.out.push(
                        Op::Run(
                            f,
                            CmdM {
                                lc: c.lc,
                                orig: c.cmd@,
                                path: resolved_path(kn, c.cmd@),
                                argc: c.argv@.len() as int,
                            },
                        ),
                    ),
                    blocks: a.blocks,
                    warns: not_found(kn, c.lc, c.cmd@) + a.warns,
                },
            ),
            None => None,
        }
    }
}

/// What compiling the initial value of a pipeline adds.
pub open spec fn em_initial(f: bool, kn: Seq<(String, Option<String>)>, p: Pipeline, n: int) -> Option<Em>
    decreases p, 1nat,
{
    match p.initial_value {
        Some(t) => em_token(f, kn, t, n),
        None => Some(em_empty()),
    }
}

/// What compiling a pipeline adds: its initial value, then its stages, then
/// the instruction that runs them. A pipeline with a subshell stage does
/// not compile.
pub open spec fn em_pipeline(f: bool, kn: Seq<(String, Option<String>)>, p: Pipeline, n: int) -> Option<
    Em,
>
    decreases p, 2nat,
{
    if !pipeline_simple(p) {
        None
    } else {
        match em_initial(f, kn, p, n) {
            Some(a) => match em_pipe(f, kn, p.items@, p.items@.len(), n + a.blocks.len()) {
                Some((b, its)) => Some(
                    em_push(em_then(a, b), Op::RunPipeline(f, p.initial_value is Some, its)),
                ),
                None => None,
            },
            None => None,
        }
    }
}

/// What compiling a statement adds, when `n` blocks are made so far;
/// `None` where it holds something that does not compile: a chain, a
/// `where` statement, a pipeline with a subshell stage, or `cd` without
/// exactly one argument.
pub open spec fn em_ast(f: bool, kn: Seq<(String, Option<String>)>, a: Ast, n: int) -> Option<Em>
    decreases a, 0nat,
{
    match a {
        Ast::Stmt(_, st) => match st {
            Stmt::Token(t) => em_token(f, kn, t, n),
            Stmt::Assert(asr) => match em_ast(f, kn, *asr.body, n) {
                Some(e) => Some(em_push(em_sub(e, n, false), Op::Assert(asr.lc))),
                None => None,
            },
            Stmt::Assignment(asg) => match em_single(true, kn, asg.rhs, n) {
                Some(a1) => match em_fields(
                    f,
                    kn,
                    asg.lhs.fields@,
                    asg.lhs.fields@.len(),
                    n + a1.blocks.len(),
                ) {
                    Some(a2) => Some(
                        em_push(em_then(em_push(a1, Op::VarRef(asg.lhs.name@)), a2), Op::SetVar),
                    ),
                    None => None,
                },
                None => None,
            },
            Stmt::TestDecl(td) => match em_asts(f, kn, td.body@, td.body@.len(), n) {
                Some(e) => Some(
                    Em {
                        out: Seq::empty(),
                        blocks: e.blocks.push(
                            (
                                BlockKind::Test(td.name@),
                                seq![Op::EnterTest(td.name@)] + e.out + seq![
                                    Op::RecordTestSuccess,
                                    Op::Return,
                                ],
                            ),
                        ),
                        warns: e.warns,
                    },
                ),
                None => None,
            },
            Stmt::Sub(body) => match em_ast(f, kn, *body, n) {
                Some(e) => Some(em_sub(e, n, false)),
                None => None,
            },
            Stmt::BoolExpr(be) => match em_single(f, kn, be.lhs, n) {
                Some(a1) => match em_single(f, kn, be.rhs, n + a1.blocks.len()) {
                    Some(a2) => Some(em_push(em_then(a1, a2), Op::BinOp(be.op))),
                    None => None,
                },
                None => None,
            },
            Stmt::BoolNegate(inner) => match em_single(f, kn, inner, n) {
                Some(a1) => Some(em_push(a1, Op::Negate)),
                None => None,
            },
            Stmt::Command(c) => em_command(f, kn, c, n),
            Stmt::Pipeline(p) => em_pipeline(f, kn, p, n),
            Stmt::Background(body) => match em_ast(f, kn, *body, n) {
                Some(e) => Some(em_sub(e, n, true)),
                None => None,
            },
            Stmt::Chain(_) => None,
            Stmt::Where(_) => None,
        },
    }
}


/// Whether compiling took `c0` and `out0` to `c1` and `out1` by adding
/// what `e` says.
pub open spec fn emitted_as(c0: Compiler, out0: Seq<Instr>, c1: Compiler, out1: Seq<Instr>, e: Em) -> bool {
    &&& ops_of(out1) == ops_of(out0) + e.out
    &&& blocks_model(c1.blocks@) == blocks_model(c0.blocks@) + e.blocks
    &&& c1.blocks@.len() == c0.blocks@.len() + e.blocks.len()
    &&& warns_model(c1.warnings@) == warns_model(c0.warnings@) + e.warns
}

/// Appends an instruction.
fn emit(out: &mut Vec<Instr>, i: Instr)
    ensures
        ops_of(final(out)@) == ops_of(old(out)@).push(op_of(i)),
{
    out.push(i);
    assert(ops_of(out@) =~= ops_of(old(out)@).push(op_of(i)));
}

/// A copy of a number, string or word.
fn copy_scalar(t: &Token) -> (c: Token)
    ensures
        lit_of(c) == lit_of(*t),
{
    match t {
        Token::Int(i) => Token::Int(*i),
        Token::Float(s) => Token::Float(s.clone()),
        Token::String(s) => Token::String(s.clone()),
        Token::Word(s) => Token::Word(s.clone()),
        _ => Token::Word(String::new()),
    }
}

/// The executable the first entry of `known` named `cmd` gives.
fn resolve(known: &[(String, Option<String>)], cmd: &String) -> (p: Option<String>)
    ensures
        opt_text(p) == resolved_path(known@, cmd@),
{
    let mut i: usize = 0;
    while i < known.len()
        invariant
            0 <= i <= known@.len(),
            resolved_from(known@, cmd@, i as int) == resolved_path(known@, cmd@),
        decreases known.len() - i,
    {
        if same_text(&known[i].0, cmd.as_str()) {
            return match &known[i].1 {
                Some(s) => Some(s.clone()),
                None => None,
            };
        }
        i += 1;
    }
    None
}

impl Compiler {
    /// Adds a warning that a command resolves to nothing, when it does not.
    fn warn_if_missing(&mut self, known: &[(String, Option<String>)], lc: LineCol, cmd: &String, path: &Option<String>)
        requires
            opt_text(*path) == resolved_path(known@, cmd@),
        ensures
            final(self).blocks@ == old(self).blocks@,
            warns_model(final(self).warnings@) == warns_model(old(self).warnings@) + not_found(known@, lc, cmd@),
    {
        if path.is_none() {
            self.warnings.push(Warning::CommandNotFound(lc, cmd.clone()));
        }
        assert(warns_model(self.warnings@) =~= warns_model(old(self).warnings@) + not_found(known@, lc, cmd@));
    }

    /// Adds a block.
    fn add_block(&mut self, b: Block)
        ensures
            final(self).warnings@ == old(self).warnings@,
            blocks_model(final(self).blocks@) == blocks_model(old(self).blocks@).push(
                (kind_of(b.id), ops_of(b.contents@)),
            ),
            final(self).blocks@.len() == old(self).blocks@.len() + 1,
    {
        let ghost bb = b;
        self.blocks.push(b);
        assert(blocks_model(self.blocks@) =~= blocks_model(old(self).blocks@).push(
            (kind_of(bb.id), ops_of(bb.contents@)),
        ));
    }

    /// Compiles a token.
    pub fn compile_token(
        &mut self,
        flags: Flags,
        known: &[(String, Option<String>)],
        tok: &Token,
        out: &mut Vec<Instr>,
    ) -> (r: Result<(), CompileError>)
        requires
            em_token(flags.muffle, known@, *tok, old(self).blocks@.len() as int) is Some,
        ensures
            r is Ok,
            emitted_as(
                *old(self),
                old(out)@,
                *final(self),
                final(out)@,
                em_token(flags.muffle, known@, *tok, old(self).blocks@.len() as int).unwrap(),
            ),
        decreases *tok, 0nat,
    {
        let ghost n = self.blocks@.len() as int;
        match tok {
            Token::Var(v) => {
                emit(out, Instr::VarRef(v.name.clone()));
                self.compile_fields(flags, known, v.fields.as_slice(), v.fields.len(), out)?;
                emit(out, Instr::Deref);
                let ghost e = em_fields(flags.muffle, known@, v.fields@, v.fields@.len(), n).unwrap();
                assert(ops_of(out@) =~= ops_of(old(out)@) + (seq![Op::VarRef(v.name@)] + e.out.push(Op::Deref)));
            },
            Token::Array(a) => {
                self.compile_rev(flags, known, a.items.as_slice(), a.items.len(), out)?;
                emit(out, Instr::CollectArray(a.items.len()));
                let ghost e = em_rev(flags.muffle, known@, a.items@, a.items@.len(), n).unwrap();
                assert(ops_of(out@) =~= ops_of(old(out)@) + e.out.push(Op::CollectArray(a.items@.len() as int)));
            },
            Token::Table(tb) => {
                self.compile_rev(flags, known, tb.header.as_slice(), tb.header.len(), out)?;
                emit(out, Instr::CollectArray(tb.header.len()));
                let ghost h = em_rev(flags.muffle, known@, tb.header@, tb.header@.len(), n).unwrap();
                let ghost mid_out = out@;
                let ghost mid = *self;
                self.compile_rows_rev(flags, known, tb.rows.as_slice(), tb.rows.len(), out)?;
                emit(out, Instr::CollectTable(tb.rows.len()));
                let ghost h2 = em_push(h, Op::CollectArray(tb.header@.len() as int));
                let ghost rr = em_rows_rev(flags.muffle, known@, tb.rows@, tb.rows@.len(), n + h2.blocks.len()).unwrap();
                assert(ops_of(out@) =~= ops_of(old(out)@) + (h2.out + rr.out).push(Op::CollectTable(tb.rows@.len() as int)));
                assert(blocks_model(self.blocks@) =~= blocks_model(old(self).blocks@) + (h2.blocks + rr.blocks));
                assert(warns_model(self.warnings@) =~= warns_model(old(self).warnings@) + (h2.warns + rr.warns));
            },
            _ => {
                emit(out, Instr::Load(copy_scalar(tok)));
                assert(ops_of(out@) =~= ops_of(old(out)@) + seq![Op::Load(lit_of(*tok))]);
                assert(blocks_model(self.blocks@) =~= blocks_model(old(self).blocks@) + Seq::empty());
                assert(warns_model(self.warnings@) =~= warns_model(old(self).warnings@) + Seq::empty());
            },
        }
        Ok(())
    }

    /// Compiles an operand: a token, or a subshell, whose statement becomes
    /// a block of its own that the current block calls.
    pub fn compile_single(
        &mut self,
        flags: Flags,
        known: &[(String, Option<String>)],
        operand: &Single,
        out: &mut Vec<Instr>,
    ) -> (r: Result<(), CompileError>)
        requires
            em_single(flags.muffle, known@, *operand, old(self).blocks@.len() as int) is Some,
        ensures
            r is Ok,
            emitted_as(
                *old(self),
                old(out)@,
                *final(self),
                final(out)@,
                em_single(flags.muffle, known@, *operand, old(self).blocks@.len() as int).unwrap(),
            ),
        decreases *operand, 0nat,
    {
        let ghost n = self.blocks@.len() as int;
        match operand {
            Single::Token(tok) => {
                self.compile_token(flags, known, tok, out)?;
            },
            Single::Sub(body) => {
                self.compile_sub(flags, known, body, false, out)?;
            },
        }
        Ok(())
    }

    /// Compiles a selection: its operand, then the selection.
    fn compile_field(
        &mut self,
        flags: Flags,
        known: &[(String, Option<String>)],
        field: &FieldExpr,
        out: &mut Vec<Instr>,
    ) -> (r: Result<(), CompileError>)
        requires
            em_field(flags.muffle, known@, *field, old(self).blocks@.len() as int) is Some,
        ensures
            r is Ok,
            emitted_as(
                *old(self),
                old(out)@,
                *final(self),
                final(out)@,
                em_field(flags.muffle, known@, *field, old(self).blocks@.len() as int).unwrap(),
            ),
        decreases *field, 0nat,
    {
        let ghost n = self.blocks@.len() as int;
        match field {
            FieldExpr::Column(operand) => {
                self.compile_single(flags, known, operand, out)?;
                emit(out, Instr::GetColumn);
                let ghost e = em_single(flags.muffle, known@, *operand, n).unwrap();
                assert(ops_of(out@) =~= ops_of(old(out)@) + e.out.push(Op::GetColumn));
            },
            FieldExpr::Index(operand) => {
                self.compile_single(flags, known, operand, out)?;
                emit(out, Instr::GetIndex);
                let ghost e = em_single(flags.muffle, known@, *operand, n).unwrap();
                assert(ops_of(out@) =~= ops_of(old(out)@) + e.out.push(Op::GetIndex));
            },
        }
        Ok(())
    }

    /// Compiles the first `k` selections in order.
    fn compile_fields(
        &mut self,
        flags: Flags,
        known: &[(String, Option<String>)],
        fields: &[FieldExpr],
        k: usize,
        out: &mut Vec<Instr>,
    ) -> (r: Result<(), CompileError>)
        requires
            k <= fields@.len(),
            em_fields(flags.muffle, known@, fields@, k as nat, old(self).blocks@.len() as int) is Some,
        ensures
            r is Ok,
            emitted_as(
                *old(self),
                old(out)@,
                *final(self),
                final(out)@,
                em_fields(flags.muffle, known@, fields@, k as nat, old(self).blocks@.len() as int).unwrap(),
            ),
        decreases fields@, k,
    {
        let ghost n = self.blocks@.len() as int;
        if k == 0 {
            assert(ops_of(out@) =~= ops_of(old(out)@) + Seq::empty());
            assert(blocks_model(self.blocks@) =~= blocks_model(old(self).blocks@) + Seq::empty());
            assert(warns_model(self.warnings@) =~= warns_model(old(self).warnings@) + Seq::empty());
            return Ok(());
        }
        self.compile_fields(flags, known, fields, k - 1, out)?;
        self.compile_field(flags, known, &fields[k - 1], out)?;
        let ghost a = em_fields(flags.muffle, known@, fields@, (k - 1) as nat, n).unwrap();
        let ghost b = em_field(flags.muffle, known@, fields@[k - 1], n + a.blocks.len()).unwrap();
        assert(ops_of(out@) =~= ops_of(old(out)@) + (a.out + b.out));
        assert(blocks_model(self.blocks@) =~= blocks_model(old(self).blocks@) + (a.blocks + b.blocks));
        assert(warns_model(self.warnings@) =~= warns_model(old(self).warnings@) + (a.warns + b.warns));
        Ok(())
    }

    /// Compiles operands `k - 1` down to `0`, last first.
    fn compile_rev(
        &mut self,
        flags: Flags,
        known: &[(String, Option<String>)],
        items: &[Single],
        k: usize,
        out: &mut Vec<Instr>,
    ) -> (r: Result<(), CompileError>)
        requires
            k <= items@.len(),
            em_rev(flags.muffle, known@, items@, k as nat, old(self).blocks@.len() as int) is Some,
        ensures
            r is Ok,
            emitted_as(
                *old(self),
                old(out)@,
                *final(self),
                final(out)@,
                em_rev(flags.muffle, known@, items@, k as nat, old(self).blocks@.len() as int).unwrap(),
            ),
        decreases items@, k,
    {
        let ghost n = self.blocks@.len() as int;
        if k == 0 {
            assert(ops_of(out@) =~= ops_of(old(out)@) + Seq::empty());
            assert(blocks_model(self.blocks@) =~= blocks_model(old(self).blocks@) + Seq::empty());
            assert(warns_model(self.warnings@) =~= warns_model(old(self).warnings@) + Seq::empty());
            return Ok(());
        }
        self.compile_single(flags, known, &items[k - 1], out)?;
        self.compile_rev(flags, known, items, k - 1, out)?;
        let ghost a = em_single(flags.muffle, known@, items@[k - 1], n).unwrap();
        let ghost b = em_rev(flags.muffle, known@, items@, (k - 1) as nat, n + a.blocks.len()).unwrap();
        assert(ops_of(out@) =~= ops_of(old(out)@) + (a.out + b.out));
        assert(blocks_model(self.blocks@) =~= blocks_model(old(self).blocks@) + (a.blocks + b.blocks));
        assert(warns_model(self.warnings@) =~= warns_model(old(self).warnings@) + (a.warns + b.warns));
        Ok(())
    }

    /// Compiles rows `k - 1` down to `0` of a table, last first, each
    /// gathered into an array.
    fn compile_rows_rev(
        &mut self,
        flags: Flags,
        known: &[(String, Option<String>)],
        rows: &[Vec<Single>],
        k: usize,
        out: &mut Vec<Instr>,
    ) -> (r: Result<(), CompileError>)
        requires
            k <= rows@.len(),
            em_rows_rev(flags.muffle, known@, rows@, k as nat, old(self).blocks@.len() as int) is Some,
        ensures
            r is Ok,
            emitted_as(
                *old(self),
                old(out)@,
                *final(self),
                final(out)@,
                em_rows_rev(flags.muffle, known@, rows@, k as nat, old(self).blocks@.len() as int).unwrap(),
            ),
        decreases rows@, k,
    {
        let ghost n = self.blocks@.len() as int;
        if k == 0 {
            assert(ops_of(out@) =~= ops_of(old(out)@) + Seq::empty());
            assert(blocks_model(self.blocks@) =~= blocks_model(old(self).blocks@) + Seq::empty());
            assert(warns_model(self.warnings@) =~= warns_model(old(self).warnings@) + Seq::empty());
            return Ok(());
        }
        let row = &rows[k - 1];
        self.compile_rev(flags, known, row.as_slice(), row.len(), out)?;
        emit(out, Instr::CollectArray(row.len()));
        self.compile_rows_rev(flags, known, rows, k - 1, out)?;
        let ghost a = em_rev(flags.muffle, known@, row@, row@.len(), n).unwrap();
        let ghost a2 = em_push(a, Op::CollectArray(row@.len() as int));
        let ghost b = em_rows_rev(flags.muffle, known@, rows@, (k - 1) as nat, n + a2.blocks.len()).unwrap();
        assert(ops_of(out@) =~= ops_of(old(out)@) + (a2.out + b.out));
        assert(blocks_model(self.blocks@) =~= blocks_model(old(self).blocks@) + (a2.blocks + b.blocks));
        assert(warns_model(self.warnings@) =~= warns_model(old(self).warnings@) + (a2.warns + b.warns));
        Ok(())
    }

    /// Compiles the first `k` statements in order.
    fn compile_body(
        &mut self,
        flags: Flags,
        known: &[(String, Option<String>)],
        body: &[Ast],
        k: usize,
        out: &mut Vec<Instr>,
    ) -> (r: Result<(), CompileError>)
        requires
            k <= body@.len(),
            em_asts(flags.muffle, known@, body@, k as nat, old(self).blocks@.len() as int) is Some,
        ensures
            r is Ok,
            emitted_as(
                *old(self),
                old(out)@,
                *final(self),
                final(out)@,
                em_asts(flags.muffle, known@, body@, k as nat, old(self).blocks@.len() as int).unwrap(),
            ),
        decreases body@, k,
    {
        let ghost n = self.blocks@.len() as int;
        if k == 0 {
            assert(ops_of(out@) =~= ops_of(old(out)@) + Seq::empty());
            assert(blocks_model(self.blocks@) =~= blocks_model(old(self).blocks@) + Seq::empty());
            assert(warns_model(self.warnings@) =~= warns_model(old(self).warnings@) + Seq::empty());
            return Ok(());
        }
        self.compile_body(flags, known, body, k - 1, out)?;
        self.compile_ast(flags, known, &body[k - 1], out)?;
        let ghost a = em_asts(flags.muffle, known@, body@, (k - 1) as nat, n).unwrap();
        let ghost b = em_ast(flags.muffle, known@, body@[k - 1], n + a.blocks.len()).unwrap();
        assert(ops_of(out@) =~= ops_of(old(out)@) + (a.out + b.out));
        assert(blocks_model(self.blocks@) =~= blocks_model(old(self).blocks@) + (a.blocks + b.blocks));
        assert(warns_model(self.warnings@) =~= warns_model(old(self).warnings@) + (a.warns + b.warns));
        Ok(())
    }


    /// Compiles a statement into a block of its own, ended by `Return`,
    /// and has the current block call it, at once or on a machine of its
    /// own.
    fn compile_sub(
        &mut self,
        flags: Flags,
        known: &[(String, Option<String>)],
        body: &Ast,
        is_async: bool,
        out: &mut Vec<Instr>,
    ) -> (r: Result<(), CompileError>)
        requires
            em_ast(flags.muffle, known@, *body, old(self).blocks@.len() as int) is Some,
        ensures
            r is Ok,
            emitted_as(
                *old(self),
                old(out)@,
                *final(self),
                final(out)@,
                em_sub(
                    em_ast(flags.muffle, known@, *body, old(self).blocks@.len() as int).unwrap(),
                    old(self).blocks@.len() as int,
                    is_async,
                ),
            ),
        decreases *body, 1nat,
    {
        let ghost n = self.blocks@.len() as int;
        let mut contents: Vec<Instr> = Vec::new();
        self.compile_ast(flags, known, body, &mut contents)?;
        emit(&mut contents, Instr::Return);
        self.add_block(Block { id: BlockId::Internal, contents });
        let block = self.blocks.len() - 1;
        if is_async {
            emit(out, Instr::CallAsync { block });
        } else {
            emit(out, Instr::Call { block });
        }
        let ghost e = em_ast(flags.muffle, known@, *body, n).unwrap();
        assert(ops_of(contents@) =~= e.out.push(Op::Return));
        assert(ops_of(out@) =~= ops_of(old(out)@) + em_sub(e, n, is_async).out);
        assert(blocks_model(self.blocks@) =~= blocks_model(old(self).blocks@) + em_sub(e, n, is_async).blocks);
        Ok(())
    }

    /// Compiles a pipeline stage, returning it as it is run.
    fn compile_item(
        &mut self,
        flags: Flags,
        known: &[(String, Option<String>)],
        item: &PipelineItem,
        out: &mut Vec<Instr>,
    ) -> (r: Result<RunPipelineItem, CompileError>)
        requires
            em_item(flags.muffle, known@, *item, old(self).blocks@.len() as int) is Some,
        ensures
            r matches Ok(it) && item_model(it) == em_item(
                flags.muffle,
                known@,
                *item,
                old(self).blocks@.len() as int,
            ).unwrap().1,
            emitted_as(
                *old(self),
                old(out)@,
                *final(self),
                final(out)@,
                em_item(flags.muffle, known@, *item, old(self).blocks@.len() as int).unwrap().0,
            ),
        decreases *item, 0nat,
    {
        let ghost n = self.blocks@.len() as int;
        match item {
            PipelineItem::Command(c) => {
                let orig = c.cmd.clone();
                let command_path = resolve(known, &orig);
                self.warn_if_missing(known, c.lc, &orig, &command_path);
                self.compile_rev(flags.muffle(), known, c.argv.as_slice(), c.argv.len(), out)?;
                let ghost a = em_rev(true, known@, c.argv@, c.argv@.len(), n).unwrap();
                assert(warns_model(self.warnings@) =~= warns_model(old(self).warnings@) + (not_found(known@, c.lc, c.cmd@) + a.warns));
                Ok(RunPipelineItem::Command(Command2 { lc: c.lc, orig, argc: c.argv.len(), path: command_path }))
            },
            PipelineItem::Where(func, lc) => {
                let mut contents: Vec<Instr> = Vec::new();
                self.compile_ast(flags, known, func, &mut contents)?;
                emit(&mut contents, Instr::Return);
                self.add_block(Block { id: BlockId::Internal, contents });
                let ghost e = em_ast(flags.muffle, known@, **func, n).unwrap();
                assert(ops_of(contents@) =~= e.out.push(Op::Return));
                assert(ops_of(out@) =~= ops_of(old(out)@) + Seq::empty());
                assert(blocks_model(self.blocks@) =~= blocks_model(old(self).blocks@) + e.blocks.push((BlockKind::Internal, e.out.push(Op::Return))));
                Ok(RunPipelineItem::Where { block: self.blocks.len() - 1, lc: *lc })
            },
            PipelineItem::Sub(_) => Err(CompileError {}),
        }
    }

    /// Compiles the first `k` stages of a pipeline, adding them as they
    /// are run to `items_out`.
    fn compile_items(
        &mut self,
        flags: Flags,
        known: &[(String, Option<String>)],
        items: &[PipelineItem],
        k: usize,
        out: &mut Vec<Instr>,
        items_out: &mut Vec<RunPipelineItem>,
    ) -> (r: Result<(), CompileError>)
        requires
            k <= items@.len(),
            em_pipe(flags.muffle, known@, items@, k as nat, old(self).blocks@.len() as int) is Some,
        ensures
            r is Ok,
            items_model(final(items_out)@) == items_model(old(items_out)@) + em_pipe(
                flags.muffle,
                known@,
                items@,
                k as nat,
                old(self).blocks@.len() as int,
            ).unwrap().1,
            emitted_as(
                *old(self),
                old(out)@,
                *final(self),
                final(out)@,
                em_pipe(flags.muffle, known@, items@, k as nat, old(self).blocks@.len() as int).unwrap().0,
            ),
        decreases items@, k,
    {
        let ghost n = self.blocks@.len() as int;
        if k == 0 {
            assert(items_model(items_out@) =~= items_model(old(items_out)@) + Seq::empty());
            assert(ops_of(out@) =~= ops_of(old(out)@) + Seq::empty());
            assert(blocks_model(self.blocks@) =~= blocks_model(old(self).blocks@) + Seq::empty());
            assert(warns_model(self.warnings@) =~= warns_model(old(self).warnings@) + Seq::empty());
            return Ok(());
        }
        self.compile_items(flags, known, items, k - 1, out, items_out)?;
        let ghost mid = items_out@;
        let it = self.compile_item(flags, known, &items[k - 1], out)?;
        let ghost itm = item_model(it);
        items_out.push(it);
        assert(items_model(items_out@) =~= items_model(mid).push(itm));
        let ghost pa = em_pipe(flags.muffle, known@, items@, (k - 1) as nat, n).unwrap();
        let ghost pb = em_item(flags.muffle, known@, items@[k - 1], n + pa.0.blocks.len()).unwrap();
        assert(items_model(items_out@) =~= items_model(old(items_out)@) + pa.1.push(pb.1));
        assert(ops_of(out@) =~= ops_of(old(out)@) + (pa.0.out + pb.0.out));
        assert(blocks_model(self.blocks@) =~= blocks_model(old(self).blocks@) + (pa.0.blocks + pb.0.blocks));
        assert(warns_model(self.warnings@) =~= warns_model(old(self).warnings@) + (pa.0.warns + pb.0.warns));
        Ok(())
    }

    /// Compiles a command statement.
    fn compile_command(
        &mut self,
        flags: Flags,
        known: &[(String, Option<String>)],
        command: &Command,
        out: &mut Vec<Instr>,
    ) -> (r: Result<(), CompileError>)
        requires
            em_command(flags.muffle, known@, *command, old(self).blocks@.len() as int) is Some,
        ensures
            r is Ok,
            emitted_as(
                *old(self),
                old(out)@,
                *final(self),
                final(out)@,
                em_command(flags.muffle, known@, *command, old(self).blocks@.len() as int).unwrap(),
            ),
        decreases *command, 0nat,
    {
        let ghost n = self.blocks@.len() as int;
        if same_text(&command.cmd, "cd") {
            self.compile_single(flags, known, &command.argv[0], out)?;
            emit(out, Instr::ChangeDir);
            let ghost a = em_single(flags.muffle, known@, command.argv@[0], n).unwrap();
            assert(ops_of(out@) =~= ops_of(old(out)@) + a.out.push(Op::ChangeDir));
        } else {
            let orig = command.cmd.clone();
            let command_path = resolve(known, &orig);
            self.warn_if_missing(known, command.lc, &orig, &command_path);
            self.compile_rev(flags.muffle(), known, command.argv.as_slice(), command.argv.len(), out)?;
            let argc = command.argv.len();
            emit(out, Instr::Run {
                muffle: flags.muffle,
                command: Command2 { lc: command.lc, orig, path: command_path, argc },
            });
            let ghost a = em_rev(true, known@, command.argv@, command.argv@.len(), n).unwrap();
            let ghost e = em_command(flags.muffle, known@, *command, n).unwrap();
            assert(ops_of(out@) =~= ops_of(old(out)@) + e.out);
            assert(warns_model(self.warnings@) =~= warns_model(old(self).warnings@) + (not_found(known@, command.lc, command.cmd@) + a.warns));
        }
        Ok(())
    }

    /// Compiles a pipeline: its initial value, its stages, then the
    /// instruction that runs them.
    #[verifier::rlimit(40)]
    fn compile_pipeline(
        &mut self,
        flags: Flags,
        known: &[(String, Option<String>)],
        pipeline: &Pipeline,
        out: &mut Vec<Instr>,
    ) -> (r: Result<(), CompileError>)
        requires
            em_pipeline(flags.muffle, known@, *pipeline, old(self).blocks@.len() as int) is Some,
        ensures
            r is Ok,
            emitted_as(
                *old(self),
                old(out)@,
                *final(self),
                final(out)@,
                em_pipeline(flags.muffle, known@, *pipeline, old(self).blocks@.len() as int).unwrap(),
            ),
        decreases *pipeline, 0nat,
    {
        let ghost n = self.blocks@.len() as int;
        let is_there_initial_value = pipeline.initial_value.is_some();
        match &pipeline.initial_value {
            Some(token) => {
                self.compile_token(flags, known, token, out)?;
            },
            None => {
                assert(ops_of(out@) =~= ops_of(old(out)@) + Seq::empty());
                assert(blocks_model(self.blocks@) =~= blocks_model(old(self).blocks@) + Seq::empty());
                assert(warns_model(self.warnings@) =~= warns_model(old(self).warnings@) + Seq::empty());
            },
        }
        let ghost a = em_initial(flags.muffle, known@, *pipeline, n).unwrap();
        let mut items: Vec<RunPipelineItem> = Vec::new();
        self.compile_items(flags, known, pipeline.items.as_slice(), pipeline.items.len(), out, &mut items)?;
        let ghost pb = em_pipe(flags.muffle, known@, pipeline.items@, pipeline.items@.len(), n + a.blocks.len()).unwrap();
        assert(items_model(items@) =~= pb.1);
        emit(out, Instr::RunPipeline { muffle: flags.muffle, is_there_initial_value, items });
        assert(ops_of(out@) =~= ops_of(old(out)@) + (a.out + pb.0.out).push(Op::RunPipeline(flags.muffle, pipeline.initial_value is Some, pb.1)));
        assert(blocks_model(self.blocks@) =~= blocks_model(old(self).blocks@) + (a.blocks + pb.0.blocks));
        assert(warns_model(self.warnings@) =~= warns_model(old(self).warnings@) + (a.warns + pb.0.warns));
        Ok(())
    }

    /// Compiles a statement into `out`, adding the blocks and warnings it
    /// makes. Chains, `where` statements, pipelines with a subshell stage
    /// and `cd` without exactly one argument are not compiled: the
    /// contract leaves them out.
    #[verifier::rlimit(40)]
    pub fn compile_ast(
        &mut self,
        flags: Flags,
        known: &[(String, Option<String>)],
        ast: &Ast,
        out: &mut Vec<Instr>,
    ) -> (r: Result<(), CompileError>)
        requires
            em_ast(flags.muffle, known@, *ast, old(self).blocks@.len() as int) is Some,
        ensures
            r is Ok,
            emitted_as(
                *old(self),
                old(out)@,
                *final(self),
                final(out)@,
                em_ast(flags.muffle, known@, *ast, old(self).blocks@.len() as int).unwrap(),
            ),
        decreases *ast, 0nat,
    {
        let ghost n = self.blocks@.len() as int;
        let Ast::Stmt(_lc, stmt) = ast;
        match stmt {
            Stmt::Token(token) => {
                self.compile_token(flags, known, token, out)?;
            },
            Stmt::Assert(asr) => {
                self.compile_sub(flags, known, &asr.body, false, out)?;
                emit(out, Instr::Assert(asr.lc));
                let ghost e = em_sub(em_ast(flags.muffle, known@, *asr.body, n).unwrap(), n, false);
                assert(ops_of(out@) =~= ops_of(old(out)@) + e.out.push(Op::Assert(asr.lc)));
            },
            Stmt::Assignment(asg) => {
                self.compile_single(flags.muffle(), known, &asg.rhs, out)?;
                emit(out, Instr::VarRef(asg.lhs.name.clone()));
                let ghost a1 = em_single(true, known@, asg.rhs, n).unwrap();
                self.compile_fields(flags, known, asg.lhs.fields.as_slice(), asg.lhs.fields.len(), out)?;
                emit(out, Instr::SetVar);
                let ghost a2 = em_fields(flags.muffle, known@, asg.lhs.fields@, asg.lhs.fields@.len(), n + a1.blocks.len()).unwrap();
                assert(ops_of(out@) =~= ops_of(old(out)@) + (a1.out.push(Op::VarRef(asg.lhs.name@)) + a2.out).push(Op::SetVar));
                assert(blocks_model(self.blocks@) =~= blocks_model(old(self).blocks@) + (a1.blocks + a2.blocks));
                assert(warns_model(self.warnings@) =~= warns_model(old(self).warnings@) + (a1.warns + a2.warns));
            },
            Stmt::TestDecl(td) => {
                let mut contents: Vec<Instr> = Vec::new();
                emit(&mut contents, Instr::EnterTest(td.name.clone()));
                self.compile_body(flags, known, td.body.as_slice(), td.body.len(), &mut contents)?;
                emit(&mut contents, Instr::RecordTestSuccess);
                emit(&mut contents, Instr::Return);
                let name = td.name.clone();
                self.add_block(Block { id: BlockId::Test { name }, contents });
                let ghost e = em_asts(flags.muffle, known@, td.body@, td.body@.len(), n).unwrap();
                assert(ops_of(contents@) =~= seq![Op::EnterTest(td.name@)] + e.out + seq![Op::RecordTestSuccess, Op::Return]);
                assert(ops_of(out@) =~= ops_of(old(out)@) + Seq::empty());
            },
            Stmt::Sub(body) => {
                self.compile_sub(flags, known, body, false, out)?;
            },
            Stmt::BoolExpr(be) => {
                self.compile_single(flags, known, &be.lhs, out)?;
                let ghost a1 = em_single(flags.muffle, known@, be.lhs, n).unwrap();
                self.compile_single(flags, known, &be.rhs, out)?;
                emit(out, Instr::Op(be.op));
                let ghost a2 = em_single(flags.muffle, known@, be.rhs, n + a1.blocks.len()).unwrap();
                assert(ops_of(out@) =~= ops_of(old(out)@) + (a1.out + a2.out).push(Op::BinOp(be.op)));
                assert(blocks_model(self.blocks@) =~= blocks_model(old(self).blocks@) + (a1.blocks + a2.blocks));
                assert(warns_model(self.warnings@) =~= warns_model(old(self).warnings@) + (a1.warns + a2.warns));
            },
            Stmt::BoolNegate(inner) => {
                self.compile_single(flags, known, inner, out)?;
                emit(out, Instr::Negate);
                let ghost a1 = em_single(flags.muffle, known@, *inner, n).unwrap();
                assert(ops_of(out@) =~= ops_of(old(out)@) + a1.out.push(Op::Negate));
            },
            Stmt::Command(command) => {
                self.compile_command(flags, known, command, out)?;
            },
            Stmt::Pipeline(pipeline) => {
                self.compile_pipeline(flags, known, pipeline, out)?;
            },
            Stmt::Background(body) => {
                self.compile_sub(flags, known, body, true, out)?;
            },
            Stmt::Chain(_) => {
                return Err(CompileError {});
            },
            Stmt::Where(_) => {
                return Err(CompileError {});
            },
        }
        Ok(())
    }
}


/// Calls of the blocks among the first `k` that are tests, in order.
pub open spec fn test_calls(bs: Seq<(BlockKind, Seq<Op>)>, k: nat) -> Seq<Op>
    decreases k,
{
    if k == 0 || k > bs.len() {
        Seq::empty()
    } else {
        test_calls(bs, (k - 1) as nat) + if bs[k - 1].0 is Test {
            seq![Op::Call(k - 1)]
        } else {
            Seq::empty()
        }
    }
}

/// Whether every statement of a program compiles.
pub open spec fn compiles(kn: Seq<(String, Option<String>)>, asts: Seq<Ast>) -> bool {
    em_asts(false, kn, asts, asts.len(), 1) is Some
}

/// The warnings and blocks of a compiled program. Block 0 is the entry:
/// the statements' own instructions, unmuffled, ended by `Return`; the
/// blocks the statements make follow in the order they were made; the
/// last block calls every test block in order, then returns.
pub open spec fn compiled(kn: Seq<(String, Option<String>)>, asts: Seq<Ast>) -> (
    Seq<(LineCol, Seq<char>)>,
    Seq<(BlockKind, Seq<Op>)>,
) {
    let e = em_asts(false, kn, asts, asts.len(), 1).unwrap();
    let bs = seq![(BlockKind::Entry, e.out.push(Op::Return))] + e.blocks;
    (e.warns, bs.push((BlockKind::TestsEntry, test_calls(bs, bs.len()).push(Op::Return))))
}

/// Compiles a program into its warnings and blocks, resolving each
/// command's name with the first entry of `known` that bears it.
pub fn compile(known: &[(String, Option<String>)], ast: &[Ast]) -> (r: Result<
    (Vec<Warning>, Vec<Block>),
    CompileError,
>)
    requires
        compiles(known@, ast@),
    ensures
        r matches Ok((w, b)) && (warns_model(w@), blocks_model(b@)) == compiled(known@, ast@),
{
    let flags = Flags { muffle: false };
    let mut blocks: Vec<Block> = Vec::new();
    blocks.push(Block { id: BlockId::Entry, contents: Vec::new() });
    let mut compiler = Compiler { warnings: Vec::new(), blocks };
    let mut base_block: Vec<Instr> = Vec::new();
    let ghost c0 = compiler;
    compiler.compile_body(flags, known, ast, ast.len(), &mut base_block)?;
    let ghost e = em_asts(false, known@, ast@, ast@.len(), 1).unwrap();
    emit(&mut base_block, Instr::Return);
    let ghost before = compiler.blocks@;
    compiler.blocks.set(0, Block { id: BlockId::Entry, contents: base_block });
    let ghost bs = seq![(BlockKind::Entry, e.out.push(Op::Return))] + e.blocks;
    assert(blocks_model(compiler.blocks@) =~= bs) by {
        assert(blocks_model(before) =~= blocks_model(c0.blocks@) + e.blocks);
        assert(blocks_model(compiler.blocks@) =~= blocks_model(before).update(
            0,
            (BlockKind::Entry, e.out.push(Op::Return)),
        ));
    }
    let mut test_block: Vec<Instr> = Vec::new();
    let mut i: usize = 0;
    while i < compiler.blocks.len()
        invariant
            0 <= i <= compiler.blocks@.len(),
            blocks_model(compiler.blocks@) == bs,
            ops_of(test_block@) == test_calls(bs, i as nat),
        decreases compiler.blocks.len() - i,
    {
        match &compiler.blocks[i].id {
            BlockId::Test { .. } => {
                emit(&mut test_block, Instr::Call { block: i });
            },
            _ => {},
        }
        assert(bs[i as int].0 == kind_of(compiler.blocks@[i as int].id));
        assert(ops_of(test_block@) =~= test_calls(bs, (i + 1) as nat));
        i += 1;
    }
    emit(&mut test_block, Instr::Return);
    let ghost mid = compiler.blocks@;
    compiler.blocks.push(Block { id: BlockId::TestsEntry, contents: test_block });
    assert(blocks_model(compiler.blocks@) =~= blocks_model(mid).push(
        (BlockKind::TestsEntry, test_calls(bs, bs.len()).push(Op::Return)),
    ));
    Ok((compiler.warnings, compiler.blocks))
}

proof fn lemma_test_calls(bs: Seq<(BlockKind, Seq<Op>)>, k: nat)
    requires
        k <= bs.len(),
    ensures
        forall|j: int| (#[trigger] test_calls(bs, k).contains(Op::Call(j))) <==> (0 <= j < k
            && bs[j].0 is Test),
        forall|o: Op| #[trigger] test_calls(bs, k).contains(o) ==> o is Call,
    decreases k,
{
    if k > 0 {
        lemma_test_calls(bs, (k - 1) as nat);
        let prev = test_calls(bs, (k - 1) as nat);
        let add = if bs[k - 1].0 is Test {
            seq![Op::Call(k - 1)]
        } else {
            Seq::<Op>::empty()
        };
        assert(test_calls(bs, k) == prev + add);
        assert forall|j: int| (#[trigger] test_calls(bs, k).contains(Op::Call(j))) <==> (0 <= j < k
            && bs[j].0 is Test) by {
            if test_calls(bs, k).contains(Op::Call(j)) {
                let i = choose|i: int| 0 <= i < test_calls(bs, k).len() && test_calls(bs, k)[i] == Op::Call(j);
                if i >= prev.len() {
                    assert(add[i - prev.len()] == Op::Call(j));
                } else {
                    assert(prev[i] == Op::Call(j));
                    assert(prev.contains(Op::Call(j)));
                }
            }
            if 0 <= j < k && bs[j].0 is Test {
                if j == k - 1 {
                    assert(test_calls(bs, k)[prev.len() as int] == Op::Call(j));
                } else {
                    assert(prev.contains(Op::Call(j)));
                    let i = choose|i: int| 0 <= i < prev.len() && prev[i] == Op::Call(j);
                    assert(test_calls(bs, k)[i] == Op::Call(j));
                }
            }
        }
        assert forall|o: Op| #[trigger] test_calls(bs, k).contains(o) implies o is Call by {
            let i = choose|i: int| 0 <= i < test_calls(bs, k).len() && test_calls(bs, k)[i] == o;
            if i >= prev.len() {
                assert(add[i - prev.len()] == o);
            } else {
                assert(prev[i] == o);
                assert(prev.contains(o));
            }
        }
    }
}

/// An expression of two operands compiles to the code of its left operand,
/// then that of its right operand (whose blocks come after the left one's),
/// then exactly one instruction applying its operator.
pub proof fn law_expression_compiles_operands_then_operator(
    f: bool,
    kn: Seq<(String, Option<String>)>,
    lc: LineCol,
    lhs: Single,
    rhs: Single,
    op: Operator,
    n: int,
)
    ensures
        ({
            let e = em_ast(f, kn, Ast::Stmt(lc, Stmt::BoolExpr(BoolExpr { lhs, rhs, op })), n);
            match em_single(f, kn, lhs, n) {
                Some(a1) => match em_single(f, kn, rhs, n + a1.blocks.len()) {
                    Some(a2) => e matches Some(x) && x.out == a1.out + a2.out + seq![Op::BinOp(op)]
                        && x.blocks == a1.blocks + a2.blocks && x.warns == a1.warns + a2.warns,
                    None => e is None,
                },
                None => e is None,
            }
        }),
{
    if let Some(a1) = em_single(f, kn, lhs, n) {
        if let Some(a2) = em_single(f, kn, rhs, n + a1.blocks.len()) {
            assert((a1.out + a2.out).push(Op::BinOp(op)) =~= a1.out + a2.out + seq![Op::BinOp(op)]);
        }
    }
}

/// A subshell, or a statement run in the background, compiles to a block
/// of its own (its body's code, then `Return`) placed after the blocks its
/// body made, and one instruction that calls that block, at once or on a
/// machine of its own.
pub proof fn law_sub_compiles_to_a_called_block(
    f: bool,
    kn: Seq<(String, Option<String>)>,
    lc: LineCol,
    body: Ast,
    background: bool,
    n: int,
)
    ensures
        ({
            let st = if background {
                Stmt::Background(Box::new(body))
            } else {
                Stmt::Sub(Box::new(body))
            };
            let e = em_ast(f, kn, Ast::Stmt(lc, st), n);
            match em_ast(f, kn, body, n) {
                Some(b) => e matches Some(x) && x.out == seq![
                    if background {
                        Op::CallAsync(n + b.blocks.len())
                    } else {
                        Op::Call(n + b.blocks.len())
                    },
                ] && x.blocks == b.blocks.push((BlockKind::Internal, b.out.push(Op::Return)))
                    && x.warns == b.warns,
                None => e is None,
            }
        }),
{
}

/// A negation compiles to the code of its operand followed by exactly one
/// `Negate`: nothing else is added to the block, no other block and no
/// other warning; and it compiles exactly when its operand does.
pub proof fn law_negation_compiles_to_operand_then_negate(
    f: bool,
    kn: Seq<(String, Option<String>)>,
    lc: LineCol,
    inner: Single,
    n: int,
)
    ensures
        em_ast(f, kn, Ast::Stmt(lc, Stmt::BoolNegate(inner)), n) is Some <==> em_single(
            f,
            kn,
            inner,
            n,
        ) is Some,
        em_single(f, kn, inner, n) matches Some(a) ==> {
            let e = em_ast(f, kn, Ast::Stmt(lc, Stmt::BoolNegate(inner)), n).unwrap();
            &&& e.out.len() == a.out.len() + 1
            &&& e.out.take(a.out.len() as int) == a.out
            &&& e.out.last() == Op::Negate
            &&& e.blocks == a.blocks
            &&& e.warns == a.warns
        },
{
    if let Some(a) = em_single(f, kn, inner, n) {
        assert(a.out.push(Op::Negate).take(a.out.len() as int) =~= a.out);
    }
}

/// The layout of a compiled program: the first block is the entry, and the
/// last is the tests' entry, which calls exactly the test blocks and then
/// returns.
pub proof fn law_compiled_program_layout(kn: Seq<(String, Option<String>)>, asts: Seq<Ast>)
    requires
        compiles(kn, asts),
    ensures
        ({
            let bs = compiled(kn, asts).1;
            &&& bs.len() >= 2
            &&& bs[0].0 is Entry
            &&& bs.last().0 is TestsEntry
            &&& bs.last().1.last() is Return
            &&& forall|j: int|
                0 <= j < bs.len() - 1 ==> ((#[trigger] bs[j]).0 is Test <==> bs.last().1.contains(
                    Op::Call(j),
                ))
        }),
{
    let e = em_asts(false, kn, asts, asts.len(), 1).unwrap();
    let bs0 = seq![(BlockKind::Entry, e.out.push(Op::Return))] + e.blocks;
    lemma_test_calls(bs0, bs0.len());
    let bs = compiled(kn, asts).1;
    let tc = test_calls(bs0, bs0.len());
    assert forall|j: int| 0 <= j < bs.len() - 1 implies ((#[trigger] bs[j]).0 is Test
        <==> bs.last().1.contains(Op::Call(j))) by {
        assert(bs[j] == bs0[j]);
        if bs.last().1.contains(Op::Call(j)) {
            let i = choose|i: int| 0 <= i < bs.last().1.len() && bs.last().1[i] == Op::Call(j);
            if i < tc.len() {
                assert(tc[i] == Op::Call(j));
                assert(tc.contains(Op::Call(j)));
            }
        }
        if bs0[j].0 is Test {
            assert(tc.contains(Op::Call(j)));
            let i = choose|i: int| 0 <= i < tc.len() && tc[i] == Op::Call(j);
            assert(bs.last().1[i] == Op::Call(j));
        }
    }
}


/// Whether every block an operation calls or filters with is in `lo..hi`.
pub open spec fn op_within(o: Op, lo: int, hi: int) -> bool {
    match o {
        Op::Call(i) => lo <= i < hi,
        Op::CallAsync(i) => lo <= i < hi,
        Op::RunPipeline(_, _, items) => forall|j: int|
            0 <= j < items.len() && (#[trigger] items[j]) is Where ==> lo <= items[j]->Where_0 < hi,
        _ => true,
    }
}

/// Whether every operation of a sequence names blocks in `lo..hi` only.
pub open spec fn ops_within(ops: Seq<Op>, lo: int, hi: int) -> bool {
    forall|k: int| 0 <= k < ops.len() ==> op_within(#[trigger] ops[k], lo, hi)
}

/// Whether what compiling added, from block `n` on, is sound: the
/// instructions name only the blocks added, each added block names only
/// blocks added before it, and each ends with `Return`.
pub open spec fn em_sound(e: Em, n: int) -> bool {
    &&& ops_within(e.out, n, n + e.blocks.len())
    &&& forall|p: int|
        0 <= p < e.blocks.len() ==> ops_within((#[trigger] e.blocks[p]).1, n, n + p) && e.blocks[p].1.len() > 0
            && e.blocks[p].1.last() is Return
}

proof fn lemma_ops_within_widen(ops: Seq<Op>, lo: int, hi: int, lo2: int, hi2: int)
    requires
        ops_within(ops, lo, hi),
        lo2 <= lo,
        hi <= hi2,
    ensures
        ops_within(ops, lo2, hi2),
{
    assert forall|k: int| 0 <= k < ops.len() implies op_within(#[trigger] ops[k], lo2, hi2) by {
        assert(op_within(ops[k], lo, hi));
    }
}

proof fn lemma_ops_within_concat(a: Seq<Op>, b: Seq<Op>, lo: int, hi: int)
    requires
        ops_within(a, lo, hi),
        ops_within(b, lo, hi),
    ensures
        ops_within(a + b, lo, hi),
{
    assert forall|k: int| 0 <= k < (a + b).len() implies op_within(#[trigger] (a + b)[k], lo, hi) by {
        if k < a.len() {
            assert((a + b)[k] == a[k]);
        } else {
            assert((a + b)[k] == b[k - a.len()]);
        }
    }
}

proof fn lemma_sound_then(a: Em, b: Em, n: int)
    requires
        em_sound(a, n),
        em_sound(b, n + a.blocks.len()),
    ensures
        em_sound(em_then(a, b), n),
{
    let e = em_then(a, b);
    let hi = n + e.blocks.len();
    lemma_ops_within_widen(a.out, n, n + a.blocks.len(), n, hi);
    lemma_ops_within_widen(b.out, n + a.blocks.len(), n + a.blocks.len() + b.blocks.len(), n, hi);
    lemma_ops_within_concat(a.out, b.out, n, hi);
    assert forall|p: int| 0 <= p < e.blocks.len() implies ops_within((#[trigger] e.blocks[p]).1, n, n + p)
        && e.blocks[p].1.len() > 0 && e.blocks[p].1.last() is Return by {
        if p < a.blocks.len() {
            assert(e.blocks[p] == a.blocks[p]);
        } else {
            let q = p - a.blocks.len();
            assert(e.blocks[p] == b.blocks[q]);
            assert(ops_within(b.blocks[q].1, n + a.blocks.len(), n + a.blocks.len() + q));
            lemma_ops_within_widen(b.blocks[q].1, n + a.blocks.len(), n + a.blocks.len() + q, n, n + p);
        }
    }
}

proof fn lemma_sound_push(a: Em, n: int, o: Op)
    requires
        em_sound(a, n),
        op_within(o, n, n + a.blocks.len()),
    ensures
        em_sound(em_push(a, o), n),
{
    assert forall|k: int| 0 <= k < a.out.push(o).len() implies op_within(#[trigger] a.out.push(o)[k], n, n + a.blocks.len()) by {
        if k < a.out.len() {
            assert(a.out.push(o)[k] == a.out[k]);
        }
    }
}

proof fn lemma_sound_sub(e: Em, n: int, is_async: bool)
    requires
        em_sound(e, n),
    ensures
        em_sound(em_sub(e, n, is_async), n),
{
    let r = em_sub(e, n, is_async);
    let body = e.out.push(Op::Return);
    assert forall|k: int| 0 <= k < body.len() implies op_within(#[trigger] body[k], n, n + e.blocks.len()) by {
        if k < e.out.len() {
            assert(body[k] == e.out[k]);
        }
    }
    assert forall|p: int| 0 <= p < r.blocks.len() implies ops_within((#[trigger] r.blocks[p]).1, n, n + p)
        && r.blocks[p].1.len() > 0 && r.blocks[p].1.last() is Return by {
        if p < e.blocks.len() {
            assert(r.blocks[p] == e.blocks[p]);
        }
    }
    assert forall|k: int| 0 <= k < r.out.len() implies op_within(#[trigger] r.out[k], n, n + r.blocks.len()) by {}
}

proof fn lemma_sound_empty(n: int)
    ensures
        em_sound(em_empty(), n),
{
}


proof fn lemma_prefix_op_sound(o: Op, e: Em, n: int)
    requires
        em_sound(e, n),
        op_within(o, n, n + e.blocks.len()),
    ensures
        em_sound(Em { out: seq![o] + e.out, blocks: e.blocks, warns: e.warns }, n),
{
    assert(ops_within(seq![o], n, n + e.blocks.len()));
    lemma_ops_within_concat(seq![o], e.out, n, n + e.blocks.len());
}

proof fn lemma_token_sound(f: bool, kn: Seq<(String, Option<String>)>, t: Token, n: int)
    requires
        em_token(f, kn, t, n) is Some,
    ensures
        em_sound(em_token(f, kn, t, n).unwrap(), n),
    decreases t, 0nat,
{
    match t {
        Token::Var(v) => {
            lemma_fields_sound(f, kn, v.fields@, v.fields@.len(), n);
            let e = em_fields(f, kn, v.fields@, v.fields@.len(), n).unwrap();
            lemma_sound_push(e, n, Op::Deref);
            lemma_prefix_op_sound(Op::VarRef(v.name@), em_push(e, Op::Deref), n);
        },
        Token::Array(a) => {
            lemma_rev_sound(f, kn, a.items@, a.items@.len(), n);
            let e = em_rev(f, kn, a.items@, a.items@.len(), n).unwrap();
            lemma_sound_push(e, n, Op::CollectArray(a.items@.len() as int));
        },
        Token::Table(tb) => {
            lemma_rev_sound(f, kn, tb.header@, tb.header@.len(), n);
            let h = em_rev(f, kn, tb.header@, tb.header@.len(), n).unwrap();
            let h2 = em_push(h, Op::CollectArray(tb.header@.len() as int));
            lemma_sound_push(h, n, Op::CollectArray(tb.header@.len() as int));
            lemma_rows_sound(f, kn, tb.rows@, tb.rows@.len(), n + h2.blocks.len());
            let r = em_rows_rev(f, kn, tb.rows@, tb.rows@.len(), n + h2.blocks.len()).unwrap();
            lemma_sound_then(h2, r, n);
            lemma_sound_push(em_then(h2, r), n, Op::CollectTable(tb.rows@.len() as int));
        },
        _ => {
            let e = em_token(f, kn, t, n).unwrap();
            assert(ops_within(e.out, n, n));
        },
    }
}

proof fn lemma_single_sound(f: bool, kn: Seq<(String, Option<String>)>, s: Single, n: int)
    requires
        em_single(f, kn, s, n) is Some,
    ensures
        em_sound(em_single(f, kn, s, n).unwrap(), n),
    decreases s, 0nat,
{
    match s {
        Single::Token(t) => lemma_token_sound(f, kn, t, n),
        Single::Sub(body) => {
            lemma_ast_sound(f, kn, *body, n);
            lemma_sound_sub(em_ast(f, kn, *body, n).unwrap(), n, false);
        },
    }
}

proof fn lemma_field_sound(f: bool, kn: Seq<(String, Option<String>)>, fe: FieldExpr, n: int)
    requires
        em_field(f, kn, fe, n) is Some,
    ensures
        em_sound(em_field(f, kn, fe, n).unwrap(), n),
    decreases fe, 0nat,
{
    match fe {
        FieldExpr::Column(o) => {
            lemma_single_sound(f, kn, o, n);
            lemma_sound_push(em_single(f, kn, o, n).unwrap(), n, Op::GetColumn);
        },
        FieldExpr::Index(o) => {
            lemma_single_sound(f, kn, o, n);
            lemma_sound_push(em_single(f, kn, o, n).unwrap(), n, Op::GetIndex);
        },
    }
}

proof fn lemma_fields_sound(f: bool, kn: Seq<(String, Option<String>)>, fs: Seq<FieldExpr>, k: nat, n: int)
    requires
        em_fields(f, kn, fs, k, n) is Some,
    ensures
        em_sound(em_fields(f, kn, fs, k, n).unwrap(), n),
    decreases fs, k,
{
    if k == 0 || k > fs.len() {
        lemma_sound_empty(n);
    } else {
        lemma_fields_sound(f, kn, fs, (k - 1) as nat, n);
        let a = em_fields(f, kn, fs, (k - 1) as nat, n).unwrap();
        lemma_field_sound(f, kn, fs[k - 1], n + a.blocks.len());
        lemma_sound_then(a, em_field(f, kn, fs[k - 1], n + a.blocks.len()).unwrap(), n);
    }
}

proof fn lemma_rev_sound(f: bool, kn: Seq<(String, Option<String>)>, items: Seq<Single>, k: nat, n: int)
    requires
        em_rev(f, kn, items, k, n) is Some,
    ensures
        em_sound(em_rev(f, kn, items, k, n).unwrap(), n),
    decreases items, k,
{
    if k == 0 || k > items.len() {
        lemma_sound_empty(n);
    } else {
        lemma_single_sound(f, kn, items[k - 1], n);
        let a = em_single(f, kn, items[k - 1], n).unwrap();
        lemma_rev_sound(f, kn, items, (k - 1) as nat, n + a.blocks.len());
        lemma_sound_then(a, em_rev(f, kn, items, (k - 1) as nat, n + a.blocks.len()).unwrap(), n);
    }
}

proof fn lemma_rows_sound(f: bool, kn: Seq<(String, Option<String>)>, rows: Seq<Vec<Single>>, k: nat, n: int)
    requires
        em_rows_rev(f, kn, rows, k, n) is Some,
    ensures
        em_sound(em_rows_rev(f, kn, rows, k, n).unwrap(), n),
    decreases rows, k,
{
    if k == 0 || k > rows.len() {
        lemma_sound_empty(n);
    } else {
        lemma_rev_sound(f, kn, rows[k - 1]@, rows[k - 1]@.len(), n);
        let a = em_rev(f, kn, rows[k - 1]@, rows[k - 1]@.len(), n).unwrap();
        let a2 = em_push(a, Op::CollectArray(rows[k - 1]@.len() as int));
        lemma_sound_push(a, n, Op::CollectArray(rows[k - 1]@.len() as int));
        lemma_rows_sound(f, kn, rows, (k - 1) as nat, n + a2.blocks.len());
        lemma_sound_then(a2, em_rows_rev(f, kn, rows, (k - 1) as nat, n + a2.blocks.len()).unwrap(), n);
    }
}

proof fn lemma_asts_sound(f: bool, kn: Seq<(String, Option<String>)>, body: Seq<Ast>, k: nat, n: int)
    requires
        em_asts(f, kn, body, k, n) is Some,
    ensures
        em_sound(em_asts(f, kn, body, k, n).unwrap(), n),
    decreases body, k,
{
    if k == 0 || k > body.len() {
        lemma_sound_empty(n);
    } else {
        lemma_asts_sound(f, kn, body, (k - 1) as nat, n);
        let a = em_asts(f, kn, body, (k - 1) as nat, n).unwrap();
        lemma_ast_sound(f, kn, body[k - 1], n + a.blocks.len());
        lemma_sound_then(a, em_ast(f, kn, body[k - 1], n + a.blocks.len()).unwrap(), n);
    }
}

proof fn lemma_item_sound(f: bool, kn: Seq<(String, Option<String>)>, it: PipelineItem, n: int)
    requires
        em_item(f, kn, it, n) is Some,
    ensures
        em_sound(em_item(f, kn, it, n).unwrap().0, n),
        em_item(f, kn, it, n).unwrap().1 is Where ==> n <= em_item(f, kn, it, n).unwrap().1->Where_0 < n
            + em_item(f, kn, it, n).unwrap().0.blocks.len(),
    decreases it, 0nat,
{
    match it {
        PipelineItem::Command(c) => {
            lemma_rev_sound(true, kn, c.argv@, c.argv@.len(), n);
        },
        PipelineItem::Where(func, lc) => {
            lemma_ast_sound(f, kn, *func, n);
            let e = em_ast(f, kn, *func, n).unwrap();
            lemma_sound_sub(e, n, false);
        },
        PipelineItem::Sub(_) => {},
    }
}

proof fn lemma_pipe_sound(f: bool, kn: Seq<(String, Option<String>)>, items: Seq<PipelineItem>, k: nat, n: int)
    requires
        em_pipe(f, kn, items, k, n) is Some,
    ensures
        em_sound(em_pipe(f, kn, items, k, n).unwrap().0, n),
        forall|j: int|
            0 <= j < em_pipe(f, kn, items, k, n).unwrap().1.len() && (#[trigger] em_pipe(f, kn, items, k, n).unwrap().1[j]) is Where
                ==> n <= em_pipe(f, kn, items, k, n).unwrap().1[j]->Where_0 < n + em_pipe(f, kn, items, k, n).unwrap().0.blocks.len(),
    decreases items, k,
{
    if k == 0 || k > items.len() {
        lemma_sound_empty(n);
    } else {
        lemma_pipe_sound(f, kn, items, (k - 1) as nat, n);
        let (a, ia) = em_pipe(f, kn, items, (k - 1) as nat, n).unwrap();
        lemma_item_sound(f, kn, items[k - 1], n + a.blocks.len());
        let (b, it) = em_item(f, kn, items[k - 1], n + a.blocks.len()).unwrap();
        lemma_sound_then(a, b, n);
        let its = ia.push(it);
        assert forall|j: int| 0 <= j < its.len() && (#[trigger] its[j]) is Where implies n <= its[j]->Where_0 < n
            + a.blocks.len() + b.blocks.len() by {
            if j < ia.len() {
                assert(its[j] == ia[j]);
            }
        }
    }
}

proof fn lemma_command_sound(f: bool, kn: Seq<(String, Option<String>)>, c: Command, n: int)
    requires
        em_command(f, kn, c, n) is Some,
    ensures
        em_sound(em_command(f, kn, c, n).unwrap(), n),
    decreases c, 0nat,
{
    if c.cmd@ == "cd"@ {
        lemma_single_sound(f, kn, c.argv@[0], n);
        lemma_sound_push(em_single(f, kn, c.argv@[0], n).unwrap(), n, Op::ChangeDir);
    } else {
        lemma_rev_sound(true, kn, c.argv@, c.argv@.len(), n);
        let a = em_rev(true, kn, c.argv@, c.argv@.len(), n).unwrap();
        let e = em_command(f, kn, c, n).unwrap();
        assert forall|k: int| 0 <= k < e.out.len() implies op_within(#[trigger] e.out[k], n, n + e.blocks.len()) by {
            if k < a.out.len() {
                assert(e.out[k] == a.out[k]);
            }
        }
    }
}

proof fn lemma_initial_sound(f: bool, kn: Seq<(String, Option<String>)>, p: Pipeline, n: int)
    requires
        em_initial(f, kn, p, n) is Some,
    ensures
        em_sound(em_initial(f, kn, p, n).unwrap(), n),
    decreases p, 1nat,
{
    match p.initial_value {
        Some(t) => lemma_token_sound(f, kn, t, n),
        None => lemma_sound_empty(n),
    }
}

proof fn lemma_pipeline_sound(f: bool, kn: Seq<(String, Option<String>)>, p: Pipeline, n: int)
    requires
        em_pipeline(f, kn, p, n) is Some,
    ensures
        em_sound(em_pipeline(f, kn, p, n).unwrap(), n),
    decreases p, 2nat,
{
    lemma_initial_sound(f, kn, p, n);
    let a = em_initial(f, kn, p, n).unwrap();
    lemma_pipe_sound(f, kn, p.items@, p.items@.len(), n + a.blocks.len());
    let (b, its) = em_pipe(f, kn, p.items@, p.items@.len(), n + a.blocks.len()).unwrap();
    lemma_sound_then(a, b, n);
    let o = Op::RunPipeline(f, p.initial_value is Some, its);
    assert(op_within(o, n, n + a.blocks.len() + b.blocks.len()));
    lemma_sound_push(em_then(a, b), n, o);
}

proof fn lemma_ast_sound(f: bool, kn: Seq<(String, Option<String>)>, a: Ast, n: int)
    requires
        em_ast(f, kn, a, n) is Some,
    ensures
        em_sound(em_ast(f, kn, a, n).unwrap(), n),
    decreases a, 0nat,
{
    match a {
        Ast::Stmt(_, st) => match st {
            Stmt::Token(t) => lemma_token_sound(f, kn, t, n),
            Stmt::Assert(asr) => {
                lemma_ast_sound(f, kn, *asr.body, n);
                let e = em_ast(f, kn, *asr.body, n).unwrap();
                lemma_sound_sub(e, n, false);
                lemma_sound_push(em_sub(e, n, false), n, Op::Assert(asr.lc));
            },
            Stmt::Assignment(asg) => {
                lemma_single_sound(true, kn, asg.rhs, n);
                let a1 = em_single(true, kn, asg.rhs, n).unwrap();
                lemma_sound_push(a1, n, Op::VarRef(asg.lhs.name@));
                lemma_fields_sound(f, kn, asg.lhs.fields@, asg.lhs.fields@.len(), n + a1.blocks.len());
                let a2 = em_fields(f, kn, asg.lhs.fields@, asg.lhs.fields@.len(), n + a1.blocks.len()).unwrap();
                lemma_sound_then(em_push(a1, Op::VarRef(asg.lhs.name@)), a2, n);
                lemma_sound_push(em_then(em_push(a1, Op::VarRef(asg.lhs.name@)), a2), n, Op::SetVar);
            },
            Stmt::TestDecl(td) => {
                lemma_asts_sound(f, kn, td.body@, td.body@.len(), n);
                let e = em_asts(f, kn, td.body@, td.body@.len(), n).unwrap();
                let body = seq![Op::EnterTest(td.name@)] + e.out + seq![Op::RecordTestSuccess, Op::Return];
                assert(ops_within(seq![Op::EnterTest(td.name@)], n, n + e.blocks.len()));
                assert(ops_within(seq![Op::RecordTestSuccess, Op::Return], n, n + e.blocks.len()));
                lemma_ops_within_concat(seq![Op::EnterTest(td.name@)], e.out, n, n + e.blocks.len());
                lemma_ops_within_concat(
                    seq![Op::EnterTest(td.name@)] + e.out,
                    seq![Op::RecordTestSuccess, Op::Return],
                    n,
                    n + e.blocks.len(),
                );
                let r = em_ast(f, kn, a, n).unwrap();
                assert forall|p: int| 0 <= p < r.blocks.len() implies ops_within((#[trigger] r.blocks[p]).1, n, n + p)
                    && r.blocks[p].1.len() > 0 && r.blocks[p].1.last() is Return by {
                    if p < e.blocks.len() {
                        assert(r.blocks[p] == e.blocks[p]);
                    }
                }
            },
            Stmt::Sub(body) => {
                lemma_ast_sound(f, kn, *body, n);
                lemma_sound_sub(em_ast(f, kn, *body, n).unwrap(), n, false);
            },
            Stmt::BoolExpr(be) => {
                lemma_single_sound(f, kn, be.lhs, n);
                let a1 = em_single(f, kn, be.lhs, n).unwrap();
                lemma_single_sound(f, kn, be.rhs, n + a1.blocks.len());
                let a2 = em_single(f, kn, be.rhs, n + a1.blocks.len()).unwrap();
                lemma_sound_then(a1, a2, n);
                lemma_sound_push(em_then(a1, a2), n, Op::BinOp(be.op));
            },
            Stmt::BoolNegate(inner) => {
                lemma_single_sound(f, kn, inner, n);
                lemma_sound_push(em_single(f, kn, inner, n).unwrap(), n, Op::Negate);
            },
            Stmt::Command(c) => lemma_command_sound(f, kn, c, n),
            Stmt::Pipeline(p) => lemma_pipeline_sound(f, kn, p, n),
            Stmt::Background(body) => {
                lemma_ast_sound(f, kn, *body, n);
                lemma_sound_sub(em_ast(f, kn, *body, n).unwrap(), n, true);
            },
            _ => {},
        },
    }
}


/// Every compiled program is sound: each block ends with `Return`, and
/// every call, background call and `where` stage names a block of the
/// program.
pub proof fn law_compiled_program_is_sound(kn: Seq<(String, Option<String>)>, asts: Seq<Ast>)
    requires
        compiles(kn, asts),
    ensures
        ({
            let bs = compiled(kn, asts).1;
            forall|b: int|
                0 <= b < bs.len() ==> (#[trigger] bs[b]).1.len() > 0 && bs[b].1.last() is Return
                    && ops_within(bs[b].1, 0, bs.len() as int)
        }),
{
    let e = em_asts(false, kn, asts, asts.len(), 1).unwrap();
    lemma_asts_sound(false, kn, asts, asts.len(), 1);
    let bs0 = seq![(BlockKind::Entry, e.out.push(Op::Return))] + e.blocks;
    let bs = compiled(kn, asts).1;
    let len = bs.len() as int;
    assert(len == e.blocks.len() + 2);
    lemma_test_calls(bs0, bs0.len());
    let tc = test_calls(bs0, bs0.len());
    assert forall|b: int| 0 <= b < bs.len() implies (#[trigger] bs[b]).1.len() > 0 && bs[b].1.last() is Return
        && ops_within(bs[b].1, 0, len) by {
        if b == 0 {
            assert(bs[0] == bs0[0]);
            lemma_ops_within_widen(e.out, 1, 1 + e.blocks.len() as int, 0, len);
            assert forall|k: int| 0 <= k < e.out.push(Op::Return).len() implies op_within(
                #[trigger] e.out.push(Op::Return)[k],
                0,
                len,
            ) by {
                if k < e.out.len() {
                    assert(e.out.push(Op::Return)[k] == e.out[k]);
                }
            }
        } else if b < len - 1 {
            assert(bs[b] == bs0[b]);
            assert(bs0[b] == e.blocks[b - 1]);
            lemma_ops_within_widen(e.blocks[b - 1].1, 1, b, 0, len);
        } else {
            assert(bs[b].1 == tc.push(Op::Return));
            assert forall|k: int| 0 <= k < tc.push(Op::Return).len() implies op_within(
                #[trigger] tc.push(Op::Return)[k],
                0,
                len,
            ) by {
                if k < tc.len() {
                    assert(tc.push(Op::Return)[k] == tc[k]);
                    assert(tc.contains(tc[k]));
                    if let Op::Call(j) = tc[k] {
                        assert(tc.contains(Op::Call(j)));
                    }
                }
            }
        }
    }
}

} // verus!
