//! Programs of the first shell prototype: statements compiled into blocks
//! of instructions, and the machine that steps through them one
//! instruction at a time while the caller starts and reaps processes.
use vstd::prelude::*;
use crate::bolger::push_str;
use crate::fatty_syntax::{joined_with_spaces, token_text, tokens_text, Token};
use crate::sizes::{decimal_of, decimal_string};
use crate::unicode::{string_of, strings_view};
use crate::exit_status::ExitReason;
use crate::expansion::{expand_token, expanded_as, home_view, Expansion};
use crate::shell_syntax::{Ast, Command, Pipeline, Stmt, SubOrCommand};

verus! {

/// What a token stands for: whether it is a bare word (subject to
/// expansion), and its text.
pub open spec fn word_of(t: Token) -> (bool, Seq<char>) {
    (t is Word, token_text(t))
}

/// The words of a command.
pub open spec fn words_of(c: Command) -> Seq<(bool, Seq<char>)> {
    c.argv@.map_values(|t: Token| word_of(t))
}

/// The words of each command of a sequence.
pub open spec fn commands_words(cs: Seq<Command>) -> Seq<Seq<(bool, Seq<char>)>> {
    cs.map_values(|c: Command| words_of(c))
}

/// A copy of a token.
pub fn copy_token(t: &Token) -> (c: Token)
    ensures
        word_of(c) == word_of(*t),
{
    match t {
        Token::String(s) => Token::String(s.clone()),
        Token::Word(s) => Token::Word(s.clone()),
    }
}

/// A copy of a command.
pub fn copy_command(c: &Command) -> (r: Command)
    ensures
        words_of(r) == words_of(*c),
{
    let mut argv: Vec<Token> = Vec::new();
    let mut i: usize = 0;
    while i < c.argv.len()
        invariant
            0 <= i <= c.argv.len(),
            argv@.len() == i,
            forall|j: int| 0 <= j < i ==> word_of(#[trigger] argv@[j]) == word_of(c.argv@[j]),
        decreases c.argv.len() - i,
    {
        argv.push(copy_token(&c.argv[i]));
        i += 1;
    }
    let r = Command { argv };
    assert(words_of(r) =~= words_of(*c));
    r
}

/// One instruction of a compiled program.
#[derive(Debug, Clone)]
pub enum Instr {
    /// Start a command and wait for it.
    Run { command: Command },
    /// Start the commands of a pipeline, each reading what the one before
    /// it writes, and wait for the last.
    RunSimplePipeline { commands: Vec<Command> },
    /// Run a block on a machine of its own, without waiting.
    CallAsync { block: usize },
    /// The end of a block.
    DoneProgram,
}

/// A block of instructions.
#[derive(Debug, Clone)]
pub struct Block {
    pub contents: Vec<Instr>,
}

/// What an instruction does, with its commands taken by their words.
pub enum Op {
    Run(Seq<(bool, Seq<char>)>),
    Pipeline(Seq<Seq<(bool, Seq<char>)>>),
    Async(int),
    Done,
}

/// What an instruction does.
pub open spec fn op_of(i: Instr) -> Op {
    match i {
        Instr::Run { command } => Op::Run(words_of(command)),
        Instr::RunSimplePipeline { commands } => Op::Pipeline(commands_words(commands@)),
        Instr::CallAsync { block } => Op::Async(block as int),
        Instr::DoneProgram => Op::Done,
    }
}

/// What a sequence of instructions does.
pub open spec fn ops_of(s: Seq<Instr>) -> Seq<Op> {
    s.map_values(|i: Instr| op_of(i))
}

/// What each block of a program does.
pub open spec fn program_of(p: Seq<Block>) -> Seq<Seq<Op>> {
    p.map_values(|b: Block| ops_of(b.contents@))
}

/// Whether every stage of a pipeline is a command.
pub open spec fn is_simple(p: Pipeline) -> bool {
    forall|i: int| 0 <= i < p.items@.len() ==> #[trigger] p.items@[i] is Command
}

/// The words of the commands of a simple pipeline.
pub open spec fn pipeline_words(p: Pipeline) -> Seq<Seq<(bool, Seq<char>)>> {
    p.items@.map_values(
        |s: SubOrCommand|
            match s {
                SubOrCommand::Command(c) => words_of(c),
                SubOrCommand::Sub(_) => Seq::empty(),
            },
    )
}

/// The statements that compile: commands, pipelines of commands, and
/// such statements run in the background. Chains, subshells and pipelines
/// with a subshell stage are not implemented.
pub open spec fn compilable(a: Ast) -> bool
    decreases a,
{
    match a {
        Ast::Stmt(Stmt::Command(_)) => true,
        Ast::Stmt(Stmt::Pipeline(p)) => is_simple(p),
        Ast::Stmt(Stmt::Background(inner)) => compilable(*inner),
        _ => false,
    }
}

/// What compiling a statement emits, when the program has `n` blocks so
/// far: the instructions put in the current block, and the blocks added
/// after the first `n`. A background statement calls block `n` and adds
/// the block of its body, ended by `Done`, after the blocks its body adds.
pub open spec fn emitted(a: Ast, n: int) -> (Seq<Op>, Seq<Seq<Op>>)
    decreases a,
{
    match a {
        Ast::Stmt(Stmt::Command(c)) => (seq![Op::Run(words_of(c))], Seq::empty()),
        Ast::Stmt(Stmt::Pipeline(p)) => (seq![Op::Pipeline(pipeline_words(p))], Seq::empty()),
        Ast::Stmt(Stmt::Background(inner)) => {
            let (body, blocks) = emitted(*inner, n);
            (seq![Op::Async(n)], blocks.push(body.push(Op::Done)))
        },
        _ => (Seq::empty(), Seq::empty()),
    }
}

fn compile_ast(ast: &Ast, out: &mut Vec<Instr>, blocks: &mut Vec<Block>)
    requires
        compilable(*ast),
    ensures
        ops_of(final(out)@) == ops_of(old(out)@) + emitted(*ast, old(blocks)@.len() as int).0,
        program_of(final(blocks)@) == program_of(old(blocks)@) + emitted(
            *ast,
            old(blocks)@.len() as int,
        ).1,
    decreases ast,
{
    match ast {
        Ast::Stmt(Stmt::Command(command)) => {
            out.push(Instr::Run { command: copy_command(command) });
            assert(ops_of(out@) =~= ops_of(old(out)@) + emitted(*ast, old(blocks)@.len() as int).0);
            assert(program_of(blocks@) =~= program_of(old(blocks)@) + emitted(
                *ast,
                old(blocks)@.len() as int,
            ).1);
        },
        Ast::Stmt(Stmt::Pipeline(pipeline)) => {
            let mut commands: Vec<Command> = Vec::new();
            let mut i: usize = 0;
            while i < pipeline.items.len()
                invariant
                    0 <= i <= pipeline.items.len(),
                    is_simple(*pipeline),
                    commands@.len() == i,
                    commands_words(commands@) =~= pipeline_words(*pipeline).take(i as int),
                decreases pipeline.items.len() - i,
            {
                assert(pipeline.items@[i as int] is Command);
                let ghost prev = commands@;
                match &pipeline.items[i] {
                    SubOrCommand::Command(c) => {
                        commands.push(copy_command(c));
                        assert(pipeline_words(*pipeline)[i as int] == words_of(*c));
                        assert(commands@ =~= prev.push(commands@[i as int]));
                    },
                    SubOrCommand::Sub(_) => {},
                }
                assert(commands_words(commands@) =~= pipeline_words(*pipeline).take(i + 1));
                i += 1;
            }
            assert(pipeline_words(*pipeline).take(pipeline.items@.len() as int) =~= pipeline_words(
                *pipeline,
            ));
            out.push(Instr::RunSimplePipeline { commands });
            assert(ops_of(out@) =~= ops_of(old(out)@) + emitted(*ast, old(blocks)@.len() as int).0);
            assert(program_of(blocks@) =~= program_of(old(blocks)@) + emitted(
                *ast,
                old(blocks)@.len() as int,
            ).1);
        },
        Ast::Stmt(Stmt::Background(inner)) => {
            let n = blocks.len();
            out.push(Instr::CallAsync { block: n });
            let mut contents: Vec<Instr> = Vec::new();
            compile_ast(&**inner, &mut contents, blocks);
            contents.push(Instr::DoneProgram);
            let ghost mid = blocks@;
            blocks.push(Block { contents });
            assert(ops_of(out@) =~= ops_of(old(out)@) + emitted(*ast, n as int).0);
            assert(ops_of(contents@) =~= emitted(**inner, n as int).0.push(Op::Done));
            assert(program_of(blocks@) =~= program_of(mid).push(ops_of(contents@)));
            assert(program_of(blocks@) =~= program_of(old(blocks)@) + emitted(*ast, n as int).1);
        },
        _ => {},
    }
}

/// The blocks and the first block's instructions after compiling the
/// first `k` statements.
pub open spec fn compiled_prefix(asts: Seq<Ast>, k: int) -> (Seq<Op>, Seq<Seq<Op>>)
    decreases k,
{
    if k <= 0 {
        (Seq::empty(), seq![Seq::empty()])
    } else {
        let (base, blocks) = compiled_prefix(asts, k - 1);
        let (ins, added) = emitted(asts[k - 1], blocks.len() as int);
        (base + ins, blocks + added)
    }
}

/// The compiled program: block 0 holds the statements' own instructions
/// in order, ended by `Done`; the blocks of background bodies follow in
/// the order they were compiled.
pub open spec fn compiled(asts: Seq<Ast>) -> Seq<Seq<Op>> {
    let (base, blocks) = compiled_prefix(asts, asts.len() as int);
    blocks.update(0, base.push(Op::Done))
}

/// Compiles statements into blocks; block 0 is the entry.
pub fn compile(ast: &[Ast]) -> (blocks: Vec<Block>)
    requires
        forall|i: int| 0 <= i < ast@.len() ==> compilable(#[trigger] ast@[i]),
    ensures
        program_of(blocks@) == compiled(ast@),
{
    let mut blocks: Vec<Block> = vec![Block { contents: Vec::new() }];
    let mut base_block: Vec<Instr> = Vec::new();
    let mut i: usize = 0;
    assert(ops_of(base_block@) =~= Seq::<Op>::empty());
    assert(program_of(blocks@) =~= seq![Seq::<Op>::empty()]);
    while i < ast.len()
        invariant
            0 <= i <= ast.len(),
            forall|j: int| 0 <= j < ast@.len() ==> compilable(#[trigger] ast@[j]),
            (ops_of(base_block@), program_of(blocks@)) == compiled_prefix(ast@, i as int),
            blocks@.len() >= 1,
        decreases ast.len() - i,
    {
        assert(compilable(ast@[i as int]));
        compile_ast(&ast[i], &mut base_block, &mut blocks);
        assert(program_of(blocks@).len() == blocks@.len());
        i += 1;
    }
    let ghost base = ops_of(base_block@);
    let ghost before = blocks@;
    assert(ast@.len() as int == i as int);
    base_block.push(Instr::DoneProgram);
    assert(ops_of(base_block@) =~= base.push(Op::Done));
    blocks.set(0, Block { contents: base_block });
    assert(program_of(blocks@) =~= program_of(before).update(0, base.push(Op::Done)));
    assert(program_of(blocks@) =~= compiled(ast@));
    blocks
}

/// Whether every `Async` among `ops` calls a block in `lo..hi`.
pub open spec fn calls_within(ops: Seq<Op>, lo: int, hi: int) -> bool {
    forall|k: int|
        0 <= k < ops.len() && (#[trigger] ops[k]) is Async ==> lo <= ops[k]->0 < hi
}

/// Whether a block is ended by `Done`.
pub open spec fn ended(ops: Seq<Op>) -> bool {
    ops.len() > 0 && ops.last() is Done
}

/// Whether every block of a program is ended by `Done` and every `Async`
/// calls a block of the program.
pub open spec fn well_formed(p: Seq<Seq<Op>>) -> bool {
    &&& forall|b: int| 0 <= b < p.len() ==> ended(#[trigger] p[b])
    &&& forall|b: int| 0 <= b < p.len() ==> calls_within(#[trigger] p[b], 0, p.len() as int)
}

proof fn lemma_emitted(a: Ast, n: int)
    requires
        compilable(a),
        n >= 0,
    ensures
        calls_within(emitted(a, n).0, n, n + emitted(a, n).1.len()),
        forall|b: int|
            0 <= b < emitted(a, n).1.len() ==> ended(#[trigger] emitted(a, n).1[b])
                && calls_within(emitted(a, n).1[b], n, n + emitted(a, n).1.len()),
    decreases a,
{
    match a {
        Ast::Stmt(Stmt::Background(inner)) => {
            lemma_emitted(*inner, n);
            let (body, blocks) = emitted(*inner, n);
            let (ins, bs) = emitted(a, n);
            assert(bs == blocks.push(body.push(Op::Done)));
            assert forall|b: int| 0 <= b < bs.len() implies ended(#[trigger] bs[b]) && calls_within(
                bs[b],
                n,
                n + bs.len(),
            ) by {
                if b < blocks.len() {
                    assert(bs[b] == blocks[b]);
                } else {
                    assert(bs[b] == body.push(Op::Done));
                    assert forall|k: int|
                        0 <= k < bs[b].len() && (#[trigger] bs[b][k]) is Async implies n <= bs[b][k]->0
                        < n + bs.len() by {
                        assert(bs[b][k] == body[k]);
                    }
                }
            }
        },
        _ => {},
    }
}

proof fn lemma_compiled_prefix(asts: Seq<Ast>, k: int)
    requires
        0 <= k <= asts.len(),
        forall|i: int| 0 <= i < asts.len() ==> compilable(#[trigger] asts[i]),
    ensures
        compiled_prefix(asts, k).1.len() >= 1,
        calls_within(compiled_prefix(asts, k).0, 0, compiled_prefix(asts, k).1.len() as int),
        forall|b: int|
            1 <= b < compiled_prefix(asts, k).1.len() ==> ended(#[trigger] compiled_prefix(asts, k).1[b])
                && calls_within(
                compiled_prefix(asts, k).1[b],
                0,
                compiled_prefix(asts, k).1.len() as int,
            ),
    decreases k,
{
    if k > 0 {
        lemma_compiled_prefix(asts, k - 1);
        let (base, blocks) = compiled_prefix(asts, k - 1);
        let n = blocks.len() as int;
        assert(compilable(asts[k - 1]));
        lemma_emitted(asts[k - 1], n);
        let (ins, added) = emitted(asts[k - 1], n);
        let (base2, blocks2) = compiled_prefix(asts, k);
        assert(base2 == base + ins);
        assert(blocks2 == blocks + added);
        assert forall|j: int|
            0 <= j < base2.len() && (#[trigger] base2[j]) is Async implies 0 <= base2[j]->0
            < blocks2.len() by {
            if j < base.len() {
                assert(base2[j] == base[j]);
            } else {
                assert(base2[j] == ins[j - base.len()]);
            }
        }
        assert forall|b: int| 1 <= b < blocks2.len() implies ended(#[trigger] blocks2[b])
            && calls_within(blocks2[b], 0, blocks2.len() as int) by {
            if b < n {
                assert(blocks2[b] == blocks[b]);
            } else {
                assert(blocks2[b] == added[b - n]);
            }
        }
    }
}

/// A compiled program is well formed: it has an entry block, each of its
/// blocks is ended by `Done`, and every background call names one of its
/// blocks; so a machine can start on any block it calls.
pub proof fn law_compiled_program_is_well_formed(asts: Seq<Ast>)
    requires
        forall|i: int| 0 <= i < asts.len() ==> compilable(#[trigger] asts[i]),
    ensures
        compiled(asts).len() >= 1,
        well_formed(compiled(asts)),
{
    lemma_compiled_prefix(asts, asts.len() as int);
    let (base, blocks) = compiled_prefix(asts, asts.len() as int);
    let p = compiled(asts);
    assert(p[0] == base.push(Op::Done));
    assert forall|b: int| 0 <= b < p.len() implies ended(#[trigger] p[b]) && calls_within(
        p[b],
        0,
        p.len() as int,
    ) by {
        if b == 0 {
            assert forall|k: int| 0 <= k < p[0].len() && (#[trigger] p[0][k]) is Async implies 0
                <= p[0][k]->0 < p.len() by {
                assert(p[0][k] == base[k]);
            }
        } else {
            assert(p[b] == blocks[b]);
        }
    }
}

/// A copy of a sequence of commands.
pub fn copy_commands(cs: &Vec<Command>) -> (r: Vec<Command>)
    ensures
        commands_words(r@) == commands_words(cs@),
{
    let mut r: Vec<Command> = Vec::new();
    let mut i: usize = 0;
    while i < cs.len()
        invariant
            0 <= i <= cs.len(),
            r@.len() == i,
            forall|j: int| 0 <= j < i ==> words_of(#[trigger] r@[j]) == words_of(cs@[j]),
        decreases cs.len() - i,
    {
        r.push(copy_command(&cs[i]));
        i += 1;
    }
    assert(commands_words(r@) =~= commands_words(cs@));
    r
}

/// What the caller of a machine is to do for the instruction it reached.
pub enum Action {
    /// Start the command, then report it with `started`.
    Run(Command),
    /// Start the pipeline's commands, then report the last with `started`.
    RunSimplePipeline(Vec<Command>),
    /// Start a machine of its own on this block.
    CallAsync(usize),
    /// The block is over.
    Done,
}

/// What an action stands for.
pub open spec fn action_op(a: Action) -> Op {
    match a {
        Action::Run(command) => Op::Run(words_of(command)),
        Action::RunSimplePipeline(commands) => Op::Pipeline(commands_words(commands@)),
        Action::CallAsync(block) => Op::Async(block as int),
        Action::Done => Op::Done,
    }
}

/// The position of the instruction after `c` in a block: the first when
/// none has run yet.
pub open spec fn next_index(c: Option<usize>) -> int {
    match c {
        None => 0,
        Some(c) => c + 1,
    }
}

/// A machine running one block of a program. It stands on the instruction
/// it last ran (`pc.1`, none before the first) of block `pc.0`, waits on at
/// most one process, and keeps the exit reasons of the processes it waited
/// on.
pub struct VM {
    pub program: Vec<Block>,
    pub pc: (usize, Option<usize>),
    pub waiting_on: Option<i32>,
    pub child_exit_stack: Vec<ExitReason>,
    pub done: bool,
}

impl VM {
    /// Whether the machine is sound: its block is one of the program's and
    /// is ended by `Done`, the instruction it stands on is in that block,
    /// and it is done exactly when that instruction is `Done`.
    pub open spec fn wf(&self) -> bool {
        let p = program_of(self.program@);
        &&& self.pc.0 < p.len()
        &&& ended(p[self.pc.0 as int])
        &&& match self.pc.1 {
            None => !self.done,
            Some(c) => c < p[self.pc.0 as int].len() && (p[self.pc.0 as int][c as int] is Done
                <==> self.done),
        }
    }

    /// A machine at the start of a block that is ended by `Done`.
    pub fn new(program: Vec<Block>, block: usize) -> (vm: VM)
        requires
            block < program@.len(),
            ended(program_of(program@)[block as int]),
        ensures
            vm.wf(),
            vm.program@ == program@,
            vm.pc == (block, None::<usize>),
            vm.waiting_on is None,
            vm.child_exit_stack@ == Seq::<ExitReason>::empty(),
            !vm.done,
    {
        VM { program, pc: (block, None), waiting_on: None, child_exit_stack: Vec::new(), done: false }
    }

    /// Moves to the next instruction of the block and says what to do for
    /// it; `Done` ends the machine.
    pub fn execute(&mut self) -> (a: Action)
        requires
            old(self).wf(),
            !old(self).done,
            old(self).waiting_on is None,
        ensures
            final(self).wf(),
            final(self).program == old(self).program,
            final(self).pc == (old(self).pc.0, Some(next_index(old(self).pc.1) as usize)),
            action_op(a) == program_of(old(self).program@)[old(self).pc.0 as int][next_index(
                old(self).pc.1,
            )],
            final(self).done == (a is Done),
            well_formed(program_of(old(self).program@)) ==> (a matches Action::CallAsync(t) ==> t
                < old(self).program@.len()),
            final(self).waiting_on is None,
            final(self).child_exit_stack == old(self).child_exit_stack,
    {
        let ghost p = program_of(self.program@);
        let ghost b = self.pc.0 as int;
        let len = self.program[self.pc.0].contents.len();
        proof {
            assert(p[b].len() == len);
            assert(ended(p[b]));
            if let Some(c) = self.pc.1 {
                assert(!(p[b][c as int] is Done));
                assert(c + 1 < p[b].len());
            }
        }
        let instr_pc: usize = match self.pc.1 {
            None => 0,
            Some(c) => c + 1,
        };
        let block = self.pc.0;
        self.pc = (block, Some(instr_pc));
        assert(ops_of(self.program@[b].contents@)[instr_pc as int] == op_of(
            self.program@[b].contents@[instr_pc as int],
        ));
        let a = match &self.program[block].contents[instr_pc] {
            Instr::Run { command } => Action::Run(copy_command(command)),
            Instr::RunSimplePipeline { commands } => Action::RunSimplePipeline(
                copy_commands(commands),
            ),
            Instr::CallAsync { block } => Action::CallAsync(*block),
            Instr::DoneProgram => Action::Done,
        };
        match a {
            Action::Done => {
                self.done = true;
            },
            _ => {},
        }
        a
    }

    /// Records the process the last action started, if it started one.
    pub fn started(&mut self, pid: Option<i32>)
        requires
            old(self).wf(),
            old(self).waiting_on is None,
        ensures
            final(self).wf(),
            final(self).waiting_on == pid,
            final(self).program == old(self).program,
            final(self).pc == old(self).pc,
            final(self).done == old(self).done,
            final(self).child_exit_stack == old(self).child_exit_stack,
    {
        self.waiting_on = pid;
    }

    /// Records how the process the machine waits on ended.
    pub fn handle_exit(&mut self, pid: i32, reason: ExitReason)
        requires
            old(self).wf(),
            old(self).waiting_on == Some(pid),
        ensures
            final(self).wf(),
            final(self).waiting_on is None,
            final(self).child_exit_stack@ == old(self).child_exit_stack@.push(reason),
            final(self).program == old(self).program,
            final(self).pc == old(self).pc,
            final(self).done == old(self).done,
    {
        self.waiting_on = None;
        self.child_exit_stack.push(reason);
    }
}

/// The texts of words.
pub open spec fn words_text(ws: Seq<(bool, Seq<char>)>) -> Seq<Seq<char>> {
    ws.map_values(|w: (bool, Seq<char>)| w.1)
}

/// The line listing a command.
pub open spec fn run_line(ws: Seq<(bool, Seq<char>)>) -> Seq<char> {
    "  - run "@ + joined_with_spaces(words_text(ws))
}

/// The lines listing an instruction: a pipeline lists the pipe it creates,
/// then its commands.
pub open spec fn op_lines(o: Op) -> Seq<Seq<char>> {
    match o {
        Op::Run(ws) => seq![run_line(ws)],
        Op::Pipeline(cs) => seq!["  - create_pipe"@] + cs.map_values(
            |ws: Seq<(bool, Seq<char>)>| run_line(ws),
        ),
        Op::Async(b) => seq!["  - call_async "@ + decimal_of(b as nat)],
        Op::Done => seq!["  - done"@],
    }
}

/// The lines listing a sequence of instructions.
pub open spec fn ops_lines(ops: Seq<Op>) -> Seq<Seq<char>> {
    Seq::new(ops.len(), |k: int| op_lines(ops[k])).flatten()
}

/// The line that opens block `i` of a listing.
pub open spec fn block_header(i: int) -> Seq<char> {
    "Block "@ + decimal_of(i as nat) + ":"@
}

/// The listing of a program: each block's header, then its instructions.
pub open spec fn listing(p: Seq<Seq<Op>>) -> Seq<Seq<char>> {
    Seq::new(p.len(), |i: int| seq![block_header(i)] + ops_lines(p[i])).flatten()
}

fn run_line_of(c: &Command) -> (s: String)
    ensures
        s@ == run_line(words_of(*c)),
{
    let joined = c.to_string();
    let mut out: Vec<char> = Vec::new();
    push_str(&mut out, "  - run ");
    push_str(&mut out, joined.as_str());
    assert(words_text(words_of(*c)) =~= tokens_text(c.argv@));
    string_of(out.as_slice())
}

fn push_op_lines(out: &mut Vec<String>, instr: &Instr)
    ensures
        strings_view(final(out)@) == strings_view(old(out)@) + op_lines(op_of(*instr)),
{
    match instr {
        Instr::Run { command } => {
            out.push(run_line_of(command));
        },
        Instr::RunSimplePipeline { commands } => {
            out.push("  - create_pipe".to_owned());
            let ghost start = strings_view(out@);
            let mut i: usize = 0;
            while i < commands.len()
                invariant
                    0 <= i <= commands.len(),
                    strings_view(out@) == start + commands_words(commands@).take(i as int).map_values(
                        |ws: Seq<(bool, Seq<char>)>| run_line(ws),
                    ),
                decreases commands.len() - i,
            {
                let ghost prev = strings_view(out@);
                out.push(run_line_of(&commands[i]));
                assert(commands_words(commands@).take(i + 1).map_values(
                    |ws: Seq<(bool, Seq<char>)>| run_line(ws),
                ) =~= commands_words(commands@).take(i as int).map_values(
                    |ws: Seq<(bool, Seq<char>)>| run_line(ws),
                ).push(run_line(words_of(commands@[i as int]))));
                assert(strings_view(out@) =~= prev.push(run_line(words_of(commands@[i as int]))));
                i += 1;
            }
            assert(commands_words(commands@).take(commands@.len() as int) =~= commands_words(
                commands@,
            ));
        },
        Instr::CallAsync { block } => {
            let n = decimal_string(*block as u128);
            let mut line: Vec<char> = Vec::new();
            push_str(&mut line, "  - call_async ");
            push_str(&mut line, n.as_str());
            out.push(string_of(line.as_slice()));
        },
        Instr::DoneProgram => {
            out.push("  - done".to_owned());
        },
    }
    assert(strings_view(out@) =~= strings_view(old(out)@) + op_lines(op_of(*instr)));
}

/// The lines that list a program, block by block.
pub fn print_program(p: &[Block]) -> (lines: Vec<String>)
    ensures
        strings_view(lines@) == listing(program_of(p@)),
{
    let ghost prog = program_of(p@);
    let ghost blocks_lines = Seq::new(
        prog.len(),
        |i: int| seq![block_header(i)] + ops_lines(prog[i]),
    );
    let mut out: Vec<String> = Vec::new();
    let mut b: usize = 0;
    while b < p.len()
        invariant
            0 <= b <= p.len(),
            prog == program_of(p@),
            blocks_lines == Seq::new(
                prog.len(),
                |i: int| seq![block_header(i)] + ops_lines(prog[i]),
            ),
            strings_view(out@) == blocks_lines.take(b as int).flatten(),
        decreases p.len() - b,
    {
        let ghost before = strings_view(out@);
        let n = decimal_string(b as u128);
        let mut header: Vec<char> = Vec::new();
        push_str(&mut header, "Block ");
        push_str(&mut header, n.as_str());
        push_str(&mut header, ":");
        out.push(string_of(header.as_slice()));
        let ghost ops = prog[b as int];
        let ghost per_op = Seq::new(ops.len(), |k: int| op_lines(ops[k]));
        let contents = &p[b].contents;
        assert(ops == ops_of(contents@));
        let mut k: usize = 0;
        while k < contents.len()
            invariant
                0 <= k <= contents.len(),
                ops == ops_of(contents@),
                per_op == Seq::new(ops.len(), |k: int| op_lines(ops[k])),
                strings_view(out@) == before + seq![block_header(b as int)] + per_op.take(
                    k as int,
                ).flatten(),
            decreases contents.len() - k,
        {
            push_op_lines(&mut out, &contents[k]);
            proof {
                assert(per_op.take(k + 1) =~= per_op.take(k as int).push(per_op[k as int]));
                per_op.take(k as int).lemma_flatten_push(per_op[k as int]);
            }
            k += 1;
        }
        proof {
            assert(per_op.take(contents@.len() as int) =~= per_op);
            assert(blocks_lines.take(b + 1) =~= blocks_lines.take(b as int).push(
                blocks_lines[b as int],
            ));
            blocks_lines.take(b as int).lemma_flatten_push(blocks_lines[b as int]);
            assert(blocks_lines[b as int] == seq![block_header(b as int)] + ops_lines(ops));
        }
        b += 1;
    }
    assert(blocks_lines.take(p@.len() as int) =~= blocks_lines);
    out
}

/// How a token of a command is expanded: a quoted string stands for its
/// text, and a bare word is expanded as `expand_token` says.
pub fn token_expansion(tok: &Token, home: Option<&str>) -> (r: Expansion)
    ensures
        tok is String ==> (r matches Expansion::Literal(l) && l@ == token_text(*tok)),
        tok is Word ==> expanded_as(token_text(*tok), home_view(home), r),
{
    match tok {
        Token::String(s) => Expansion::Literal(s.clone()),
        Token::Word(w) => expand_token(w.as_str(), home),
    }
}

/// The words that each token of a command expanded to, one after another.
pub open spec fn expanded_words(e: Seq<Vec<String>>) -> Seq<Seq<char>> {
    e.map_values(|v: Vec<String>| strings_view(v@)).flatten()
}

/// Splits the expanded words of a command into the program to run and its
/// arguments.
pub fn prepare_invocation(expanded: &Vec<Vec<String>>) -> (r: (String, Vec<String>))
    requires
        expanded_words(expanded@).len() > 0,
    ensures
        seq![r.0@] + strings_view(r.1@) == expanded_words(expanded@),
{
    let ghost parts = expanded@.map_values(|v: Vec<String>| strings_view(v@));
    let mut all: Vec<String> = Vec::new();
    let mut i: usize = 0;
    while i < expanded.len()
        invariant
            0 <= i <= expanded.len(),
            parts == expanded@.map_values(|v: Vec<String>| strings_view(v@)),
            strings_view(all@) == parts.take(i as int).flatten(),
        decreases expanded.len() - i,
    {
        let words = &expanded[i];
        let ghost before = strings_view(all@);
        let mut j: usize = 0;
        while j < words.len()
            invariant
                0 <= j <= words.len(),
                strings_view(all@) == before + strings_view(words@).take(j as int),
            decreases words.len() - j,
        {
            let c = words[j].clone();
            assert(c@ == words@[j as int]@);
            let ghost prev = all@;
            all.push(c);
            assert(strings_view(all@) =~= strings_view(prev).push(c@));
            assert(strings_view(words@).take(j + 1) =~= strings_view(words@).take(j as int).push(
                words@[j as int]@,
            ));
            assert(strings_view(all@) =~= before + strings_view(words@).take(j + 1));
            j += 1;
        }
        proof {
            assert(strings_view(words@).take(words@.len() as int) =~= strings_view(words@));
            assert(parts.take(i + 1) =~= parts.take(i as int).push(parts[i as int]));
            parts.take(i as int).lemma_flatten_push(parts[i as int]);
        }
        i += 1;
    }
    assert(parts.take(expanded@.len() as int) =~= parts);
    let command = all.remove(0);
    proof {
        assert(strings_view(all@) =~= expanded_words(expanded@).drop_first());
    }
    assert(seq![command@] + strings_view(all@) =~= expanded_words(expanded@));
    (command, all)
}

} // verus!
