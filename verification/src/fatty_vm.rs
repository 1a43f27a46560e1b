//! The fatty machine: it runs a program of blocks one instruction at a
//! time, with a stack of values, scopes of variables and a return stack.
//! What needs the outside world (starting processes and waiting for them,
//! word expansion, floating point, selections inside values) it hands to
//! its caller as an action; the outcome comes back as the next step's
//! event.
use vstd::prelude::*;
use crate::bwine::{data_of, datum_of, Datum, Value};
use crate::bolger::push_str;
use crate::bolger_ui::same_text;
use crate::bwine::{lemma_data_of_index, lemma_data_of_push, lemma_rows_of_index, lemma_rows_of_push, rows_of};
use crate::unicode::{chars_of, string_of};
use crate::exit_status::ExitReason;
use crate::marish_syntax::{Operator, Token};

verus! {

/// A command to run: the executable, its name as written, its arguments.
#[derive(Debug)]
pub struct Command2 {
    pub path: String,
    pub orig: String,
    pub args: Vec<Token>,
}

/// A stage of a pipeline.
#[derive(Debug)]
pub enum RunPipelineItem {
    Command(Command2),
    Where { block: usize },
}

/// An instruction of the fatty machine.
#[derive(Debug)]
pub enum Instr {
    /// Change directory to the expansion of the arguments.
    ChangeDir { argv: Vec<Token> },
    /// Run a command and wait for it.
    Run { command: Command2 },
    /// Run the stages of a pipeline and wait for the last.
    RunPipeline { items: Vec<RunPipelineItem> },
    /// Run a block on a machine of its own, without waiting.
    CallAsync { block: usize },
    /// Run a block in the current context.
    Call { block: usize },
    /// Push a number, string or the expansion of a word.
    Load(Token),
    /// Start a reference to a variable.
    VarRef(String),
    /// Select a column of the reference being built.
    GetColumn,
    /// Select a row of the reference being built.
    GetIndex,
    /// Replace the reference by the value it names.
    Deref,
    /// Store the value under the reference.
    SetVar,
    /// Gather the top values into an array.
    CollectArray(usize),
    /// Gather the top arrays and a header into a table.
    CollectTable(usize),
    /// Apply an operator to the top two values.
    Op(Operator),
    /// Negate the top value.
    Negate,
    /// Drop the top value.
    Pop,
    /// Leave the block, or end the machine in its first block.
    Return,
}

/// A block of instructions.
#[derive(Debug)]
pub struct Block {
    pub contents: Vec<Instr>,
}

/// A selection inside a value.
#[derive(Debug)]
pub enum Field {
    Column(Value),
    Index(Value),
}

/// A reference to a variable, or to a part of it.
#[derive(Debug)]
pub struct VarRef {
    pub name: String,
    pub fields: Vec<Field>,
}

/// An entry of the stack.
#[derive(Debug)]
pub enum StackValue {
    Value(Value),
    VarRef(VarRef),
}

/// The variables of one level of calls.
#[derive(Debug)]
pub struct Scope {
    pub vars: Vec<(String, Value)>,
    pub is_inherited: bool,
}

/// What the machine waits for before its next instruction.
#[derive(Debug, Copy, Clone, PartialEq, Eq, Structural)]
pub enum Waiting {
    Nothing,
    /// A child process to end.
    Child,
    /// A `where` filter to finish.
    Builtin,
    /// The words a word expands to.
    Words,
    /// A value to push.
    Result,
    /// The new value of variable `.1` of scope `.0`.
    Store(usize, usize),
}

/// What happened outside since the last step.
#[derive(Debug)]
pub enum VmEvent {
    Exited(ExitReason),
    BuiltinDone,
    Expanded(Vec<String>),
    Evaluated(Value),
}

/// Why the machine stopped short.
#[derive(Debug, Copy, Clone, PartialEq, Eq, Structural)]
pub enum Fault {
    /// A value was taken from an empty stack.
    EmptyStack,
    /// A reference stood where a value was expected.
    ExpectedValue,
    /// A value stood where a reference was expected.
    ExpectedVarRef,
    /// A table was gathered from something that is not an array.
    ExpectedArray,
    /// A variable was set or a block left with no scope.
    NoScope,
    /// A variable that no scope holds was read.
    UnknownVariable,
    /// A variable of an inherited scope was set.
    InheritedScope,
    /// An operator was given operands it does not take.
    InvalidOperands,
    /// Integer arithmetic overflowed.
    Overflow,
    /// An integer was divided by zero.
    DivideByZero,
    /// A pipeline had no stage.
    EmptyPipeline,
    /// The machine ended with other than one scope.
    ScopeLeft,
    /// A column was selected in something that is not a table, or a row in
    /// something that is neither an array nor a table.
    InvalidTarget,
    /// A table has no column of the header selected.
    NoSuchColumn,
    /// A row or an item past the end was selected.
    OutOfBounds,
    /// A row was selected by something that is not a number.
    IndexNotInteger,
    /// An array or row was set to something not of its length.
    ShapeMismatch,
    /// A whole column of a table of other than one row was set.
    ColumnAssign,
    /// A condition gave something other than a boolean.
    NotBoolean,
    /// An instruction that is not implemented.
    Unimplemented,
    /// An instruction that the compiler never emits.
    Unreachable,
}

/// What the caller does for the machine.
#[derive(Debug)]
pub enum VmAction {
    /// Nothing: step again.
    Continue,
    /// Change directory as the `ChangeDir` instruction at `index` of
    /// `block` says.
    ChangeDir { block: usize, index: usize },
    /// Start the command of the `Run` instruction there; report its end.
    Spawn { block: usize, index: usize },
    /// Start the stages of the `RunPipeline` instruction there; report the
    /// end of the last.
    SpawnPipeline { block: usize, index: usize },
    /// Run the block on a machine of its own.
    SpawnJob { block: usize },
    /// Expand the word that the `Load` instruction there loads; report the
    /// words.
    Expand { block: usize, index: usize },
    /// Read the float that the `Load` instruction there loads; report it.
    ParseFloat { block: usize, index: usize },
    /// Apply the operator to values the machine does not compute itself
    /// (floats, and equality of values with parts); report the result.
    Compute { op: Operator, a: Value, b: Value },
    /// Select the fields inside the value; report what they select.
    Select { value: Value, fields: Vec<Field> },
    /// Set the fields inside `current` to `rhs`; report the new value.
    Assign { current: Value, fields: Vec<Field>, rhs: Value },
    /// A child ended; tell its end.
    Reaped(ExitReason),
    /// The machine is done.
    Done { last_exit_reason: Option<ExitReason> },
    /// The machine stopped short.
    Fault(Fault),
}

/// The machine's state.
#[derive(Debug)]
pub struct VmState {
    pub program: Vec<Block>,
    pub pc: (usize, Option<usize>),
    pub stack: Vec<StackValue>,
    pub scope: Vec<Scope>,
    pub rstack: Vec<(usize, Option<usize>)>,
    pub child_exit_stack: Vec<ExitReason>,
    pub done: bool,
    pub waiting: Waiting,
}

/// A selection by its datum.
pub enum FieldM {
    Column(Datum),
    Index(Datum),
}

/// A stack entry by its data.
pub enum SvM {
    Value(Datum),
    Ref(Seq<char>, Seq<FieldM>),
}

/// An event by its data.
pub enum EvM {
    Exited(ExitReason),
    BuiltinDone,
    Expanded(Seq<Seq<char>>),
    Evaluated(Datum),
}

/// An action by its data.
pub enum ActM {
    Continue,
    ChangeDir(int, int),
    Spawn(int, int),
    SpawnPipeline(int, int),
    SpawnJob(int),
    Expand(int, int),
    ParseFloat(int, int),
    Compute(Operator, Datum, Datum),
    Select(Datum, Seq<FieldM>),
    Assign(Datum, Seq<FieldM>, Datum),
    Reaped(ExitReason),
    Done(Option<ExitReason>),
    Fault(Fault),
}

/// The machine's state by its data.
#[verifier::ext_equal]
pub struct VmModel {
    pub pc: (usize, Option<usize>),
    pub stack: Seq<SvM>,
    pub scopes: Seq<(Seq<(Seq<char>, Datum)>, bool)>,
    pub rstack: Seq<(usize, Option<usize>)>,
    pub exits: Seq<ExitReason>,
    pub done: bool,
    pub waiting: Waiting,
}

pub open spec fn field_model(f: Field) -> FieldM {
    match f {
        Field::Column(v) => FieldM::Column(datum_of(v)),
        Field::Index(v) => FieldM::Index(datum_of(v)),
    }
}

pub open spec fn fields_model(s: Seq<Field>) -> Seq<FieldM> {
    s.map_values(|f: Field| field_model(f))
}

pub open spec fn sv_model(s: StackValue) -> SvM {
    match s {
        StackValue::Value(v) => SvM::Value(datum_of(v)),
        StackValue::VarRef(r) => SvM::Ref(r.name@, fields_model(r.fields@)),
    }
}

pub open spec fn stack_model(s: Seq<StackValue>) -> Seq<SvM> {
    s.map_values(|v: StackValue| sv_model(v))
}

pub open spec fn vars_model(s: Seq<(String, Value)>) -> Seq<(Seq<char>, Datum)> {
    s.map_values(|p: (String, Value)| (p.0@, datum_of(p.1)))
}

pub open spec fn scopes_model(s: Seq<Scope>) -> Seq<(Seq<(Seq<char>, Datum)>, bool)> {
    s.map_values(|sc: Scope| (vars_model(sc.vars@), sc.is_inherited))
}

pub open spec fn ev_model(e: VmEvent) -> EvM {
    match e {
        VmEvent::Exited(r) => EvM::Exited(r),
        VmEvent::BuiltinDone => EvM::BuiltinDone,
        VmEvent::Expanded(ws) => EvM::Expanded(ws@.map_values(|w: String| w@)),
        VmEvent::Evaluated(v) => EvM::Evaluated(datum_of(v)),
    }
}

pub open spec fn act_model(a: VmAction) -> ActM {
    match a {
        VmAction::Continue => ActM::Continue,
        VmAction::ChangeDir { block, index } => ActM::ChangeDir(block as int, index as int),
        VmAction::Spawn { block, index } => ActM::Spawn(block as int, index as int),
        VmAction::SpawnPipeline { block, index } => ActM::SpawnPipeline(block as int, index as int),
        VmAction::SpawnJob { block } => ActM::SpawnJob(block as int),
        VmAction::Expand { block, index } => ActM::Expand(block as int, index as int),
        VmAction::ParseFloat { block, index } => ActM::ParseFloat(block as int, index as int),
        VmAction::Compute { op, a, b } => ActM::Compute(op, datum_of(a), datum_of(b)),
        VmAction::Select { value, fields } => ActM::Select(datum_of(value), fields_model(fields@)),
        VmAction::Assign { current, fields, rhs } => ActM::Assign(
            datum_of(current),
            fields_model(fields@),
            datum_of(rhs),
        ),
        VmAction::Reaped(r) => ActM::Reaped(r),
        VmAction::Done { last_exit_reason } => ActM::Done(last_exit_reason),
        VmAction::Fault(f) => ActM::Fault(f),
    }
}

impl VmState {
    /// The machine's state by its data.
    pub open spec fn model(&self) -> VmModel {
        VmModel {
            pc: self.pc,
            stack: stack_model(self.stack@),
            scopes: scopes_model(self.scope@),
            rstack: self.rstack@,
            exits: self.child_exit_stack@,
            done: self.done,
            waiting: self.waiting,
        }
    }
}

/// The index of the next instruction.
pub open spec fn next_index(pc: (usize, Option<usize>)) -> int {
    match pc.1 {
        None => 0,
        Some(c) => c + 1,
    }
}

/// Whether the next instruction after `pc` exists in `prog`.
pub open spec fn pc_ok(prog: Seq<Block>, pc: (usize, Option<usize>)) -> bool {
    pc.0 < prog.len() && next_index(pc) < prog[pc.0 as int].contents@.len()
}

/// Whether every block ends with `Return` and every `Call` names a block.
pub open spec fn program_ok(prog: Seq<Block>) -> bool {
    &&& forall|b: int|
        0 <= b < prog.len() ==> (#[trigger] prog[b]).contents@.len() > 0
            && prog[b].contents@.last() is Return
    &&& forall|b: int, i: int|
        0 <= b < prog.len() && 0 <= i < prog[b].contents@.len() && (#[trigger] prog[b].contents@[i]) is Call
            ==> prog[b].contents@[i]->Call_block < prog.len()
}

/// Whether the machine can step: a sound program, a next instruction, and
/// return addresses with a next instruction each.
pub open spec fn wf(prog: Seq<Block>, m: VmModel) -> bool {
    &&& wf_code(prog, m)
    &&& (m.waiting matches Waiting::Store(si, vi) ==> si < m.scopes.len() && vi < m.scopes[si as int].0.len())
}

/// Whether the program is sound and the machine's next instruction and
/// return addresses exist.
pub open spec fn wf_code(prog: Seq<Block>, m: VmModel) -> bool {
    &&& program_ok(prog)
    &&& pc_ok(prog, m.pc)
    &&& forall|k: int| 0 <= k < m.rstack.len() ==> pc_ok(prog, #[trigger] m.rstack[k])
}

/// Whether an event is what the machine waits for.
pub open spec fn event_fits(w: Waiting, ev: Option<EvM>) -> bool {
    match w {
        Waiting::Nothing => ev is None,
        Waiting::Child => ev matches Some(EvM::Exited(_)),
        Waiting::Builtin => ev matches Some(EvM::BuiltinDone),
        Waiting::Words => ev matches Some(EvM::Expanded(_)),
        Waiting::Result => ev matches Some(EvM::Evaluated(_)),
        Waiting::Store(_, _) => ev matches Some(EvM::Evaluated(_)),
    }
}

/// The state after a fault: done.
pub open spec fn faulted(m: VmModel, f: Fault) -> (VmModel, ActM) {
    (VmModel { done: true, ..m }, ActM::Fault(f))
}

/// The state with a value pushed.
pub open spec fn pushed(m: VmModel, d: Datum) -> (VmModel, ActM) {
    (VmModel { stack: m.stack.push(SvM::Value(d)), ..m }, ActM::Continue)
}

/// The fault of taking a value from the top of `s`, if any.
pub open spec fn value_fault(s: Seq<SvM>) -> Option<Fault> {
    if s.len() == 0 {
        Some(Fault::EmptyStack)
    } else if s.last() is Ref {
        Some(Fault::ExpectedValue)
    } else {
        None
    }
}

/// The fault of taking values from the top of `s` one by one, from the
/// `j`-th from the top to the `n`-th, each an array when `arrays`, if any.
pub open spec fn values_fault(s: Seq<SvM>, n: int, arrays: bool, j: int) -> Option<Fault>
    decreases n - j,
{
    if j >= n || j < 0 {
        None
    } else if s.len() - 1 - j < 0 {
        Some(Fault::EmptyStack)
    } else if s[s.len() - 1 - j] is Ref {
        Some(Fault::ExpectedValue)
    } else if arrays && !(s[s.len() - 1 - j]->Value_0 is Array) {
        Some(Fault::ExpectedArray)
    } else {
        values_fault(s, n, arrays, j + 1)
    }
}

/// The top `k` data of `s`, top first.
pub open spec fn top_data(s: Seq<SvM>, k: int) -> Seq<Datum> {
    Seq::new(k as nat, |i: int| s[s.len() - 1 - i]->Value_0)
}

/// The index of the first variable named `name`, from `i` on.
pub open spec fn var_from(vars: Seq<(Seq<char>, Datum)>, name: Seq<char>, i: int) -> Option<int>
    decreases vars.len() - i,
{
    if i < 0 || i >= vars.len() {
        None
    } else if vars[i].0 == name {
        Some(i)
    } else {
        var_from(vars, name, i + 1)
    }
}

/// The index of the first variable named `name`.
pub open spec fn var_index(vars: Seq<(Seq<char>, Datum)>, name: Seq<char>) -> Option<int> {
    var_from(vars, name, 0)
}

/// The index of the innermost scope from `j` down that holds `name`.
pub open spec fn scope_of(scopes: Seq<(Seq<(Seq<char>, Datum)>, bool)>, name: Seq<char>, j: int) -> Option<int>
    decreases j + 1,
{
    if j < 0 {
        None
    } else if var_index(scopes[j].0, name) is Some {
        Some(j)
    } else {
        scope_of(scopes, name, j - 1)
    }
}

/// The innermost variable named `name`: its scope and index.
pub open spec fn lookup(scopes: Seq<(Seq<(Seq<char>, Datum)>, bool)>, name: Seq<char>) -> Option<(int, int)> {
    match scope_of(scopes, name, scopes.len() - 1) {
        Some(j) => Some((j, var_index(scopes[j].0, name).unwrap())),
        None => None,
    }
}

/// Whether a datum has no parts and no float: the machine compares such
/// data itself.
pub open spec fn is_flat(d: Datum) -> bool {
    d is Int || d is Text || d is Bool || d is Null || d is Undefined
}

/// Integer arithmetic as Rust's checked operations do it: `None` on
/// overflow or division by zero; division truncates toward zero.
pub open spec fn int_arith(op: Operator, x: i128, y: i128) -> Option<i128> {
    match op {
        Operator::Add => x.checked_add(y),
        Operator::Sub => x.checked_sub(y),
        Operator::Mul => x.checked_mul(y),
        _ => x.checked_div(y),
    }
}

/// The result of an operator on two data, computed by the machine, or the
/// action that asks for it, or the fault.
pub open spec fn op_result(op: Operator, a: Datum, b: Datum) -> Result<Datum, Result<ActM, Fault>> {
    match op {
        Operator::Eq | Operator::Ne => if is_flat(a) && is_flat(b) {
            Ok(Datum::Bool((a == b) == (op == Operator::Eq)))
        } else {
            Err(Ok(ActM::Compute(op, a, b)))
        },
        Operator::Lt | Operator::Gt | Operator::Le | Operator::Ge => match (a, b) {
            (Datum::Int(x), Datum::Int(y)) => Ok(Datum::Bool(match op {
                Operator::Lt => x < y,
                Operator::Gt => x > y,
                Operator::Le => x <= y,
                _ => x >= y,
            })),
            (Datum::Int(_), Datum::Float(_)) | (Datum::Float(_), Datum::Int(_)) | (
                Datum::Float(_),
                Datum::Float(_),
            ) | (Datum::Text(_), Datum::Text(_)) => Err(Ok(ActM::Compute(op, a, b))),
            _ => Err(Err(Fault::InvalidOperands)),
        },
        Operator::And | Operator::Or | Operator::Xor => match (a, b) {
            (Datum::Int(_), Datum::Int(_)) => Err(Err(Fault::Unimplemented)),
            (Datum::Bool(x), Datum::Bool(y)) => Ok(Datum::Bool(match op {
                Operator::And => x && y,
                Operator::Or => x || y,
                _ => x != y,
            })),
            _ => Err(Err(Fault::InvalidOperands)),
        },
        Operator::Add | Operator::Sub | Operator::Mul | Operator::Div => match (a, b) {
            (Datum::Text(x), Datum::Text(y)) => if op == Operator::Add {
                Ok(Datum::Text(x + y))
            } else {
                Err(Err(Fault::InvalidOperands))
            },
            (Datum::Int(x), Datum::Int(y)) => match int_arith(op, x, y) {
                Some(v) => Ok(Datum::Int(v)),
                None => if op == Operator::Div && y == 0 {
                    Err(Err(Fault::DivideByZero))
                } else {
                    Err(Err(Fault::Overflow))
                },
            },
            (Datum::Int(_), Datum::Float(_)) | (Datum::Float(_), Datum::Int(_)) | (
                Datum::Float(_),
                Datum::Float(_),
            ) => Err(Ok(ActM::Compute(op, a, b))),
            _ => Err(Err(Fault::InvalidOperands)),
        },
        Operator::Like | Operator::NotLike => Err(Err(Fault::Unimplemented)),
    }
}


/// A step that waited: the event's outcome is taken in.
pub open spec fn after_event(m: VmModel, ev: Option<EvM>) -> (VmModel, ActM) {
    let m0 = VmModel { waiting: Waiting::Nothing, ..m };
    match (m.waiting, ev) {
        (Waiting::Child, Some(EvM::Exited(r))) => (VmModel { exits: m.exits.push(r), ..m0 }, ActM::Reaped(r)),
        (Waiting::Words, Some(EvM::Expanded(ws))) => (
            VmModel { stack: m.stack + ws.map_values(|w: Seq<char>| SvM::Value(Datum::Text(w))), ..m0 },
            ActM::Continue,
        ),
        (Waiting::Result, Some(EvM::Evaluated(d))) => pushed(m0, d),
        (Waiting::Store(si, vi), Some(EvM::Evaluated(d))) => (
            VmModel {
                scopes: m.scopes.update(
                    si as int,
                    (m.scopes[si as int].0.update(vi as int, (m.scopes[si as int].0[vi as int].0, d)), m.scopes[si as int].1),
                ),
                ..m0
            },
            ActM::Continue,
        ),
        _ => (m0, ActM::Continue),
    }
}

/// `GetColumn` or `GetIndex`: the key on top is added to the reference
/// below it.
pub open spec fn select_step(column: bool, m: VmModel) -> (VmModel, ActM) {
    if value_fault(m.stack) is Some {
        faulted(m, value_fault(m.stack).unwrap())
    } else if m.stack.len() < 2 || !(m.stack[m.stack.len() - 2] is Ref) {
        faulted(m, Fault::ExpectedVarRef)
    } else {
        let key = m.stack.last()->Value_0;
        let r = m.stack[m.stack.len() - 2];
        let f = if column { FieldM::Column(key) } else { FieldM::Index(key) };
        (
            VmModel { stack: m.stack.subrange(0, m.stack.len() - 2).push(SvM::Ref(r->Ref_0, r->Ref_1.push(f))), ..m },
            ActM::Continue,
        )
    }
}

/// What selecting one field inside a datum gives: the datum selected,
/// a request to the caller (a float index, or a column named by a value
/// with parts or a float), or a fault.
pub enum Sel {
    Got(Datum),
    Ask,
    Stop(Fault),
}

/// The index of the first of `vs`, from `i` on, equal to `key`.
pub open spec fn key_index(vs: Seq<Datum>, key: Datum, i: int) -> Option<int>
    decreases vs.len() - i,
{
    if i < 0 || i >= vs.len() {
        None
    } else if vs[i] == key {
        Some(i)
    } else {
        key_index(vs, key, i + 1)
    }
}

/// Item `c` of a row, or nil where the row is too short.
pub open spec fn item_or_nil(row: Seq<Datum>, c: int) -> Datum {
    if 0 <= c < row.len() {
        row[c]
    } else {
        Datum::Null
    }
}

/// Item `c` of every row, nil where a row is too short.
pub open spec fn column_of(rows: Seq<Seq<Datum>>, c: int) -> Seq<Datum> {
    Seq::new(rows.len(), |r: int| item_or_nil(rows[r], c))
}

/// Selects one field inside a datum. A column of a table with one row is
/// that row's item; of another table, the array of every row's item. A row
/// index is taken as a machine word, as a cast to `usize` takes it. An
/// index out of bounds, or a column the header does not name, selects nil.
pub open spec fn select_one(v: Datum, f: FieldM) -> Sel {
    match f {
        FieldM::Column(key) => if !is_flat(key) {
            Sel::Ask
        } else {
            match v {
                Datum::Table { header, rows } => match key_index(header, key, 0) {
                    None => Sel::Got(Datum::Null),
                    Some(c) => if rows.len() == 1 {
                        Sel::Got(item_or_nil(rows[0], c))
                    } else {
                        Sel::Got(Datum::Array(column_of(rows, c)))
                    },
                },
                _ => Sel::Stop(Fault::InvalidTarget),
            }
        },
        FieldM::Index(key) => match key {
            Datum::Int(i) => {
                let u = (i as usize) as int;
                match v {
                    Datum::Array(a) => Sel::Got(item_or_nil(a, u)),
                    Datum::Table { rows, .. } => if u < rows.len() {
                        Sel::Got(Datum::Array(rows[u]))
                    } else {
                        Sel::Got(Datum::Null)
                    },
                    _ => Sel::Stop(Fault::InvalidTarget),
                }
            },
            Datum::Float(_) => Sel::Ask,
            _ => Sel::Stop(Fault::IndexNotInteger),
        },
    }
}

/// What selecting fields `k` on, in order, inside a datum gives: the datum
/// selected; or the datum reached and the index of the field the caller is
/// asked to go on from; or a fault.
pub enum SelAll {
    Got(Datum),
    Ask(Datum, int),
    Stop(Fault),
}

pub open spec fn select_from(v: Datum, fs: Seq<FieldM>, k: int) -> SelAll
    decreases fs.len() - k,
{
    if k < 0 || k >= fs.len() {
        SelAll::Got(v)
    } else {
        match select_one(v, fs[k]) {
            Sel::Got(x) => select_from(x, fs, k + 1),
            Sel::Ask => SelAll::Ask(v, k),
            Sel::Stop(f) => SelAll::Stop(f),
        }
    }
}

/// `Deref`: the reference on top is replaced by what its fields select
/// inside the innermost variable of its name.
pub open spec fn deref_step(m: VmModel) -> (VmModel, ActM) {
    if m.stack.len() == 0 || !(m.stack.last() is Ref) {
        faulted(m, Fault::ExpectedVarRef)
    } else {
        let name = m.stack.last()->Ref_0;
        let fs = m.stack.last()->Ref_1;
        match lookup(m.scopes, name) {
            None => faulted(m, Fault::UnknownVariable),
            Some((j, k)) => match select_from(m.scopes[j].0[k].1, fs, 0) {
                SelAll::Got(x) => (VmModel { stack: m.stack.drop_last().push(SvM::Value(x)), ..m }, ActM::Continue),
                SelAll::Ask(v, i) => (
                    VmModel { stack: m.stack.drop_last(), waiting: Waiting::Result, ..m },
                    ActM::Select(v, fs.subrange(i, fs.len() as int)),
                ),
                SelAll::Stop(f) => faulted(m, f),
            },
        }
    }
}

/// What an assignment works on: a value; the items of an array; a row of
/// a table; or column `c` of the rows of a table.
pub enum Node {
    V(Datum),
    A(Seq<Datum>),
    T(Seq<Datum>),
    C(int, Seq<Seq<Datum>>),
}

/// What an assignment gives: the node changed, a request to the caller (a
/// float index, or a column named by a value with parts or a float), or a
/// fault.
pub enum Asg {
    Done(Node),
    Ask,
    Stop(Fault),
}

/// Sets fields `k` on inside a node to `rhs`. With no field left, a value
/// becomes `rhs`, and an array or row takes the items of an array `rhs` of
/// its length. A column of a table with one row is that row's item; of
/// another table, the column of its rows, whose items a row index selects.
pub open spec fn assign_at(n: Node, fs: Seq<FieldM>, k: int, rhs: Datum) -> Asg
    decreases fs.len() - k,
{
    if k < 0 || k >= fs.len() {
        match n {
            Node::V(_) => Asg::Done(Node::V(rhs)),
            Node::A(arr) => match rhs {
                Datum::Array(items) => if items.len() == arr.len() {
                    Asg::Done(Node::A(items))
                } else {
                    Asg::Stop(Fault::ShapeMismatch)
                },
                _ => Asg::Stop(Fault::ShapeMismatch),
            },
            Node::T(row) => match rhs {
                Datum::Array(items) => if items.len() == row.len() {
                    Asg::Done(Node::T(items))
                } else {
                    Asg::Stop(Fault::ShapeMismatch)
                },
                _ => Asg::Stop(Fault::ShapeMismatch),
            },
            Node::C(_, _) => Asg::Stop(Fault::ColumnAssign),
        }
    } else {
        match fs[k] {
            FieldM::Column(key) => if !is_flat(key) {
                Asg::Ask
            } else {
                match n {
                    Node::V(Datum::Table { header, rows }) => match key_index(header, key, 0) {
                        None => Asg::Stop(Fault::NoSuchColumn),
                        Some(c) => if rows.len() == 1 {
                            if c < rows[0].len() {
                                match assign_at(Node::V(rows[0][c]), fs, k + 1, rhs) {
                                    Asg::Done(Node::V(x)) => Asg::Done(
                                        Node::V(Datum::Table { header, rows: rows.update(0, rows[0].update(c, x)) }),
                                    ),
                                    Asg::Done(_) => Asg::Stop(Fault::Unreachable),
                                    o => o,
                                }
                            } else {
                                Asg::Stop(Fault::OutOfBounds)
                            }
                        } else {
                            match assign_at(Node::C(c, rows), fs, k + 1, rhs) {
                                Asg::Done(Node::C(_, r2)) => Asg::Done(Node::V(Datum::Table { header, rows: r2 })),
                                Asg::Done(_) => Asg::Stop(Fault::Unreachable),
                                o => o,
                            }
                        },
                    },
                    _ => Asg::Stop(Fault::InvalidTarget),
                }
            },
            FieldM::Index(key) => match key {
                Datum::Int(i) => {
                    let u = (i as usize) as int;
                    match n {
                        Node::V(Datum::Array(arr)) => if u < arr.len() {
                            match assign_at(Node::V(arr[u]), fs, k + 1, rhs) {
                                Asg::Done(Node::V(x)) => Asg::Done(Node::V(Datum::Array(arr.update(u, x)))),
                                Asg::Done(_) => Asg::Stop(Fault::Unreachable),
                                o => o,
                            }
                        } else {
                            Asg::Stop(Fault::OutOfBounds)
                        },
                        Node::V(Datum::Table { header, rows }) => if u < rows.len() {
                            match assign_at(Node::T(rows[u]), fs, k + 1, rhs) {
                                Asg::Done(Node::T(r)) => Asg::Done(Node::V(Datum::Table { header, rows: rows.update(u, r) })),
                                Asg::Done(_) => Asg::Stop(Fault::Unreachable),
                                o => o,
                            }
                        } else {
                            Asg::Stop(Fault::OutOfBounds)
                        },
                        Node::A(arr) => if u < arr.len() {
                            match assign_at(Node::V(arr[u]), fs, k + 1, rhs) {
                                Asg::Done(Node::V(x)) => Asg::Done(Node::A(arr.update(u, x))),
                                Asg::Done(_) => Asg::Stop(Fault::Unreachable),
                                o => o,
                            }
                        } else {
                            Asg::Stop(Fault::OutOfBounds)
                        },
                        Node::C(c, rows) => if u < rows.len() && 0 <= c < rows[u].len() {
                            match assign_at(Node::V(rows[u][c]), fs, k + 1, rhs) {
                                Asg::Done(Node::V(x)) => Asg::Done(Node::C(c, rows.update(u, rows[u].update(c, x)))),
                                Asg::Done(_) => Asg::Stop(Fault::Unreachable),
                                o => o,
                            }
                        } else {
                            Asg::Stop(Fault::OutOfBounds)
                        },
                        _ => Asg::Stop(Fault::InvalidTarget),
                    }
                },
                Datum::Float(_) => Asg::Ask,
                _ => Asg::Stop(Fault::IndexNotInteger),
            },
        }
    }
}

/// `SetVar`: the value below the reference on top is stored where its
/// fields select inside the innermost variable of its name, or, where no
/// scope holds the name, in a new variable of the innermost scope.
pub open spec fn set_step(m: VmModel) -> (VmModel, ActM) {
    if m.stack.len() == 0 || !(m.stack.last() is Ref) {
        faulted(m, Fault::ExpectedVarRef)
    } else if value_fault(m.stack.drop_last()) is Some {
        faulted(m, value_fault(m.stack.drop_last()).unwrap())
    } else {
        let name = m.stack.last()->Ref_0;
        let fs = m.stack.last()->Ref_1;
        let rhs = m.stack[m.stack.len() - 2]->Value_0;
        let rest = m.stack.subrange(0, m.stack.len() - 2);
        match lookup(m.scopes, name) {
            Some((j, k)) => if m.scopes[j].1 {
                faulted(m, Fault::InheritedScope)
            } else {
                match assign_at(Node::V(m.scopes[j].0[k].1), fs, 0, rhs) {
                    Asg::Done(Node::V(x)) => (
                        VmModel {
                            stack: rest,
                            scopes: m.scopes.update(j, (m.scopes[j].0.update(k, (name, x)), false)),
                            ..m
                        },
                        ActM::Continue,
                    ),
                    Asg::Ask => (
                        VmModel { stack: rest, waiting: Waiting::Store(j as usize, k as usize), ..m },
                        ActM::Assign(m.scopes[j].0[k].1, fs, rhs),
                    ),
                    Asg::Stop(f) => faulted(m, f),
                    Asg::Done(_) => faulted(m, Fault::Unreachable),
                }
            },
            None => if m.scopes.len() == 0 {
                faulted(m, Fault::NoScope)
            } else {
                let last = m.scopes.len() - 1;
                (
                    VmModel {
                        stack: rest,
                        scopes: m.scopes.update(last, (m.scopes[last].0.push((name, rhs)), m.scopes[last].1)),
                        ..m
                    },
                    ActM::Continue,
                )
            },
        }
    }
}

/// `Op`: the operator on the two values on top.
pub open spec fn op_step(op: Operator, m: VmModel) -> (VmModel, ActM) {
    match values_fault(m.stack, 2, false, 0) {
        Some(f) => faulted(m, f),
        None => {
            let b = m.stack.last()->Value_0;
            let a = m.stack[m.stack.len() - 2]->Value_0;
            let rest = m.stack.subrange(0, m.stack.len() - 2);
            match op_result(op, a, b) {
                Ok(d) => (VmModel { stack: rest.push(SvM::Value(d)), ..m }, ActM::Continue),
                Err(Ok(act)) => (VmModel { stack: rest, waiting: Waiting::Result, ..m }, act),
                Err(Err(f)) => faulted(m, f),
            }
        },
    }
}

/// `Negate` (`-not`): the boolean on top is negated.
pub open spec fn negate_step(m: VmModel) -> (VmModel, ActM) {
    match value_fault(m.stack) {
        Some(f) => faulted(m, f),
        None => match m.stack.last()->Value_0 {
            Datum::Bool(b) => (
                VmModel { stack: m.stack.drop_last().push(SvM::Value(Datum::Bool(!b))), ..m },
                ActM::Continue,
            ),
            _ => faulted(m, Fault::InvalidOperands),
        },
    }
}

/// `CollectArray` and `CollectTable`.
pub open spec fn collect_step(n: int, table: bool, m: VmModel) -> (VmModel, ActM) {
    let k = if table { n + 1 } else { n };
    match values_fault(m.stack, k, table, 0) {
        Some(f) => faulted(m, f),
        None => {
            let rest = m.stack.subrange(0, m.stack.len() - k);
            let top = top_data(m.stack, n);
            let d = if table {
                Datum::Table {
                    header: m.stack[m.stack.len() - 1 - n]->Value_0->Array_0,
                    rows: top.map_values(|r: Datum| r->Array_0),
                }
            } else {
                Datum::Array(top)
            };
            (VmModel { stack: rest.push(SvM::Value(d)), ..m }, ActM::Continue)
        },
    }
}

/// `Return`: back to the caller, dropping the callee's scope; or, with no
/// caller, the end, with exactly one scope left.
pub open spec fn return_step(m: VmModel) -> (VmModel, ActM) {
    if m.rstack.len() > 0 {
        if m.scopes.len() == 0 {
            faulted(m, Fault::NoScope)
        } else {
            (
                VmModel { pc: m.rstack.last(), rstack: m.rstack.drop_last(), scopes: m.scopes.drop_last(), ..m },
                ActM::Continue,
            )
        }
    } else if m.scopes.len() != 1 {
        faulted(m, Fault::ScopeLeft)
    } else {
        (
            VmModel { done: true, ..m },
            ActM::Done(if m.exits.len() > 0 { Some(m.exits.last()) } else { None }),
        )
    }
}

/// What the instruction at `index` of `block` does to `m`, whose pc
/// already names it.
pub open spec fn instr_step(ins: Instr, block: int, index: int, m: VmModel) -> (VmModel, ActM) {
    match ins {
        Instr::ChangeDir { .. } => (m, ActM::ChangeDir(block, index)),
        Instr::Run { .. } => (VmModel { waiting: Waiting::Child, ..m }, ActM::Spawn(block, index)),
        Instr::RunPipeline { items } => if items@.len() == 0 {
            faulted(m, Fault::EmptyPipeline)
        } else {
            (
                VmModel { waiting: if items@.last() is Where { Waiting::Builtin } else { Waiting::Child }, ..m },
                ActM::SpawnPipeline(block, index),
            )
        },
        Instr::CallAsync { block: b } => (m, ActM::SpawnJob(b as int)),
        Instr::Call { block: b } => (
            VmModel {
                rstack: m.rstack.push(m.pc),
                scopes: m.scopes.push((Seq::empty(), false)),
                pc: (b, None),
                ..m
            },
            ActM::Continue,
        ),
        Instr::Load(t) => match t {
            Token::Word(_) => (VmModel { waiting: Waiting::Words, ..m }, ActM::Expand(block, index)),
            Token::Float(_) => (VmModel { waiting: Waiting::Result, ..m }, ActM::ParseFloat(block, index)),
            Token::String(s) => pushed(m, Datum::Text(s@)),
            Token::Int(v) => pushed(m, Datum::Int(v)),
            _ => faulted(m, Fault::Unreachable),
        },
        Instr::VarRef(name) => (VmModel { stack: m.stack.push(SvM::Ref(name@, Seq::empty())), ..m }, ActM::Continue),
        Instr::GetColumn => select_step(true, m),
        Instr::GetIndex => select_step(false, m),
        Instr::Deref => deref_step(m),
        Instr::SetVar => set_step(m),
        Instr::CollectArray(n) => collect_step(n as int, false, m),
        Instr::CollectTable(n) => collect_step(n as int, true, m),
        Instr::Op(op) => op_step(op, m),
        Instr::Negate => negate_step(m),
        Instr::Pop => (VmModel { stack: if m.stack.len() > 0 { m.stack.drop_last() } else { m.stack }, ..m }, ActM::Continue),
        Instr::Return => return_step(m),
    }
}

/// One step of the machine: the outcome of what it waited for, or its next
/// instruction.
pub open spec fn vm_step(prog: Seq<Block>, m: VmModel, ev: Option<EvM>) -> (VmModel, ActM) {
    if m.waiting != Waiting::Nothing {
        after_event(m, ev)
    } else {
        let b = m.pc.0 as int;
        let i = next_index(m.pc);
        instr_step(prog[b].contents@[i], b, i, VmModel { pc: (m.pc.0, Some(i as usize)), ..m })
    }
}


/// An optional event by its data.
pub open spec fn opt_ev(e: Option<VmEvent>) -> Option<EvM> {
    match e {
        Some(x) => Some(ev_model(x)),
        None => None,
    }
}

proof fn lemma_no_fault_len(s: Seq<SvM>, n: int, arrays: bool, j: int)
    requires
        0 <= j,
        values_fault(s, n, arrays, j) is None,
    ensures
        j < n ==> s.len() >= n,
    decreases n - j,
{
    if j < n {
        lemma_no_fault_len(s, n, arrays, j + 1);
    }
}

fn push_value(stack: &mut Vec<StackValue>, v: Value)
    ensures
        stack_model(final(stack)@) == stack_model(old(stack)@).push(SvM::Value(datum_of(v))),
        final(stack)@.len() == old(stack)@.len() + 1,
{
    let ghost d = datum_of(v);
    stack.push(StackValue::Value(v));
    assert(stack_model(stack@) =~= stack_model(old(stack)@).push(SvM::Value(d)));
}

pub(crate) fn pop_entry(stack: &mut Vec<StackValue>) -> (r: StackValue)
    requires
        old(stack)@.len() > 0,
    ensures
        stack_model(final(stack)@) == stack_model(old(stack)@).drop_last(),
        sv_model(r) == stack_model(old(stack)@).last(),
        final(stack)@.len() == old(stack)@.len() - 1,
{
    let r = stack.pop().unwrap();
    assert(stack_model(stack@) =~= stack_model(old(stack)@).drop_last());
    r
}

fn values_fault_of(stack: &Vec<StackValue>, n: usize, extra: bool, arrays: bool) -> (r: Option<Fault>)
    ensures
        r == values_fault(stack_model(stack@), n + if extra { 1int } else { 0int }, arrays, 0),
{
    let ghost total: int = n + if extra { 1int } else { 0int };
    let len = stack.len();
    let mut j: usize = 0;
    while j < n || (extra && j == n)
        invariant
            0 <= j <= total,
            total == n + if extra { 1int } else { 0int },
            len == stack@.len(),
            values_fault(stack_model(stack@), total, arrays, 0) == values_fault(
                stack_model(stack@),
                total,
                arrays,
                j as int,
            ),
        decreases total - j,
    {
        if j >= len {
            return Some(Fault::EmptyStack);
        }
        match &stack[len - 1 - j] {
            StackValue::VarRef(_) => {
                return Some(Fault::ExpectedValue);
            },
            StackValue::Value(v) => {
                if arrays {
                    match v {
                        Value::Array(_) => {},
                        _ => {
                            return Some(Fault::ExpectedArray);
                        },
                    }
                }
            },
        }
        j += 1;
    }
    None
}

proof fn lemma_fault_prefix(s: Seq<SvM>, n: int, arrays: bool, j: int)
    requires
        0 <= j <= n,
        values_fault(s, n + 1, arrays, j) is None,
    ensures
        values_fault(s, n, arrays, j) is None,
        s.len() >= n + 1,
        !(s[s.len() - 1 - n] is Ref),
        arrays ==> s[s.len() - 1 - n]->Value_0 is Array,
    decreases n - j,
{
    if j < n {
        lemma_fault_prefix(s, n, arrays, j + 1);
    }
}

/// Takes `n` values off the top, top first.
fn pop_values(stack: &mut Vec<StackValue>, n: usize) -> (r: Vec<Value>)
    requires
        values_fault(stack_model(old(stack)@), n as int, false, 0) is None,
    ensures
        data_of(r@) == top_data(stack_model(old(stack)@), n as int),
        stack_model(final(stack)@) == stack_model(old(stack)@).subrange(0, old(stack)@.len() - n),
{
    let ghost s0 = stack_model(stack@);
    let mut out: Vec<Value> = Vec::new();
    let mut j: usize = 0;
    proof {
        lemma_no_fault_len(s0, n as int, false, 0);
    }
    while j < n
        invariant
            0 <= j <= n,
            s0.len() >= n,
            stack_model(stack@) == s0.subrange(0, s0.len() - j),
            data_of(out@) == top_data(s0, j as int),
            values_fault(s0, n as int, false, j as int) is None,
        decreases n - j,
    {
        assert(stack@.len() == stack_model(stack@).len());
        let e = pop_entry(stack);
        assert(s0.subrange(0, s0.len() - j).drop_last() =~= s0.subrange(0, s0.len() - j - 1));
        match e {
            StackValue::Value(v) => {
                proof {
                    lemma_data_of_push(out@, v);
                }
                out.push(v);
                assert(top_data(s0, j + 1) =~= top_data(s0, j as int).push(s0[s0.len() - 1 - j]->Value_0));
            },
            StackValue::VarRef(_) => {},
        }
        j += 1;
    }
    out
}

/// Takes `n` arrays off the top, top first, as rows.
fn pop_rows(stack: &mut Vec<StackValue>, n: usize) -> (r: Vec<Vec<Value>>)
    requires
        values_fault(stack_model(old(stack)@), n as int, true, 0) is None,
    ensures
        rows_of(r@) == top_data(stack_model(old(stack)@), n as int).map_values(|d: Datum| d->Array_0),
        stack_model(final(stack)@) == stack_model(old(stack)@).subrange(0, old(stack)@.len() - n),
{
    let ghost s0 = stack_model(stack@);
    let mut out: Vec<Vec<Value>> = Vec::new();
    let mut j: usize = 0;
    proof {
        lemma_no_fault_len(s0, n as int, true, 0);
    }
    while j < n
        invariant
            0 <= j <= n,
            s0.len() >= n,
            stack_model(stack@) == s0.subrange(0, s0.len() - j),
            rows_of(out@) == top_data(s0, j as int).map_values(|d: Datum| d->Array_0),
            values_fault(s0, n as int, true, j as int) is None,
        decreases n - j,
    {
        assert(stack@.len() == stack_model(stack@).len());
        let e = pop_entry(stack);
        assert(s0.subrange(0, s0.len() - j).drop_last() =~= s0.subrange(0, s0.len() - j - 1));
        match e {
            StackValue::Value(Value::Array(row)) => {
                proof {
                    lemma_rows_of_push(out@, row);
                }
                out.push(row);
                assert(top_data(s0, j + 1).map_values(|d: Datum| d->Array_0) =~= top_data(s0, j as int).map_values(
                    |d: Datum| d->Array_0,
                ).push(s0[s0.len() - 1 - j]->Value_0->Array_0));
            },
            _ => {},
        }
        j += 1;
    }
    out
}

/// The innermost variable named `name`: its scope and index.
fn find_var(scopes: &Vec<Scope>, name: &String) -> (r: Option<(usize, usize)>)
    ensures
        match r {
            Some((j, k)) => lookup(scopes_model(scopes@), name@) == Some((j as int, k as int)) && j
                < scopes@.len() && k < scopes@[j as int].vars@.len(),
            None => lookup(scopes_model(scopes@), name@) is None,
        },
{
    let ghost sm = scopes_model(scopes@);
    let mut j: usize = scopes.len();
    while j > 0
        invariant
            0 <= j <= scopes@.len(),
            sm == scopes_model(scopes@),
            scope_of(sm, name@, sm.len() - 1) == scope_of(sm, name@, j - 1),
        decreases j,
    {
        let vars = &scopes[j - 1].vars;
        let ghost vm = sm[j - 1].0;
        assert(vm == vars_model(vars@));
        let mut k: usize = 0;
        while k < vars.len()
            invariant
                0 <= k <= vars@.len(),
                0 < j <= scopes@.len(),
                vars@ == scopes@[j - 1].vars@,
                sm == scopes_model(scopes@),
                vm == sm[j - 1].0,
                scope_of(sm, name@, sm.len() - 1) == scope_of(sm, name@, j - 1),
                vm == vars_model(vars@),
                var_index(vm, name@) == var_from(vm, name@, k as int),
            decreases vars.len() - k,
        {
            if same_text(&vars[k].0, name.as_str()) {
                return Some((j - 1, k));
            }
            k += 1;
        }
        j -= 1;
    }
    None
}

/// Sets variable `k` of scope `j`.
fn store(scopes: &mut Vec<Scope>, j: usize, k: usize, v: Value)
    requires
        j < old(scopes)@.len(),
        k < old(scopes)@[j as int].vars@.len(),
    ensures
        scopes_model(final(scopes)@) == scopes_model(old(scopes)@).update(
            j as int,
            (
                scopes_model(old(scopes)@)[j as int].0.update(
                    k as int,
                    (scopes_model(old(scopes)@)[j as int].0[k as int].0, datum_of(v)),
                ),
                scopes_model(old(scopes)@)[j as int].1,
            ),
        ),
{
    let ghost d = datum_of(v);
    let mut sc = scopes.remove(j);
    let ghost vs0 = sc.vars@;
    let pair = sc.vars.remove(k);
    sc.vars.insert(k, (pair.0, v));
    assert(vars_model(sc.vars@) =~= vars_model(vs0).update(k as int, (vars_model(vs0)[k as int].0, d)));
    let ghost sc_m = (vars_model(sc.vars@), sc.is_inherited);
    scopes.insert(j, sc);
    assert(scopes_model(scopes@) =~= scopes_model(old(scopes)@).update(j as int, sc_m));
}

/// Adds a variable to the innermost scope.
fn declare(scopes: &mut Vec<Scope>, name: String, v: Value)
    requires
        old(scopes)@.len() > 0,
    ensures
        ({
            let m = scopes_model(old(scopes)@);
            let last = m.len() - 1;
            scopes_model(final(scopes)@) == m.update(last, (m[last].0.push((name@, datum_of(v))), m[last].1))
        }),
{
    let ghost d = datum_of(v);
    let ghost nm = name@;
    let j = scopes.len() - 1;
    let mut sc = scopes.remove(j);
    let ghost vs0 = sc.vars@;
    sc.vars.push((name, v));
    assert(vars_model(sc.vars@) =~= vars_model(vs0).push((nm, d)));
    let ghost sc_m = (vars_model(sc.vars@), sc.is_inherited);
    scopes.insert(j, sc);
    assert(scopes_model(scopes@) =~= scopes_model(old(scopes)@).update(j as int, sc_m));
}

/// Whether a value has no parts and no float.
fn flat(v: &Value) -> (r: bool)
    ensures
        r == is_flat(datum_of(*v)),
{
    match v {
        Value::Int(_) | Value::Text(_) | Value::Bool(_) | Value::Null | Value::Undefined => true,
        _ => false,
    }
}

/// Whether two values without parts or floats are equal.
fn flat_equal(a: &Value, b: &Value) -> (r: bool)
    requires
        is_flat(datum_of(*a)),
        is_flat(datum_of(*b)),
    ensures
        r == (datum_of(*a) == datum_of(*b)),
{
    match (a, b) {
        (Value::Int(x), Value::Int(y)) => *x == *y,
        (Value::Text(x), Value::Text(y)) => same_text(x, y.as_str()),
        (Value::Bool(x), Value::Bool(y)) => *x == *y,
        (Value::Null, Value::Null) => true,
        (Value::Undefined, Value::Undefined) => true,
        _ => false,
    }
}

/// What the machine makes of an operator on two values.
enum OpOutcome {
    Value(Value),
    Ask,
    Fault(Fault),
}

fn apply_op(op: Operator, a: &Value, b: &Value) -> (r: OpOutcome)
    ensures
        match op_result(op, datum_of(*a), datum_of(*b)) {
            Ok(d) => r matches OpOutcome::Value(v) && datum_of(v) == d,
            Err(Ok(act)) => r is Ask && act == ActM::Compute(op, datum_of(*a), datum_of(*b)),
            Err(Err(f)) => r == OpOutcome::Fault(f),
        },
{
    match op {
        Operator::Eq | Operator::Ne => {
            if flat(a) && flat(b) {
                let e = flat_equal(a, b);
                OpOutcome::Value(Value::Bool(e == (op == Operator::Eq)))
            } else {
                OpOutcome::Ask
            }
        },
        Operator::Lt | Operator::Gt | Operator::Le | Operator::Ge => match (a, b) {
            (Value::Int(x), Value::Int(y)) => OpOutcome::Value(Value::Bool(match op {
                Operator::Lt => *x < *y,
                Operator::Gt => *x > *y,
                Operator::Le => *x <= *y,
                _ => *x >= *y,
            })),
            (Value::Int(_), Value::Float(_)) | (Value::Float(_), Value::Int(_)) | (
                Value::Float(_),
                Value::Float(_),
            ) | (Value::Text(_), Value::Text(_)) => OpOutcome::Ask,
            _ => OpOutcome::Fault(Fault::InvalidOperands),
        },
        Operator::And | Operator::Or | Operator::Xor => match (a, b) {
            (Value::Int(_), Value::Int(_)) => OpOutcome::Fault(Fault::Unimplemented),
            (Value::Bool(x), Value::Bool(y)) => OpOutcome::Value(Value::Bool(match op {
                Operator::And => *x && *y,
                Operator::Or => *x || *y,
                _ => *x != *y,
            })),
            _ => OpOutcome::Fault(Fault::InvalidOperands),
        },
        Operator::Add | Operator::Sub | Operator::Mul | Operator::Div => match (a, b) {
            (Value::Text(x), Value::Text(y)) => if op == Operator::Add {
                let mut cs = chars_of(x.as_str());
                push_str(&mut cs, y.as_str());
                OpOutcome::Value(Value::Text(string_of(cs.as_slice())))
            } else {
                OpOutcome::Fault(Fault::InvalidOperands)
            },
            (Value::Int(x), Value::Int(y)) => {
                let r = match op {
                    Operator::Add => x.checked_add(*y),
                    Operator::Sub => x.checked_sub(*y),
                    Operator::Mul => x.checked_mul(*y),
                    _ => x.checked_div(*y),
                };
                match r {
                    Some(v) => OpOutcome::Value(Value::Int(v)),
                    None => if op == Operator::Div && *y == 0 {
                        OpOutcome::Fault(Fault::DivideByZero)
                    } else {
                        OpOutcome::Fault(Fault::Overflow)
                    },
                }
            },
            (Value::Int(_), Value::Float(_)) | (Value::Float(_), Value::Int(_)) | (
                Value::Float(_),
                Value::Float(_),
            ) => OpOutcome::Ask,
            _ => OpOutcome::Fault(Fault::InvalidOperands),
        },
        Operator::Like | Operator::NotLike => OpOutcome::Fault(Fault::Unimplemented),
    }
}


proof fn lemma_var_from(vars: Seq<(Seq<char>, Datum)>, name: Seq<char>, i: int)
    ensures
        var_from(vars, name, i) matches Some(k) ==> 0 <= i <= k < vars.len() && vars[k].0 == name,
    decreases vars.len() - i,
{
    if 0 <= i < vars.len() && vars[i].0 != name {
        lemma_var_from(vars, name, i + 1);
    }
}

proof fn lemma_scope_of(scopes: Seq<(Seq<(Seq<char>, Datum)>, bool)>, name: Seq<char>, j: int)
    requires
        j < scopes.len(),
    ensures
        scope_of(scopes, name, j) matches Some(x) ==> 0 <= x <= j && var_index(scopes[x].0, name) is Some,
    decreases j + 1,
{
    if j >= 0 && var_index(scopes[j].0, name) is None {
        lemma_scope_of(scopes, name, j - 1);
    }
}

/// Where the innermost variable of a name is, it bears that name.
proof fn lemma_lookup(scopes: Seq<(Seq<(Seq<char>, Datum)>, bool)>, name: Seq<char>)
    ensures
        lookup(scopes, name) matches Some((j, k)) ==> 0 <= j < scopes.len() && 0 <= k < scopes[j].0.len()
            && scopes[j].0[k].0 == name,
{
    lemma_scope_of(scopes, name, scopes.len() - 1);
    if let Some(j) = scope_of(scopes, name, scopes.len() - 1) {
        lemma_var_from(scopes[j].0, name, 0);
    }
}

fn do_select(vm: &mut VmState, column: bool) -> (a: VmAction)
    ensures
        final(vm).program == old(vm).program,
        (final(vm).model(), act_model(a)) == select_step(column, old(vm).model()),
{
    let len = vm.stack.len();
    if len == 0 {
        vm.done = true;
        return VmAction::Fault(Fault::EmptyStack);
    }
    if let StackValue::VarRef(_) = &vm.stack[len - 1] {
        vm.done = true;
        return VmAction::Fault(Fault::ExpectedValue);
    }
    if len < 2 {
        vm.done = true;
        return VmAction::Fault(Fault::ExpectedVarRef);
    }
    if let StackValue::Value(_) = &vm.stack[len - 2] {
        vm.done = true;
        return VmAction::Fault(Fault::ExpectedVarRef);
    }
    let ghost s0 = stack_model(vm.stack@);
    let key = pop_entry(&mut vm.stack);
    let r = pop_entry(&mut vm.stack);
    assert(s0.drop_last().drop_last() =~= s0.subrange(0, s0.len() - 2));
    if let (StackValue::Value(k), StackValue::VarRef(mut vr)) = (key, r) {
        let ghost fs0 = vr.fields@;
        let f = if column { Field::Column(k) } else { Field::Index(k) };
        let ghost fm = field_model(f);
        vr.fields.push(f);
        assert(fields_model(vr.fields@) =~= fields_model(fs0).push(fm));
        let ghost st = vm.stack@;
        let ghost svm = sv_model(StackValue::VarRef(vr));
        vm.stack.push(StackValue::VarRef(vr));
        assert(stack_model(vm.stack@) =~= stack_model(st).push(svm));
    }
    VmAction::Continue
}

/// Whether a value equals a key without parts or floats.
fn equals_flat_key(c: &Value, key: &Value) -> (r: bool)
    requires
        is_flat(datum_of(*key)),
    ensures
        r == (datum_of(*c) == datum_of(*key)),
{
    if flat(c) {
        flat_equal(c, key)
    } else {
        false
    }
}

/// The index of the first header item equal to a key without parts or
/// floats.
fn find_key(header: &Vec<Value>, key: &Value) -> (r: Option<usize>)
    requires
        is_flat(datum_of(*key)),
    ensures
        match r {
            Some(i) => key_index(data_of(header@), datum_of(*key), 0) == Some(i as int),
            None => key_index(data_of(header@), datum_of(*key), 0) is None,
        },
{
    proof {
        lemma_data_of_index(header@);
    }
    let ghost hs = data_of(header@);
    let mut i: usize = 0;
    while i < header.len()
        invariant
            0 <= i <= header@.len(),
            hs == data_of(header@),
            hs.len() == header@.len(),
            is_flat(datum_of(*key)),
            forall|x: int| 0 <= x < header@.len() ==> #[trigger] hs[x] == datum_of(header@[x]),
            key_index(hs, datum_of(*key), 0) == key_index(hs, datum_of(*key), i as int),
        decreases header.len() - i,
    {
        if equals_flat_key(&header[i], key) {
            return Some(i);
        }
        i += 1;
    }
    None
}

/// Item `c` of every row, nil where a row is too short.
fn column_items(rows: &Vec<Vec<Value>>, c: usize) -> (col: Vec<Value>)
    ensures
        data_of(col@) == column_of(rows_of(rows@), c as int),
{
    proof {
        lemma_rows_of_index(rows@);
    }
    let ghost rs = rows_of(rows@);
    let mut col: Vec<Value> = Vec::new();
    let mut r: usize = 0;
    while r < rows.len()
        invariant
            0 <= r <= rows@.len(),
            rs == rows_of(rows@),
            rs.len() == rows@.len(),
            forall|x: int| 0 <= x < rows@.len() ==> #[trigger] rs[x] == data_of(rows@[x]@),
            data_of(col@) == Seq::new(r as nat, |x: int| item_or_nil(rs[x], c as int)),
        decreases rows.len() - r,
    {
        proof {
            lemma_data_of_index(rows@[r as int]@);
        }
        let item = if c < rows[r].len() { rows[r][c].duplicate() } else { Value::Null };
        proof {
            lemma_data_of_push(col@, item);
        }
        col.push(item);
        assert(data_of(col@) =~= Seq::new((r + 1) as nat, |x: int| item_or_nil(rs[x], c as int)));
        r += 1;
    }
    col
}

/// Item `c` of a row, nil where the row is too short.
fn item_or_null(row: &Vec<Value>, c: usize) -> (v: Value)
    ensures
        datum_of(v) == item_or_nil(data_of(row@), c as int),
{
    proof {
        lemma_data_of_index(row@);
    }
    if c < row.len() {
        row[c].duplicate()
    } else {
        Value::Null
    }
}

/// What a selection gives, computed.
enum SelOut {
    Got(Value),
    Ask,
    Stop(Fault),
}

fn select_one_of(v: &Value, f: &Field) -> (r: SelOut)
    ensures
        match select_one(datum_of(*v), field_model(*f)) {
            Sel::Got(x) => r matches SelOut::Got(w) && datum_of(w) == x,
            Sel::Ask => r is Ask,
            Sel::Stop(fl) => r matches SelOut::Stop(g) && g == fl,
        },
{
    match f {
        Field::Column(key) => {
            if !flat(key) {
                return SelOut::Ask;
            }
            match v {
                Value::Table { header, rows } => {
                    proof {
                        lemma_rows_of_index(rows@);
                    }
                    match find_key(header, key) {
                        None => SelOut::Got(Value::Null),
                        Some(c) => {
                            if rows.len() == 1 {
                                SelOut::Got(item_or_null(&rows[0], c))
                            } else {
                                SelOut::Got(Value::Array(column_items(rows, c)))
                            }
                        },
                    }
                },
                _ => SelOut::Stop(Fault::InvalidTarget),
            }
        },
        Field::Index(key) => match key {
            Value::Int(i) => {
                let u = *i as usize;
                match v {
                    Value::Array(a) => SelOut::Got(item_or_null(a, u)),
                    Value::Table { rows, .. } => {
                        proof {
                            lemma_rows_of_index(rows@);
                        }
                        if u < rows.len() {
                            let items = crate::bwine::duplicate_values(&rows[u]);
                            SelOut::Got(Value::Array(items))
                        } else {
                            SelOut::Got(Value::Null)
                        }
                    },
                    _ => SelOut::Stop(Fault::InvalidTarget),
                }
            },
            Value::Float(_) => SelOut::Ask,
            _ => SelOut::Stop(Fault::IndexNotInteger),
        },
    }
}

/// What selecting fields `k` on gives, computed.
enum SelAllOut {
    Got(Value),
    Ask(Value, usize),
    Stop(Fault),
}

fn select_all(v: Value, fields: &Vec<Field>) -> (r: SelAllOut)
    ensures
        match select_from(datum_of(v), fields_model(fields@), 0) {
            SelAll::Got(x) => r matches SelAllOut::Got(w) && datum_of(w) == x,
            SelAll::Ask(x, k) => r matches SelAllOut::Ask(w, j) && datum_of(w) == x && j == k,
            SelAll::Stop(fl) => r matches SelAllOut::Stop(g) && g == fl,
        },
        r matches SelAllOut::Ask(_, j) ==> j < fields@.len(),
{
    let ghost fs = fields_model(fields@);
    let ghost d0 = datum_of(v);
    let mut cur = v;
    let mut k: usize = 0;
    while k < fields.len()
        invariant
            0 <= k <= fields@.len(),
            fs == fields_model(fields@),
            d0 == datum_of(v),
            select_from(d0, fs, 0) == select_from(datum_of(cur), fs, k as int),
        decreases fields.len() - k,
    {
        assert(fs[k as int] == field_model(fields@[k as int]));
        match select_one_of(&cur, &fields[k]) {
            SelOut::Got(x) => {
                cur = x;
            },
            SelOut::Ask => {
                return SelAllOut::Ask(cur, k);
            },
            SelOut::Stop(f) => {
                return SelAllOut::Stop(f);
            },
        }
        k += 1;
    }
    SelAllOut::Got(cur)
}

/// A copy of fields `k` on.
fn fields_from(fields: &Vec<Field>, k: usize) -> (r: Vec<Field>)
    requires
        k <= fields@.len(),
    ensures
        fields_model(r@) == fields_model(fields@).subrange(k as int, fields@.len() as int),
{
    let mut out: Vec<Field> = Vec::new();
    let mut j: usize = k;
    while j < fields.len()
        invariant
            k <= j <= fields@.len(),
            fields_model(out@) == fields_model(fields@).subrange(k as int, j as int),
        decreases fields.len() - j,
    {
        let f = match &fields[j] {
            Field::Column(v) => Field::Column(v.duplicate()),
            Field::Index(v) => Field::Index(v.duplicate()),
        };
        let ghost fm = field_model(f);
        let ghost prev = out@;
        assert(fm == field_model(fields@[j as int]));
        out.push(f);
        assert(fields_model(out@) =~= fields_model(prev).push(fm));
        assert(fields_model(out@) =~= fields_model(fields@).subrange(k as int, j + 1));
        j += 1;
    }
    out
}

fn do_deref(vm: &mut VmState) -> (a: VmAction)
    ensures
        final(vm).program == old(vm).program,
        (final(vm).model(), act_model(a)) == deref_step(old(vm).model()),
{
    let len = vm.stack.len();
    if len == 0 {
        vm.done = true;
        return VmAction::Fault(Fault::ExpectedVarRef);
    }
    let found = match &vm.stack[len - 1] {
        StackValue::VarRef(r) => find_var(&vm.scope, &r.name),
        StackValue::Value(_) => {
            vm.done = true;
            return VmAction::Fault(Fault::ExpectedVarRef);
        },
    };
    match found {
        None => {
            vm.done = true;
            VmAction::Fault(Fault::UnknownVariable)
        },
        Some((j, k)) => {
            let d = vm.scope[j].vars[k].1.duplicate();
            proof {
                assert(scopes_model(vm.scope@)[j as int].0[k as int].1 == datum_of(vm.scope@[j as int].vars@[k as int].1));
            }
            let out = match &vm.stack[len - 1] {
                StackValue::VarRef(r) => select_all(d, &r.fields),
                StackValue::Value(_) => SelAllOut::Stop(Fault::ExpectedVarRef),
            };
            match out {
                SelAllOut::Got(x) => {
                    pop_entry(&mut vm.stack);
                    push_value(&mut vm.stack, x);
                    VmAction::Continue
                },
                SelAllOut::Ask(x, i) => {
                    let fields = match &vm.stack[len - 1] {
                        StackValue::VarRef(r) => fields_from(&r.fields, i),
                        StackValue::Value(_) => Vec::new(),
                    };
                    pop_entry(&mut vm.stack);
                    vm.waiting = Waiting::Result;
                    VmAction::Select { value: x, fields }
                },
                SelAllOut::Stop(f) => {
                    vm.done = true;
                    VmAction::Fault(f)
                },
            }
        },
    }
}

/// What an assignment works on, held.
enum NodeVal {
    V(Value),
    A(Vec<Value>),
    T(Vec<Value>),
    C(usize, Vec<Vec<Value>>),
}

spec fn node_model(n: NodeVal) -> Node {
    match n {
        NodeVal::V(v) => Node::V(datum_of(v)),
        NodeVal::A(a) => Node::A(data_of(a@)),
        NodeVal::T(a) => Node::T(data_of(a@)),
        NodeVal::C(c, rows) => Node::C(c as int, rows_of(rows@)),
    }
}

/// What an assignment gives, computed.
enum AsgOut {
    Done(NodeVal),
    Ask,
    Stop(Fault),
}

spec fn asg_as(r: AsgOut, a: Asg) -> bool {
    match a {
        Asg::Done(n) => r matches AsgOut::Done(m) && node_model(m) == n,
        Asg::Ask => r is Ask,
        Asg::Stop(f) => r matches AsgOut::Stop(g) && g == f,
    }
}

/// Replaces item `i` of a sequence of values.
fn set_item(items: &mut Vec<Value>, i: usize, v: Value)
    requires
        i < old(items)@.len(),
    ensures
        data_of(final(items)@) == data_of(old(items)@).update(i as int, datum_of(v)),
{
    proof {
        lemma_data_of_index(old(items)@);
    }
    let ghost d = datum_of(v);
    items.set(i, v);
    proof {
        lemma_data_of_index(items@);
    }
    assert(data_of(items@) =~= data_of(old(items)@).update(i as int, d));
}

/// Replaces row `i` of a table's rows.
fn set_row(rows: &mut Vec<Vec<Value>>, i: usize, row: Vec<Value>)
    requires
        i < old(rows)@.len(),
    ensures
        rows_of(final(rows)@) == rows_of(old(rows)@).update(i as int, data_of(row@)),
{
    proof {
        lemma_rows_of_index(old(rows)@);
    }
    let ghost d = data_of(row@);
    rows.set(i, row);
    proof {
        lemma_rows_of_index(rows@);
    }
    assert(rows_of(rows@) =~= rows_of(old(rows)@).update(i as int, d));
}

/// Replaces item `c` of row `i` of a table's rows.
fn set_cell(rows: &mut Vec<Vec<Value>>, i: usize, c: usize, v: Value)
    requires
        i < old(rows)@.len(),
        c < old(rows)@[i as int]@.len(),
    ensures
        rows_of(final(rows)@) == rows_of(old(rows)@).update(
            i as int,
            rows_of(old(rows)@)[i as int].update(c as int, datum_of(v)),
        ),
{
    proof {
        lemma_rows_of_index(old(rows)@);
    }
    let mut row = crate::bwine::duplicate_values(&rows[i]);
    proof {
        lemma_data_of_index(row@);
        lemma_data_of_index(rows@[i as int]@);
    }
    set_item(&mut row, c, v);
    set_row(rows, i, row);
}

fn assign_node(n: NodeVal, fields: &Vec<Field>, k: usize, rhs: Value) -> (r: AsgOut)
    requires
        k <= fields@.len(),
    ensures
        asg_as(r, assign_at(node_model(n), fields_model(fields@), k as int, datum_of(rhs))),
    decreases fields@.len() - k,
{
    let ghost fs = fields_model(fields@);
    if k >= fields.len() {
        return match n {
            NodeVal::V(_) => AsgOut::Done(NodeVal::V(rhs)),
            NodeVal::A(arr) => match rhs {
                Value::Array(items) => {
                    proof {
                        lemma_data_of_index(items@);
                        lemma_data_of_index(arr@);
                    }
                    if items.len() == arr.len() {
                        AsgOut::Done(NodeVal::A(items))
                    } else {
                        AsgOut::Stop(Fault::ShapeMismatch)
                    }
                },
                _ => AsgOut::Stop(Fault::ShapeMismatch),
            },
            NodeVal::T(row) => match rhs {
                Value::Array(items) => {
                    proof {
                        lemma_data_of_index(items@);
                        lemma_data_of_index(row@);
                    }
                    if items.len() == row.len() {
                        AsgOut::Done(NodeVal::T(items))
                    } else {
                        AsgOut::Stop(Fault::ShapeMismatch)
                    }
                },
                _ => AsgOut::Stop(Fault::ShapeMismatch),
            },
            NodeVal::C(_, _) => AsgOut::Stop(Fault::ColumnAssign),
        };
    }
    assert(fs[k as int] == field_model(fields@[k as int]));
    match &fields[k] {
        Field::Column(key) => {
            if !flat(key) {
                return AsgOut::Ask;
            }
            match n {
                NodeVal::V(Value::Table { header, mut rows }) => {
                    proof {
                        lemma_rows_of_index(rows@);
                    }
                    match find_key(&header, key) {
                        None => AsgOut::Stop(Fault::NoSuchColumn),
                        Some(c) => {
                            if rows.len() == 1 {
                                proof {
                                    lemma_data_of_index(rows@[0]@);
                                }
                                if c < rows[0].len() {
                                    let x = rows[0][c].duplicate();
                                    match assign_node(NodeVal::V(x), fields, k + 1, rhs) {
                                        AsgOut::Done(NodeVal::V(nx)) => {
                                            set_cell(&mut rows, 0, c, nx);
                                            AsgOut::Done(NodeVal::V(Value::Table { header, rows }))
                                        },
                                        AsgOut::Done(_) => AsgOut::Stop(Fault::Unreachable),
                                        AsgOut::Ask => AsgOut::Ask,
                                        AsgOut::Stop(f) => AsgOut::Stop(f),
                                    }
                                } else {
                                    AsgOut::Stop(Fault::OutOfBounds)
                                }
                            } else {
                                match assign_node(NodeVal::C(c, rows), fields, k + 1, rhs) {
                                    AsgOut::Done(NodeVal::C(_, r2)) => AsgOut::Done(
                                        NodeVal::V(Value::Table { header, rows: r2 }),
                                    ),
                                    AsgOut::Done(_) => AsgOut::Stop(Fault::Unreachable),
                                    AsgOut::Ask => AsgOut::Ask,
                                    AsgOut::Stop(f) => AsgOut::Stop(f),
                                }
                            }
                        },
                    }
                },
                _ => AsgOut::Stop(Fault::InvalidTarget),
            }
        },
        Field::Index(key) => match key {
            Value::Int(i) => {
                let u = *i as usize;
                match n {
                    NodeVal::V(Value::Array(mut arr)) => {
                        proof {
                            lemma_data_of_index(arr@);
                        }
                        if u < arr.len() {
                            let x = arr[u].duplicate();
                            match assign_node(NodeVal::V(x), fields, k + 1, rhs) {
                                AsgOut::Done(NodeVal::V(nx)) => {
                                    set_item(&mut arr, u, nx);
                                    AsgOut::Done(NodeVal::V(Value::Array(arr)))
                                },
                                AsgOut::Done(_) => AsgOut::Stop(Fault::Unreachable),
                                AsgOut::Ask => AsgOut::Ask,
                                AsgOut::Stop(f) => AsgOut::Stop(f),
                            }
                        } else {
                            AsgOut::Stop(Fault::OutOfBounds)
                        }
                    },
                    NodeVal::V(Value::Table { header, mut rows }) => {
                        proof {
                            lemma_rows_of_index(rows@);
                        }
                        if u < rows.len() {
                            let row = crate::bwine::duplicate_values(&rows[u]);
                            match assign_node(NodeVal::T(row), fields, k + 1, rhs) {
                                AsgOut::Done(NodeVal::T(r2)) => {
                                    set_row(&mut rows, u, r2);
                                    AsgOut::Done(NodeVal::V(Value::Table { header, rows }))
                                },
                                AsgOut::Done(_) => AsgOut::Stop(Fault::Unreachable),
                                AsgOut::Ask => AsgOut::Ask,
                                AsgOut::Stop(f) => AsgOut::Stop(f),
                            }
                        } else {
                            AsgOut::Stop(Fault::OutOfBounds)
                        }
                    },
                    NodeVal::A(mut arr) => {
                        proof {
                            lemma_data_of_index(arr@);
                        }
                        if u < arr.len() {
                            let x = arr[u].duplicate();
                            match assign_node(NodeVal::V(x), fields, k + 1, rhs) {
                                AsgOut::Done(NodeVal::V(nx)) => {
                                    set_item(&mut arr, u, nx);
                                    AsgOut::Done(NodeVal::A(arr))
                                },
                                AsgOut::Done(_) => AsgOut::Stop(Fault::Unreachable),
                                AsgOut::Ask => AsgOut::Ask,
                                AsgOut::Stop(f) => AsgOut::Stop(f),
                            }
                        } else {
                            AsgOut::Stop(Fault::OutOfBounds)
                        }
                    },
                    NodeVal::C(c, mut rows) => {
                        proof {
                            lemma_rows_of_index(rows@);
                        }
                        if u < rows.len() && c < rows[u].len() {
                            proof {
                                lemma_data_of_index(rows@[u as int]@);
                            }
                            let x = rows[u][c].duplicate();
                            match assign_node(NodeVal::V(x), fields, k + 1, rhs) {
                                AsgOut::Done(NodeVal::V(nx)) => {
                                    set_cell(&mut rows, u, c, nx);
                                    AsgOut::Done(NodeVal::C(c, rows))
                                },
                                AsgOut::Done(_) => AsgOut::Stop(Fault::Unreachable),
                                AsgOut::Ask => AsgOut::Ask,
                                AsgOut::Stop(f) => AsgOut::Stop(f),
                            }
                        } else {
                            proof {
                                if u < rows@.len() {
                                    lemma_data_of_index(rows@[u as int]@);
                                }
                            }
                            AsgOut::Stop(Fault::OutOfBounds)
                        }
                    },
                    _ => AsgOut::Stop(Fault::InvalidTarget),
                }
            },
            Value::Float(_) => AsgOut::Ask,
            _ => AsgOut::Stop(Fault::IndexNotInteger),
        },
    }
}

fn do_set(vm: &mut VmState) -> (a: VmAction)
    requires
        old(vm).waiting == Waiting::Nothing,
    ensures
        final(vm).program == old(vm).program,
        final(vm).waiting matches Waiting::Store(si, vi) ==> si < final(vm).scope@.len() && vi
            < final(vm).scope@[si as int].vars@.len(),
        (final(vm).model(), act_model(a)) == set_step(old(vm).model()),
{
    let len = vm.stack.len();
    let ghost m = vm.model();
    if len == 0 {
        vm.done = true;
        return VmAction::Fault(Fault::ExpectedVarRef);
    }
    let found = match &vm.stack[len - 1] {
        StackValue::VarRef(r) => find_var(&vm.scope, &r.name),
        StackValue::Value(_) => {
            vm.done = true;
            return VmAction::Fault(Fault::ExpectedVarRef);
        },
    };
    assert(m.stack.drop_last().len() == len - 1);
    if len < 2 {
        vm.done = true;
        return VmAction::Fault(Fault::EmptyStack);
    }
    if let StackValue::VarRef(_) = &vm.stack[len - 2] {
        vm.done = true;
        assert(m.stack.drop_last().last() == m.stack[len - 2]);
        return VmAction::Fault(Fault::ExpectedValue);
    }
    assert(m.stack.drop_last().last() == m.stack[len - 2]);
    proof {
        lemma_lookup(m.scopes, m.stack.last()->Ref_0);
    }
    match found {
        Some((j, k)) => {
            if vm.scope[j].is_inherited {
                vm.done = true;
                return VmAction::Fault(Fault::InheritedScope);
            }
            let cur = vm.scope[j].vars[k].1.duplicate();
            proof {
                assert(scopes_model(vm.scope@)[j as int].0[k as int].1 == datum_of(vm.scope@[j as int].vars@[k as int].1));
            }
            let out = match (&vm.stack[len - 1], &vm.stack[len - 2]) {
                (StackValue::VarRef(r), StackValue::Value(val)) => assign_node(NodeVal::V(cur), &r.fields, 0, val.duplicate()),
                _ => AsgOut::Stop(Fault::Unreachable),
            };
            match out {
                AsgOut::Done(NodeVal::V(x)) => {
                    pop_entry(&mut vm.stack);
                    pop_entry(&mut vm.stack);
                    assert(m.stack.drop_last().drop_last() =~= m.stack.subrange(0, m.stack.len() - 2));
                    store(&mut vm.scope, j, k, x);
                    VmAction::Continue
                },
                AsgOut::Ask => {
                    let e = pop_entry(&mut vm.stack);
                    let v = pop_entry(&mut vm.stack);
                    assert(m.stack.drop_last().drop_last() =~= m.stack.subrange(0, m.stack.len() - 2));
                    match (e, v) {
                        (StackValue::VarRef(r), StackValue::Value(val)) => {
                            let current = vm.scope[j].vars[k].1.duplicate();
                            vm.waiting = Waiting::Store(j, k);
                            VmAction::Assign { current, fields: r.fields, rhs: val }
                        },
                        _ => VmAction::Continue,
                    }
                },
                AsgOut::Stop(f) => {
                    vm.done = true;
                    VmAction::Fault(f)
                },
                AsgOut::Done(_) => {
                    vm.done = true;
                    VmAction::Fault(Fault::Unreachable)
                },
            }
        },
        None => {
            if vm.scope.len() == 0 {
                vm.done = true;
                return VmAction::Fault(Fault::NoScope);
            }
            let e = pop_entry(&mut vm.stack);
            let v = pop_entry(&mut vm.stack);
            assert(m.stack.drop_last().drop_last() =~= m.stack.subrange(0, m.stack.len() - 2));
            match (e, v) {
                (StackValue::VarRef(r), StackValue::Value(val)) => {
                    declare(&mut vm.scope, r.name, val);
                    VmAction::Continue
                },
                _ => VmAction::Continue,
            }
        },
    }
}

fn do_collect(vm: &mut VmState, n: usize, table: bool) -> (a: VmAction)
    ensures
        final(vm).program == old(vm).program,
        (final(vm).model(), act_model(a)) == collect_step(n as int, table, old(vm).model()),
{
    let ghost m = vm.model();
    if let Some(f) = values_fault_of(&vm.stack, n, table, table) {
        vm.done = true;
        return VmAction::Fault(f);
    }
    if table {
        proof {
            lemma_fault_prefix(m.stack, n as int, true, 0);
        }
        let rows = pop_rows(&mut vm.stack, n);
        let ghost mid = stack_model(vm.stack@);
        assert(mid.len() > 0);
        assert(vm.stack@.len() == mid.len());
        let h = pop_entry(&mut vm.stack);
        assert(mid.last() == m.stack[m.stack.len() - 1 - n]);
        assert(mid.drop_last() =~= m.stack.subrange(0, m.stack.len() - (n + 1)));
        match h {
            StackValue::Value(Value::Array(header)) => {
                push_value(&mut vm.stack, Value::Table { header, rows });
            },
            _ => {},
        }
    } else {
        let vals = pop_values(&mut vm.stack, n);
        push_value(&mut vm.stack, Value::Array(vals));
    }
    VmAction::Continue
}

fn do_op(vm: &mut VmState, op: Operator) -> (a: VmAction)
    ensures
        final(vm).program == old(vm).program,
        (final(vm).model(), act_model(a)) == op_step(op, old(vm).model()),
{
    let ghost m = vm.model();
    if let Some(f) = values_fault_of(&vm.stack, 2, false, false) {
        vm.done = true;
        return VmAction::Fault(f);
    }
    proof {
        lemma_fault_prefix(m.stack, 1, false, 0);
    }
    let len = vm.stack.len();
    let out = match (&vm.stack[len - 2], &vm.stack[len - 1]) {
        (StackValue::Value(a), StackValue::Value(b)) => apply_op(op, a, b),
        _ => OpOutcome::Ask,
    };
    match out {
        OpOutcome::Value(v) => {
            pop_entry(&mut vm.stack);
            pop_entry(&mut vm.stack);
            assert(m.stack.drop_last().drop_last() =~= m.stack.subrange(0, m.stack.len() - 2));
            push_value(&mut vm.stack, v);
            VmAction::Continue
        },
        OpOutcome::Ask => {
            let bb = pop_entry(&mut vm.stack);
            let aa = pop_entry(&mut vm.stack);
            assert(m.stack.drop_last().drop_last() =~= m.stack.subrange(0, m.stack.len() - 2));
            vm.waiting = Waiting::Result;
            match (aa, bb) {
                (StackValue::Value(a), StackValue::Value(b)) => VmAction::Compute { op, a, b },
                _ => VmAction::Continue,
            }
        },
        OpOutcome::Fault(f) => {
            vm.done = true;
            VmAction::Fault(f)
        },
    }
}

fn do_negate(vm: &mut VmState) -> (a: VmAction)
    ensures
        final(vm).program == old(vm).program,
        (final(vm).model(), act_model(a)) == negate_step(old(vm).model()),
{
    let len = vm.stack.len();
    if len == 0 {
        vm.done = true;
        return VmAction::Fault(Fault::EmptyStack);
    }
    let b = match &vm.stack[len - 1] {
        StackValue::VarRef(_) => {
            vm.done = true;
            return VmAction::Fault(Fault::ExpectedValue);
        },
        StackValue::Value(Value::Bool(b)) => *b,
        StackValue::Value(_) => {
            vm.done = true;
            return VmAction::Fault(Fault::InvalidOperands);
        },
    };
    pop_entry(&mut vm.stack);
    push_value(&mut vm.stack, Value::Bool(!b));
    VmAction::Continue
}

fn do_return(vm: &mut VmState) -> (a: VmAction)
    ensures
        final(vm).program == old(vm).program,
        (final(vm).model(), act_model(a)) == return_step(old(vm).model()),
{
    let ghost m = vm.model();
    if vm.rstack.len() > 0 {
        if vm.scope.len() == 0 {
            vm.done = true;
            return VmAction::Fault(Fault::NoScope);
        }
        let p = vm.rstack.pop().unwrap();
        vm.pc = p;
        vm.scope.pop();
        assert(scopes_model(vm.scope@) =~= m.scopes.drop_last());
        VmAction::Continue
    } else if vm.scope.len() != 1 {
        vm.done = true;
        VmAction::Fault(Fault::ScopeLeft)
    } else {
        vm.done = true;
        let n = vm.child_exit_stack.len();
        let last = if n > 0 { Some(vm.child_exit_stack[n - 1]) } else { None };
        VmAction::Done { last_exit_reason: last }
    }
}

/// Pushes each word, as text, in order.
fn push_words(stack: &mut Vec<StackValue>, ws: &Vec<String>)
    ensures
        stack_model(final(stack)@) == stack_model(old(stack)@) + ws@.map_values(|w: String| w@).map_values(
            |w: Seq<char>| SvM::Value(Datum::Text(w)),
        ),
{
    let ghost s0 = stack_model(stack@);
    let ghost wv = ws@.map_values(|w: String| w@);
    let mut j: usize = 0;
    while j < ws.len()
        invariant
            0 <= j <= ws@.len(),
            wv == ws@.map_values(|w: String| w@),
            stack_model(stack@) == s0 + wv.take(j as int).map_values(|w: Seq<char>| SvM::Value(Datum::Text(w))),
        decreases ws.len() - j,
    {
        let t = ws[j].clone();
        push_value(stack, Value::Text(t));
        assert(wv.take(j + 1).map_values(|w: Seq<char>| SvM::Value(Datum::Text(w))) =~= wv.take(
            j as int,
        ).map_values(|w: Seq<char>| SvM::Value(Datum::Text(w))).push(SvM::Value(Datum::Text(wv[j as int]))));
        j += 1;
    }
    assert(wv.take(ws@.len() as int) =~= wv);
}

fn take_event(vm: &mut VmState, event: Option<VmEvent>) -> (a: VmAction)
    requires
        old(vm).waiting != Waiting::Nothing,
        event_fits(old(vm).waiting, opt_ev(event)),
        (old(vm).waiting matches Waiting::Store(si, vi) ==> si < old(vm).scope@.len() && vi
            < old(vm).scope@[si as int].vars@.len()),
    ensures
        final(vm).waiting == Waiting::Nothing,
        final(vm).program == old(vm).program,
        (final(vm).model(), act_model(a)) == after_event(old(vm).model(), opt_ev(event)),
{
    let ghost m = vm.model();
    let w = vm.waiting;
    vm.waiting = Waiting::Nothing;
    match event {
        Some(VmEvent::Exited(r)) => {
            vm.child_exit_stack.push(r);
            VmAction::Reaped(r)
        },
        Some(VmEvent::Expanded(ws)) => {
            push_words(&mut vm.stack, &ws);
            VmAction::Continue
        },
        Some(VmEvent::Evaluated(v)) => {
            match w {
                Waiting::Store(j, k) => {
                    store(&mut vm.scope, j, k, v);
                },
                _ => {
                    push_value(&mut vm.stack, v);
                },
            }
            VmAction::Continue
        },
        _ => VmAction::Continue,
    }
}


/// A step keeps the machine able to step, unless it ends it.
proof fn lemma_step_keeps_wf(prog: Seq<Block>, m: VmModel, ev: Option<EvM>)
    requires
        wf(prog, m),
        event_fits(m.waiting, ev),
    ensures
        !vm_step(prog, m, ev).0.done ==> wf_code(prog, vm_step(prog, m, ev).0),
{
    let r = vm_step(prog, m, ev).0;
    if m.waiting != Waiting::Nothing {
        assert(r.pc == m.pc && r.rstack == m.rstack);
        assert(r.waiting == Waiting::Nothing);
    } else {
        let b = m.pc.0 as int;
        let i = next_index(m.pc);
        let ins = prog[b].contents@[i];
        let m1 = VmModel { pc: (m.pc.0, Some(i as usize)), ..m };
        assert(prog[b].contents@.len() > 0 && prog[b].contents@.last() is Return);
        if !(ins is Return) {
            assert(i != prog[b].contents@.len() - 1);
            assert(pc_ok(prog, m1.pc));
        }
        if ins is Call {
            assert(ins->Call_block < prog.len());
            assert(prog[ins->Call_block as int].contents@.len() > 0);
            assert forall|k: int| 0 <= k < r.rstack.len() implies pc_ok(prog, #[trigger] r.rstack[k]) by {
                if k < m.rstack.len() {
                    assert(r.rstack[k] == m.rstack[k]);
                }
            }
        }
        if ins is Return && m.rstack.len() > 0 {
            assert(pc_ok(prog, m.rstack[m.rstack.len() - 1]));
            assert forall|k: int| 0 <= k < r.rstack.len() implies pc_ok(prog, #[trigger] r.rstack[k]) by {
                assert(r.rstack[k] == m.rstack[k]);
            }
        }
    }
}

/// One step of the machine, as [`vm_step`] says: with what it waited
/// for in `event`, or, when it waits for nothing, its next instruction.
/// The caller does what the action asks and hands the outcome to the next
/// step.
pub fn execute_step(vm: &mut VmState, event: Option<VmEvent>) -> (a: VmAction)
    requires
        wf(old(vm).program@, old(vm).model()),
        !old(vm).done,
        event_fits(old(vm).waiting, opt_ev(event)),
    ensures
        final(vm).program@ == old(vm).program@,
        (final(vm).model(), act_model(a)) == vm_step(old(vm).program@, old(vm).model(), opt_ev(event)),
        !final(vm).done ==> wf(final(vm).program@, final(vm).model()),
{
    proof {
        lemma_step_keeps_wf(vm.program@, vm.model(), opt_ev(event));
    }
    if vm.waiting != Waiting::Nothing {
        proof {
            if let Waiting::Store(si, vi) = vm.waiting {
                assert(scopes_model(vm.scope@)[si as int].0.len() == vm.scope@[si as int].vars@.len());
            }
        }
        return take_event(vm, event);
    }
    let b = vm.pc.0;
    let _len = vm.program[b].contents.len();
    let i: usize = match vm.pc.1 {
        None => 0,
        Some(c) => c + 1,
    };
    vm.pc = (b, Some(i));
    let ghost m1 = vm.model();
    let a = match &vm.program[b].contents[i] {
        Instr::ChangeDir { .. } => VmAction::ChangeDir { block: b, index: i },
        Instr::Run { .. } => {
            vm.waiting = Waiting::Child;
            VmAction::Spawn { block: b, index: i }
        },
        Instr::RunPipeline { items } => {
            if items.len() == 0 {
                vm.done = true;
                VmAction::Fault(Fault::EmptyPipeline)
            } else {
                vm.waiting = match &items[items.len() - 1] {
                    RunPipelineItem::Where { .. } => Waiting::Builtin,
                    RunPipelineItem::Command(_) => Waiting::Child,
                };
                VmAction::SpawnPipeline { block: b, index: i }
            }
        },
        Instr::CallAsync { block } => VmAction::SpawnJob { block: *block },
        Instr::Call { block } => {
            let target = *block;
            vm.rstack.push((b, Some(i)));
            let ghost sc0 = vm.scope@;
            let fresh = Scope { vars: Vec::new(), is_inherited: false };
            assert(vars_model(fresh.vars@) =~= Seq::<(Seq<char>, Datum)>::empty());
            vm.scope.push(fresh);
            assert(scopes_model(vm.scope@) =~= scopes_model(sc0).push((Seq::empty(), false)));
            vm.pc = (target, None);
            VmAction::Continue
        },
        Instr::Load(t) => match t {
            Token::Word(_) => {
                vm.waiting = Waiting::Words;
                VmAction::Expand { block: b, index: i }
            },
            Token::Float(_) => {
                vm.waiting = Waiting::Result;
                VmAction::ParseFloat { block: b, index: i }
            },
            Token::String(s) => {
                let v = Value::Text(s.clone());
                push_value(&mut vm.stack, v);
                VmAction::Continue
            },
            Token::Int(x) => {
                push_value(&mut vm.stack, Value::Int(*x));
                VmAction::Continue
            },
            _ => {
                vm.done = true;
                VmAction::Fault(Fault::Unreachable)
            },
        },
        Instr::VarRef(name) => {
            let r = VarRef { name: name.clone(), fields: Vec::new() };
            assert(fields_model(r.fields@) =~= Seq::<FieldM>::empty());
            let ghost st = vm.stack@;
            let ghost svm = sv_model(StackValue::VarRef(r));
            vm.stack.push(StackValue::VarRef(r));
            assert(stack_model(vm.stack@) =~= stack_model(st).push(svm));
            VmAction::Continue
        },
        Instr::GetColumn => do_select(vm, true),
        Instr::GetIndex => do_select(vm, false),
        Instr::Deref => do_deref(vm),
        Instr::SetVar => do_set(vm),
        Instr::CollectArray(n) => {
            let n = *n;
            do_collect(vm, n, false)
        },
        Instr::CollectTable(n) => {
            let n = *n;
            do_collect(vm, n, true)
        },
        Instr::Op(op) => {
            let op = *op;
            do_op(vm, op)
        },
        Instr::Negate => do_negate(vm),
        Instr::Pop => {
            if vm.stack.len() > 0 {
                pop_entry(&mut vm.stack);
            }
            VmAction::Continue
        },
        Instr::Return => do_return(vm),
    };
    proof {
        if let Waiting::Store(si, vi) = vm.waiting {
            assert(scopes_model(vm.scope@)[si as int].0.len() == vm.scope@[si as int].vars@.len());
        }
    }
    a
}


impl VmState {
    /// A machine at the start of `block`, with one empty scope.
    pub fn new(program: Vec<Block>, block: usize) -> (vm: VmState)
        ensures
            vm.program@ == program@,
            vm.model() == (VmModel {
                pc: (block, None),
                stack: Seq::empty(),
                scopes: seq![(Seq::empty(), false)],
                rstack: Seq::empty(),
                exits: Seq::empty(),
                done: false,
                waiting: Waiting::Nothing,
            }),
    {
        let mut scope: Vec<Scope> = Vec::new();
        let fresh = Scope { vars: Vec::new(), is_inherited: false };
        assert(vars_model(fresh.vars@) =~= Seq::<(Seq<char>, Datum)>::empty());
        scope.push(fresh);
        let vm = VmState {
            program,
            pc: (block, None),
            stack: Vec::new(),
            scope,
            rstack: Vec::new(),
            child_exit_stack: Vec::new(),
            done: false,
            waiting: Waiting::Nothing,
        };
        assert(stack_model(vm.stack@) =~= Seq::<SvM>::empty());
        assert(scopes_model(vm.scope@) =~= seq![(Seq::<(Seq<char>, Datum)>::empty(), false)]);
        vm
    }

    /// The innermost variable named `s`.
    pub fn get_var(&self, s: &String) -> (r: Option<&Value>)
        ensures
            match lookup(scopes_model(self.scope@), s@) {
                Some((j, k)) => r matches Some(v) && datum_of(*v) == scopes_model(self.scope@)[j].0[k].1,
                None => r is None,
            },
    {
        match find_var(&self.scope, s) {
            Some((j, k)) => Some(&self.scope[j].vars[k].1),
            None => None,
        }
    }
}

/// A call of a block that only returns comes back where it was: the next
/// instruction after the call, with the same stack, scopes and return
/// stack.
pub proof fn law_call_then_return_restores(prog: Seq<Block>, m: VmModel)
    requires
        wf(prog, m),
        !m.done,
        m.waiting == Waiting::Nothing,
        prog[m.pc.0 as int].contents@[next_index(m.pc)] matches Instr::Call { block } && prog[block as int].contents@[0] is Return,
    ensures
        ({
            let m1 = vm_step(prog, m, None).0;
            let m2 = vm_step(prog, m1, None).0;
            &&& m2.pc == (m.pc.0, Some(next_index(m.pc) as usize))
            &&& m2.stack == m.stack
            &&& m2.scopes == m.scopes
            &&& m2.rstack == m.rstack
            &&& !m2.done
        }),
{
    let m1 = vm_step(prog, m, None).0;
    assert(m1.rstack.drop_last() =~= m.rstack);
    assert(m1.scopes.drop_last() =~= m.scopes);
}


proof fn lemma_var_from_update(vars: Seq<(Seq<char>, Datum)>, name: Seq<char>, k: int, d: Datum, i: int)
    requires
        0 <= k < vars.len(),
        vars[k].0 == name,
    ensures
        var_from(vars.update(k, (name, d)), name, i) == var_from(vars, name, i),
    decreases vars.len() - i,
{
    if 0 <= i < vars.len() && i != k && vars[i].0 != name {
        lemma_var_from_update(vars, name, k, d, i + 1);
    }
}

proof fn lemma_var_from_push(vars: Seq<(Seq<char>, Datum)>, name: Seq<char>, d: Datum, i: int)
    requires
        0 <= i,
        var_from(vars, name, i) is None,
    ensures
        i <= vars.len() ==> var_from(vars.push((name, d)), name, i) == Some(vars.len() as int),
    decreases vars.len() - i,
{
    if i < vars.len() {
        lemma_var_from_push(vars, name, d, i + 1);
    }
}

proof fn lemma_scope_of_same(
    s1: Seq<(Seq<(Seq<char>, Datum)>, bool)>,
    s2: Seq<(Seq<(Seq<char>, Datum)>, bool)>,
    name: Seq<char>,
    i: int,
)
    requires
        s1.len() == s2.len(),
        i < s1.len(),
        forall|x: int| 0 <= x <= i ==> var_index(#[trigger] s1[x].0, name) == var_index(s2[x].0, name),
    ensures
        scope_of(s1, name, i) == scope_of(s2, name, i),
    decreases i + 1,
{
    if i >= 0 {
        assert(var_index(s1[i].0, name) == var_index(s2[i].0, name));
        lemma_scope_of_same(s1, s2, name, i - 1);
    }
}

proof fn lemma_scope_of_none(s: Seq<(Seq<(Seq<char>, Datum)>, bool)>, name: Seq<char>, i: int, x: int)
    requires
        i < s.len(),
        scope_of(s, name, i) is None,
        0 <= x <= i,
    ensures
        var_index(s[x].0, name) is None,
    decreases i + 1,
{
    if i > x {
        lemma_scope_of_none(s, name, i - 1, x);
    }
}

/// The comparison operators on two integers: the machine replaces them by
/// the truth of `x < y`, `x > y`, `x <= y` or `x >= y`, where `x` was
/// pushed first; in particular `x -le x` and `x -ge x` hold and `x -lt x`
/// and `x -gt x` do not.
pub proof fn law_integer_comparisons(m: VmModel, rest: Seq<SvM>, x: i128, y: i128, op: Operator)
    requires
        m.stack == rest.push(SvM::Value(Datum::Int(x))).push(SvM::Value(Datum::Int(y))),
        op == Operator::Lt || op == Operator::Gt || op == Operator::Le || op == Operator::Ge,
    ensures
        instr_step(Instr::Op(op), 0, 0, m).1 == ActM::Continue,
        op == Operator::Lt ==> instr_step(Instr::Op(op), 0, 0, m).0.stack == rest.push(
            SvM::Value(Datum::Bool(x < y)),
        ),
        op == Operator::Gt ==> instr_step(Instr::Op(op), 0, 0, m).0.stack == rest.push(
            SvM::Value(Datum::Bool(x > y)),
        ),
        op == Operator::Le ==> instr_step(Instr::Op(op), 0, 0, m).0.stack == rest.push(
            SvM::Value(Datum::Bool(x <= y)),
        ),
        op == Operator::Ge ==> instr_step(Instr::Op(op), 0, 0, m).0.stack == rest.push(
            SvM::Value(Datum::Bool(x >= y)),
        ),
        instr_step(Instr::Op(op), 0, 0, m).0.scopes == m.scopes,
{
    let s = m.stack;
    assert(values_fault(s, 2, false, 2) is None);
    assert(values_fault(s, 2, false, 1) is None);
    assert(values_fault(s, 2, false, 0) is None);
    assert(s.subrange(0, s.len() - 2) =~= rest);
}

/// Integer arithmetic and equality on the machine: the two integers on top
/// (`x` pushed first) are replaced by `x + y`, `x - y` or `x * y` where
/// that fits in 128 bits, and the machine stops on overflow; division by
/// zero stops it too; `-eq` and `-ne` give whether `x` and `y` are equal.
pub proof fn law_integer_arithmetic(m: VmModel, rest: Seq<SvM>, x: i128, y: i128, op: Operator)
    requires
        m.stack == rest.push(SvM::Value(Datum::Int(x))).push(SvM::Value(Datum::Int(y))),
    ensures
        ({
            let (m1, act) = instr_step(Instr::Op(op), 0, 0, m);
            let fits = |v: int| i128::MIN <= v <= i128::MAX;
            &&& op == Operator::Add && fits(x + y) ==> act == ActM::Continue && m1.stack == rest.push(
                SvM::Value(Datum::Int((x + y) as i128)),
            )
            &&& op == Operator::Sub && fits(x - y) ==> act == ActM::Continue && m1.stack == rest.push(
                SvM::Value(Datum::Int((x - y) as i128)),
            )
            &&& op == Operator::Mul && fits(x * y) ==> act == ActM::Continue && m1.stack == rest.push(
                SvM::Value(Datum::Int((x * y) as i128)),
            )
            &&& (op == Operator::Add && !fits(x + y)) || (op == Operator::Sub && !fits(x - y)) || (op
                == Operator::Mul && !fits(x * y)) ==> act == ActM::Fault(Fault::Overflow) && m1.done
            &&& op == Operator::Div && y == 0 ==> act == ActM::Fault(Fault::DivideByZero) && m1.done
            &&& op == Operator::Eq ==> act == ActM::Continue && m1.stack == rest.push(
                SvM::Value(Datum::Bool(x == y)),
            )
            &&& op == Operator::Ne ==> act == ActM::Continue && m1.stack == rest.push(
                SvM::Value(Datum::Bool(x != y)),
            )
        }),
{
    let s = m.stack;
    assert(values_fault(s, 2, false, 2) is None);
    assert(values_fault(s, 2, false, 1) is None);
    assert(values_fault(s, 2, false, 0) is None);
    assert(s.subrange(0, s.len() - 2) =~= rest);
    assert((Datum::Int(x) == Datum::Int(y)) == (x == y));
}

/// The boolean operators on the machine: the two booleans on top are
/// replaced by their conjunction, disjunction or exclusive or.
pub proof fn law_boolean_operators(m: VmModel, rest: Seq<SvM>, x: bool, y: bool, op: Operator)
    requires
        m.stack == rest.push(SvM::Value(Datum::Bool(x))).push(SvM::Value(Datum::Bool(y))),
    ensures
        ({
            let (m1, act) = instr_step(Instr::Op(op), 0, 0, m);
            &&& op == Operator::And ==> act == ActM::Continue && m1.stack == rest.push(
                SvM::Value(Datum::Bool(x && y)),
            )
            &&& op == Operator::Or ==> act == ActM::Continue && m1.stack == rest.push(
                SvM::Value(Datum::Bool(x || y)),
            )
            &&& op == Operator::Xor ==> act == ActM::Continue && m1.stack == rest.push(
                SvM::Value(Datum::Bool(x != y)),
            )
            &&& op == Operator::Eq ==> act == ActM::Continue && m1.stack == rest.push(
                SvM::Value(Datum::Bool(x == y)),
            )
        }),
{
    let s = m.stack;
    assert(values_fault(s, 2, false, 2) is None);
    assert(values_fault(s, 2, false, 1) is None);
    assert(values_fault(s, 2, false, 0) is None);
    assert(s.subrange(0, s.len() - 2) =~= rest);
    assert((Datum::Bool(x) == Datum::Bool(y)) == (x == y));
}

proof fn lemma_key_index_first(vs: Seq<Datum>, key: Datum, i: int, c: int)
    requires
        0 <= i <= c,
        forall|j: int| i <= j < c ==> vs[j] != key,
        c >= vs.len() || (0 <= c && vs[c] == key),
    ensures
        key_index(vs, key, i) == (if i <= c < vs.len() { Some(c) } else { None::<int> }),
    decreases vs.len() - i,
{
    if i < vs.len() && i < c {
        lemma_key_index_first(vs, key, i + 1, c);
    }
}

/// Indexing and column selection: a non-negative index within an array
/// selects its item there, beyond it nil (for indices below 2^32, which
/// every machine word holds); a column selects, in a table of
/// one row, that row's item under the first header cell equal to the key
/// (nil where the row is too short), in any other table the array of
/// every row's item there; a key that no header cell equals selects nil.
pub proof fn law_selection(a: Seq<Datum>, i: i128, header: Seq<Datum>, rows: Seq<Seq<Datum>>, key: Datum, c: int)
    ensures
        0 <= i < a.len() && i < 0x1_0000_0000 ==> select_one(
            Datum::Array(a),
            FieldM::Index(Datum::Int(i)),
        ) == Sel::Got(a[i as int]),
        0 <= i && i >= a.len() && i < 0x1_0000_0000 ==> select_one(
            Datum::Array(a),
            FieldM::Index(Datum::Int(i)),
        ) == Sel::Got(Datum::Null),
        is_flat(key) && 0 <= c < header.len() && header[c] == key && (forall|j: int|
            0 <= j < c ==> header[j] != key) ==> match select_one(
            Datum::Table { header, rows },
            FieldM::Column(key),
        ) {
            Sel::Got(x) => if rows.len() == 1 {
                x == if c < rows[0].len() { rows[0][c] } else { Datum::Null }
            } else {
                x matches Datum::Array(col) && col.len() == rows.len() && forall|r: int|
                    0 <= r < rows.len() ==> #[trigger] col[r] == if c < rows[r].len() {
                        rows[r][c]
                    } else {
                        Datum::Null
                    }
            },
            _ => false,
        },
        is_flat(key) && (forall|j: int| 0 <= j < header.len() ==> header[j] != key) ==> select_one(
            Datum::Table { header, rows },
            FieldM::Column(key),
        ) == Sel::Got(Datum::Null),
{
    assert(0 <= i < 0x1_0000_0000 ==> (i as usize) as i128 == i) by (bit_vector);
    if 0 <= c < header.len() && header[c] == key && (forall|j: int| 0 <= j < c ==> header[j] != key) {
        lemma_key_index_first(header, key, 0, c);
    }
    if forall|j: int| 0 <= j < header.len() ==> header[j] != key {
        lemma_key_index_first(header, key, 0, header.len() as int);
    }
}

/// `Negate` flips the boolean on top of the stack and leaves the rest of
/// the stack as it was.
pub proof fn law_negate_flips(m: VmModel, rest: Seq<SvM>, b: bool)
    requires
        m.stack == rest.push(SvM::Value(Datum::Bool(b))),
    ensures
        instr_step(Instr::Negate, 0, 0, m).1 == ActM::Continue,
        instr_step(Instr::Negate, 0, 0, m).0.stack == rest.push(SvM::Value(Datum::Bool(!b))),
        instr_step(Instr::Negate, 0, 0, m).0.stack.last() != m.stack.last(),
{
    assert(m.stack.drop_last() =~= rest);
}

/// What a read gives back of a write: after `SetVar` stores a value under a
/// name (with no selection inside it), reading the name with `VarRef` and
/// `Deref` pushes that value.
pub proof fn law_set_then_read(m: VmModel, name: Seq<char>, d: Datum)
    requires
        m.stack.len() >= 2,
        m.stack.last() == SvM::Ref(name, Seq::empty()),
        m.stack[m.stack.len() - 2] == SvM::Value(d),
        m.scopes.len() > 0,
        lookup(m.scopes, name) matches Some((j, _)) ==> !m.scopes[j].1,
    ensures
        ({
            let m1 = set_step(m).0;
            let m2 = VmModel { stack: m1.stack.push(SvM::Ref(name, Seq::empty())), ..m1 };
            &&& set_step(m).1 == ActM::Continue
            &&& deref_step(m2).1 == ActM::Continue
            &&& deref_step(m2).0.stack == m1.stack.push(SvM::Value(d))
        }),
{
    let m1 = set_step(m).0;
    let s0 = m.scopes;
    let s1 = m1.scopes;
    lemma_lookup(s0, name);
    lemma_scope_of(s0, name, s0.len() - 1);
    match lookup(s0, name) {
        Some((j, k)) => {
            assert(s1 == s0.update(j, (s0[j].0.update(k, (name, d)), false)));
            assert forall|x: int| 0 <= x <= s0.len() - 1 implies var_index(#[trigger] s1[x].0, name)
                == var_index(s0[x].0, name) by {
                if x == j {
                    lemma_var_from_update(s0[j].0, name, k, d, 0);
                }
            }
            lemma_scope_of_same(s1, s0, name, s0.len() - 1);
            lemma_var_from_update(s0[j].0, name, k, d, 0);
            assert(lookup(s1, name) == Some((j, k)));
        },
        None => {
            let last = s0.len() - 1;
            assert(scope_of(s0, name, last) is None);
            lemma_scope_of_none(s0, name, last, last);
            lemma_var_from_push(s0[last].0, name, d, 0);
            assert(s1[last].0 == s0[last].0.push((name, d)));
            assert(var_index(s1[last].0, name) == Some(s0[last].0.len() as int));
            assert(scope_of(s1, name, last) == Some(last));
            assert(lookup(s1, name) == Some((last, s0[last].0.len() as int)));
        },
    }
    let m2 = VmModel { stack: m1.stack.push(SvM::Ref(name, Seq::empty())), ..m1 };
    assert(m2.stack.drop_last() =~= m1.stack);
}


impl VarRef {
    /// A reference to the variable `name`, with no field selected.
    pub fn new(name: &str) -> (r: VarRef)
        ensures
            r.name@ == name@,
            r.fields@.len() == 0,
    {
        let cs = chars_of(name);
        VarRef { name: string_of(cs.as_slice()), fields: Vec::new() }
    }
}


/// Whether the program is sound: every block ends with `Return`, and every
/// `Call` names a block.
pub fn program_checks(prog: &Vec<Block>) -> (r: bool)
    ensures
        r == program_ok(prog@),
{
    let n = prog.len();
    let mut b: usize = 0;
    while b < n
        invariant
            0 <= b <= n,
            n == prog@.len(),
            forall|x: int|
                0 <= x < b ==> (#[trigger] prog@[x]).contents@.len() > 0 && prog@[x].contents@.last() is Return,
            forall|x: int, i: int|
                0 <= x < b && 0 <= i < prog@[x].contents@.len() && (#[trigger] prog@[x].contents@[i]) is Call
                    ==> prog@[x].contents@[i]->Call_block < n,
        decreases n - b,
    {
        let contents = &prog[b].contents;
        let len = contents.len();
        if len == 0 {
            return false;
        }
        match &contents[len - 1] {
            Instr::Return => {},
            _ => {
                return false;
            },
        }
        let mut i: usize = 0;
        while i < len
            invariant
                0 <= i <= len,
                0 <= b < n,
                n == prog@.len(),
                len == contents@.len(),
                contents@ == prog@[b as int].contents@,
                forall|j: int| 0 <= j < i && (#[trigger] contents@[j]) is Call ==> contents@[j]->Call_block < n,
            decreases len - i,
        {
            if let Instr::Call { block } = &contents[i] {
                if *block >= n {
                    return false;
                }
            }
            i += 1;
        }
        b += 1;
    }
    true
}

/// Whether the next instruction after `pc` exists.
fn pc_checks(prog: &Vec<Block>, pc: (usize, Option<usize>)) -> (r: bool)
    ensures
        r == pc_ok(prog@, pc),
{
    if pc.0 >= prog.len() {
        return false;
    }
    let len = prog[pc.0].contents.len();
    match pc.1 {
        None => 0 < len,
        Some(c) => c < len && c + 1 < len,
    }
}

/// Whether [`execute_step`] may be called with `event`: the machine can
/// step, is not done, and the event is what it waits for.
pub fn ready(vm: &VmState, event: &Option<VmEvent>) -> (r: bool)
    ensures
        r == (wf(vm.program@, vm.model()) && !vm.done && event_fits(vm.waiting, opt_ev(*event))),
{
    if vm.done || !program_checks(&vm.program) || !pc_checks(&vm.program, vm.pc) {
        return false;
    }
    let n = vm.rstack.len();
    let mut k: usize = 0;
    while k < n
        invariant
            0 <= k <= n,
            n == vm.rstack@.len(),
            forall|j: int| 0 <= j < k ==> pc_ok(vm.program@, #[trigger] vm.rstack@[j]),
        decreases n - k,
    {
        if !pc_checks(&vm.program, vm.rstack[k]) {
            assert(!pc_ok(vm.program@, vm.model().rstack[k as int]));
            return false;
        }
        k += 1;
    }
    assert(forall|j: int| 0 <= j < vm.model().rstack.len() ==> pc_ok(vm.program@, #[trigger] vm.model().rstack[j]));
    if let Waiting::Store(si, vi) = vm.waiting {
        if si >= vm.scope.len() || vi >= vm.scope[si].vars.len() {
            return false;
        }
        assert(scopes_model(vm.scope@)[si as int].0.len() == vm.scope@[si as int].vars@.len());
    }
    match (vm.waiting, event) {
        (Waiting::Nothing, None) => true,
        (Waiting::Child, Some(VmEvent::Exited(_))) => true,
        (Waiting::Builtin, Some(VmEvent::BuiltinDone)) => true,
        (Waiting::Words, Some(VmEvent::Expanded(_))) => true,
        (Waiting::Result, Some(VmEvent::Evaluated(_))) => true,
        (Waiting::Store(_, _), Some(VmEvent::Evaluated(_))) => true,
        _ => false,
    }
}

} // verus!
