//! The `where` stage of a pipeline: it reads a table from the stage before
//! it, passes its header on, and passes on each row for which its
//! condition, run on a machine of its own with the row as `_`, holds. This
//! module decides, from the tokens read so far, what comes next; the
//! caller reads, runs the condition and writes.
use vstd::prelude::*;
use crate::bwine::{datum_of, data_of, gather_at, gathered, is_unsupported, lemma_gathered_len, Datum, Gathered, Token, Value};
use crate::fatty_vm::{pop_entry, scopes_model, stack_model, value_fault, vars_model, Scope, StackValue, SvM, VmModel, VmState};
use crate::unicode::string_of;

verus! {

/// What the filter expects next.
#[derive(Debug)]
pub enum FilterMode {
    /// The start of the input: a table or an array.
    Start,
    /// The header of the table.
    Header,
    /// The rows, under this header.
    Rows(Vec<Value>),
    /// The items of an array.
    Items,
}

/// The filter's state: what it expects, and the index of the next token
/// it has not looked at.
#[derive(Debug)]
pub struct Filter {
    pub mode: FilterMode,
    pub ai: usize,
}

/// Why the filter stops.
#[derive(Debug, Copy, Clone, PartialEq, Eq, Structural)]
pub enum FilterFault {
    /// The input starts with something other than a table or an array.
    ExpectedTableOrArray,
    /// A value of the input holds a map.
    Unsupported,
}

/// What the caller does next.
#[derive(Debug)]
pub enum FilterAction {
    /// Read more tokens.
    Wait,
    /// Write this header.
    Header(Vec<Value>),
    /// Run the condition on this row; write it if the condition holds.
    Row { header: Vec<Value>, row: Vec<Value> },
    /// Run the condition on this item of the array; write it if the
    /// condition holds.
    Item(Value),
    /// Stop.
    Stop(FilterFault),
}

/// What the filter expects, by its data.
pub enum ModeM {
    Start,
    Header,
    Rows(Seq<Datum>),
    Items,
}

/// An action by its data.
pub enum ActF {
    Wait,
    Header(Seq<Datum>),
    Row(Seq<Datum>, Seq<Datum>),
    Item(Datum),
    Stop(FilterFault),
}

pub open spec fn mode_model(m: FilterMode) -> ModeM {
    match m {
        FilterMode::Start => ModeM::Start,
        FilterMode::Header => ModeM::Header,
        FilterMode::Rows(h) => ModeM::Rows(data_of(h@)),
        FilterMode::Items => ModeM::Items,
    }
}

pub open spec fn actf_model(a: FilterAction) -> ActF {
    match a {
        FilterAction::Wait => ActF::Wait,
        FilterAction::Header(h) => ActF::Header(data_of(h@)),
        FilterAction::Row { header, row } => ActF::Row(data_of(header@), data_of(row@)),
        FilterAction::Item(v) => ActF::Item(datum_of(v)),
        FilterAction::Stop(f) => ActF::Stop(f),
    }
}

/// What the array at the start of `s` gathers to: its token count and
/// items, or what stands in the way.
pub open spec fn array_at(s: Seq<Token>) -> Gathered<Seq<Datum>> {
    match gathered(s) {
        Gathered::Done(n, Datum::Array(items)) => Gathered::Done(n, items),
        Gathered::Unsupported => Gathered::Unsupported,
        _ => Gathered::Incomplete,
    }
}

/// One decision of the filter on the tokens `ast` read so far: with the
/// token at `ai` it starts on a table or an array, takes the header, or
/// takes the next row or item; where a header, row or item is not read
/// whole yet, or the array has ended, it waits for more.
pub open spec fn filter_step(mode: ModeM, ai: int, ast: Seq<Token>) -> (ModeM, int, ActF) {
    if ai < 0 || ai >= ast.len() {
        (mode, ai, ActF::Wait)
    } else {
        match mode {
            ModeM::Start => match ast[ai] {
                Token::Table => (ModeM::Header, ai + 1, ActF::Wait),
                Token::Array(_) => (ModeM::Items, ai + 1, ActF::Wait),
                _ => (mode, ai, ActF::Stop(FilterFault::ExpectedTableOrArray)),
            },
            ModeM::Header => if ast[ai] is Array {
                match array_at(ast.skip(ai)) {
                    Gathered::Done(n, h) => (ModeM::Rows(h), ai + n + 1, ActF::Header(h)),
                    Gathered::Unsupported => (mode, ai, ActF::Stop(FilterFault::Unsupported)),
                    Gathered::Incomplete => (mode, ai, ActF::Wait),
                }
            } else {
                (mode, ai, ActF::Wait)
            },
            ModeM::Rows(h) => if ast[ai] is Array {
                match array_at(ast.skip(ai)) {
                    Gathered::Done(n, row) => (mode, ai + n, ActF::Row(h, row)),
                    Gathered::Unsupported => (mode, ai, ActF::Stop(FilterFault::Unsupported)),
                    Gathered::Incomplete => (mode, ai, ActF::Wait),
                }
            } else {
                (mode, ai, ActF::Wait)
            },
            ModeM::Items => if ast[ai] is End {
                (mode, ai, ActF::Wait)
            } else {
                match gathered(ast.skip(ai)) {
                    Gathered::Done(n, d) => (mode, ai + n, ActF::Item(d)),
                    Gathered::Unsupported => (mode, ai, ActF::Stop(FilterFault::Unsupported)),
                    Gathered::Incomplete => (mode, ai, ActF::Wait),
                }
            },
        }
    }
}

impl Filter {
    /// A filter at the start of its input.
    pub fn new() -> (f: Filter)
        ensures
            mode_model(f.mode) == ModeM::Start,
            f.ai == 0,
    {
        Filter { mode: FilterMode::Start, ai: 0 }
    }

    /// Decides, from the tokens read so far, what comes next, as
    /// [`filter_step`] says.
    pub fn next(&mut self, ast: &[Token]) -> (a: FilterAction)
        requires
            ast@.len() < usize::MAX,
        ensures
            ({
                let (m, ai, act) = filter_step(mode_model(old(self).mode), old(self).ai as int, ast@);
                &&& mode_model(final(self).mode) == m
                &&& final(self).ai as int == ai
                &&& actf_model(a) == act
            }),
    {
        let ai = self.ai;
        if ai >= ast.len() {
            return FilterAction::Wait;
        }
        match &self.mode {
            FilterMode::Start => match &ast[ai] {
                Token::Table => {
                    self.mode = FilterMode::Header;
                    self.ai = ai + 1;
                    FilterAction::Wait
                },
                Token::Array(_) => {
                    self.mode = FilterMode::Items;
                    self.ai = ai + 1;
                    FilterAction::Wait
                },
                _ => FilterAction::Stop(FilterFault::ExpectedTableOrArray),
            },
            FilterMode::Header => {
                if let Token::Array(_) = &ast[ai] {
                    if is_unsupported(ast, ai) {
                        return FilterAction::Stop(FilterFault::Unsupported);
                    }
                    match gather_at(ast, ai) {
                        Some((n, Value::Array(h))) => {
                            let header = crate::bwine::duplicate_values(&h);
                            self.mode = FilterMode::Rows(header);
                            proof {
                                lemma_gathered_len(ast@.skip(ai as int));
                            }
                            self.ai = ai + n + 1;
                            FilterAction::Header(h)
                        },
                        _ => FilterAction::Wait,
                    }
                } else {
                    FilterAction::Wait
                }
            },
            FilterMode::Rows(h) => {
                if let Token::Array(_) = &ast[ai] {
                    if is_unsupported(ast, ai) {
                        return FilterAction::Stop(FilterFault::Unsupported);
                    }
                    match gather_at(ast, ai) {
                        Some((n, Value::Array(row))) => {
                            proof {
                                lemma_gathered_len(ast@.skip(ai as int));
                            }
                            let header = crate::bwine::duplicate_values(h);
                            self.ai = ai + n;
                            FilterAction::Row { header, row }
                        },
                        _ => FilterAction::Wait,
                    }
                } else {
                    FilterAction::Wait
                }
            },
            FilterMode::Items => {
                if let Token::End = &ast[ai] {
                    return FilterAction::Wait;
                }
                if is_unsupported(ast, ai) {
                    return FilterAction::Stop(FilterFault::Unsupported);
                }
                match gather_at(ast, ai) {
                    Some((n, v)) => {
                        proof {
                            lemma_gathered_len(ast@.skip(ai as int));
                        }
                        self.ai = ai + n;
                        FilterAction::Item(v)
                    },
                    None => FilterAction::Wait,
                }
            },
        }
    }
}


/// Readies the condition's machine for one row: not done, with an empty
/// stack, at the start of `block`, and with a new innermost scope that holds
/// the row as `_`, a table of the header and that one row.
pub fn start_row(vm: &mut VmState, block: usize, header: Vec<Value>, row: Vec<Value>)
    ensures
        final(vm).program == old(vm).program,
        final(vm).model() == (VmModel {
            pc: (block, None),
            stack: Seq::empty(),
            scopes: old(vm).model().scopes.push(
                (seq![(seq!['_'], Datum::Table { header: data_of(header@), rows: seq![data_of(row@)] })], false),
            ),
            done: false,
            ..old(vm).model()
        }),
{
    let ghost d = Datum::Table { header: data_of(header@), rows: seq![data_of(row@)] };
    vm.done = false;
    vm.stack.clear();
    vm.pc = (block, None);
    let mut rows: Vec<Vec<Value>> = Vec::new();
    rows.push(row);
    assert(crate::bwine::rows_of(rows@) =~= seq![data_of(rows@[0]@)]) by {
        crate::bwine::lemma_rows_of_index(rows@);
    }
    let under = ['_'];
    assert(under@ =~= seq!['_']);
    let name = string_of(&under);
    let table = Value::Table { header, rows };
    assert(datum_of(table) == d);
    let mut vars: Vec<(String, Value)> = Vec::new();
    vars.push((name, table));
    assert(vars_model(vars@) =~= seq![(seq!['_'], d)]);
    let ghost sc0 = vm.scope@;
    let fresh = Scope { vars, is_inherited: false };
    vm.scope.push(fresh);
    assert(scopes_model(vm.scope@) =~= scopes_model(sc0).push((seq![(seq!['_'], d)], false)));
    assert(stack_model(vm.stack@) =~= Seq::<SvM>::empty());
}

/// Whether the condition held: its machine's top value, taken off, is a
/// boolean, and which; or the fault of taking it, where the stack is empty
/// or its top is a reference; or `NotBoolean`, where the condition gave
/// something other than a boolean, which stops the filter.
pub fn row_verdict(vm: &mut VmState) -> (r: Result<bool, crate::fatty_vm::Fault>)
    ensures
        final(vm).program == old(vm).program,
        match value_fault(old(vm).model().stack) {
            Some(f) => r == Err::<bool, crate::fatty_vm::Fault>(f) && final(vm).model() == old(vm).model(),
            None => match old(vm).model().stack.last()->Value_0 {
                Datum::Bool(b) => r == Ok::<bool, crate::fatty_vm::Fault>(b) && final(vm).model() == (VmModel {
                    stack: old(vm).model().stack.drop_last(),
                    ..old(vm).model()
                }),
                _ => r == Err::<bool, crate::fatty_vm::Fault>(crate::fatty_vm::Fault::NotBoolean)
                    && final(vm).model() == old(vm).model(),
            },
        },
{
    let len = vm.stack.len();
    if len == 0 {
        return Err(crate::fatty_vm::Fault::EmptyStack);
    }
    let b = match &vm.stack[len - 1] {
        StackValue::VarRef(_) => {
            return Err(crate::fatty_vm::Fault::ExpectedValue);
        },
        StackValue::Value(Value::Bool(b)) => *b,
        StackValue::Value(_) => {
            return Err(crate::fatty_vm::Fault::NotBoolean);
        },
    };
    pop_entry(&mut vm.stack);
    Ok(b)
}

/// Readies the condition's machine for one item of an array: not done,
/// with an empty stack, at the start of `block`, and with a new innermost
/// scope that holds the item as `_`.
pub fn start_item(vm: &mut VmState, block: usize, item: Value)
    ensures
        final(vm).program == old(vm).program,
        final(vm).model() == (VmModel {
            pc: (block, None),
            stack: Seq::empty(),
            scopes: old(vm).model().scopes.push((seq![(seq!['_'], datum_of(item))], false)),
            done: false,
            ..old(vm).model()
        }),
{
    let ghost d = datum_of(item);
    vm.done = false;
    vm.stack.clear();
    vm.pc = (block, None);
    let under = ['_'];
    assert(under@ =~= seq!['_']);
    let name = string_of(&under);
    let mut vars: Vec<(String, Value)> = Vec::new();
    vars.push((name, item));
    assert(vars_model(vars@) =~= seq![(seq!['_'], d)]);
    let ghost sc0 = vm.scope@;
    let fresh = Scope { vars, is_inherited: false };
    vm.scope.push(fresh);
    assert(scopes_model(vm.scope@) =~= scopes_model(sc0).push((seq![(seq!['_'], d)], false)));
    assert(stack_model(vm.stack@) =~= Seq::<SvM>::empty());
}

} // verus!
