//! The `max` tool: it reads a table from the token stream and keeps the
//! rows with the largest values in one column. Each call of [`max_step`]
//! looks at the tokens that have arrived and says whether the kept rows
//! changed or the tool must stop.
use vstd::prelude::*;
use crate::bwine::{
    data_of, datum_of, gather_at, gathered, is_unsupported, lemma_data_of_index,
    lemma_gathered_len, lemma_rows_of_index,
    lemma_rows_of_push, rows_of, Datum, Gathered, Token, Value,
};
use crate::unicode::{chars_of, string_of};

verus! {

/// Whether a float bit pattern is a NaN.
pub open spec fn is_nan_bits(x: u64) -> bool {
    (x >> 52u64) & 0x7ff == 0x7ff && x & 0xf_ffff_ffff_ffff != 0
}

/// Whether a float bit pattern is a zero of either sign.
pub open spec fn is_zero_bits(x: u64) -> bool {
    x & 0x7fff_ffff_ffff_ffff == 0
}

/// A key that orders float bit patterns as their values are ordered, for
/// values other than NaN and apart from the sign of zero.
pub open spec fn order_key(x: u64) -> u64 {
    if x >> 63u64 == 1 {
        !x
    } else {
        x | 0x8000_0000_0000_0000
    }
}

/// The float with bits `a` is greater than the float with bits `b`, in the
/// order of IEEE 754: never for a NaN, and the two zeros are equal.
pub open spec fn float_gt(a: u64, b: u64) -> bool {
    if is_nan_bits(a) || is_nan_bits(b) {
        false
    } else if is_zero_bits(a) && is_zero_bits(b) {
        false
    } else {
        order_key(a) > order_key(b)
    }
}

fn float_bits_gt(a: u64, b: u64) -> (r: bool)
    ensures
        r == float_gt(a, b),
{
    let a_nan = (a >> 52u64) & 0x7ff == 0x7ff && a & 0xf_ffff_ffff_ffff != 0;
    let b_nan = (b >> 52u64) & 0x7ff == 0x7ff && b & 0xf_ffff_ffff_ffff != 0;
    if a_nan || b_nan {
        return false;
    }
    if a & 0x7fff_ffff_ffff_ffff == 0 && b & 0x7fff_ffff_ffff_ffff == 0 {
        return false;
    }
    let ka = if a >> 63u64 == 1 {
        !a
    } else {
        a | 0x8000_0000_0000_0000
    };
    let kb = if b >> 63u64 == 1 {
        !b
    } else {
        b | 0x8000_0000_0000_0000
    };
    ka > kb
}

/// How two cells of the column compare: `Some(true)` where the first is
/// greater, `None` where they are not both integers or both floats.
pub open spec fn cell_gt(a: Datum, b: Datum) -> Option<bool> {
    match (a, b) {
        (Datum::Int(x), Datum::Int(y)) => Some(x > y),
        (Datum::Float(x), Datum::Float(y)) => Some(float_gt(x, y)),
        _ => None,
    }
}

/// Where a new row goes among the kept rows, looking from `p` on: the
/// first kept row whose cell in column `hp` is smaller, `None` if there is
/// none, or `Err` at a cell that cannot be compared.
pub open spec fn replaced_row(rows: Seq<Seq<Datum>>, row: Seq<Datum>, hp: int, p: int) -> Result<
    Option<int>,
    (),
>
    decreases rows.len() - p,
{
    if p >= rows.len() || p < 0 {
        Ok(None)
    } else {
        match cell_gt(row[hp], rows[p][hp]) {
            None => Err(()),
            Some(true) => Ok(Some(p)),
            Some(false) => replaced_row(rows, row, hp, p + 1),
        }
    }
}

/// Comparing the new row with the kept rows from `p` on reaches a row, the
/// new one or a kept one, that is too short for column `hp`.
pub open spec fn compare_panics(rows: Seq<Seq<Datum>>, row: Seq<Datum>, hp: int, p: int) -> bool
    decreases rows.len() - p,
{
    if p >= rows.len() || p < 0 {
        false
    } else if row.len() <= hp || rows[p].len() <= hp {
        true
    } else {
        match cell_gt(row[hp], rows[p][hp]) {
            Some(false) => compare_panics(rows, row, hp, p + 1),
            _ => false,
        }
    }
}

/// What the tool is waiting for.
#[derive(Debug, Copy, Clone, PartialEq, Eq, Structural)]
pub enum MaxPhase {
    /// The table or array that the input starts with
    Start,
    /// The header of the table
    Header,
    /// The next row of the table
    Rows,
    /// The next item of an array, which is not supported
    Items,
}

/// The options of the tool.
pub struct MaxOpts {
    /// How many rows to keep
    pub num: usize,
    /// The column whose values decide
    pub field: Option<String>,
}

/// The state of the tool between steps.
pub struct MaxState {
    pub phase: MaxPhase,
    /// The header of the table
    pub header: Vec<Value>,
    /// The position of the column in the header
    pub field_pos: usize,
    /// The rows kept so far
    pub rows: Vec<Vec<Value>>,
    /// How many rows have been read
    pub seen: usize,
    /// The position of the next token to look at
    pub next: usize,
}

/// What a step asks of the tool.
#[derive(Debug)]
pub enum MaxStep {
    /// Nothing to show yet
    Waiting,
    /// The kept rows changed; they are to be shown again
    Changed,
    /// The tool must stop, with this message
    Stop(String),
}

impl MaxState {
    /// The state at the start of the input.
    pub fn new() -> (s: MaxState)
        ensures
            s.phase == MaxPhase::Start,
            s.header@.len() == 0,
            s.rows@.len() == 0,
            s.seen == 0,
            s.next == 0,
            s.field_pos == usize::MAX,
    {
        MaxState {
            phase: MaxPhase::Start,
            header: Vec::new(),
            field_pos: usize::MAX,
            rows: Vec::new(),
            seen: 0,
            next: 0,
        }
    }
}

/// Where the first header cell that is the text `name` stands.
pub open spec fn field_position(header: Seq<Datum>, name: Seq<char>, j: int) -> Option<int>
    decreases header.len() - j,
{
    if j >= header.len() || j < 0 {
        None
    } else if header[j] == Datum::Text(name) {
        Some(j)
    } else {
        field_position(header, name, j + 1)
    }
}

/// The row that the tokens from `next` hold, if they hold a whole array.
pub open spec fn row_at(ast: Seq<Token>, next: int) -> Option<(int, Seq<Datum>)> {
    if 0 <= next < ast.len() && ast[next] is Array {
        match gathered(ast.skip(next)) {
            Gathered::Done(n, Datum::Array(items)) => Some((n, items)),
            _ => None,
        }
    } else {
        None
    }
}

/// A step would stop the program: the tokens of a table or row hold a
/// map, a row is too short for the column, or an array is read.
pub open spec fn max_step_panics(
    phase: MaxPhase,
    field_pos: usize,
    rows: Seq<Seq<Datum>>,
    next: int,
    ast: Seq<Token>,
    num: usize,
) -> bool {
    if next < 0 || next >= ast.len() {
        false
    } else {
        match phase {
            MaxPhase::Start => false,
            MaxPhase::Header | MaxPhase::Rows => if ast[next] is Array {
                if gathered(ast.skip(next)) is Unsupported {
                    true
                } else {
                    match row_at(ast, next) {
                        Some((_, row)) => phase == MaxPhase::Rows && rows.len() >= num
                            && compare_panics(rows, row, field_pos as int, 0),
                        None => false,
                    }
                }
            } else {
                false
            },
            MaxPhase::Items => true,
        }
    }
}

/// What a step asks for, in the terms of the contract.
pub enum StepKind {
    Waiting,
    Changed,
    Stop(Seq<char>),
}

/// The state of the tool in the terms of the contract: phase, header,
/// column, kept rows, rows read and next token.
pub struct MaxView {
    pub phase: MaxPhase,
    pub header: Seq<Datum>,
    pub field_pos: usize,
    pub rows: Seq<Seq<Datum>>,
    pub seen: usize,
    pub next: int,
}

/// The view of a state.
pub open spec fn max_view(s: MaxState) -> MaxView {
    MaxView {
        phase: s.phase,
        header: data_of(s.header@),
        field_pos: s.field_pos,
        rows: rows_of(s.rows@),
        seen: s.seen,
        next: s.next as int,
    }
}

/// The state and request after one step over the tokens `ast`.
pub open spec fn max_next(v: MaxView, ast: Seq<Token>, num: usize, field: Option<Seq<char>>) -> (
    MaxView,
    StepKind,
) {
    if v.next < 0 || v.next >= ast.len() {
        (v, StepKind::Waiting)
    } else {
        match v.phase {
            MaxPhase::Start => match ast[v.next] {
                Token::Table => if field is None {
                    (
                        MaxView { phase: MaxPhase::Header, ..v },
                        StepKind::Stop("Found a table without any field specified."@),
                    )
                } else {
                    (MaxView { phase: MaxPhase::Header, next: v.next + 1, ..v }, StepKind::Waiting)
                },
                Token::Array(_) => if field is Some {
                    (
                        MaxView { phase: MaxPhase::Items, ..v },
                        StepKind::Stop("Found an array, but a field was specified."@),
                    )
                } else {
                    (MaxView { phase: MaxPhase::Items, next: v.next + 1, ..v }, StepKind::Waiting)
                },
                _ => (v, StepKind::Stop("Expected table or array."@)),
            },
            MaxPhase::Header => match row_at(ast, v.next) {
                Some((ns, harr)) => match field_position(harr, field.unwrap(), 0) {
                    None => (v, StepKind::Stop("Table doesn't have that field."@)),
                    Some(p) => (
                        MaxView {
                            phase: MaxPhase::Rows,
                            header: harr,
                            field_pos: p as usize,
                            next: v.next + ns + 1,
                            ..v
                        },
                        StepKind::Waiting,
                    ),
                },
                None => (v, StepKind::Waiting),
            },
            MaxPhase::Rows => match row_at(ast, v.next) {
                Some((ns, row)) => {
                    let seen = (v.seen + 1) as usize;
                    if v.rows.len() < num {
                        (
                            MaxView { rows: v.rows.push(row), seen, next: v.next + ns, ..v },
                            StepKind::Changed,
                        )
                    } else {
                        match replaced_row(v.rows, row, v.field_pos as int, 0) {
                            Err(_) => (
                                MaxView { seen, ..v },
                                StepKind::Stop(
                                    "Expected homogenous column of either Int or Float."@,
                                ),
                            ),
                            Ok(Some(p)) => (
                                MaxView { rows: v.rows.update(p, row), seen, next: v.next + ns, ..v },
                                StepKind::Changed,
                            ),
                            Ok(None) => (MaxView { seen, next: v.next + ns, ..v }, StepKind::Waiting),
                        }
                    }
                },
                None => (v, StepKind::Waiting),
            },
            MaxPhase::Items => (v, StepKind::Waiting),
        }
    }
}

/// A request stands for the request of the contract.
pub open spec fn step_as(r: MaxStep, k: StepKind) -> bool {
    match k {
        StepKind::Waiting => r is Waiting,
        StepKind::Changed => r is Changed,
        StepKind::Stop(m) => r matches MaxStep::Stop(x) && x@ == m,
    }
}

/// The text of an optional field name.
pub open spec fn field_view(f: Option<String>) -> Option<Seq<char>> {
    match f {
        Some(s) => Some(s@),
        None => None,
    }
}

fn message(s: &str) -> (m: MaxStep)
    ensures
        m matches MaxStep::Stop(x) && x@ == s@,
{
    MaxStep::Stop(string_of(chars_of(s).as_slice()))
}

fn cells_gt(a: &Value, b: &Value) -> (r: Option<bool>)
    ensures
        r == cell_gt(datum_of(*a), datum_of(*b)),
{
    match (a, b) {
        (Value::Int(x), Value::Int(y)) => Some(*x > *y),
        (Value::Float(x), Value::Float(y)) => Some(float_bits_gt(*x, *y)),
        _ => None,
    }
}

proof fn lemma_rows_of_update(s: Seq<Vec<Value>>, p: int, v: Vec<Value>)
    requires
        0 <= p < s.len(),
    ensures
        rows_of(s.update(p, v)) == rows_of(s).update(p, data_of(v@)),
{
    lemma_rows_of_index(s);
    lemma_rows_of_index(s.update(p, v));
    assert(rows_of(s.update(p, v)) =~= rows_of(s).update(p, data_of(v@)));
}

fn field_pos_in(header: &Vec<Value>, name: &[char]) -> (r: Option<usize>)
    ensures
        match field_position(data_of(header@), name@, 0) {
            Some(p) => r == Some(p as usize) && p < header@.len(),
            None => r is None,
        },
{
    proof {
        lemma_data_of_index(header@);
    }
    let mut j: usize = 0;
    while j < header.len()
        invariant
            0 <= j <= header.len(),
            data_of(header@).len() == header@.len(),
            forall|k: int| 0 <= k < header@.len() ==> #[trigger] data_of(header@)[k] == datum_of(
                header@[k],
            ),
            field_position(data_of(header@), name@, 0) == field_position(
                data_of(header@),
                name@,
                j as int,
            ),
        decreases header.len() - j,
    {
        if header[j].is_text(name) {
            return Some(j);
        }
        j += 1;
    }
    None
}

/// Where a new row replaces a kept row: the first kept row that it beats
/// in column `hp`.
fn replacement(rows: &Vec<Vec<Value>>, row: &Vec<Value>, hp: usize) -> (r: Result<
    Option<usize>,
    (),
>)
    requires
        !compare_panics(rows_of(rows@), data_of(row@), hp as int, 0),
    ensures
        match replaced_row(rows_of(rows@), data_of(row@), hp as int, 0) {
            Ok(Some(p)) => r matches Ok(Some(x)) && x == p,
            Ok(None) => r == Ok::<Option<usize>, ()>(None),
            Err(_) => r is Err,
        },
        r matches Ok(Some(q)) ==> q < rows@.len(),
{
    let ghost rows0 = rows_of(rows@);
    let ghost rowd = data_of(row@);
    proof {
        lemma_rows_of_index(rows@);
        lemma_data_of_index(row@);
    }
    let mut p: usize = 0;
    while p < rows.len()
        invariant
            0 <= p <= rows@.len(),
            rows0 == rows_of(rows@),
            rowd == data_of(row@),
            rows0.len() == rows@.len(),
            forall|k: int| 0 <= k < rows@.len() ==> #[trigger] rows0[k] == data_of(rows@[k]@),
            forall|k: int| 0 <= k < row@.len() ==> #[trigger] rowd[k] == datum_of(row@[k]),
            rowd.len() == row@.len(),
            !compare_panics(rows0, rowd, hp as int, p as int),
            replaced_row(rows0, rowd, hp as int, 0) == replaced_row(rows0, rowd, hp as int, p as int),
        decreases rows.len() - p,
    {
        proof {
            lemma_data_of_index(rows@[p as int]@);
        }
        match cells_gt(&row[hp], &rows[p][hp]) {
            None => {
                return Err(());
            },
            Some(true) => {
                return Ok(Some(p));
            },
            Some(false) => {},
        }
        p += 1;
    }
    Ok(None)
}

/// Takes one step over the tokens that have arrived: reads the start of
/// the input, the header of the table, or the next row, and keeps the row
/// if its value in the column is among the largest.
pub fn max_step(st: &mut MaxState, ast: &[Token], opts: &MaxOpts) -> (r: MaxStep)
    requires
        !max_step_panics(
            old(st).phase,
            old(st).field_pos,
            rows_of(old(st).rows@),
            old(st).next as int,
            ast@,
            opts.num,
        ),
        old(st).phase == MaxPhase::Header ==> opts.field is Some,
        old(st).seen < usize::MAX,
        ast@.len() < usize::MAX,
    ensures
        ({
            let (v, k) = max_next(max_view(*old(st)), ast@, opts.num, field_view(opts.field));
            max_view(*final(st)) == v && step_as(r, k)
        }),
{
    if st.next >= ast.len() {
        return MaxStep::Waiting;
    }
    let next = st.next;
    match st.phase {
        MaxPhase::Start => match &ast[next] {
            Token::Table => {
                st.phase = MaxPhase::Header;
                if opts.field.is_none() {
                    return message("Found a table without any field specified.");
                }
                st.next = next + 1;
                MaxStep::Waiting
            },
            Token::Array(_) => {
                st.phase = MaxPhase::Items;
                if opts.field.is_some() {
                    return message("Found an array, but a field was specified.");
                }
                st.next = next + 1;
                MaxStep::Waiting
            },
            _ => message("Expected table or array."),
        },
        MaxPhase::Header => {
            if let Token::Array(_) = &ast[next] {
                proof {
                    crate::bwine::lemma_gathered_len(ast@.skip(next as int));
                }
                match gather_at(ast, next) {
                    Some((ns, Value::Array(harr))) => {
                        let name = match &opts.field {
                            Some(f) => chars_of(f.as_str()),
                            None => Vec::new(),
                        };
                        match field_pos_in(&harr, name.as_slice()) {
                            None => message("Table doesn't have that field."),
                            Some(p) => {
                                st.field_pos = p;
                                st.header = harr;
                                st.next = next + ns + 1;
                                st.phase = MaxPhase::Rows;
                                MaxStep::Waiting
                            },
                        }
                    },
                    _ => MaxStep::Waiting,
                }
            } else {
                MaxStep::Waiting
            }
        },
        MaxPhase::Rows => {
            if let Token::Array(_) = &ast[next] {
                proof {
                    crate::bwine::lemma_gathered_len(ast@.skip(next as int));
                }
                match gather_at(ast, next) {
                    Some((ns, Value::Array(row))) => {
                        proof {
                            lemma_rows_of_index(st.rows@);
                        }
                        st.seen = st.seen + 1;
                        if st.rows.len() < opts.num {
                            proof {
                                lemma_rows_of_push(st.rows@, row);
                            }
                            st.rows.push(row);
                            st.next = next + ns;
                            return MaxStep::Changed;
                        }
                        proof {
                            lemma_data_of_index(row@);
                        }
                        match replacement(&st.rows, &row, st.field_pos) {
                            Err(()) => {
                                return message(
                                    "Expected homogenous column of either Int or Float.",
                                );
                            },
                            Ok(Some(p)) => {
                                proof {
                                    lemma_rows_of_update(st.rows@, p as int, row);
                                }
                                st.rows.set(p, row);
                                st.next = next + ns;
                                return MaxStep::Changed;
                            },
                            Ok(None) => {},
                        }
                        st.next = next + ns;
                        MaxStep::Waiting
                    },
                    _ => MaxStep::Waiting,
                }
            } else {
                MaxStep::Waiting
            }
        },
        MaxPhase::Items => MaxStep::Waiting,
    }
}

proof fn lemma_replaced_row_range(rows: Seq<Seq<Datum>>, row: Seq<Datum>, hp: int, p: int)
    requires
        0 <= p,
    ensures
        replaced_row(rows, row, hp, p) matches Ok(Some(q)) ==> p <= q < rows.len(),
    decreases rows.len() - p,
{
    if p < rows.len() {
        lemma_replaced_row_range(rows, row, hp, p + 1);
    }
}

/// The tool never keeps more rows than it was asked for, and it only reads
/// forward through the tokens.
pub proof fn law_kept_rows_bounded(v: MaxView, ast: Seq<Token>, num: usize, field: Option<Seq<char>>)
    requires
        v.rows.len() <= num,
    ensures
        max_next(v, ast, num, field).0.rows.len() <= num,
        max_next(v, ast, num, field).0.next >= v.next,
{
    if 0 <= v.next < ast.len() {
        match v.phase {
            MaxPhase::Header => {
                match row_at(ast, v.next) {
                    Some((ns, harr)) => {
                        lemma_gathered_len(ast.skip(v.next));
                    },
                    None => {},
                }
            },
            MaxPhase::Rows => {
                match row_at(ast, v.next) {
                    Some((ns, row)) => {
                        lemma_gathered_len(ast.skip(v.next));
                        lemma_replaced_row_range(v.rows, row, v.field_pos as int, 0);
                    },
                    None => {},
                }
            },
            _ => {},
        }
    }
}

/// The order of floats by their bits, as IEEE 754 orders their values: no
/// NaN is greater or smaller than anything; among non-negative floats the
/// greater bits are the greater value; among negative floats the greater
/// bits are the smaller value; a non-negative float is greater than a
/// negative one unless both are zeros; and no float is greater than itself.
pub proof fn law_float_order_by_bits(a: u64, b: u64)
    ensures
        is_nan_bits(a) || is_nan_bits(b) ==> !float_gt(a, b),
        !is_nan_bits(a) && !is_nan_bits(b) && a < 0x8000_0000_0000_0000u64 && b
            < 0x8000_0000_0000_0000u64 ==> (float_gt(a, b) <==> a > b),
        !is_nan_bits(a) && !is_nan_bits(b) && a >= 0x8000_0000_0000_0000u64 && b
            >= 0x8000_0000_0000_0000u64 ==> (float_gt(a, b) <==> (a < b && !(is_zero_bits(a)
            && is_zero_bits(b)))),
        !is_nan_bits(a) && !is_nan_bits(b) && a < 0x8000_0000_0000_0000u64 && b
            >= 0x8000_0000_0000_0000u64 ==> (float_gt(a, b) <==> !(is_zero_bits(a) && is_zero_bits(
            b,
        ))),
        !float_gt(a, a),
{
    assert(a < 0x8000_0000_0000_0000u64 ==> a >> 63u64 == 0 && a | 0x8000_0000_0000_0000u64
        == a + 0x8000_0000_0000_0000u64) by (bit_vector);
    assert(b < 0x8000_0000_0000_0000u64 ==> b >> 63u64 == 0 && b | 0x8000_0000_0000_0000u64
        == b + 0x8000_0000_0000_0000u64) by (bit_vector);
    assert(a >= 0x8000_0000_0000_0000u64 ==> a >> 63u64 == 1 && !a == 0xffff_ffff_ffff_ffffu64 - a)
        by (bit_vector);
    assert(b >= 0x8000_0000_0000_0000u64 ==> b >> 63u64 == 1 && !b == 0xffff_ffff_ffff_ffffu64 - b)
        by (bit_vector);
    assert(a < 0x8000_0000_0000_0000u64 ==> order_key(a) == a + 0x8000_0000_0000_0000u64);
    assert(b < 0x8000_0000_0000_0000u64 ==> order_key(b) == b + 0x8000_0000_0000_0000u64);
    assert(a >= 0x8000_0000_0000_0000u64 ==> order_key(a) == 0xffff_ffff_ffff_ffffu64 - a);
    assert(b >= 0x8000_0000_0000_0000u64 ==> order_key(b) == 0xffff_ffff_ffff_ffffu64 - b);
    assert(a < 0x8000_0000_0000_0000u64 && is_zero_bits(a) ==> a == 0) by (bit_vector);
    assert(b < 0x8000_0000_0000_0000u64 && is_zero_bits(b) ==> b == 0) by (bit_vector);
}

/// The integer in column `hp` of a row.
pub open spec fn int_cell(r: Seq<Datum>, hp: int) -> int {
    r[hp]->Int_0 as int
}

/// The rows all hold an integer in column `hp`.
pub open spec fn int_column(rows: Seq<Seq<Datum>>, hp: int) -> bool {
    forall|q: int| 0 <= q < rows.len() ==> (#[trigger] rows[q]).len() > hp && rows[q][hp] is Int
}

proof fn lemma_replaced_ints(rows: Seq<Seq<Datum>>, row: Seq<Datum>, hp: int, p: int)
    requires
        0 <= p,
        0 <= hp < row.len(),
        row[hp] is Int,
        int_column(rows, hp),
    ensures
        match replaced_row(rows, row, hp, p) {
            Ok(Some(q)) => p <= q < rows.len() && int_cell(row, hp) > int_cell(rows[q], hp)
                && forall|j: int| p <= j < q ==> int_cell(row, hp) <= int_cell(#[trigger] rows[j], hp),
            Ok(None) => forall|j: int|
                p <= j < rows.len() ==> int_cell(row, hp) <= int_cell(#[trigger] rows[j], hp),
            Err(_) => false,
        },
    decreases rows.len() - p,
{
    if p < rows.len() {
        assert(rows[p].len() > hp && rows[p][hp] is Int);
        lemma_replaced_ints(rows, row, hp, p + 1);
    }
}

/// Once the tool keeps as many rows as it was asked for, a new row of an
/// integer column takes the place of the first kept row whose value is
/// smaller as a signed integer, and of no other; where no kept row is
/// smaller, the new row is dropped and the kept rows stay.
pub proof fn law_max_replaces_a_smaller_row(
    v: MaxView,
    ast: Seq<Token>,
    num: usize,
    field: Option<Seq<char>>,
    ns: int,
    row: Seq<Datum>,
)
    requires
        v.phase == MaxPhase::Rows,
        row_at(ast, v.next) == Some((ns, row)),
        v.rows.len() >= num,
        0 <= v.field_pos < row.len(),
        row[v.field_pos as int] is Int,
        int_column(v.rows, v.field_pos as int),
    ensures
        ({
            let hp = v.field_pos as int;
            let kept = max_next(v, ast, num, field).0.rows;
            &&& (forall|q: int| 0 <= q < v.rows.len() ==> int_cell(row, hp) <= int_cell(
                #[trigger] v.rows[q],
                hp,
            )) ==> kept == v.rows
            &&& (exists|q: int| 0 <= q < v.rows.len() && int_cell(row, hp) > int_cell(
                #[trigger] v.rows[q],
                hp,
            )) ==> exists|p: int|
                0 <= p < v.rows.len() && kept == v.rows.update(p, row) && int_cell(row, hp)
                    > int_cell(#[trigger] v.rows[p], hp) && forall|j: int|
                    0 <= j < p ==> int_cell(row, hp) <= int_cell(#[trigger] v.rows[j], hp)
        }),
{
    let hp = v.field_pos as int;
    lemma_replaced_ints(v.rows, row, hp, 0);
    match replaced_row(v.rows, row, hp, 0) {
        Ok(Some(p)) => {
            assert(v.rows[p] == v.rows[p]);
        },
        Ok(None) => {
            if exists|q: int| 0 <= q < v.rows.len() && int_cell(row, hp) > int_cell(
                #[trigger] v.rows[q],
                hp,
            ) {
                let q = choose|q: int|
                    0 <= q < v.rows.len() && int_cell(row, hp) > int_cell(#[trigger] v.rows[q], hp);
                assert(int_cell(row, hp) <= int_cell(v.rows[q], hp));
            }
        },
        Err(_) => {},
    }
}

fn compare_would_panic(rows: &Vec<Vec<Value>>, row: &Vec<Value>, hp: usize) -> (b: bool)
    ensures
        b == compare_panics(rows_of(rows@), data_of(row@), hp as int, 0),
{
    proof {
        lemma_rows_of_index(rows@);
        lemma_data_of_index(row@);
    }
    let ghost rs = rows_of(rows@);
    let ghost w = data_of(row@);
    let mut p: usize = 0;
    while p < rows.len()
        invariant
            0 <= p <= rows.len(),
            rs == rows_of(rows@),
            w == data_of(row@),
            rs.len() == rows@.len(),
            w.len() == row@.len(),
            forall|i: int| 0 <= i < rows@.len() ==> #[trigger] rs[i] == data_of(rows@[i]@),
            forall|i: int| 0 <= i < row@.len() ==> #[trigger] w[i] == datum_of(row@[i]),
            compare_panics(rs, w, hp as int, 0) == compare_panics(rs, w, hp as int, p as int),
        decreases rows.len() - p,
    {
        proof {
            lemma_data_of_index(rows@[p as int]@);
        }
        if row.len() <= hp || rows[p].len() <= hp {
            return true;
        }
        match cells_gt(&row[hp], &rows[p][hp]) {
            Some(false) => {},
            _ => {
                return false;
            },
        }
        p += 1;
    }
    false
}

/// Takes one step as [`max_step`] does, unless the step would stop the
/// program (a map in the input, a row too short for the column, or an
/// array of items): then nothing changes and the result is `None`.
pub fn try_max_step(st: &mut MaxState, ast: &[Token], opts: &MaxOpts) -> (r: Option<MaxStep>)
    requires
        old(st).phase == MaxPhase::Header ==> opts.field is Some,
        old(st).seen < usize::MAX,
        ast@.len() < usize::MAX,
    ensures
        r is None <==> max_step_panics(
            old(st).phase,
            old(st).field_pos,
            rows_of(old(st).rows@),
            old(st).next as int,
            ast@,
            opts.num,
        ),
        r is None ==> max_view(*final(st)) == max_view(*old(st)),
        r matches Some(k) ==> ({
            let (v, sk) = max_next(max_view(*old(st)), ast@, opts.num, field_view(opts.field));
            max_view(*final(st)) == v && step_as(k, sk)
        }),
{
    let next = st.next;
    let panics = if next >= ast.len() {
        false
    } else {
        match st.phase {
            MaxPhase::Start => false,
            MaxPhase::Items => true,
            _ => match &ast[next] {
                Token::Array(_) => if is_unsupported(ast, next) {
                    true
                } else {
                    match gather_at(ast, next) {
                        Some((_, Value::Array(row))) => st.phase == MaxPhase::Rows && st.rows.len()
                            >= opts.num && compare_would_panic(&st.rows, &row, st.field_pos),
                        _ => false,
                    }
                },
                _ => false,
            },
        }
    };
    proof {
        lemma_rows_of_index(st.rows@);
    }
    if panics {
        None
    } else {
        Some(max_step(st, ast, opts))
    }
}

} // verus!
