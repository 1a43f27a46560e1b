//! Selection paths into structured values, such as `.name` or `.2.size`:
//! reading them, and following them into a value or a table row.
use vstd::prelude::*;
use crate::bwine::{
    data_of, datum_of, gather_at, gathered, is_unsupported, lemma_data_of_index, lemma_gathered_len,
    lemma_rows_of_index, rows_of, Datum, Gathered, Token, Value,
};
use crate::numbers::{parse_usize, parsed_int};
use crate::pieces::{split_on, split_pieces};
use crate::unicode::{chars_of, string_of};

verus! {

/// One step of a path: a field by name, or an item by position.
#[derive(Debug)]
pub enum Seg {
    Field(String),
    Index(usize),
}

/// A selection path, and the text it was read from, which names the
/// column of its results.
#[derive(Debug)]
pub struct Expr {
    pub raw: String,
    pub segments: Vec<Seg>,
}

/// The step that a piece of a path stands for: a position when it reads
/// as a `usize`, else a field name.
pub open spec fn seg_for(seg: Seg, piece: Seq<char>) -> bool {
    match parsed_int(piece, 0, usize::MAX as int) {
        Ok(v) => seg matches Seg::Index(i) && i == v,
        Err(_) => seg matches Seg::Field(f) && f@ == piece,
    }
}

/// The message for a path that does not start with `.`.
pub open spec fn no_dot_message(input: Seq<char>) -> Seq<char> {
    "expr `"@ + input + "` must be prefixed with `.`"@
}

/// The message for a path with an empty step.
pub open spec fn empty_segment_message(input: Seq<char>) -> Seq<char> {
    "expr `"@ + input + "` has empty path segment"@
}

fn push_all(out: &mut Vec<char>, s: &[char])
    ensures
        final(out)@ == old(out)@ + s@,
{
    let mut i: usize = 0;
    while i < s.len()
        invariant
            0 <= i <= s.len(),
            out@ == old(out)@ + s@.take(i as int),
        decreases s.len() - i,
    {
        out.push(s[i]);
        proof {
            assert(s@.take(i + 1) =~= s@.take(i as int).push(s@[i as int]));
        }
        i += 1;
    }
    proof {
        assert(s@.take(i as int) =~= s@);
    }
}

fn message_around(before: &str, input: &str, after: &str) -> (m: String)
    ensures
        m@ == before@ + input@ + after@,
{
    let mut out: Vec<char> = Vec::new();
    push_all(&mut out, chars_of(before).as_slice());
    push_all(&mut out, chars_of(input).as_slice());
    push_all(&mut out, chars_of(after).as_slice());
    string_of(out.as_slice())
}

/// Reads a selection path: a `.`, then steps separated by dots, none of
/// them empty.
pub fn parse_expr(input: &str) -> (r: Result<Expr, String>)
    ensures
        (input@.len() == 0 || input@[0] != '.') ==> (r matches Err(m) && m@ == no_dot_message(
            input@,
        )),
        input@ == seq!['.'] ==> (r matches Err(m) && m@ == "expr is empty"@),
        ({
            let pieces = split_pieces(input@.drop_first(), '.');
            input@.len() > 1 && input@[0] == '.' ==> if exists|k: int|
                0 <= k < pieces.len() && #[trigger] pieces[k].len() == 0 {
                r matches Err(m) && m@ == empty_segment_message(input@)
            } else {
                r matches Ok(e) && e.raw@ == input@ && e.segments@.len() == pieces.len() && forall|
                    k: int,
                | 0 <= k < pieces.len() ==> seg_for(#[trigger] e.segments@[k], pieces[k])
            }
        }),
{
    let cs = chars_of(input);
    if cs.len() == 0 || cs[0] != '.' {
        return Err(message_around("expr `", input, "` must be prefixed with `.`"));
    }
    if cs.len() == 1 {
        return Err(string_of(chars_of("expr is empty").as_slice()));
    }
    let mut rest: Vec<char> = Vec::new();
    let mut j: usize = 1;
    while j < cs.len()
        invariant
            1 <= j <= cs.len(),
            rest@ == cs@.subrange(1, j as int),
        decreases cs.len() - j,
    {
        rest.push(cs[j]);
        proof {
            assert(cs@.subrange(1, j + 1) =~= cs@.subrange(1, j as int).push(cs@[j as int]));
        }
        j += 1;
    }
    proof {
        assert(rest@ =~= input@.drop_first());
    }
    let pieces = split_on(rest.as_slice(), '.');
    let ghost pv = split_pieces(input@.drop_first(), '.');
    let mut segments: Vec<Seg> = Vec::new();
    let mut k: usize = 0;
    while k < pieces.len()
        invariant
            0 <= k <= pieces.len(),
            cs@ == input@,
            cs@.len() > 1,
            cs@[0] == '.',
            pv == split_pieces(input@.drop_first(), '.'),
            pieces@.len() == pv.len(),
            forall|i: int| 0 <= i < pieces@.len() ==> #[trigger] pieces@[i]@ == pv[i],
            forall|i: int| 0 <= i < k ==> #[trigger] pv[i].len() > 0,
            segments@.len() == k,
            forall|i: int| 0 <= i < k ==> seg_for(#[trigger] segments@[i], pv[i]),
        decreases pieces.len() - k,
    {
        if pieces[k].len() == 0 {
            proof {
                assert(pv[k as int].len() == 0);
            }
            return Err(message_around("expr `", input, "` has empty path segment"));
        }
        let text = string_of(pieces[k].as_slice());
        let seg = match parse_usize(text.as_str()) {
            Ok(i) => Seg::Index(i),
            Err(_) => Seg::Field(text),
        };
        segments.push(seg);
        k += 1;
    }
    Ok(Expr { raw: string_of(cs.as_slice()), segments })
}

/// Follows a path into a datum: through tags, to an item of an array or to
/// a row of a table; `None` where the path leads nowhere.
pub open spec fn nav_datum(d: Datum, segs: Seq<Seg>) -> Option<Datum>
    decreases segs.len(), d,
{
    if segs.len() == 0 {
        Some(d)
    } else {
        match d {
            Datum::Tag(_, inner) => nav_datum(*inner, segs),
            Datum::Array(items) => match segs[0] {
                Seg::Index(i) => if i < items.len() {
                    nav_datum(items[i as int], segs.drop_first())
                } else {
                    None
                },
                Seg::Field(_) => None,
            },
            Datum::Table { rows, .. } => match segs[0] {
                Seg::Index(i) => if i < rows.len() {
                    nav_datum(Datum::Array(rows[i as int]), segs.drop_first())
                } else {
                    None
                },
                Seg::Field(_) => None,
            },
            _ => None,
        }
    }
}

/// A result of following a path stands for the datum the path leads to.
pub open spec fn nav_as(d: Option<Datum>, r: Option<Value>) -> bool {
    match d {
        Some(x) => r matches Some(v) && datum_of(v) == x,
        None => r is None,
    }
}

/// Follows the steps of a path from `start` on into a value.
fn nav_from(value: &Value, segments: &[Seg], start: usize) -> (r: Option<Value>)
    requires
        start <= segments.len(),
    ensures
        nav_as(nav_datum(datum_of(*value), segments@.skip(start as int)), r),
    decreases segments.len() - start, value,
{
    let ghost segs = segments@.skip(start as int);
    if start >= segments.len() {
        return Some(value.duplicate());
    }
    proof {
        assert(segs[0] == segments@[start as int]);
        assert(segs.drop_first() =~= segments@.skip(start + 1));
    }
    match value {
        Value::Tag(_, inner) => nav_from(inner, segments, start),
        Value::Array(items) => match &segments[start] {
            Seg::Index(i) => {
                proof {
                    lemma_data_of_index(items@);
                }
                if *i < items.len() {
                    nav_from(&items[*i], segments, start + 1)
                } else {
                    None
                }
            },
            Seg::Field(_) => None,
        },
        Value::Table { rows, .. } => match &segments[start] {
            Seg::Index(i) => {
                proof {
                    lemma_rows_of_index(rows@);
                }
                if *i < rows.len() {
                    let row = Value::Array(crate::bwine::duplicate_values(&rows[*i]));
                    nav_from(&row, segments, start + 1)
                } else {
                    None
                }
            },
            Seg::Field(_) => None,
        },
        _ => None,
    }
}

/// Follows a path into a value: the part it leads to, or `None`.
pub fn nav(value: &Value, segments: &[Seg]) -> (r: Option<Value>)
    ensures
        nav_as(nav_datum(datum_of(*value), segments@), r),
{
    proof {
        assert(segments@.skip(0) =~= segments@);
    }
    nav_from(value, segments, 0)
}

/// Following a path in two parts is following the first part, then the
/// second from where the first led; a path leads nowhere once a part does.
pub proof fn law_paths_compose(d: Datum, s1: Seq<Seg>, s2: Seq<Seg>)
    ensures
        nav_datum(d, s1 + s2) == match nav_datum(d, s1) {
            Some(x) => nav_datum(x, s2),
            None => None,
        },
    decreases s1.len(), d,
{
    if s1.len() == 0 {
        assert(s1 + s2 =~= s2);
    } else {
        assert((s1 + s2)[0] == s1[0]);
        assert((s1 + s2).drop_first() =~= s1.drop_first() + s2);
        match d {
            Datum::Tag(_, inner) => {
                law_paths_compose(*inner, s1, s2);
            },
            Datum::Array(items) => {
                if let Seg::Index(i) = s1[0] {
                    if i < items.len() {
                        law_paths_compose(items[i as int], s1.drop_first(), s2);
                    }
                }
            },
            Datum::Table { rows, .. } => {
                if let Seg::Index(i) = s1[0] {
                    if i < rows.len() {
                        law_paths_compose(Datum::Array(rows[i as int]), s1.drop_first(), s2);
                    }
                }
            },
            _ => {},
        }
    }
}

/// One step of a path: a position within an array leads to its item
/// there, beyond it nowhere, and a name leads nowhere; a position within a
/// table leads to that row, as an array; a tag is looked through.
pub proof fn law_path_steps(items: Seq<Datum>, header: Seq<Datum>, rows: Seq<Seq<Datum>>, t: u64, inner: Datum, i: usize, name: String)
    ensures
        nav_datum(Datum::Array(items), seq![Seg::Index(i)]) == if i < items.len() {
            Some(items[i as int])
        } else {
            None::<Datum>
        },
        nav_datum(Datum::Array(items), seq![Seg::Field(name)]) is None,
        nav_datum(Datum::Table { header, rows }, seq![Seg::Index(i)]) == if i < rows.len() {
            Some(Datum::Array(rows[i as int]))
        } else {
            None::<Datum>
        },
        nav_datum(Datum::Tag(t, Box::new(inner)), seq![Seg::Index(i)]) == nav_datum(
            inner,
            seq![Seg::Index(i)],
        ),
{
    let one = seq![Seg::Index(i)];
    assert(one.drop_first() =~= Seq::<Seg>::empty());
    assert(one[0] == Seg::Index(i));
    if i < items.len() {
        assert(nav_datum(items[i as int], one.drop_first()) == Some(items[i as int]));
    }
    if i < rows.len() {
        assert(nav_datum(Datum::Array(rows[i as int]), one.drop_first()) == Some(
            Datum::Array(rows[i as int]),
        ));
    }
}

/// Where the first header cell that is the text `name` stands.
pub open spec fn header_position(header: Seq<Datum>, name: Seq<char>, j: int) -> Option<int>
    decreases header.len() - j,
{
    if j >= header.len() || j < 0 {
        None
    } else if header[j] == Datum::Text(name) {
        Some(j)
    } else {
        header_position(header, name, j + 1)
    }
}

/// What a path selects from a table row: its first step picks a cell, by
/// position or by the name of its column, and the rest leads into that
/// cell; `Null` where the path leads nowhere, and the whole row for an
/// empty path.
pub open spec fn selected_datum(header: Seq<Datum>, row: Seq<Datum>, segs: Seq<Seg>) -> Datum {
    if segs.len() == 0 {
        Datum::Array(row)
    } else {
        let idx = match segs[0] {
            Seg::Index(i) => Some(i as int),
            Seg::Field(name) => header_position(header, name@, 0),
        };
        match idx {
            Some(i) => if 0 <= i < row.len() {
                match nav_datum(row[i], segs.drop_first()) {
                    Some(d) => d,
                    None => Datum::Null,
                }
            } else {
                Datum::Null
            },
            None => Datum::Null,
        }
    }
}

fn text_is(v: &Value, name: &String) -> (b: bool)
    ensures
        b == (datum_of(*v) == Datum::Text(name@)),
{
    v.is_text(chars_of(name.as_str()).as_slice())
}

/// Selects what a path names out of one table row, given the header of the
/// table.
pub fn select_from_row(header: &Vec<Value>, row: &Vec<Value>, expr: &Expr) -> (r: Value)
    ensures
        datum_of(r) == selected_datum(data_of(header@), data_of(row@), expr.segments@),
{
    proof {
        lemma_data_of_index(header@);
        lemma_data_of_index(row@);
    }
    if expr.segments.len() == 0 {
        return Value::Array(crate::bwine::duplicate_values(row));
    }
    let idx: Option<usize> = match &expr.segments[0] {
        Seg::Index(i) => Some(*i),
        Seg::Field(name) => {
            let mut j: usize = 0;
            let mut found: Option<usize> = None;
            while j < header.len()
                invariant_except_break
                    found is None,
                invariant
                    0 <= j <= header.len(),
                    data_of(header@).len() == header@.len(),
                    forall|k: int| 0 <= k < header@.len() ==> #[trigger] data_of(header@)[k]
                        == datum_of(header@[k]),
                    header_position(data_of(header@), name@, 0) == header_position(
                        data_of(header@),
                        name@,
                        j as int,
                    ),
                ensures
                    found matches Some(p) ==> header_position(data_of(header@), name@, 0) == Some(
                        p as int,
                    ) && p < header.len(),
                    found is None ==> header_position(data_of(header@), name@, 0) is None,
                decreases header.len() - j,
            {
                if text_is(&header[j], name) {
                    found = Some(j);
                    break;
                }
                j += 1;
            }
            found
        },
    };
    match idx {
        Some(i) => {
            if i < row.len() {
                proof {
                    assert(expr.segments@.skip(1) =~= expr.segments@.drop_first());
                }
                match nav_from(&row[i], expr.segments.as_slice(), 1) {
                    Some(v) => v,
                    None => Value::Null,
                }
            } else {
                Value::Null
            }
        },
        None => Value::Null,
    }
}

/// What the select tool is waiting for.
#[derive(Debug, Copy, Clone, PartialEq, Eq, Structural)]
pub enum SelectPhase {
    /// The table or array that the input starts with
    Init,
    /// The whole header of the table
    TableHeader,
    /// The opening of the array of rows
    TableRowsOpen,
    /// The next row, or the end of the table
    TableRow,
    /// The next item, or the end of the array
    ArrayItem,
    /// Nothing more: the value has been read
    Fin,
}

/// The state of the select tool between steps.
pub struct SelectState {
    pub phase: SelectPhase,
    /// The header of the table
    pub header: Vec<Value>,
    /// The position of the next token to look at
    pub next: usize,
}

impl SelectState {
    /// The state at the start of the input.
    pub fn new() -> (s: SelectState)
        ensures
            s.phase == SelectPhase::Init,
            s.header@.len() == 0,
            s.next == 0,
    {
        SelectState { phase: SelectPhase::Init, header: Vec::new(), next: 0 }
    }
}

/// What a step of the select tool asks for.
#[derive(Debug)]
pub enum SelectStep {
    /// More tokens are needed
    Waiting,
    /// The state moved on; step again
    Moved,
    /// A row of results; the first `consumed` tokens are done with, and the
    /// state counts from the token after them
    Row { values: Vec<Value>, consumed: usize },
    /// The whole input has been read
    Finished,
    /// The token at `at` is not what the phase expects
    Unexpected { at: usize },
    /// A header or row that is not an array
    Malformed,
}

/// The results that paths select out of a table row.
pub open spec fn row_results(header: Seq<Datum>, row: Seq<Datum>, exprs: Seq<Expr>) -> Seq<Datum> {
    Seq::new(exprs.len(), |i: int| selected_datum(header, row, exprs[i].segments@))
}

/// The results that paths select out of an item of an array: `Null` where a
/// path leads nowhere.
pub open spec fn item_results(item: Datum, exprs: Seq<Expr>) -> Seq<Datum> {
    Seq::new(
        exprs.len(),
        |i: int|
            match nav_datum(item, exprs[i].segments@) {
                Some(d) => d,
                None => Datum::Null,
            },
    )
}

/// A step would stop the program: the value at the next token holds a
/// map, or table rows that are not arrays.
pub open spec fn select_step_panics(phase: SelectPhase, next: int, ast: Seq<Token>) -> bool {
    &&& 0 <= next < ast.len()
    &&& match phase {
        SelectPhase::TableHeader | SelectPhase::TableRow => ast[next] is Array,
        SelectPhase::ArrayItem => !(ast[next] is End),
        _ => false,
    }
    &&& gathered(ast.skip(next)) is Unsupported
}

/// What a step of the select tool does, over the tokens `ast` and the
/// paths `exprs`, from the state with phase `phase`, header `header` and
/// next token `next`: the new phase, header and next token, and what it
/// asks for, where `Row` carries the data of its values.
pub open spec fn select_next(
    phase: SelectPhase,
    header: Seq<Datum>,
    next: int,
    ast: Seq<Token>,
    exprs: Seq<Expr>,
) -> (SelectPhase, Seq<Datum>, int, Option<Seq<Datum>>, Option<int>, bool) {
    // (phase, header, next, row results, consumed tokens, moved)
    if phase == SelectPhase::Fin || next < 0 || next >= ast.len() {
        (phase, header, next, None, None, false)
    } else {
        match phase {
            SelectPhase::Init => match ast[next] {
                Token::Table => (SelectPhase::TableHeader, header, next + 1, None, None, true),
                Token::Array(_) => (SelectPhase::ArrayItem, header, next + 1, None, None, true),
                _ => (phase, header, next, None, None, false),
            },
            SelectPhase::TableHeader => match gathered(ast.skip(next)) {
                Gathered::Done(ns, Datum::Array(items)) => if ast[next] is Array {
                    (SelectPhase::TableRowsOpen, items, next + ns, None, None, true)
                } else {
                    (phase, header, next, None, None, false)
                },
                _ => (phase, header, next, None, None, false),
            },
            SelectPhase::TableRowsOpen => if ast[next] is Array {
                (SelectPhase::TableRow, header, next + 1, None, None, true)
            } else {
                (phase, header, next, None, None, false)
            },
            SelectPhase::TableRow => if ast[next] is End {
                (SelectPhase::Fin, header, next + 1, None, None, true)
            } else if ast[next] is Array {
                match gathered(ast.skip(next)) {
                    Gathered::Done(ns, Datum::Array(row)) => (
                        phase,
                        header,
                        0,
                        Some(row_results(header, row, exprs)),
                        Some(next + ns),
                        false,
                    ),
                    _ => (phase, header, next, None, None, false),
                }
            } else {
                (phase, header, next, None, None, false)
            },
            SelectPhase::ArrayItem => if ast[next] is End {
                (SelectPhase::Fin, header, next + 1, None, None, true)
            } else {
                match gathered(ast.skip(next)) {
                    Gathered::Done(ns, item) => (
                        phase,
                        header,
                        0,
                        Some(item_results(item, exprs)),
                        Some(next + ns),
                        false,
                    ),
                    _ => (phase, header, next, None, None, false),
                }
            },
            SelectPhase::Fin => (phase, header, next, None, None, false),
        }
    }
}

/// The request that a step makes, given the phase before it.
pub open spec fn select_request(
    phase: SelectPhase,
    next: int,
    ast: Seq<Token>,
    r: SelectStep,
) -> bool {
    if phase == SelectPhase::Fin {
        r is Finished
    } else if next < 0 || next >= ast.len() {
        r is Waiting
    } else {
        match phase {
            SelectPhase::Init => if ast[next] is Table || ast[next] is Array {
                r is Moved
            } else {
                r == SelectStep::Unexpected { at: next as usize }
            },
            SelectPhase::TableHeader => if ast[next] is Array {
                match gathered(ast.skip(next)) {
                    Gathered::Done(_, Datum::Array(_)) => r is Moved,
                    Gathered::Done(_, _) => r is Malformed,
                    _ => r is Waiting,
                }
            } else {
                r == SelectStep::Unexpected { at: next as usize }
            },
            SelectPhase::TableRowsOpen => if ast[next] is Array {
                r is Moved
            } else {
                r == SelectStep::Unexpected { at: next as usize }
            },
            SelectPhase::TableRow => if ast[next] is End {
                r is Moved
            } else if ast[next] is Array {
                match gathered(ast.skip(next)) {
                    Gathered::Done(_, Datum::Array(_)) => r is Row,
                    Gathered::Done(_, _) => r is Malformed,
                    _ => r is Waiting,
                }
            } else {
                r == SelectStep::Unexpected { at: next as usize }
            },
            SelectPhase::ArrayItem => if ast[next] is End {
                r is Moved
            } else {
                match gathered(ast.skip(next)) {
                    Gathered::Done(_, _) => r is Row,
                    _ => r is Waiting,
                }
            },
            SelectPhase::Fin => r is Finished,
        }
    }
}

fn results_for_row(header: &Vec<Value>, row: &Vec<Value>, exprs: &[Expr]) -> (r: Vec<Value>)
    ensures
        data_of(r@) == row_results(data_of(header@), data_of(row@), exprs@),
{
    let mut out: Vec<Value> = Vec::new();
    let mut i: usize = 0;
    while i < exprs.len()
        invariant
            0 <= i <= exprs.len(),
            data_of(out@) == row_results(data_of(header@), data_of(row@), exprs@).take(i as int),
        decreases exprs.len() - i,
    {
        let v = select_from_row(header, row, &exprs[i]);
        proof {
            crate::bwine::lemma_data_of_push(out@, v);
            assert(row_results(data_of(header@), data_of(row@), exprs@).take(i + 1) =~= row_results(
                data_of(header@),
                data_of(row@),
                exprs@,
            ).take(i as int).push(datum_of(v)));
        }
        out.push(v);
        i += 1;
    }
    proof {
        assert(row_results(data_of(header@), data_of(row@), exprs@).take(i as int) =~= row_results(
            data_of(header@),
            data_of(row@),
            exprs@,
        ));
    }
    out
}

fn results_for_item(item: &Value, exprs: &[Expr]) -> (r: Vec<Value>)
    ensures
        data_of(r@) == item_results(datum_of(*item), exprs@),
{
    let mut out: Vec<Value> = Vec::new();
    let mut i: usize = 0;
    while i < exprs.len()
        invariant
            0 <= i <= exprs.len(),
            data_of(out@) == item_results(datum_of(*item), exprs@).take(i as int),
        decreases exprs.len() - i,
    {
        let v = match nav(item, exprs[i].segments.as_slice()) {
            Some(v) => v,
            None => Value::Null,
        };
        proof {
            crate::bwine::lemma_data_of_push(out@, v);
            assert(item_results(datum_of(*item), exprs@).take(i + 1) =~= item_results(
                datum_of(*item),
                exprs@,
            ).take(i as int).push(datum_of(v)));
        }
        out.push(v);
        i += 1;
    }
    proof {
        assert(item_results(datum_of(*item), exprs@).take(i as int) =~= item_results(
            datum_of(*item),
            exprs@,
        ));
    }
    out
}

/// A step from state `s0` to `s1` over the tokens `ast` with the paths
/// `exprs`, that asked for `r`, is the one that [`select_next`] describes.
pub open spec fn select_stepped(
    s0: SelectState,
    s1: SelectState,
    ast: Seq<Token>,
    exprs: Seq<Expr>,
    r: SelectStep,
) -> bool {
    let (phase, header, next, results, consumed, moved) = select_next(
        s0.phase,
        data_of(s0.header@),
        s0.next as int,
        ast,
        exprs,
    );
    &&& s1.phase == phase
    &&& data_of(s1.header@) == header
    &&& s1.next == next
    &&& select_request(s0.phase, s0.next as int, ast, r)
    &&& (r matches SelectStep::Row { values, consumed: c } ==> results == Some(data_of(values@))
        && consumed == Some(c as int))
}

/// Takes one step of the select tool over the tokens that have arrived,
/// with the paths to select.
pub fn select_step(st: &mut SelectState, ast: &[Token], exprs: &[Expr]) -> (r: SelectStep)
    requires
        !select_step_panics(old(st).phase, old(st).next as int, ast@),
        ast@.len() < usize::MAX,
    ensures
        select_stepped(*old(st), *final(st), ast@, exprs@, r),
{
    if st.phase == SelectPhase::Fin {
        return SelectStep::Finished;
    }
    let next = st.next;
    if next >= ast.len() {
        return SelectStep::Waiting;
    }
    proof {
        lemma_gathered_len(ast@.skip(next as int));
    }
    match st.phase {
        SelectPhase::Init => match &ast[next] {
            Token::Table => {
                st.phase = SelectPhase::TableHeader;
                st.next = next + 1;
                SelectStep::Moved
            },
            Token::Array(_) => {
                st.phase = SelectPhase::ArrayItem;
                st.next = next + 1;
                SelectStep::Moved
            },
            _ => SelectStep::Unexpected { at: next },
        },
        SelectPhase::TableHeader => {
            if let Token::Array(_) = &ast[next] {
                match gather_at(ast, next) {
                    Some((ns, Value::Array(items))) => {
                        st.header = items;
                        st.next = next + ns;
                        st.phase = SelectPhase::TableRowsOpen;
                        SelectStep::Moved
                    },
                    Some(_) => SelectStep::Malformed,
                    None => SelectStep::Waiting,
                }
            } else {
                SelectStep::Unexpected { at: next }
            }
        },
        SelectPhase::TableRowsOpen => {
            if let Token::Array(_) = &ast[next] {
                st.next = next + 1;
                st.phase = SelectPhase::TableRow;
                SelectStep::Moved
            } else {
                SelectStep::Unexpected { at: next }
            }
        },
        SelectPhase::TableRow => {
            if let Token::End = &ast[next] {
                st.next = next + 1;
                st.phase = SelectPhase::Fin;
                return SelectStep::Moved;
            }
            if let Token::Array(_) = &ast[next] {
                match gather_at(ast, next) {
                    Some((ns, Value::Array(row))) => {
                        let values = results_for_row(&st.header, &row, exprs);
                        st.next = 0;
                        SelectStep::Row { values, consumed: next + ns }
                    },
                    Some(_) => SelectStep::Malformed,
                    None => SelectStep::Waiting,
                }
            } else {
                SelectStep::Unexpected { at: next }
            }
        },
        SelectPhase::ArrayItem => {
            if let Token::End = &ast[next] {
                st.next = next + 1;
                st.phase = SelectPhase::Fin;
                return SelectStep::Moved;
            }
            match gather_at(ast, next) {
                Some((ns, item)) => {
                    let values = results_for_item(&item, exprs);
                    st.next = 0;
                    SelectStep::Row { values, consumed: next + ns }
                },
                None => SelectStep::Waiting,
            }
        },
        SelectPhase::Fin => SelectStep::Finished,
    }
}

/// Takes one step of the select tool as [`select_step`] does, unless the
/// value at the next token holds a map or table rows that are not arrays,
/// on which the tool stops the program: then nothing changes and the result
/// is `None`.
pub fn try_select_step(st: &mut SelectState, ast: &[Token], exprs: &[Expr]) -> (r: Option<SelectStep>)
    requires
        ast@.len() < usize::MAX,
    ensures
        r is None <==> select_step_panics(old(st).phase, old(st).next as int, ast@),
        r is None ==> final(st).phase == old(st).phase && final(st).next == old(st).next
            && final(st).header@ == old(st).header@,
        r matches Some(step) ==> select_stepped(*old(st), *final(st), ast@, exprs@, step),
{
    let next = st.next;
    let panics = if next < ast.len() {
        let kind_fits = match st.phase {
            SelectPhase::TableHeader | SelectPhase::TableRow => match &ast[next] {
                Token::Array(_) => true,
                _ => false,
            },
            SelectPhase::ArrayItem => match &ast[next] {
                Token::End => false,
                _ => true,
            },
            _ => false,
        };
        kind_fits && is_unsupported(ast, next)
    } else {
        false
    };
    if panics {
        None
    } else {
        Some(select_step(st, ast, exprs))
    }
}

} // verus!
