//! Brandywine, the structured data that tools write next to their text: the
//! token stream that a reader of the wire format produces, how a complete
//! value is gathered from it, and the reader's stack of expectations.
use vstd::prelude::*;
use crate::pieces::same_chars;
use crate::unicode::{chars_of, string_of};

verus! {

/// The tag of a table: a header array followed by an array of rows.
pub const TABLE_TAG: u64 = 0x1FA772010;

/// The tag of a file system path, held as bytes.
pub const PATH_TAG: u64 = 0x1FA772011;

/// The tag of a timestamp in milliseconds.
pub const TIMESTAMP_TAG: u64 = 0x01;

/// One token of the stream: a scalar, the opening of a compound value, a
/// piece of a string, or the end of a compound value or string.
#[derive(Debug)]
pub enum Token {
    Int(i128),
    Path,
    Bytes,
    BytesPart(Vec<u8>),
    Text,
    TextPart(String),
    Array(Option<u64>),
    /// A map of pairs
    Dict(Option<u64>),
    Tag(u64),
    /// A float, by its bit pattern
    Float(u64),
    Bool(bool),
    Null,
    Undefined,
    Simple(u8),
    Table,
    Timestamp,
    End,
}

/// A structured value.
#[derive(Debug)]
pub enum Value {
    /// A path, by its bytes
    Path(Vec<u8>),
    Int(i128),
    Bytes(Vec<u8>),
    Text(String),
    Array(Vec<Value>),
    /// Ordered pairs
    Dict(Vec<(Value, Value)>),
    /// A semantic annotation on one item
    Tag(u64, Box<Value>),
    /// A float, by its bit pattern
    Float(u64),
    Bool(bool),
    Null,
    Undefined,
    Simple(u8),
    Table { header: Vec<Value>, rows: Vec<Vec<Value>> },
    /// Milliseconds since the epoch
    Timestamp(i64),
}

/// The mathematical form of a [`Value`].
pub enum Datum {
    Path(Seq<u8>),
    Int(i128),
    Bytes(Seq<u8>),
    Text(Seq<char>),
    Array(Seq<Datum>),
    Dict(Seq<(Datum, Datum)>),
    Tag(u64, Box<Datum>),
    Float(u64),
    Bool(bool),
    Null,
    Undefined,
    Simple(u8),
    Table { header: Seq<Datum>, rows: Seq<Seq<Datum>> },
    Timestamp(i64),
}

/// The datum that a value stands for.
pub open spec fn datum_of(v: Value) -> Datum
    decreases v,
{
    match v {
        Value::Path(p) => Datum::Path(p@),
        Value::Int(i) => Datum::Int(i),
        Value::Bytes(b) => Datum::Bytes(b@),
        Value::Text(t) => Datum::Text(t@),
        Value::Array(items) => Datum::Array(data_of(items@)),
        Value::Dict(pairs) => Datum::Dict(pairs_of(pairs@)),
        Value::Tag(t, inner) => Datum::Tag(t, Box::new(datum_of(*inner))),
        Value::Float(f) => Datum::Float(f),
        Value::Bool(b) => Datum::Bool(b),
        Value::Null => Datum::Null,
        Value::Undefined => Datum::Undefined,
        Value::Simple(s) => Datum::Simple(s),
        Value::Table { header, rows } => Datum::Table {
            header: data_of(header@),
            rows: rows_of(rows@),
        },
        Value::Timestamp(t) => Datum::Timestamp(t),
    }
}

/// The data that a sequence of values stands for.
pub open spec fn data_of(s: Seq<Value>) -> Seq<Datum>
    decreases s,
{
    if s.len() == 0 {
        Seq::empty()
    } else {
        data_of(s.drop_last()).push(datum_of(s.last()))
    }
}

/// The pairs of data that a sequence of pairs of values stands for.
pub open spec fn pairs_of(s: Seq<(Value, Value)>) -> Seq<(Datum, Datum)>
    decreases s,
{
    if s.len() == 0 {
        Seq::empty()
    } else {
        pairs_of(s.drop_last()).push((datum_of(s.last().0), datum_of(s.last().1)))
    }
}

/// The rows of data that a sequence of rows of values stands for.
pub open spec fn rows_of(s: Seq<Vec<Value>>) -> Seq<Seq<Datum>>
    decreases s,
{
    if s.len() == 0 {
        Seq::empty()
    } else {
        rows_of(s.drop_last()).push(data_of(s.last()@))
    }
}

/// What gathering a value from the start of a token stream gives.
pub enum Gathered<T> {
    /// The stream ends before the value does, or does not hold one there
    Incomplete,
    /// The value took this many tokens
    Done(int, T),
    /// The value holds a map, or table rows that are not arrays, which are
    /// not supported
    Unsupported,
}

/// The text pieces before the closing `End`: how many, and their text
/// joined, or `None` if the stream ends first or holds another token.
pub open spec fn text_parts(s: Seq<Token>) -> Option<(int, Seq<char>)>
    decreases s.len(),
{
    if s.len() == 0 {
        None
    } else {
        match s[0] {
            Token::End => Some((0, Seq::empty())),
            Token::TextPart(p) => match text_parts(s.drop_first()) {
                Some((n, t)) => Some((n + 1, p@ + t)),
                None => None,
            },
            _ => None,
        }
    }
}

/// The byte pieces before the closing `End`, as [`text_parts`] does for
/// text.
pub open spec fn byte_parts(s: Seq<Token>) -> Option<(int, Seq<u8>)>
    decreases s.len(),
{
    if s.len() == 0 {
        None
    } else {
        match s[0] {
            Token::End => Some((0, Seq::empty())),
            Token::BytesPart(p) => match byte_parts(s.drop_first()) {
                Some((n, t)) => Some((n + 1, p@ + t)),
                None => None,
            },
            _ => None,
        }
    }
}

/// The value at the start of a token stream.
pub open spec fn gathered(s: Seq<Token>) -> Gathered<Datum>
    decreases s.len(), 1int,
{
    if s.len() == 0 {
        Gathered::Incomplete
    } else {
        match s[0] {
            Token::Int(i) => Gathered::Done(1, Datum::Int(i)),
            Token::Float(f) => Gathered::Done(1, Datum::Float(f)),
            Token::Bool(b) => Gathered::Done(1, Datum::Bool(b)),
            Token::Simple(x) => Gathered::Done(1, Datum::Simple(x)),
            Token::Null => Gathered::Done(1, Datum::Null),
            Token::Undefined => Gathered::Done(1, Datum::Undefined),
            Token::End => Gathered::Incomplete,
            Token::TextPart(_) => Gathered::Incomplete,
            Token::BytesPart(_) => Gathered::Incomplete,
            Token::Text => match text_parts(s.drop_first()) {
                Some((n, t)) => Gathered::Done(n + 2, Datum::Text(t)),
                None => Gathered::Incomplete,
            },
            Token::Path => match byte_parts(s.drop_first()) {
                Some((n, b)) => Gathered::Done(n + 2, Datum::Path(b)),
                None => Gathered::Incomplete,
            },
            Token::Bytes => match byte_parts(s.drop_first()) {
                Some((n, b)) => Gathered::Done(n + 2, Datum::Bytes(b)),
                None => Gathered::Incomplete,
            },
            Token::Array(_) => match gathered_items(s.drop_first()) {
                Gathered::Done(n, xs) => Gathered::Done(n + 2, Datum::Array(xs)),
                Gathered::Incomplete => Gathered::Incomplete,
                Gathered::Unsupported => Gathered::Unsupported,
            },
            Token::Dict(_) => Gathered::Unsupported,
            Token::Tag(t) => match gathered(s.drop_first()) {
                Gathered::Done(n, x) => Gathered::Done(n + 1, Datum::Tag(t, Box::new(x))),
                Gathered::Incomplete => Gathered::Incomplete,
                Gathered::Unsupported => Gathered::Unsupported,
            },
            Token::Table => match gathered(s.drop_first()) {
                Gathered::Done(n1, Datum::Array(header)) => if 0 <= n1 && n1 + 1 <= s.len() {
                    match gathered(s.skip(n1 + 1)) {
                        Gathered::Done(n2, Datum::Array(rows)) => if all_arrays(rows) {
                            Gathered::Done(n1 + n2 + 1, Datum::Table { header, rows: row_items(rows) })
                        } else {
                            Gathered::Unsupported
                        },
                        Gathered::Done(_, _) => Gathered::Incomplete,
                        Gathered::Incomplete => Gathered::Incomplete,
                        Gathered::Unsupported => Gathered::Unsupported,
                    }
                } else {
                    Gathered::Incomplete
                },
                Gathered::Done(_, _) => Gathered::Incomplete,
                Gathered::Incomplete => Gathered::Incomplete,
                Gathered::Unsupported => Gathered::Unsupported,
            },
            Token::Timestamp => match gathered(s.drop_first()) {
                Gathered::Done(n, Datum::Int(ts)) => Gathered::Done(n + 1, Datum::Timestamp(ts as i64)),
                Gathered::Done(_, _) => Gathered::Incomplete,
                Gathered::Incomplete => Gathered::Incomplete,
                Gathered::Unsupported => Gathered::Unsupported,
            },
        }
    }
}

/// The items of an array, up to its closing `End` (not counted).
pub open spec fn gathered_items(s: Seq<Token>) -> Gathered<Seq<Datum>>
    decreases s.len(), 2int,
{
    if s.len() == 0 {
        Gathered::Incomplete
    } else if s[0] is End {
        Gathered::Done(0, Seq::empty())
    } else {
        match gathered(s) {
            Gathered::Done(n, x) => if 1 <= n <= s.len() {
                match gathered_items(s.skip(n)) {
                    Gathered::Done(m, xs) => Gathered::Done(n + m, seq![x] + xs),
                    Gathered::Incomplete => Gathered::Incomplete,
                    Gathered::Unsupported => Gathered::Unsupported,
                }
            } else {
                Gathered::Incomplete
            },
            Gathered::Incomplete => Gathered::Incomplete,
            Gathered::Unsupported => Gathered::Unsupported,
        }
    }
}

/// Every datum is an array.
pub open spec fn all_arrays(s: Seq<Datum>) -> bool {
    forall|i: int| 0 <= i < s.len() ==> #[trigger] s[i] is Array
}

/// The items of each array of a sequence of arrays.
pub open spec fn row_items(s: Seq<Datum>) -> Seq<Seq<Datum>> {
    s.map_values(|d: Datum| match d {
        Datum::Array(items) => items,
        _ => Seq::empty(),
    })
}

proof fn lemma_text_parts_len(s: Seq<Token>)
    ensures
        text_parts(s) matches Some((n, _)) ==> 0 <= n < s.len() && s[n] is End,
    decreases s.len(),
{
    if s.len() > 0 {
        lemma_text_parts_len(s.drop_first());
    }
}

proof fn lemma_byte_parts_len(s: Seq<Token>)
    ensures
        byte_parts(s) matches Some((n, _)) ==> 0 <= n < s.len() && s[n] is End,
    decreases s.len(),
{
    if s.len() > 0 {
        lemma_byte_parts_len(s.drop_first());
    }
}

/// A gathered value takes at least one token and at most the whole stream.
pub proof fn lemma_gathered_len(s: Seq<Token>)
    ensures
        gathered(s) matches Gathered::Done(n, _) ==> 1 <= n <= s.len(),
    decreases s.len(), 1int,
{
    if s.len() > 0 {
        lemma_text_parts_len(s.drop_first());
        lemma_byte_parts_len(s.drop_first());
        lemma_gathered_len(s.drop_first());
        lemma_items_len(s.drop_first());
        match gathered(s.drop_first()) {
            Gathered::Done(n1, _) => {
                if 0 <= n1 && n1 + 1 <= s.len() {
                    lemma_gathered_len(s.skip(n1 + 1));
                }
            },
            _ => {},
        }
    }
}

proof fn lemma_items_len(s: Seq<Token>)
    ensures
        gathered_items(s) matches Gathered::Done(m, _) ==> 0 <= m < s.len(),
    decreases s.len(), 2int,
{
    if s.len() > 0 && !(s[0] is End) {
        lemma_gathered_len(s);
        match gathered(s) {
            Gathered::Done(n, _) => {
                if 1 <= n <= s.len() {
                    lemma_items_len(s.skip(n));
                }
            },
            _ => {},
        }
    }
}

/// The data of a sequence of values are the data of its items, one by one.
pub proof fn lemma_data_of_index(s: Seq<Value>)
    ensures
        data_of(s).len() == s.len(),
        forall|i: int| 0 <= i < s.len() ==> #[trigger] data_of(s)[i] == datum_of(s[i]),
    decreases s.len(),
{
    if s.len() > 0 {
        lemma_data_of_index(s.drop_last());
    }
}

/// Pushing a value pushes its datum.
pub proof fn lemma_data_of_push(s: Seq<Value>, v: Value)
    ensures
        data_of(s.push(v)) == data_of(s).push(datum_of(v)),
{
    assert(s.push(v).drop_last() =~= s);
}

/// Pushing a pair pushes its data.
pub proof fn lemma_pairs_of_push(s: Seq<(Value, Value)>, kv: (Value, Value))
    ensures
        pairs_of(s.push(kv)) == pairs_of(s).push((datum_of(kv.0), datum_of(kv.1))),
{
    assert(s.push(kv).drop_last() =~= s);
}

/// Pushing a row pushes its data.
pub proof fn lemma_rows_of_push(s: Seq<Vec<Value>>, v: Vec<Value>)
    ensures
        rows_of(s.push(v)) == rows_of(s).push(data_of(v@)),
{
    assert(s.push(v).drop_last() =~= s);
}

/// Gathers the text pieces of a string that opened just before `start`.
fn text_at(ast: &[Token], start: usize) -> (r: Option<(usize, String)>)
    requires
        start <= ast.len(),
    ensures
        match text_parts(ast@.skip(start as int)) {
            Some((n, t)) => r matches Some((m, x)) && m == n && x@ == t,
            None => r is None,
        },
{
    let mut acc: Vec<char> = Vec::new();
    let mut i: usize = start;
    loop
        invariant
            start <= i <= ast.len(),
            text_parts(ast@.skip(start as int)) == match text_parts(ast@.skip(i as int)) {
                Some((n, t)) => Some((n + (i - start), acc@ + t)),
                None => None,
            },
        decreases ast.len() - i,
    {
        if i >= ast.len() {
            return None;
        }
        proof {
            assert(ast@.skip(i as int)[0] == ast@[i as int]);
            assert(ast@.skip(i as int).drop_first() =~= ast@.skip(i + 1));
        }
        match &ast[i] {
            Token::End => {
                proof {
                    assert(acc@ + Seq::<char>::empty() =~= acc@);
                }
                return Some((i - start, string_of(acc.as_slice())));
            },
            Token::TextPart(p) => {
                let cs = chars_of(p.as_str());
                let ghost before = acc@;
                let mut j: usize = 0;
                while j < cs.len()
                    invariant
                        0 <= j <= cs.len(),
                        acc@ == before + cs@.take(j as int),
                    decreases cs.len() - j,
                {
                    acc.push(cs[j]);
                    proof {
                        assert(cs@.take(j + 1) == cs@.take(j as int).push(cs@[j as int]));
                    }
                    j += 1;
                }
                proof {
                    assert(cs@.take(cs@.len() as int) == cs@);
                    match text_parts(ast@.skip(i + 1)) {
                        Some((n, t)) => {
                            assert(before + (p@ + t) =~= acc@ + t);
                        },
                        None => {},
                    }
                }
                i += 1;
            },
            _ => {
                return None;
            },
        }
    }
}

/// Gathers the byte pieces of a byte string or path that opened just
/// before `start`.
fn bytes_at(ast: &[Token], start: usize) -> (r: Option<(usize, Vec<u8>)>)
    requires
        start <= ast.len(),
    ensures
        match byte_parts(ast@.skip(start as int)) {
            Some((n, b)) => r matches Some((m, x)) && m == n && x@ == b,
            None => r is None,
        },
{
    let mut acc: Vec<u8> = Vec::new();
    let mut i: usize = start;
    loop
        invariant
            start <= i <= ast.len(),
            byte_parts(ast@.skip(start as int)) == match byte_parts(ast@.skip(i as int)) {
                Some((n, b)) => Some((n + (i - start), acc@ + b)),
                None => None,
            },
        decreases ast.len() - i,
    {
        if i >= ast.len() {
            return None;
        }
        proof {
            assert(ast@.skip(i as int)[0] == ast@[i as int]);
            assert(ast@.skip(i as int).drop_first() =~= ast@.skip(i + 1));
        }
        match &ast[i] {
            Token::End => {
                proof {
                    assert(acc@ + Seq::<u8>::empty() =~= acc@);
                }
                return Some((i - start, acc));
            },
            Token::BytesPart(p) => {
                let ghost before = acc@;
                let mut j: usize = 0;
                while j < p.len()
                    invariant
                        0 <= j <= p.len(),
                        acc@ == before + p@.take(j as int),
                    decreases p.len() - j,
                {
                    acc.push(p[j]);
                    proof {
                        assert(p@.take(j + 1) == p@.take(j as int).push(p@[j as int]));
                    }
                    j += 1;
                }
                proof {
                    assert(p@.take(p@.len() as int) == p@);
                    match byte_parts(ast@.skip(i + 1)) {
                        Some((n, b)) => {
                            assert(before + (p@ + b) =~= acc@ + b);
                        },
                        None => {},
                    }
                }
                i += 1;
            },
            _ => {
                return None;
            },
        }
    }
}

/// What a gathering that gave `r` states of the value at the start of `s`.
pub open spec fn gathered_as(s: Seq<Token>, r: Option<(usize, Value)>) -> bool {
    match gathered(s) {
        Gathered::Done(n, d) => r matches Some((m, v)) && m == n && datum_of(v) == d,
        Gathered::Incomplete => r is None,
        Gathered::Unsupported => true,
    }
}

/// Gathers the value whose first token is at `start`: how many tokens it
/// took and the value, as [`Token::collect`] does for a stream that starts
/// there.
pub fn gather_at(ast: &[Token], start: usize) -> (r: Option<(usize, Value)>)
    requires
        start <= ast.len(),
        !(gathered(ast@.skip(start as int)) is Unsupported),
    ensures
        gathered_as(ast@.skip(start as int), r),
    decreases ast.len() - start,
{
    let ghost s = ast@.skip(start as int);
    if start >= ast.len() {
        return None;
    }
    proof {
        assert(s[0] == ast@[start as int]);
        assert(s.drop_first() =~= ast@.skip(start + 1));
        lemma_gathered_len(ast@.skip(start + 1));
    }
    match &ast[start] {
        Token::Int(i) => Some((1, Value::Int(*i))),
        Token::Float(f) => Some((1, Value::Float(*f))),
        Token::Bool(b) => Some((1, Value::Bool(*b))),
        Token::Simple(x) => Some((1, Value::Simple(*x))),
        Token::Null => Some((1, Value::Null)),
        Token::Undefined => Some((1, Value::Undefined)),
        Token::End => None,
        Token::TextPart(_) => None,
        Token::BytesPart(_) => None,
        Token::Dict(_) => None,
        Token::Text => {
            proof {
                lemma_text_parts_len(ast@.skip(start + 1));
            }
            match text_at(ast, start + 1) {
                Some((n, t)) => Some((n + 2, Value::Text(t))),
                None => None,
            }
        },
        Token::Path => {
            proof {
                lemma_byte_parts_len(ast@.skip(start + 1));
            }
            match bytes_at(ast, start + 1) {
                Some((n, b)) => Some((n + 2, Value::Path(b))),
                None => None,
            }
        },
        Token::Bytes => {
            proof {
                lemma_byte_parts_len(ast@.skip(start + 1));
            }
            match bytes_at(ast, start + 1) {
                Some((n, b)) => Some((n + 2, Value::Bytes(b))),
                None => None,
            }
        },
        Token::Tag(t) => {
            match gather_at(ast, start + 1) {
                Some((n, it)) => Some((n + 1, Value::Tag(*t, Box::new(it)))),
                None => None,
            }
        },
        Token::Timestamp => {
            match gather_at(ast, start + 1) {
                Some((n, Value::Int(ts))) => Some((n + 1, Value::Timestamp(ts as i64))),
                Some(_) => None,
                None => None,
            }
        },
        Token::Array(_) => gather_array(ast, start),
        Token::Table => gather_table(ast, start),
    }
}

/// Gathers an array whose opening token is at `start`.
fn gather_array(ast: &[Token], start: usize) -> (r: Option<(usize, Value)>)
    requires
        start < ast.len(),
        ast@[start as int] is Array,
        !(gathered(ast@.skip(start as int)) is Unsupported),
    ensures
        gathered_as(ast@.skip(start as int), r),
    decreases ast.len() - start, 0int,
{
    let ghost s = ast@.skip(start as int);
    proof {
        assert(s[0] == ast@[start as int]);
        assert(s.drop_first() =~= ast@.skip(start + 1));
        assert(data_of(Seq::<Value>::empty()) + Seq::<Datum>::empty() =~= Seq::<Datum>::empty());
    }
    let mut v: Vec<Value> = Vec::new();
    let mut i: usize = start + 1;
    loop
        invariant
            start < i <= ast.len(),
            s == ast@.skip(start as int),
            s.len() > 0,
            s[0] is Array,
            s.drop_first() == ast@.skip(start + 1),
            !(gathered(s) is Unsupported),
            gathered_items(ast@.skip(start + 1)) == match gathered_items(ast@.skip(i as int)) {
                Gathered::Done(m, xs) => Gathered::Done(m + (i - start - 1), data_of(v@) + xs),
                Gathered::Incomplete => Gathered::Incomplete,
                Gathered::Unsupported => Gathered::Unsupported,
            },
        decreases ast.len() - i,
    {
        if i >= ast.len() {
            return None;
        }
        let ghost t = ast@.skip(i as int);
        proof {
            assert(t[0] == ast@[i as int]);
        }
        if let Token::End = &ast[i] {
            proof {
                assert(data_of(v@) + Seq::<Datum>::empty() =~= data_of(v@));
            }
            return Some((i + 1 - start, Value::Array(v)));
        }
        proof {
            lemma_gathered_len(t);
            assert(!(t[0] is End));
            assert(gathered(t) is Unsupported ==> gathered_items(t) is Unsupported);
        }
        match gather_at(ast, i) {
            None => {
                return None;
            },
            Some((n, it)) => {
                proof {
                    assert(t.skip(n as int) =~= ast@.skip(i + n));
                    lemma_data_of_push(v@, it);
                    match gathered_items(ast@.skip(i + n)) {
                        Gathered::Done(m, xs) => {
                            assert(data_of(v@) + (seq![datum_of(it)] + xs) =~= data_of(v@).push(
                                datum_of(it),
                            ) + xs);
                        },
                        _ => {},
                    }
                }
                v.push(it);
                i = i + n;
            },
        }
    }
}

/// Gathers a table whose opening token is at `start`: its header array and
/// its array of rows.
fn gather_table(ast: &[Token], start: usize) -> (r: Option<(usize, Value)>)
    requires
        start < ast.len(),
        ast@[start as int] is Table,
        !(gathered(ast@.skip(start as int)) is Unsupported),
    ensures
        gathered_as(ast@.skip(start as int), r),
    decreases ast.len() - start, 0int,
{
    let ghost s = ast@.skip(start as int);
    proof {
        assert(s[0] == ast@[start as int]);
        assert(s.drop_first() =~= ast@.skip(start + 1));
        lemma_gathered_len(ast@.skip(start + 1));
    }
    let (n1, he) = match gather_at(ast, start + 1) {
        Some((n1, Value::Array(he))) => (n1, he),
        _ => {
            return None;
        },
    };
    proof {
        assert(s.skip(n1 + 1) =~= ast@.skip(start + 1 + n1));
        lemma_gathered_len(ast@.skip(start + 1 + n1));
    }
    let (n2, mut rw) = match gather_at(ast, start + 1 + n1) {
        Some((n2, Value::Array(rw))) => (n2, rw),
        _ => {
            return None;
        },
    };
    let ghost all = rw@;
    let total = rw.len();
    proof {
        lemma_data_of_index(all);
    }
    let mut rows: Vec<Vec<Value>> = Vec::new();
    let mut k: usize = 0;
    while rw.len() > 0
        invariant
            all_arrays(data_of(all)),
            data_of(all).len() == all.len(),
            forall|i: int| 0 <= i < all.len() ==> #[trigger] data_of(all)[i] == datum_of(all[i]),
            k + rw@.len() == all.len(),
            all.len() == total,
            rw@ == all.skip(k as int),
            rows_of(rows@) == row_items(data_of(all)).take(k as int),
        decreases rw.len(),
    {
        let item = rw.remove(0);
        proof {
            assert(item == all[k as int]);
            assert(data_of(all)[k as int] is Array);
            assert(rw@ =~= all.skip(k + 1));
        }
        match item {
            Value::Array(row) => {
                proof {
                    lemma_rows_of_push(rows@, row);
                    assert(row_items(data_of(all)).take(k + 1) =~= row_items(data_of(all)).take(
                        k as int,
                    ).push(data_of(row@)));
                }
                rows.push(row);
            },
            _ => {
                return None;
            },
        }
        k = k + 1;
    }
    proof {
        assert(row_items(data_of(all)).take(k as int) =~= row_items(data_of(all)));
    }
    Some((n1 + n2 + 1, Value::Table { header: he, rows }))
}

impl Token {
    /// Gathers the value that the stream starts with: how many tokens it
    /// took and the value; `None` while the stream does not hold all of it,
    /// or holds something else where it should be. Maps, and table rows that
    /// are not arrays, are not supported.
    pub fn collect(ast: &[Token]) -> (r: Option<(usize, Value)>)
        requires
            !(gathered(ast@) is Unsupported),
        ensures
            gathered_as(ast@, r),
    {
        proof {
            assert(ast@.skip(0) =~= ast@);
        }
        gather_at(ast, 0)
    }
}

/// Whether every value of a sequence is an array.
fn all_array_values(rows: &Vec<Value>) -> (b: bool)
    ensures
        b == all_arrays(data_of(rows@)),
{
    proof {
        lemma_data_of_index(rows@);
    }
    let mut k: usize = 0;
    while k < rows.len()
        invariant
            0 <= k <= rows.len(),
            data_of(rows@).len() == rows@.len(),
            forall|j: int| 0 <= j < rows@.len() ==> #[trigger] data_of(rows@)[j] == datum_of(rows@[j]),
            forall|j: int| 0 <= j < k ==> #[trigger] data_of(rows@)[j] is Array,
        decreases rows.len() - k,
    {
        match &rows[k] {
            Value::Array(_) => {},
            _ => {
                proof {
                    assert(!(data_of(rows@)[k as int] is Array));
                }
                return false;
            },
        }
        k += 1;
    }
    true
}

/// Whether the value whose first token is at `start` holds a map, or table
/// rows that are not arrays, which gathering does not support.
pub fn is_unsupported(ast: &[Token], start: usize) -> (b: bool)
    requires
        start <= ast.len(),
    ensures
        b == (gathered(ast@.skip(start as int)) is Unsupported),
    decreases ast.len() - start,
{
    let ghost s = ast@.skip(start as int);
    if start >= ast.len() {
        return false;
    }
    proof {
        assert(s[0] == ast@[start as int]);
        assert(s.drop_first() =~= ast@.skip(start + 1));
        lemma_gathered_len(ast@.skip(start + 1));
    }
    match &ast[start] {
        Token::Dict(_) => true,
        Token::Tag(_) => is_unsupported(ast, start + 1),
        Token::Timestamp => is_unsupported(ast, start + 1),
        Token::Array(_) => {
            let mut i: usize = start + 1;
            loop
                invariant
                    start < i <= ast.len(),
                    s == ast@.skip(start as int),
                    s.len() > 0,
                    s[0] is Array,
                    s.drop_first() == ast@.skip(start + 1),
                    (gathered_items(ast@.skip(start + 1)) is Unsupported) == (gathered_items(
                        ast@.skip(i as int),
                    ) is Unsupported),
                decreases ast.len() - i,
            {
                if i >= ast.len() {
                    return false;
                }
                let ghost t = ast@.skip(i as int);
                proof {
                    assert(t[0] == ast@[i as int]);
                    lemma_gathered_len(t);
                }
                if let Token::End = &ast[i] {
                    return false;
                }
                if is_unsupported(ast, i) {
                    return true;
                }
                match gather_at(ast, i) {
                    None => {
                        return false;
                    },
                    Some((n, _)) => {
                        proof {
                            assert(t.skip(n as int) =~= ast@.skip(i + n));
                        }
                        i = i + n;
                    },
                }
            }
        },
        Token::Table => {
            if is_unsupported(ast, start + 1) {
                return true;
            }
            match gather_at(ast, start + 1) {
                Some((n1, Value::Array(_))) => {
                    proof {
                        assert(s.skip(n1 + 1) =~= ast@.skip(start + 1 + n1));
                        lemma_gathered_len(ast@.skip(start + 1 + n1));
                    }
                    if is_unsupported(ast, start + 1 + n1) {
                        return true;
                    }
                    match gather_at(ast, start + 1 + n1) {
                        Some((n2, Value::Array(rows))) => {
                            proof {
                                assert(gathered(s.skip(n1 + 1)) == Gathered::Done(
                                    n2 as int,
                                    Datum::Array(data_of(rows@)),
                                ));
                            }
                            !all_array_values(&rows)
                        },
                        _ => false,
                    }
                },
                _ => false,
            }
        },
        _ => false,
    }
}

impl Token {
    /// Gathers the value that the stream starts with, as [`Token::collect`]
    /// does; `None` where the value holds a map, or table rows that are not
    /// arrays, on which gathering stops the program.
    pub fn try_collect(ast: &[Token]) -> (r: Option<Option<(usize, Value)>>)
        ensures
            r is None <==> gathered(ast@) is Unsupported,
            r matches Some(c) ==> gathered_as(ast@, c),
    {
        proof {
            assert(ast@.skip(0) =~= ast@);
        }
        if is_unsupported(ast, 0) {
            None
        } else {
            Some(Token::collect(ast))
        }
    }
}

/// What the reader of the wire format expects next, at one level of
/// nesting; the numbers are the position in the token stream where the
/// compound value began, and how many items or bytes are left, if known.
#[derive(Debug, Copy, Clone, PartialEq, Eq, Structural)]
pub enum Expecting {
    Something,
    Dict(usize, Option<u64>),
    Array(usize, Option<u64>),
    TimestampValue,
    TableHeader,
    TableRows,
    TableRow(usize),
    String(usize, Option<u64>),
    Bytes(usize, Option<u64>),
}

/// A reader that turns the wire format into tokens piece by piece: its
/// stack of expectations, innermost last; it is done when the stack is
/// empty.
pub struct StreamingReader {
    pub stack: Vec<Expecting>,
}

impl StreamingReader {
    /// A reader that expects one value.
    pub fn new() -> (r: StreamingReader)
        ensures
            r.stack@ == seq![Expecting::Something],
    {
        StreamingReader { stack: vec![Expecting::Something] }
    }

    /// Whether the value has been read completely.
    pub fn is_done(&self) -> (b: bool)
        ensures
            b == (self.stack@.len() == 0),
    {
        self.stack.len() == 0
    }
}

fn copy_bytes(b: &Vec<u8>) -> (r: Vec<u8>)
    ensures
        r@ == b@,
{
    let r = b.clone();
    proof {
        assert(r@ =~= b@);
    }
    r
}

/// Copies a sequence of values, item by item.
pub fn duplicate_values(items: &Vec<Value>) -> (r: Vec<Value>)
    ensures
        data_of(r@) == data_of(items@),
    decreases items, 0int,
{
    let mut out: Vec<Value> = Vec::new();
    let mut i: usize = 0;
    proof {
        assert(items@.take(0) =~= Seq::<Value>::empty());
    }
    while i < items.len()
        invariant
            0 <= i <= items.len(),
            data_of(out@) == data_of(items@.take(i as int)),
        decreases items.len() - i,
    {
        proof {
            assert(decreases_to!(items => items@[i as int]));
        }
        let d = items[i].duplicate();
        proof {
            lemma_data_of_push(out@, d);
            lemma_data_of_push(items@.take(i as int), items@[i as int]);
            assert(items@.take(i + 1) =~= items@.take(i as int).push(items@[i as int]));
        }
        out.push(d);
        i += 1;
    }
    proof {
        assert(items@.take(i as int) =~= items@);
    }
    out
}

fn duplicate_pairs(pairs: &Vec<(Value, Value)>) -> (r: Vec<(Value, Value)>)
    ensures
        pairs_of(r@) == pairs_of(pairs@),
    decreases pairs, 0int,
{
    let mut out: Vec<(Value, Value)> = Vec::new();
    let mut i: usize = 0;
    proof {
        assert(pairs@.take(0) =~= Seq::<(Value, Value)>::empty());
    }
    while i < pairs.len()
        invariant
            0 <= i <= pairs.len(),
            pairs_of(out@) == pairs_of(pairs@.take(i as int)),
        decreases pairs.len() - i,
    {
        proof {
            assert(decreases_to!(pairs => pairs@[i as int].0));
            assert(decreases_to!(pairs => pairs@[i as int].1));
        }
        let a = pairs[i].0.duplicate();
        let b = pairs[i].1.duplicate();
        proof {
            assert(out@.push((a, b)).drop_last() =~= out@);
            assert(pairs@.take(i + 1).drop_last() =~= pairs@.take(i as int));
        }
        out.push((a, b));
        i += 1;
    }
    proof {
        assert(pairs@.take(i as int) =~= pairs@);
    }
    out
}

fn duplicate_rows(rows: &Vec<Vec<Value>>) -> (r: Vec<Vec<Value>>)
    ensures
        rows_of(r@) == rows_of(rows@),
    decreases rows, 0int,
{
    let mut out: Vec<Vec<Value>> = Vec::new();
    let mut i: usize = 0;
    proof {
        assert(rows@.take(0) =~= Seq::<Vec<Value>>::empty());
    }
    while i < rows.len()
        invariant
            0 <= i <= rows.len(),
            rows_of(out@) == rows_of(rows@.take(i as int)),
        decreases rows.len() - i,
    {
        proof {
            assert(decreases_to!(rows => rows@[i as int]));
        }
        let r = duplicate_values(&rows[i]);
        proof {
            lemma_rows_of_push(out@, r);
            assert(rows@.take(i + 1).drop_last() =~= rows@.take(i as int));
        }
        out.push(r);
        i += 1;
    }
    proof {
        assert(rows@.take(i as int) =~= rows@);
    }
    out
}

impl Value {
    /// Whether the value is the text `name`.
    pub fn is_text(&self, name: &[char]) -> (b: bool)
        ensures
            b == (datum_of(*self) == Datum::Text(name@)),
    {
        match self {
            Value::Text(s) => same_chars(chars_of(s.as_str()).as_slice(), name),
            _ => false,
        }
    }

    /// A copy of the value, item by item.
    pub fn duplicate(&self) -> (r: Value)
        ensures
            datum_of(r) == datum_of(*self),
        decreases self, 1int,
    {
        match self {
            Value::Path(p) => Value::Path(copy_bytes(p)),
            Value::Int(i) => Value::Int(*i),
            Value::Bytes(b) => Value::Bytes(copy_bytes(b)),
            Value::Text(t) => Value::Text(t.clone()),
            Value::Array(items) => Value::Array(duplicate_values(items)),
            Value::Dict(pairs) => Value::Dict(duplicate_pairs(pairs)),
            Value::Tag(t, inner) => Value::Tag(*t, Box::new(inner.duplicate())),
            Value::Float(f) => Value::Float(*f),
            Value::Bool(b) => Value::Bool(*b),
            Value::Null => Value::Null,
            Value::Undefined => Value::Undefined,
            Value::Simple(x) => Value::Simple(*x),
            Value::Table { header, rows } => Value::Table {
                header: duplicate_values(header),
                rows: duplicate_rows(rows),
            },
            Value::Timestamp(t) => Value::Timestamp(*t),
        }
    }
}

/// The rows of data of a sequence of rows are the data of its rows, one by
/// one.
pub proof fn lemma_rows_of_index(s: Seq<Vec<Value>>)
    ensures
        rows_of(s).len() == s.len(),
        forall|i: int| 0 <= i < s.len() ==> #[trigger] rows_of(s)[i] == data_of(s[i]@),
    decreases s.len(),
{
    if s.len() > 0 {
        lemma_rows_of_index(s.drop_last());
    }
}


proof fn lemma_text_ext(s: Seq<Token>, s2: Seq<Token>)
    requires
        text_parts(s) is Some,
        s2.len() > text_parts(s).unwrap().0,
        s2.take(text_parts(s).unwrap().0 + 1) == s.take(text_parts(s).unwrap().0 + 1),
    ensures
        text_parts(s2) == text_parts(s),
    decreases s.len(),
{
    lemma_text_parts_len(s);
    let n = text_parts(s).unwrap().0;
    assert(s2[0] == s.take(n + 1)[0]);
    if !(s[0] is End) {
        assert(s2.drop_first().take(n) =~= s.drop_first().take(n)) by {
            assert forall|i: int| 0 <= i < n implies s2.drop_first()[i] == s.drop_first()[i] by {
                assert(s2.take(n + 1)[i + 1] == s.take(n + 1)[i + 1]);
            }
        }
        lemma_text_ext(s.drop_first(), s2.drop_first());
    }
}

proof fn lemma_text_prefix(s: Seq<Token>, k: int)
    requires
        text_parts(s) is Some,
        0 <= k <= text_parts(s).unwrap().0,
    ensures
        text_parts(s.take(k)) is None,
    decreases s.len(),
{
    lemma_text_parts_len(s);
    if k > 0 {
        assert(s.take(k).drop_first() =~= s.drop_first().take(k - 1));
        lemma_text_prefix(s.drop_first(), k - 1);
    }
}

proof fn lemma_bytes_ext(s: Seq<Token>, s2: Seq<Token>)
    requires
        byte_parts(s) is Some,
        s2.len() > byte_parts(s).unwrap().0,
        s2.take(byte_parts(s).unwrap().0 + 1) == s.take(byte_parts(s).unwrap().0 + 1),
    ensures
        byte_parts(s2) == byte_parts(s),
    decreases s.len(),
{
    lemma_byte_parts_len(s);
    let n = byte_parts(s).unwrap().0;
    assert(s2[0] == s.take(n + 1)[0]);
    if !(s[0] is End) {
        assert(s2.drop_first().take(n) =~= s.drop_first().take(n)) by {
            assert forall|i: int| 0 <= i < n implies s2.drop_first()[i] == s.drop_first()[i] by {
                assert(s2.take(n + 1)[i + 1] == s.take(n + 1)[i + 1]);
            }
        }
        lemma_bytes_ext(s.drop_first(), s2.drop_first());
    }
}

proof fn lemma_bytes_prefix(s: Seq<Token>, k: int)
    requires
        byte_parts(s) is Some,
        0 <= k <= byte_parts(s).unwrap().0,
    ensures
        byte_parts(s.take(k)) is None,
    decreases s.len(),
{
    lemma_byte_parts_len(s);
    if k > 0 {
        assert(s.take(k).drop_first() =~= s.drop_first().take(k - 1));
        lemma_bytes_prefix(s.drop_first(), k - 1);
    }
}


proof fn lemma_agree(s: Seq<Token>, s2: Seq<Token>, n: int, a: int, b: int)
    requires
        0 <= a,
        0 <= b,
        a + b <= n,
        n <= s.len(),
        n <= s2.len(),
        s2.take(n) == s.take(n),
    ensures
        s2.skip(a).take(b) == s.skip(a).take(b),
{
    assert forall|i: int| 0 <= i < b implies s2.skip(a)[i] == s.skip(a)[i] by {
        assert(s2.skip(a)[i] == s2[a + i]);
        assert(s.skip(a)[i] == s[a + i]);
        assert(s2.take(n)[a + i] == s2[a + i]);
        assert(s.take(n)[a + i] == s[a + i]);
        assert(s2.take(n)[a + i] == s.take(n)[a + i]);
    }
    assert(s2.skip(a).take(b) =~= s.skip(a).take(b));
}

proof fn lemma_gathered_ext(s: Seq<Token>, s2: Seq<Token>)
    requires
        gathered(s) is Done,
        s2.len() >= gathered(s)->Done_0,
        s2.take(gathered(s)->Done_0) == s.take(gathered(s)->Done_0),
    ensures
        gathered(s2) == gathered(s),
    decreases s.len(), 1int,
{
    lemma_gathered_len(s);
    let n = gathered(s)->Done_0;
    assert(s2[0] == s.take(n)[0]);
    assert(s.drop_first() =~= s.skip(1));
    assert(s2.drop_first() =~= s2.skip(1));
    match s[0] {
        Token::Text => {
            lemma_text_parts_len(s.drop_first());
            lemma_agree(s, s2, n, 1, n - 1);
            assert(s.drop_first().take(n - 1) =~= s.skip(1).take(n - 1));
            lemma_text_ext(s.drop_first(), s2.drop_first());
        },
        Token::Path | Token::Bytes => {
            lemma_byte_parts_len(s.drop_first());
            lemma_agree(s, s2, n, 1, n - 1);
            lemma_bytes_ext(s.drop_first(), s2.drop_first());
        },
        Token::Array(_) => {
            lemma_items_len(s.drop_first());
            lemma_agree(s, s2, n, 1, n - 1);
            lemma_items_ext(s.drop_first(), s2.drop_first());
        },
        Token::Tag(_) | Token::Timestamp => {
            lemma_gathered_len(s.drop_first());
            lemma_agree(s, s2, n, 1, n - 1);
            lemma_gathered_ext(s.drop_first(), s2.drop_first());
        },
        Token::Table => {
            lemma_gathered_len(s.drop_first());
            let n1 = gathered(s.drop_first())->Done_0;
            lemma_gathered_len(s.skip(n1 + 1));
            let n2 = gathered(s.skip(n1 + 1))->Done_0;
            assert(n == n1 + n2 + 1);
            lemma_agree(s, s2, n, 1, n1);
            assert(s.drop_first().take(n1) =~= s.skip(1).take(n1));
            assert(s2.drop_first().take(n1) =~= s2.skip(1).take(n1));
            lemma_gathered_ext(s.drop_first(), s2.drop_first());
            lemma_agree(s, s2, n, n1 + 1, n2);
            lemma_gathered_ext(s.skip(n1 + 1), s2.skip(n1 + 1));
        },
        _ => {},
    }
}

proof fn lemma_items_ext(s: Seq<Token>, s2: Seq<Token>)
    requires
        gathered_items(s) is Done,
        s2.len() > gathered_items(s)->Done_0,
        s2.take(gathered_items(s)->Done_0 + 1) == s.take(gathered_items(s)->Done_0 + 1),
    ensures
        gathered_items(s2) == gathered_items(s),
    decreases s.len(), 2int,
{
    lemma_items_len(s);
    let m = gathered_items(s)->Done_0;
    assert(s2[0] == s.take(m + 1)[0]);
    if !(s[0] is End) {
        lemma_gathered_len(s);
        let n = gathered(s)->Done_0;
        lemma_items_len(s.skip(n));
        assert(m == n + gathered_items(s.skip(n))->Done_0);
        lemma_agree(s, s2, m + 1, 0, n);
        assert(s.skip(0) =~= s);
        assert(s2.skip(0) =~= s2);
        lemma_gathered_ext(s, s2);
        lemma_agree(s, s2, m + 1, n, m - n + 1);
        lemma_items_ext(s.skip(n), s2.skip(n));
    }
}

proof fn lemma_gathered_prefix(s: Seq<Token>, k: int)
    requires
        gathered(s) is Done,
        0 <= k < gathered(s)->Done_0,
    ensures
        gathered(s.take(k)) is Incomplete,
    decreases s.len(), 1int,
{
    lemma_gathered_len(s);
    if k > 0 {
        let n = gathered(s)->Done_0;
        let t = s.take(k);
        assert(t[0] == s[0]);
        assert(t.drop_first() =~= s.drop_first().take(k - 1));
        match s[0] {
            Token::Text => {
                lemma_text_prefix(s.drop_first(), k - 1);
            },
            Token::Path | Token::Bytes => {
                lemma_bytes_prefix(s.drop_first(), k - 1);
            },
            Token::Array(_) => {
                lemma_items_prefix(s.drop_first(), k - 1);
            },
            Token::Tag(_) | Token::Timestamp => {
                lemma_gathered_prefix(s.drop_first(), k - 1);
            },
            Token::Table => {
                lemma_gathered_len(s.drop_first());
                let n1 = gathered(s.drop_first())->Done_0;
                if k - 1 < n1 {
                    lemma_gathered_prefix(s.drop_first(), k - 1);
                } else {
                    assert(t.drop_first().take(n1) =~= s.drop_first().take(n1));
                    lemma_gathered_ext(s.drop_first(), t.drop_first());
                    assert(t.skip(n1 + 1) =~= s.skip(n1 + 1).take(k - n1 - 1));
                    lemma_gathered_prefix(s.skip(n1 + 1), k - n1 - 1);
                }
            },
            _ => {},
        }
    }
}

proof fn lemma_items_prefix(s: Seq<Token>, k: int)
    requires
        gathered_items(s) is Done,
        0 <= k <= gathered_items(s)->Done_0,
    ensures
        gathered_items(s.take(k)) is Incomplete,
    decreases s.len(), 2int,
{
    lemma_items_len(s);
    if k > 0 {
        let t = s.take(k);
        assert(t[0] == s[0]);
        lemma_gathered_len(s);
        let n = gathered(s)->Done_0;
        if k < n {
            lemma_gathered_prefix(s, k);
        } else {
            assert(t.take(n) =~= s.take(n));
            lemma_gathered_ext(s, t);
            assert(t.skip(n) =~= s.skip(n).take(k - n));
            lemma_items_prefix(s.skip(n), k - n);
        }
    }
}

/// A value is gathered only with all its tokens: every proper prefix of a
/// stream whose start gathers to a value gathers to nothing yet, so
/// [`Token::collect`] gives `None` on it.
pub proof fn law_proper_prefix_is_incomplete(s: Seq<Token>, k: int)
    requires
        gathered(s) is Done,
        0 <= k < gathered(s)->Done_0,
    ensures
        gathered(s.take(k)) is Incomplete,
        forall|r: Option<(usize, Value)>| gathered_as(s.take(k), r) ==> r is None,
{
    lemma_gathered_prefix(s, k);
}

} // verus!
