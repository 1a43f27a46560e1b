//! Lexical rules of the Marish shell language: escape sequences in strings,
//! operator spellings and source positions.
use vstd::prelude::*;
use crate::unicode::{chars_of, string_of};

verus! {

/// A binary operator of Marish.
#[derive(Debug, Copy, Clone, PartialEq, Eq, Structural)]
pub enum Operator {
    And,
    Xor,
    Or,
    Eq,
    Ne,
    Lt,
    Gt,
    Le,
    Ge,
    Like,
    NotLike,
    Add,
    Sub,
    Mul,
    Div,
}

/// A position in the source: line, and start and end offsets of a span.
#[derive(Debug, Copy, Clone, PartialEq, Eq, Structural)]
pub struct LineCol(pub usize, pub usize, pub usize);

/// How two statements of a chain are joined.
#[derive(Debug, Copy, Clone, PartialEq, Eq, Structural)]
pub enum Connector {
    And,
    Or,
}

/// The operator that a spelling in the source stands for, if any.
pub open spec fn operator_of(s: Seq<char>) -> Option<Operator> {
    if s == seq!['+'] {
        Some(Operator::Add)
    } else if s == seq!['-'] {
        Some(Operator::Sub)
    } else if s == seq!['/'] {
        Some(Operator::Div)
    } else if s == seq!['*'] {
        Some(Operator::Mul)
    } else if s == seq!['-', 'e', 'q'] {
        Some(Operator::Eq)
    } else if s == seq!['-', 'n', 'e'] {
        Some(Operator::Ne)
    } else if s == seq!['-', 'g', 'e'] {
        Some(Operator::Ge)
    } else if s == seq!['-', 'g', 't'] {
        Some(Operator::Gt)
    } else if s == seq!['-', 'l', 'e'] {
        Some(Operator::Le)
    } else if s == seq!['-', 'l', 't'] {
        Some(Operator::Lt)
    } else if s == seq!['-', 'l', 'k'] {
        Some(Operator::Like)
    } else if s == seq!['-', 'n', 'k'] {
        Some(Operator::NotLike)
    } else {
        None
    }
}

fn chars_equal(a: &Vec<char>, b: &[char]) -> (r: bool)
    ensures
        r == (a@ == b@),
{
    if a.len() != b.len() {
        return false;
    }
    let mut i: usize = 0;
    while i < a.len()
        invariant
            a.len() == b.len(),
            0 <= i <= a.len(),
            forall|j: int| 0 <= j < i ==> a@[j] == b@[j],
        decreases a.len() - i,
    {
        if a[i] != b[i] {
            return false;
        }
        i += 1;
    }
    assert(a@ =~= b@);
    true
}

/// The arithmetic or comparison operator spelled `s`.
pub fn str_to_op(s: &str) -> (op: Operator)
    requires
        operator_of(s@) is Some,
    ensures
        Some(op) == operator_of(s@),
{
    let cs = chars_of(s);
    let lit: [char; 1] = ['+'];
    proof {
        assert(lit@ =~= seq!['+']);
    }
    if chars_equal(&cs, &lit) {
        return Operator::Add;
    }
    let lit: [char; 1] = ['-'];
    proof {
        assert(lit@ =~= seq!['-']);
    }
    if chars_equal(&cs, &lit) {
        return Operator::Sub;
    }
    let lit: [char; 1] = ['/'];
    proof {
        assert(lit@ =~= seq!['/']);
    }
    if chars_equal(&cs, &lit) {
        return Operator::Div;
    }
    let lit: [char; 1] = ['*'];
    proof {
        assert(lit@ =~= seq!['*']);
    }
    if chars_equal(&cs, &lit) {
        return Operator::Mul;
    }
    let lit: [char; 3] = ['-', 'e', 'q'];
    proof {
        assert(lit@ =~= seq!['-', 'e', 'q']);
    }
    if chars_equal(&cs, &lit) {
        return Operator::Eq;
    }
    let lit: [char; 3] = ['-', 'n', 'e'];
    proof {
        assert(lit@ =~= seq!['-', 'n', 'e']);
    }
    if chars_equal(&cs, &lit) {
        return Operator::Ne;
    }
    let lit: [char; 3] = ['-', 'g', 'e'];
    proof {
        assert(lit@ =~= seq!['-', 'g', 'e']);
    }
    if chars_equal(&cs, &lit) {
        return Operator::Ge;
    }
    let lit: [char; 3] = ['-', 'g', 't'];
    proof {
        assert(lit@ =~= seq!['-', 'g', 't']);
    }
    if chars_equal(&cs, &lit) {
        return Operator::Gt;
    }
    let lit: [char; 3] = ['-', 'l', 'e'];
    proof {
        assert(lit@ =~= seq!['-', 'l', 'e']);
    }
    if chars_equal(&cs, &lit) {
        return Operator::Le;
    }
    let lit: [char; 3] = ['-', 'l', 't'];
    proof {
        assert(lit@ =~= seq!['-', 'l', 't']);
    }
    if chars_equal(&cs, &lit) {
        return Operator::Lt;
    }
    let lit: [char; 3] = ['-', 'l', 'k'];
    proof {
        assert(lit@ =~= seq!['-', 'l', 'k']);
    }
    if chars_equal(&cs, &lit) {
        return Operator::Like;
    }
    Operator::NotLike
}

/// The value of a hexadecimal digit.
pub open spec fn hex_digit_value(c: char) -> Option<u32> {
    if '0' <= c && c <= '9' {
        Some((c as u32 - '0' as u32) as u32)
    } else if 'a' <= c && c <= 'f' {
        Some((c as u32 - 'a' as u32 + 10) as u32)
    } else if 'A' <= c && c <= 'F' {
        Some((c as u32 - 'A' as u32 + 10) as u32)
    } else {
        None
    }
}

/// The value of an octal digit.
pub open spec fn oct_digit_value(c: char) -> Option<u32> {
    if '0' <= c && c <= '7' {
        Some((c as u32 - '0' as u32) as u32)
    } else {
        None
    }
}

fn hex_digit(c: char) -> (r: Option<u32>)
    ensures
        r == hex_digit_value(c),
{
    if '0' <= c && c <= '9' {
        Some(c as u32 - '0' as u32)
    } else if 'a' <= c && c <= 'f' {
        Some(c as u32 - 'a' as u32 + 10)
    } else if 'A' <= c && c <= 'F' {
        Some(c as u32 - 'A' as u32 + 10)
    } else {
        None
    }
}

fn oct_digit(c: char) -> (r: Option<u32>)
    ensures
        r == oct_digit_value(c),
{
    if '0' <= c && c <= '7' {
        Some(c as u32 - '0' as u32)
    } else {
        None
    }
}

/// Calls `char::from_u32`: the character with the code `v`, or `None` where
/// `v` is not one (a surrogate, or above `0x10FFFF`), as std documents.
#[verifier::external_body]
fn char_from_u32(v: u32) -> (c: Option<char>)
    ensures
        v < 0xD800 || (0xE000 <= v && v <= 0x10FFFF) ==> c == Some(v as char),
        0xD800 <= v && v < 0xE000 || v > 0x10FFFF ==> c is None,
{
    char::from_u32(v)
}

/// The character that the escape sequence starting at `i` (just after the
/// backslash) stands for, and the position just after the sequence.
pub open spec fn escape_at(s: Seq<char>, i: int) -> Option<(char, int)> {
    if i < 0 || i >= s.len() {
        None
    } else {
        let c = s[i];
        if c == 'r' {
            Some(('\r', i + 1))
        } else if c == 'n' {
            Some(('\n', i + 1))
        } else if c == 't' {
            Some(('\t', i + 1))
        } else if c == 'a' {
            Some(('\x07', i + 1))
        } else if c == 'b' {
            Some(('\x08', i + 1))
        } else if c == 'v' {
            Some(('\x0B', i + 1))
        } else if c == 'f' {
            Some(('\x0C', i + 1))
        } else if c == '0' {
            Some(('\0', i + 1))
        } else if c == 'x' {
            if i + 2 < s.len() {
                match (hex_digit_value(s[i + 1]), hex_digit_value(s[i + 2])) {
                    (Some(hi), Some(lo)) => Some(((hi * 16 + lo) as char, i + 3)),
                    _ => None,
                }
            } else {
                None
            }
        } else if c == 'o' {
            if i + 3 < s.len() {
                match (
                    oct_digit_value(s[i + 1]),
                    oct_digit_value(s[i + 2]),
                    oct_digit_value(s[i + 3]),
                ) {
                    (Some(a), Some(b), Some(d)) => Some(((a * 64 + b * 8 + d) as char, i + 4)),
                    _ => None,
                }
            } else {
                None
            }
        } else {
            None
        }
    }
}

/// The text that `s[i..]` stands for once its escape sequences are
/// replaced, or `None` if one of them is not supported.
pub open spec fn unescaped_from(s: Seq<char>, i: int) -> Option<Seq<char>>
    decreases s.len() - i,
{
    if i < 0 || i >= s.len() {
        Some(Seq::empty())
    } else if s[i] == '\\' {
        match escape_at(s, i + 1) {
            None => None,
            Some((c, j)) => if j > i {
                match unescaped_from(s, j) {
                    Some(rest) => Some(seq![c] + rest),
                    None => None,
                }
            } else {
                None
            },
        }
    } else {
        match unescaped_from(s, i + 1) {
            Some(rest) => Some(seq![s[i]] + rest),
            None => None,
        }
    }
}

/// Reads the escape sequence that starts at `i`, just after a backslash,
/// and appends the character it stands for to `out`; returns the position
/// after the sequence, or `None` if it is not supported.
pub fn escape(chars: &[char], i: usize, out: &mut Vec<char>) -> (r: Option<usize>)
    ensures
        match escape_at(chars@, i as int) {
            Some((c, j)) => r == Some(j as usize) && final(out)@ == old(out)@.push(c),
            None => r is None,
        },
{
    if i >= chars.len() {
        return None;
    }
    let c = chars[i];
    let e = if c == 'r' {
        '\r'
    } else if c == 'n' {
        '\n'
    } else if c == 't' {
        '\t'
    } else if c == 'a' {
        '\x07'
    } else if c == 'b' {
        '\x08'
    } else if c == 'v' {
        '\x0B'
    } else if c == 'f' {
        '\x0C'
    } else if c == '0' {
        '\0'
    } else if c == 'x' {
        if chars.len() - i <= 2 {
            return None;
        }
        let hi = match hex_digit(chars[i + 1]) {
            Some(d) => d,
            None => return None,
        };
        let lo = match hex_digit(chars[i + 2]) {
            Some(d) => d,
            None => return None,
        };
        let value = (hi << 4) | lo;
        assert(value == hi * 16 + lo) by (bit_vector)
            requires
                hi < 16 && lo < 16 && value == (hi << 4) | lo,
        ;
        let ch = match char_from_u32(value) {
            Some(ch) => ch,
            None => return None,
        };
        out.push(ch);
        return Some(i + 3);
    } else if c == 'o' {
        if chars.len() - i <= 3 {
            return None;
        }
        let a = match oct_digit(chars[i + 1]) {
            Some(d) => d,
            None => return None,
        };
        let b = match oct_digit(chars[i + 2]) {
            Some(d) => d,
            None => return None,
        };
        let d = match oct_digit(chars[i + 3]) {
            Some(d) => d,
            None => return None,
        };
        let v1 = (a << 3) | b;
        let value = (v1 << 3) | d;
        assert(value == a * 64 + b * 8 + d) by (bit_vector)
            requires
                a < 8 && b < 8 && d < 8 && v1 == (a << 3) | b && value == (v1 << 3) | d,
        ;
        let ch = match char_from_u32(value) {
            Some(ch) => ch,
            None => return None,
        };
        out.push(ch);
        return Some(i + 4);
    } else {
        return None;
    };
    out.push(e);
    Some(i + 1)
}

/// Replaces the escape sequences of `s`; `Some` of the text, or `None` if
/// one is not supported.
fn unescape(s: &Vec<char>) -> (r: Option<Vec<char>>)
    ensures
        match unescaped_from(s@, 0) {
            Some(t) => r matches Some(v) && v@ == t,
            None => r is None,
        },
{
    let mut out: Vec<char> = Vec::new();
    let mut i: usize = 0;
    while i < s.len()
        invariant
            0 <= i <= s.len(),
            unescaped_from(s@, 0) == match unescaped_from(s@, i as int) {
                Some(rest) => Some(out@ + rest),
                None => None,
            },
        decreases s.len() - i,
    {
        let ch = s[i];
        if ch == '\\' {
            let ghost before = out@;
            match escape(s.as_slice(), i + 1, &mut out) {
                Some(j) => {
                    proof {
                        let (c, jj) = escape_at(s@, i + 1).unwrap();
                        assert(j == jj);
                        assert(out@ == before.push(c));
                        match unescaped_from(s@, j as int) {
                            Some(rest) => {
                                assert(before + (seq![c] + rest) =~= out@ + rest);
                            },
                            None => {},
                        }
                    }
                    i = j;
                },
                None => {
                    return None;
                },
            }
        } else {
            proof {
                match unescaped_from(s@, i + 1) {
                    Some(rest) => {
                        assert(out@ + (seq![ch] + rest) =~= out@.push(ch) + rest);
                    },
                    None => {},
                }
            }
            out.push(ch);
            i += 1;
        }
    }
    proof {
        assert(out@ + Seq::<char>::empty() =~= out@);
    }
    Some(out)
}

/// The message for a string holding an unsupported escape sequence.
pub open spec fn escape_error_message(s: Seq<char>) -> Seq<char> {
    "Escape sequence in string "@ + s + " not supported"@
}

fn escape_error(s: &str) -> (m: String)
    ensures
        m@ == escape_error_message(s@),
{
    let mut out: Vec<char> = chars_of("Escape sequence in string ");
    let body = chars_of(s);
    let tail = chars_of(" not supported");
    let mut i: usize = 0;
    let ghost head = out@;
    while i < body.len()
        invariant
            0 <= i <= body.len(),
            out@ == head + body@.take(i as int),
        decreases body.len() - i,
    {
        out.push(body[i]);
        proof {
            assert(body@.take(i + 1) == body@.take(i as int).push(body@[i as int]));
        }
        i += 1;
    }
    let mut k: usize = 0;
    let ghost mid = out@;
    while k < tail.len()
        invariant
            0 <= k <= tail.len(),
            out@ == mid + tail@.take(k as int),
        decreases tail.len() - k,
    {
        out.push(tail[k]);
        proof {
            assert(tail@.take(k + 1) == tail@.take(k as int).push(tail@[k as int]));
        }
        k += 1;
    }
    proof {
        assert(body@.take(body@.len() as int) == body@);
        assert(tail@.take(tail@.len() as int) == tail@);
        reveal_strlit("Escape sequence in string ");
        reveal_strlit(" not supported");
    }
    string_of(out.as_slice())
}

/// The text of a double-quoted string, its escape sequences replaced.
pub fn unescape_dq(s: &str) -> (r: Result<String, String>)
    ensures
        match unescaped_from(s@, 0) {
            Some(t) => r matches Ok(v) && v@ == t,
            None => r matches Err(m) && m@ == escape_error_message(s@),
        },
{
    let cs = chars_of(s);
    match unescape(&cs) {
        Some(v) => Ok(string_of(v.as_slice())),
        None => Err(escape_error(s)),
    }
}

/// The text of an unquoted word, its escape sequences replaced.
pub fn unescape_unquoted(s: &str) -> (r: Result<String, String>)
    ensures
        match unescaped_from(s@, 0) {
            Some(t) => r matches Ok(v) && v@ == t,
            None => r matches Err(m) && m@ == escape_error_message(s@),
        },
{
    let cs = chars_of(s);
    match unescape(&cs) {
        Some(v) => Ok(string_of(v.as_slice())),
        None => Err(escape_error(s)),
    }
}

/// A text without backslashes stands for itself.
pub proof fn law_text_without_backslash_is_unchanged(s: Seq<char>, i: int)
    requires
        0 <= i <= s.len(),
        forall|j: int| 0 <= j < s.len() ==> s[j] != '\\',
    ensures
        unescaped_from(s, i) == Some(s.skip(i)),
    decreases s.len() - i,
{
    if i < s.len() {
        law_text_without_backslash_is_unchanged(s, i + 1);
        assert(seq![s[i]] + s.skip(i + 1) =~= s.skip(i));
    } else {
        assert(s.skip(i) =~= Seq::<char>::empty());
    }
}

/// A backslash as the last character is always an error.
pub proof fn law_trailing_backslash_is_rejected(s: Seq<char>)
    requires
        s.len() >= 1,
        s.last() == '\\',
    ensures
        unescaped_from(s, s.len() - 1) is None,
{
}


/// An operand: a token, or a statement run as a subshell whose result is
/// taken.
#[derive(Debug, PartialEq)]
pub enum Single {
    Token(Token),
    Sub(Box<Ast>),
}

/// A comparison or arithmetic expression of two operands.
#[derive(Debug, PartialEq)]
pub struct BoolExpr {
    pub lhs: Single,
    pub rhs: Single,
    pub op: Operator,
}

/// A variable, with the column and row selections that follow its name.
#[derive(Debug, PartialEq)]
pub struct Var {
    pub name: String,
    pub fields: Vec<FieldExpr>,
}

/// A selection after a variable's name: a column by its header, or a row
/// by its index.
#[derive(Debug, PartialEq)]
pub enum FieldExpr {
    Column(Single),
    Index(Single),
}

/// An array literal.
#[derive(Debug, PartialEq)]
pub struct Array {
    pub items: Vec<Single>,
}

/// A table literal: its header and its rows.
#[derive(Debug, PartialEq)]
pub struct Table {
    pub header: Vec<Single>,
    pub rows: Vec<Vec<Single>>,
}

/// A token of Marish. A number with a fraction is kept as it was written.
#[derive(Debug, PartialEq)]
pub enum Token {
    Int(i128),
    Float(String),
    String(String),
    Word(String),
    Var(Var),
    Array(Array),
    Table(Table),
}

/// A command: its position, its name and its arguments.
#[derive(Debug, PartialEq)]
pub struct Command {
    pub lc: LineCol,
    pub cmd: String,
    pub argv: Vec<Single>,
}

/// A pipeline: the value fed to its first stage, if any, and its stages.
#[derive(Debug, PartialEq)]
pub struct Pipeline {
    pub initial_value: Option<Token>,
    pub items: Vec<PipelineItem>,
}

/// Statements joined by `&&` and `||`.
#[derive(Debug, PartialEq)]
pub struct Chain {
    pub first: Box<Stmt>,
    pub tokens: Vec<(Connector, Stmt)>,
}

/// A stage of a pipeline: a command, a subshell, or a `where` filter with
/// its condition.
#[derive(Debug, PartialEq)]
pub enum PipelineItem {
    Command(Command),
    Sub(Box<Ast>),
    Where(Box<Ast>, LineCol),
}

/// An assignment to a variable, or to a column or row of it.
#[derive(Debug, PartialEq)]
pub struct Assignment {
    pub lhs: Var,
    pub rhs: Single,
}

/// A named test and its statements.
#[derive(Debug, PartialEq)]
pub struct TestDecl {
    pub name: String,
    pub body: Vec<Ast>,
}

/// An assertion on the result of a statement.
#[derive(Debug, PartialEq)]
pub struct Assert {
    pub lc: LineCol,
    pub body: Box<Ast>,
}

/// A statement of Marish.
#[derive(Debug, PartialEq)]
pub enum Stmt {
    Token(Token),
    Assert(Assert),
    TestDecl(TestDecl),
    Assignment(Assignment),
    Chain(Chain),
    Pipeline(Pipeline),
    Sub(Box<Ast>),
    Background(Box<Ast>),
    Command(Command),
    Where(Option<Box<Ast>>),
    BoolExpr(BoolExpr),
    BoolNegate(Single),
}

/// A statement with its position.
#[derive(Debug, PartialEq)]
pub enum Ast {
    Stmt(LineCol, Stmt),
}

} // verus!
