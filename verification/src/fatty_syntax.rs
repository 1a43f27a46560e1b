//! The command syntax of the fatty shell: words and strings, commands,
//! pipelines and chains, and the backslash rule of its strings.
use vstd::prelude::*;
use crate::unicode::{chars_of, string_of};

verus! {

/// A position in the source: line, and start and end offsets of a span.
#[derive(Debug, Copy, Clone, PartialEq, Eq, Structural)]
pub struct LineCol(pub usize, pub usize, pub usize);

/// One argument of a command.
#[derive(Debug, Clone, PartialEq, Eq)]
pub enum Token {
    /// A quoted string
    String(String),
    /// An unquoted word, subject to expansion
    Word(String),
}

/// The text of a token.
pub open spec fn token_text(t: Token) -> Seq<char> {
    match t {
        Token::String(s) => s@,
        Token::Word(s) => s@,
    }
}

impl Token {
    /// The text of the token.
    pub fn to_string(&self) -> (s: String)
        ensures
            s@ == token_text(*self),
    {
        match self {
            Token::String(s) => s.clone(),
            Token::Word(s) => s.clone(),
        }
    }

    /// The text of the token, borrowed.
    pub fn as_str(&self) -> (s: &str)
        ensures
            s@ == token_text(*self),
    {
        match self {
            Token::String(s) => s.as_str(),
            Token::Word(s) => s.as_str(),
        }
    }
}

/// A command: its position and its words.
#[derive(Debug, Clone, PartialEq, Eq)]
pub struct Command {
    pub lc: LineCol,
    pub argv: Vec<Token>,
}

/// Texts joined with one space between each two.
pub open spec fn joined_with_spaces(parts: Seq<Seq<char>>) -> Seq<char>
    decreases parts.len(),
{
    if parts.len() == 0 {
        Seq::empty()
    } else if parts.len() == 1 {
        parts[0]
    } else {
        joined_with_spaces(parts.drop_last()) + seq![' '] + parts.last()
    }
}

/// The texts of a sequence of tokens.
pub open spec fn tokens_text(ts: Seq<Token>) -> Seq<Seq<char>> {
    ts.map_values(|t: Token| token_text(t))
}

/// Joins the texts of tokens with single spaces.
pub fn join_tokens(argv: &[Token]) -> (s: String)
    ensures
        s@ == joined_with_spaces(tokens_text(argv@)),
{
    let mut out: Vec<char> = Vec::new();
    let mut i: usize = 0;
    while i < argv.len()
        invariant
            0 <= i <= argv.len(),
            out@ == joined_with_spaces(tokens_text(argv@.take(i as int))),
        decreases argv.len() - i,
    {
        let ghost prev = out@;
        if i > 0 {
            out.push(' ');
        }
        let cs = chars_of(argv[i].as_str());
        let ghost mid = out@;
        let mut j: usize = 0;
        while j < cs.len()
            invariant
                0 <= j <= cs.len(),
                out@ == mid + cs@.take(j as int),
            decreases cs.len() - j,
        {
            out.push(cs[j]);
            proof {
                assert(cs@.take(j + 1) == cs@.take(j as int).push(cs@[j as int]));
            }
            j += 1;
        }
        proof {
            assert(cs@.take(cs@.len() as int) == cs@);
            let t = tokens_text(argv@.take(i + 1));
            assert(t.drop_last() =~= tokens_text(argv@.take(i as int)));
            assert(t.last() == token_text(argv@[i as int]));
            if i == 0 {
                assert(out@ =~= t[0]);
            } else {
                assert(out@ =~= prev + seq![' '] + cs@);
            }
        }
        i += 1;
    }
    proof {
        assert(argv@.take(argv@.len() as int) == argv@);
    }
    string_of(out.as_slice())
}

impl Command {
    /// The words of the command joined by spaces.
    pub fn to_string(&self) -> (s: String)
        ensures
            s@ == joined_with_spaces(tokens_text(self.argv@)),
    {
        join_tokens(self.argv.as_slice())
    }
}

/// A pipeline of commands and subshells.
#[derive(Debug)]
pub struct Pipeline {
    pub items: Vec<PipelineItem>,
}

/// Statements joined by `&&` and `||`.
#[derive(Debug)]
pub struct Chain {
    pub first: Box<Stmt>,
    pub tokens: Vec<(Connector, Stmt)>,
}

/// How two statements of a chain are joined.
#[derive(Debug, Copy, Clone, PartialEq, Eq, Structural)]
pub enum Connector {
    And,
    Or,
}

/// One stage of a pipeline.
#[derive(Debug)]
pub enum PipelineItem {
    Command(Command),
    Sub(Box<Ast>),
    Where(Option<Box<Ast>>),
}

/// A statement.
#[derive(Debug)]
pub enum Stmt {
    Chain(Chain),
    Pipeline(Pipeline),
    Sub(Box<Ast>),
    Background(Box<Ast>),
    Command(Command),
    Where(Option<Box<Ast>>),
}

/// A parsed program item.
#[derive(Debug)]
pub enum Ast {
    Stmt(LineCol, Stmt),
}

/// The text of `s[i..]` with every backslash dropped and the character after
/// it kept as it is; a backslash at the very end is dropped.
pub open spec fn backslash_unescaped(s: Seq<char>, i: int) -> Seq<char>
    decreases s.len() - i,
{
    if i < 0 || i >= s.len() {
        Seq::empty()
    } else if s[i] == '\\' {
        if i + 1 < s.len() {
            seq![s[i + 1]] + backslash_unescaped(s, i + 2)
        } else {
            Seq::empty()
        }
    } else {
        seq![s[i]] + backslash_unescaped(s, i + 1)
    }
}

/// Drops each backslash of `s` and keeps the character after it.
pub fn drop_backslashes(s: &str) -> (r: String)
    ensures
        r@ == backslash_unescaped(s@, 0),
{
    let cs = chars_of(s);
    let mut out: Vec<char> = Vec::new();
    let mut i: usize = 0;
    while i < cs.len()
        invariant
            cs@ == s@,
            0 <= i <= cs.len(),
            backslash_unescaped(s@, 0) == out@ + backslash_unescaped(s@, i as int),
        decreases cs.len() - i,
    {
        let ch = cs[i];
        if ch == '\\' {
            if i + 1 < cs.len() {
                let next = cs[i + 1];
                proof {
                    assert(out@ + (seq![next] + backslash_unescaped(s@, i + 2)) =~= out@.push(next)
                        + backslash_unescaped(s@, i + 2));
                }
                out.push(next);
                i += 2;
            } else {
                proof {
                    assert(out@ + Seq::<char>::empty() =~= out@);
                    assert(backslash_unescaped(s@, (i + 1) as int) =~= Seq::<char>::empty());
                }
                i += 1;
            }
        } else {
            proof {
                assert(out@ + (seq![ch] + backslash_unescaped(s@, i + 1)) =~= out@.push(ch)
                    + backslash_unescaped(s@, i + 1));
            }
            out.push(ch);
            i += 1;
        }
    }
    proof {
        assert(out@ + Seq::<char>::empty() =~= out@);
    }
    string_of(out.as_slice())
}

/// The text of a double-quoted string: backslashes dropped, the character
/// after each kept.
pub fn unescape_dq(s: &str) -> (r: String)
    ensures
        r@ == backslash_unescaped(s@, 0),
{
    drop_backslashes(s)
}

/// The text of an unquoted word: backslashes dropped, the character after
/// each kept.
pub fn unescape_unquoted(s: &str) -> (r: String)
    ensures
        r@ == backslash_unescaped(s@, 0),
{
    drop_backslashes(s)
}

/// A text without backslashes stands for itself.
pub proof fn law_backslash_free_text_is_unchanged(s: Seq<char>, i: int)
    requires
        0 <= i <= s.len(),
        forall|j: int| 0 <= j < s.len() ==> s[j] != '\\',
    ensures
        backslash_unescaped(s, i) == s.skip(i),
    decreases s.len() - i,
{
    if i < s.len() {
        law_backslash_free_text_is_unchanged(s, i + 1);
        assert(seq![s[i]] + s.skip(i + 1) =~= s.skip(i));
    } else {
        assert(s.skip(i) =~= Seq::<char>::empty());
    }
}

/// An escaped backslash stands for one backslash.
pub proof fn law_escaped_backslash_is_one_backslash()
    ensures
        backslash_unescaped(seq!['\\', '\\'], 0) == seq!['\\'],
{
    assert(backslash_unescaped(seq!['\\', '\\'], 2) == Seq::<char>::empty());
    assert(seq!['\\'] + Seq::<char>::empty() =~= seq!['\\']);
}

} // verus!
