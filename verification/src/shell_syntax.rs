//! The syntax of the first shell prototype: commands of words and strings,
//! pipelines and background jobs.
use vstd::prelude::*;
use crate::fatty_syntax::{
    backslash_unescaped, drop_backslashes, join_tokens, joined_with_spaces, tokens_text, Token,
};

verus! {

/// A command: its words.
#[derive(Debug, Clone, PartialEq, Eq)]
pub struct Command {
    pub argv: Vec<Token>,
}

impl Command {
    /// The words of the command joined by spaces.
    pub fn to_string(&self) -> (s: String)
        ensures
            s@ == joined_with_spaces(tokens_text(self.argv@)),
    {
        join_tokens(self.argv.as_slice())
    }
}

/// A pipeline of commands and subshells.
#[derive(Debug)]
pub struct Pipeline {
    pub items: Vec<SubOrCommand>,
}

/// Statements joined by `&&` and `||`.
#[derive(Debug)]
pub struct Chain {
    pub first: Box<Stmt>,
    pub tokens: Vec<(Connector, Stmt)>,
}

/// How two statements of a chain are joined.
#[derive(Debug, Copy, Clone, PartialEq, Eq, Structural)]
pub enum Connector {
    And,
    Or,
}

/// One stage of a pipeline.
#[derive(Debug)]
pub enum SubOrCommand {
    Command(Command),
    Sub(Box<Ast>),
}

/// A statement.
#[derive(Debug)]
pub enum Stmt {
    Chain(Chain),
    Pipeline(Pipeline),
    Sub(Box<Ast>),
    Background(Box<Ast>),
    Command(Command),
}

/// A parsed program item.
#[derive(Debug)]
pub enum Ast {
    Stmt(Stmt),
}

/// The text of a double-quoted string: backslashes dropped, the character
/// after each kept.
pub fn unescape_dq(s: &str) -> (r: String)
    ensures
        r@ == backslash_unescaped(s@, 0),
{
    drop_backslashes(s)
}

/// The text of an unquoted word: backslashes dropped, the character after
/// each kept.
pub fn unescape_unquoted(s: &str) -> (r: String)
    ensures
        r@ == backslash_unescaped(s@, 0),
{
    drop_backslashes(s)
}

} // verus!
