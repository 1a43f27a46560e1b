//! Bolger, the s-expression markup that tools print for the shell window:
//! the writer that tools use, the character reader of the parser, and the
//! scanner that cuts a terminal stream into complete top-level forms.
use vstd::prelude::*;
use crate::unicode::{
    char_is_alphanumeric, char_is_whitespace, chars_of, is_alphanumeric_char, is_white_space,
    string_of,
};

verus! {

/// Text followed by more text.
pub open spec fn cat3(a: Seq<char>, b: Seq<char>, c: Seq<char>) -> Seq<char> {
    a + b + c
}

pub(crate) fn push_str(out: &mut Vec<char>, s: &str)
    ensures
        final(out)@ == old(out)@ + s@,
{
    let cs = chars_of(s);
    let mut j: usize = 0;
    while j < cs.len()
        invariant
            0 <= j <= cs.len(),
            cs@ == s@,
            out@ == old(out)@ + cs@.take(j as int),
        decreases cs.len() - j,
    {
        out.push(cs[j]);
        proof {
            assert(cs@.take(j + 1) == cs@.take(j as int).push(cs@[j as int]));
        }
        j += 1;
    }
    proof {
        assert(cs@.take(cs@.len() as int) == cs@);
    }
}

/// The writer side of bolger: it keeps the stack of open sections and
/// produces the text to print for each step.
pub struct Bolger {
    stack: Vec<String>,
}

impl View for Bolger {
    type V = Seq<Seq<char>>;

    closed spec fn view(&self) -> Seq<Seq<char>> {
        self.stack@.map_values(|s: String| s@)
    }
}

impl Bolger {
    /// A writer with no open section.
    pub fn new() -> (b: Bolger)
        ensures
            b@ == Seq::<Seq<char>>::empty(),
    {
        Bolger { stack: Vec::new() }
    }

    /// Opens section `s`; returns the text to print, `(s `.
    pub fn begin(&mut self, s: &str) -> (out: String)
        ensures
            final(self)@ == old(self)@.push(s@),
            out@ == cat3(seq!['\x28'], s@, seq![' ']),
    {
        let owned = string_of(chars_of(s).as_slice());
        self.stack.push(owned);
        proof {
            assert(self@ =~= old(self)@.push(s@));
        }
        let mut out: Vec<char> = Vec::new();
        out.push('\x28');
        push_str(&mut out, s);
        out.push(' ');
        proof {
            assert(out@ =~= cat3(seq!['\x28'], s@, seq![' ']));
        }
        string_of(out.as_slice())
    }

    /// Closes section `s`, which must be the innermost open one; returns the
    /// text to print, `)`.
    pub fn end(&mut self, s: &str) -> (out: String)
        requires
            old(self)@.len() > 0,
            old(self)@.last() == s@,
        ensures
            final(self)@ == old(self)@.drop_last(),
            out@ == seq!['\x29'],
    {
        let _ = self.stack.pop();
        proof {
            assert(self@ =~= old(self)@.drop_last());
        }
        let close = ['\x29'];
        proof {
            assert(close@ =~= seq!['\x29']);
        }
        string_of(&close)
    }

    /// An attribute with a string value, `:a "v"`, inside an open section.
    pub fn attr_str(&self, a: &str, v: &str) -> (out: String)
        requires
            self@.len() > 0,
        ensures
            out@ == seq![' ', ':'] + a@ + seq![' ', '\x22'] + v@ + seq!['\x22'],
    {
        let mut out: Vec<char> = Vec::new();
        out.push(' ');
        out.push(':');
        push_str(&mut out, a);
        out.push(' ');
        out.push('\x22');
        push_str(&mut out, v);
        out.push('\x22');
        proof {
            assert(out@ =~= seq![' ', ':'] + a@ + seq![' ', '\x22'] + v@ + seq!['\x22']);
        }
        string_of(out.as_slice())
    }

    /// A string item, ` "s" `.
    pub fn str(&self, s: &str) -> (out: String)
        ensures
            out@ == seq![' ', '\x22'] + s@ + seq!['\x22', ' '],
    {
        let mut out: Vec<char> = Vec::new();
        out.push(' ');
        out.push('\x22');
        push_str(&mut out, s);
        out.push('\x22');
        out.push(' ');
        proof {
            assert(out@ =~= seq![' ', '\x22'] + s@ + seq!['\x22', ' ']);
        }
        string_of(out.as_slice())
    }
}

/// Opening a section and closing it again leaves the stack of open sections
/// as it was.
pub proof fn law_begin_then_end_restores_stack(stack: Seq<Seq<char>>, s: Seq<char>)
    ensures
        stack.push(s).len() > 0,
        stack.push(s).last() == s,
        stack.push(s).drop_last() == stack,
{
    assert(stack.push(s).drop_last() =~= stack);
}


/// Where a run of white space starting at `i` ends.
pub open spec fn white_space_end(s: Seq<char>, i: int) -> int
    decreases s.len() - i,
{
    if 0 <= i < s.len() && is_white_space(s[i]) {
        white_space_end(s, i + 1)
    } else {
        i
    }
}

/// A character that may stand in an identifier.
pub open spec fn is_ident_char(c: char) -> bool {
    is_alphanumeric_char(c) || c == '_' || c == '-'
}

/// Where a run of identifier characters starting at `i` ends.
pub open spec fn ident_end(s: Seq<char>, i: int) -> int
    decreases s.len() - i,
{
    if 0 <= i < s.len() && is_ident_char(s[i]) {
        ident_end(s, i + 1)
    } else {
        i
    }
}

/// A character that ends free text: an opening or closing bracket or a quote.
pub open spec fn ends_free_text(c: char) -> bool {
    c == '\x28' || c == '\x29' || c == '\x22'
}

/// Where free text starting at `i` ends.
pub open spec fn free_text_end(s: Seq<char>, i: int) -> int
    decreases s.len() - i,
{
    if 0 <= i < s.len() && !ends_free_text(s[i]) {
        free_text_end(s, i + 1)
    } else {
        i
    }
}

/// A character of the digits part of a number: a digit or a point.
pub open spec fn is_number_char(c: char) -> bool {
    ('0' <= c && c <= '9') || c == '.'
}

/// Where a run of number characters starting at `i` ends.
pub open spec fn number_end(s: Seq<char>, i: int) -> int
    decreases s.len() - i,
{
    if 0 <= i < s.len() && is_number_char(s[i]) {
        number_end(s, i + 1)
    } else {
        i
    }
}

/// The character that an escape sequence of a bolger string stands for.
pub open spec fn string_escape(c: char) -> char {
    if c == 'n' {
        '\n'
    } else if c == 't' {
        '\t'
    } else {
        c
    }
}

/// The body of a string from `i` (after the opening quote) to its closing
/// quote: `Ok` of the content and the position after the quote, or `Err`
/// of the message. A carriage return is dropped together with the character
/// after it.
pub open spec fn string_body(s: Seq<char>, i: int) -> Result<(Seq<char>, int), Seq<char>>
    decreases s.len() + 1 - i,
{
    if i < 0 || i >= s.len() {
        Err("Unterminated string"@)
    } else if s[i] == '\x22' {
        Ok((Seq::empty(), i + 1))
    } else if s[i] == '\\' {
        if i + 1 >= s.len() {
            Err("Unterminated escape"@)
        } else {
            match string_body(s, i + 2) {
                Ok((rest, j)) => Ok((seq![string_escape(s[i + 1])] + rest, j)),
                Err(m) => Err(m),
            }
        }
    } else if s[i] == '\r' {
        string_body(s, i + 2)
    } else {
        match string_body(s, i + 1) {
            Ok((rest, j)) => Ok((seq![s[i]] + rest, j)),
            Err(m) => Err(m),
        }
    }
}

/// The message when an identifier is missing.
pub open spec fn ident_error() -> Seq<char> {
    "Expected identifier"@
}

/// The message when a character other than the expected one comes.
pub open spec fn expected_message(c: char) -> Seq<char> {
    seq!['E', 'x', 'p', 'e', 'c', 't', 'e', 'd', ' ', '\''] + seq![c] + seq!['\'']
}

/// The message for a missing `expected` character.
fn expected_error(expected: char) -> (m: String)
    ensures
    m@ == expected_message(expected),
{
    let mut m: Vec<char> = Vec::new();
    m.push('E');
    m.push('x');
    m.push('p');
    m.push('e');
    m.push('c');
    m.push('t');
    m.push('e');
    m.push('d');
    m.push(' ');
    m.push('\'');
    m.push(expected);
    m.push('\'');
    proof {
        assert(m@ =~= expected_message(expected));
    }
    string_of(m.as_slice())
}

/// The character reader of the bolger parser: the text and the position of
/// the next character.
pub struct Parser {
    chars: Vec<char>,
    pos: usize,
}

impl View for Parser {
    type V = Seq<char>;

    /// The characters not read yet.
    closed spec fn view(&self) -> Seq<char> {
        self.chars@.skip(self.pos as int)
    }
}

impl Parser {
    #[verifier::type_invariant]
    closed spec fn wf(&self) -> bool {
        self.pos <= self.chars.len()
    }

    /// A reader at the start of `src`.
    pub fn new(src: &str) -> (p: Parser)
        ensures
            p@ == src@,
    {
        let chars = chars_of(src);
        let p = Parser { chars, pos: 0 };
        proof {
            assert(p.chars@.skip(0) == p.chars@);
        }
        p
    }

    /// The next character, left unread.
    pub fn peek_char(&self) -> (c: Option<char>)
        ensures
            c == (if self@.len() > 0 {
                Some(self@[0])
            } else {
                None
            }),
    {
        proof {
            use_type_invariant(self);
        }
        if self.pos < self.chars.len() {
            Some(self.chars[self.pos])
        } else {
            None
        }
    }

    /// Reads the next character.
    pub fn next_char(&mut self) -> (c: Option<char>)
        ensures
            old(self)@.len() > 0 ==> c == Some(old(self)@[0]) && final(self)@ == old(
                self,
            )@.drop_first(),
            old(self)@.len() == 0 ==> c is None && final(self)@ == old(self)@,
    {
        proof {
            use_type_invariant(&*self);
        }
        if self.pos < self.chars.len() {
            let c = self.chars[self.pos];
            self.pos = self.pos + 1;
            proof {
                assert(self.chars@.skip(self.pos as int) =~= old(self)@.drop_first());
            }
            Some(c)
        } else {
            None
        }
    }

    /// Reads the next character, which must be `expected`.
    pub fn expect(&mut self, expected: char) -> (r: Result<(), String>)
        ensures
            final(self)@ == (if old(self)@.len() > 0 {
                old(self)@.drop_first()
            } else {
                old(self)@
            }),
            r is Ok <==> (old(self)@.len() > 0 && old(self)@[0] == expected),
            r matches Err(m) ==> m@ == expected_message(expected),
    {
        match self.next_char() {
            Some(c) => {
                if c == expected {
                    return Ok(());
                }
            },
            None => {},
        }
        Err(expected_error(expected))
    }

    /// Skips white space.
    pub fn skip_ws(&mut self)
        ensures
            final(self)@ == old(self)@.skip(white_space_end(old(self)@, 0)),
    {
        proof {
            use_type_invariant(&*self);
        }
        let ghost r = self@;
        let ghost p0 = self.pos as int;
        while self.pos < self.chars.len() && char_is_whitespace(self.chars[self.pos])
            invariant
                0 <= p0 <= self.pos <= self.chars.len(),
                r == self.chars@.skip(p0),
                white_space_end(r, 0) == white_space_end(r, self.pos - p0),
            decreases self.chars.len() - self.pos,
        {
            proof {
                assert(r[self.pos - p0] == self.chars@[self.pos as int]);
            }
            self.pos = self.pos + 1;
        }
        proof {
            if self.pos < self.chars.len() {
                assert(r[self.pos - p0] == self.chars@[self.pos as int]);
            }
            assert(white_space_end(r, self.pos - p0) == self.pos - p0);
            assert(self.chars@.skip(self.pos as int) =~= r.skip(self.pos - p0));
        }
    }

    /// Reads an identifier: letters, digits, `_` and `-`.
    pub fn read_ident(&mut self) -> (res: Result<String, String>)
        ensures
            ident_end(old(self)@, 0) > 0 ==> (res matches Ok(s) && s@ == old(self)@.take(
                ident_end(old(self)@, 0),
            ) && final(self)@ == old(self)@.skip(ident_end(old(self)@, 0))),
            ident_end(old(self)@, 0) == 0 ==> (res matches Err(m) && m@ == ident_error()
                && final(self)@ == old(self)@),
    {
        proof {
            use_type_invariant(&*self);
        }
        let ghost r = self@;
        let ghost p0 = self.pos as int;
        let mut s: Vec<char> = Vec::new();
        loop
            invariant
                0 <= p0 <= self.pos <= self.chars.len(),
                r == self.chars@.skip(p0),
                ident_end(r, 0) == ident_end(r, self.pos - p0),
                s@ == r.take(self.pos - p0),
            ensures
                ident_end(r, self.pos - p0) == self.pos - p0,
            decreases self.chars.len() - self.pos,
        {
            if self.pos >= self.chars.len() {
                break;
            }
            let c = self.chars[self.pos];
            proof {
                assert(r[self.pos - p0] == c);
            }
            if char_is_alphanumeric(c) || c == '_' || c == '-' {
                s.push(c);
                proof {
                    assert(r.take(self.pos - p0 + 1) == r.take(self.pos - p0).push(c));
                }
                self.pos = self.pos + 1;
            } else {
                break;
            }
        }
        proof {
            assert(ident_end(r, self.pos - p0) == self.pos - p0);
            assert(self.chars@.skip(self.pos as int) =~= r.skip(self.pos - p0));
        }
        if s.len() == 0 {
            proof {
                reveal_strlit("Expected identifier");
                assert(r.skip(0) == r);
            }
            Err(string_of(chars_of("Expected identifier").as_slice()))
        } else {
            Ok(string_of(s.as_slice()))
        }
    }

    /// Reads free text up to the next bracket or quote.
    pub fn read_free_text(&mut self) -> (s: String)
        ensures
            s@ == old(self)@.take(free_text_end(old(self)@, 0)),
            final(self)@ == old(self)@.skip(free_text_end(old(self)@, 0)),
    {
        proof {
            use_type_invariant(&*self);
        }
        let ghost r = self@;
        let ghost p0 = self.pos as int;
        let mut s: Vec<char> = Vec::new();
        loop
            invariant
                0 <= p0 <= self.pos <= self.chars.len(),
                r == self.chars@.skip(p0),
                free_text_end(r, 0) == free_text_end(r, self.pos - p0),
                s@ == r.take(self.pos - p0),
            ensures
                free_text_end(r, self.pos - p0) == self.pos - p0,
            decreases self.chars.len() - self.pos,
        {
            if self.pos >= self.chars.len() {
                break;
            }
            let c = self.chars[self.pos];
            proof {
                assert(r[self.pos - p0] == c);
            }
            if c == '\x28' || c == '\x22' || c == '\x29' {
                break;
            }
            s.push(c);
            proof {
                assert(r.take(self.pos - p0 + 1) == r.take(self.pos - p0).push(c));
            }
            self.pos = self.pos + 1;
        }
        proof {
            assert(free_text_end(r, self.pos - p0) == self.pos - p0);
            assert(self.chars@.skip(self.pos as int) =~= r.skip(self.pos - p0));
        }
        string_of(s.as_slice())
    }

    /// Reads the characters of a number: an optional minus sign, then digits
    /// and points. Whether they form a number is left to the caller.
    pub fn read_number_text(&mut self) -> (s: String)
        ensures
            ({
                let o = old(self)@;
                let start: int = if o.len() > 0 && o[0] == '-' {
                    1
                } else {
                    0
                };
                let end = number_end(o, start);
                &&& s@ == o.take(end)
                &&& final(self)@ == o.skip(end)
            }),
    {
        proof {
            use_type_invariant(&*self);
        }
        let ghost r = self@;
        let ghost p0 = self.pos as int;
        let mut s: Vec<char> = Vec::new();
        if self.pos < self.chars.len() && self.chars[self.pos] == '-' {
            proof {
                assert(r[0] == self.chars@[self.pos as int]);
                assert(r.take(1) == seq!['-']);
            }
            s.push('-');
            self.pos = self.pos + 1;
        }
        let ghost start = self.pos - p0;
        loop
            invariant
                0 <= p0 <= self.pos <= self.chars.len(),
                r == self.chars@.skip(p0),
                start <= self.pos - p0,
                start == (if r.len() > 0 && r[0] == '-' {
                    1int
                } else {
                    0int
                }),
                number_end(r, start) == number_end(r, self.pos - p0),
                s@ == r.take(self.pos - p0),
            ensures
                number_end(r, self.pos - p0) == self.pos - p0,
            decreases self.chars.len() - self.pos,
        {
            if self.pos >= self.chars.len() {
                break;
            }
            let c = self.chars[self.pos];
            proof {
                assert(r[self.pos - p0] == c);
            }
            if ('0' <= c && c <= '9') || c == '.' {
                s.push(c);
                proof {
                    assert(r.take(self.pos - p0 + 1) == r.take(self.pos - p0).push(c));
                }
                self.pos = self.pos + 1;
            } else {
                break;
            }
        }
        proof {
            assert(number_end(r, self.pos - p0) == self.pos - p0);
            assert(self.chars@.skip(self.pos as int) =~= r.skip(self.pos - p0));
        }
        string_of(s.as_slice())
    }

    /// Reads a double-quoted string and its escape sequences.
    pub fn read_string(&mut self) -> (res: Result<String, String>)
        ensures
            ({
                let o = old(self)@;
                if o.len() == 0 || o[0] != '\x22' {
                    &&& res matches Err(m) && m@ == expected_message('\x22')
                    &&& final(self)@ == (if o.len() > 0 {
                        o.drop_first()
                    } else {
                        o
                    })
                } else {
                    match string_body(o, 1) {
                        Ok((body, j)) => (res matches Ok(s) && s@ == body && final(self)@
                            == o.skip(j)),
                        Err(m) => (res matches Err(e) && e@ == m && final(self)@ == Seq::<
                            char,
                        >::empty()),
                    }
                }
            }),
    {
        proof {
            use_type_invariant(&*self);
        }
        let ghost o = self@;
        let ghost p0 = self.pos as int;
        if self.pos < self.chars.len() && self.chars[self.pos] == '\x22' {
            self.pos = self.pos + 1;
        } else {
            if self.pos < self.chars.len() {
                self.pos = self.pos + 1;
                proof {
                    assert(self.chars@.skip(self.pos as int) =~= o.drop_first());
                }
            }
            return Err(expected_error('\x22'));
        }
        let mut s: Vec<char> = Vec::new();
        loop
            invariant
                0 <= p0,
                p0 + 1 <= self.pos <= self.chars.len(),
                o == self.chars@.skip(p0),
                o == old(self)@,
                o.len() > 0 && o[0] == '\x22',
                string_body(o, 1) == match string_body(o, self.pos - p0) {
                    Ok((rest, j)) => Ok((s@ + rest, j)),
                    Err(m) => Err(m),
                },
            decreases self.chars.len() - self.pos,
        {
            if self.pos >= self.chars.len() {
                proof {
                    assert(self.chars@.skip(self.pos as int) =~= Seq::<char>::empty());
                }
                return Err(string_of(chars_of("Unterminated string").as_slice()));
            }
            let c = self.chars[self.pos];
            let ghost i = self.pos - p0;
            proof {
                assert(o[i] == c);
            }
            self.pos = self.pos + 1;
            if c == '\x22' {
                proof {
                    assert(s@ + Seq::<char>::empty() =~= s@);
                    assert(self.chars@.skip(self.pos as int) =~= o.skip(i + 1));
                }
                return Ok(string_of(s.as_slice()));
            } else if c == '\\' {
                if self.pos >= self.chars.len() {
                    proof {
                        assert(self.chars@.skip(self.pos as int) =~= Seq::<char>::empty());
                    }
                    return Err(string_of(chars_of("Unterminated escape").as_slice()));
                }
                let n = self.chars[self.pos];
                proof {
                    assert(o[i + 1] == n);
                }
                self.pos = self.pos + 1;
                let e = if n == 'n' {
                    '\n'
                } else if n == 't' {
                    '\t'
                } else {
                    n
                };
                proof {
                    match string_body(o, i + 2) {
                        Ok((rest, j)) => {
                            assert(s@ + (seq![e] + rest) =~= s@.push(e) + rest);
                        },
                        Err(_) => {},
                    }
                }
                s.push(e);
            } else if c == '\r' {
                if self.pos < self.chars.len() {
                    self.pos = self.pos + 1;
                }
                proof {
                    if self.pos - p0 == i + 1 {
                        assert(string_body(o, i + 2) == string_body(o, i + 1));
                    }
                }
            } else {
                proof {
                    match string_body(o, i + 1) {
                        Ok((rest, j)) => {
                            assert(s@ + (seq![c] + rest) =~= s@.push(c) + rest);
                        },
                        Err(_) => {},
                    }
                }
                s.push(c);
            }
        }
    }
}

/// The state of the scanner that finds complete top-level forms in a
/// stream: open brackets, inside a string, or broken for good.
#[derive(Debug, Copy, Clone, PartialEq, Eq, Structural)]
pub struct ScanState {
    pub p_stack: usize,
    pub q_flag: bool,
    pub b_err: bool,
}

/// The state after one byte, or `None` if the byte is neither a bracket nor
/// a quote.
pub open spec fn scan_step(st: ScanState, b: u8) -> Option<ScanState> {
    if b == 0x28 {
        Some(ScanState { p_stack: (st.p_stack + 1) as usize, ..st })
    } else if b == 0x29 {
        if st.p_stack == 0 {
            Some(ScanState { b_err: true, ..st })
        } else {
            Some(ScanState { p_stack: (st.p_stack - 1) as usize, ..st })
        }
    } else if b == 0x22 {
        Some(ScanState { q_flag: !st.q_flag, ..st })
    } else {
        None
    }
}

/// The state after the first `n` bytes.
pub open spec fn scan_state(st: ScanState, buf: Seq<u8>, n: int) -> ScanState
    decreases n,
{
    if n <= 0 {
        st
    } else {
        let s0 = scan_state(st, buf, n - 1);
        match scan_step(s0, buf[n - 1]) {
            Some(s1) => s1,
            None => s0,
        }
    }
}

/// A state at the top level: not broken, no open bracket, not in a string.
pub open spec fn at_top_level(st: ScanState) -> bool {
    !st.b_err && st.p_stack == 0 && !st.q_flag
}

/// The offsets, among the first `n` bytes, just after each bracket or quote
/// that brings the scanner back to the top level.
pub open spec fn scan_cuts(st: ScanState, buf: Seq<u8>, n: int) -> Seq<usize>
    decreases n,
{
    if n <= 0 {
        Seq::empty()
    } else {
        let prev = scan_cuts(st, buf, n - 1);
        match scan_step(scan_state(st, buf, n - 1), buf[n - 1]) {
            Some(s1) => if at_top_level(s1) {
                prev.push(n as usize)
            } else {
                prev
            },
            None => prev,
        }
    }
}

/// The state of a stream after a chunk: a broken stream stays as it is.
pub open spec fn stream_state(st: ScanState, buf: Seq<u8>) -> ScanState {
    if st.b_err {
        st
    } else {
        scan_state(st, buf, buf.len() as int)
    }
}

/// The cuts that a chunk yields: none in a broken stream.
pub open spec fn stream_cuts(st: ScanState, buf: Seq<u8>) -> Seq<usize> {
    if st.b_err {
        Seq::empty()
    } else {
        scan_cuts(st, buf, buf.len() as int)
    }
}

/// Offsets moved `d` bytes further.
pub open spec fn shifted(cuts: Seq<usize>, d: int) -> Seq<usize> {
    cuts.map_values(|c: usize| (c + d) as usize)
}

proof fn lemma_scan_prefix(st: ScanState, a: Seq<u8>, b: Seq<u8>, n: int)
    requires
        0 <= n <= a.len(),
    ensures
        scan_state(st, a + b, n) == scan_state(st, a, n),
        scan_cuts(st, a + b, n) == scan_cuts(st, a, n),
    decreases n,
{
    if n > 0 {
        lemma_scan_prefix(st, a, b, n - 1);
        assert((a + b)[n - 1] == a[n - 1]);
    }
}

proof fn lemma_scan_suffix(st: ScanState, a: Seq<u8>, b: Seq<u8>, k: int)
    requires
        0 <= k <= b.len(),
        a.len() + b.len() <= usize::MAX,
    ensures
        scan_state(st, a + b, a.len() + k) == scan_state(scan_state(st, a, a.len() as int), b, k),
        scan_cuts(st, a + b, a.len() + k) == scan_cuts(st, a, a.len() as int) + shifted(
            scan_cuts(scan_state(st, a, a.len() as int), b, k),
            a.len() as int,
        ),
    decreases k,
{
    let sa = scan_state(st, a, a.len() as int);
    if k == 0 {
        lemma_scan_prefix(st, a, b, a.len() as int);
        assert(shifted(scan_cuts(sa, b, 0), a.len() as int) =~= Seq::<usize>::empty());
        assert(scan_cuts(st, a, a.len() as int) + Seq::<usize>::empty() =~= scan_cuts(
            st,
            a,
            a.len() as int,
        ));
    } else {
        lemma_scan_suffix(st, a, b, k - 1);
        assert((a + b)[a.len() + k - 1] == b[k - 1]);
        let prev = scan_cuts(sa, b, k - 1);
        match scan_step(scan_state(sa, b, k - 1), b[k - 1]) {
            Some(s1) => if at_top_level(s1) {
                assert(shifted(prev.push(k as usize), a.len() as int) =~= shifted(
                    prev,
                    a.len() as int,
                ).push((a.len() + k) as usize));
                assert(scan_cuts(st, a, a.len() as int) + shifted(prev, a.len() as int).push(
                    (a.len() + k) as usize,
                ) =~= (scan_cuts(st, a, a.len() as int) + shifted(prev, a.len() as int)).push(
                    (a.len() + k) as usize,
                ));
            },
            None => {},
        }
    }
}

proof fn lemma_broken_stays_broken(st: ScanState, b: Seq<u8>, k: int)
    requires
        st.b_err,
        0 <= k <= b.len(),
    ensures
        scan_state(st, b, k).b_err,
        scan_cuts(st, b, k) == Seq::<usize>::empty(),
    decreases k,
{
    if k > 0 {
        lemma_broken_stays_broken(st, b, k - 1);
    }
}

/// Feeding a stream to the scanner in two chunks finds the same forms as
/// feeding it at once: the cuts in the second chunk are those found at
/// once, counted from the start of the second chunk; while the stream is
/// not broken, it ends in the same state too.
pub proof fn law_chunks_scan_as_whole(st: ScanState, a: Seq<u8>, b: Seq<u8>)
    requires
        a.len() + b.len() <= usize::MAX,
    ensures
        stream_cuts(st, a + b) == stream_cuts(st, a) + shifted(
            stream_cuts(stream_state(st, a), b),
            a.len() as int,
        ),
        !stream_state(st, a).b_err ==> stream_state(st, a + b) == stream_state(
            stream_state(st, a),
            b,
        ),
{
    if st.b_err {
        assert(shifted(Seq::<usize>::empty(), a.len() as int) =~= Seq::<usize>::empty());
        assert(Seq::<usize>::empty() + Seq::<usize>::empty() =~= Seq::<usize>::empty());
    } else {
        lemma_scan_suffix(st, a, b, b.len() as int);
        assert((a + b).len() == a.len() + b.len());
        let sa = scan_state(st, a, a.len() as int);
        if sa.b_err {
            lemma_broken_stays_broken(sa, b, b.len() as int);
            assert(shifted(Seq::<usize>::empty(), a.len() as int) =~= Seq::<usize>::empty());
        }
    }
}

proof fn lemma_scan_state_bound(st: ScanState, buf: Seq<u8>, n: int)
    requires
        0 <= n <= buf.len(),
        st.p_stack + buf.len() <= usize::MAX,
    ensures
        scan_state(st, buf, n).p_stack <= st.p_stack + n,
        st.b_err ==> scan_state(st, buf, n).b_err,
    decreases n,
{
    if n > 0 {
        lemma_scan_state_bound(st, buf, n - 1);
    }
}

/// Scans a chunk of the stream, updating the state; returns the offsets in
/// `buf` just after each complete top-level form. A broken stream stays
/// broken and yields nothing.
pub fn scan_forms(state: &mut ScanState, buf: &[u8]) -> (cuts: Vec<usize>)
    requires
        old(state).p_stack + buf.len() <= usize::MAX,
    ensures
        old(state).b_err ==> *final(state) == *old(state) && cuts@.len() == 0,
        !old(state).b_err ==> *final(state) == scan_state(*old(state), buf@, buf@.len() as int)
            && cuts@ == scan_cuts(*old(state), buf@, buf@.len() as int),
{
    let mut cuts: Vec<usize> = Vec::new();
    if state.b_err {
        return cuts;
    }
    let ghost st0 = *state;
    let mut ind: usize = 0;
    while ind < buf.len()
        invariant
            0 <= ind <= buf.len(),
            st0.p_stack + buf.len() <= usize::MAX,
            *state == scan_state(st0, buf@, ind as int),
            cuts@ == scan_cuts(st0, buf@, ind as int),
        decreases buf.len() - ind,
    {
        proof {
            lemma_scan_state_bound(st0, buf@, ind as int);
        }
        let b = buf[ind];
        let relevant = if b == 0x28 {
            state.p_stack = state.p_stack + 1;
            true
        } else if b == 0x29 {
            if state.p_stack == 0 {
                state.b_err = true;
            } else {
                state.p_stack = state.p_stack - 1;
            }
            true
        } else if b == 0x22 {
            state.q_flag = !state.q_flag;
            true
        } else {
            false
        };
        if relevant && !state.b_err && state.p_stack == 0 && !state.q_flag {
            cuts.push(ind + 1);
        }
        ind += 1;
    }
    cuts
}

} // verus!
