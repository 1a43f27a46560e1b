//! Bolger documents: texts, numbers and elements such as
//! `(row :id "a" :cols ["x" "y"] "cell" 12)`, read with the character
//! reader of [`crate::bolger`]. Numbers are kept as the text they were
//! written with; that text is checked against the syntax of decimal
//! floating-point numbers.
use vstd::prelude::*;
use crate::bolger::{
    push_str,
    expected_message, free_text_end, ident_end, ident_error, number_end, string_body, white_space_end, Parser,
};
use crate::unicode::{chars_of, string_of};

verus! {

/// Where a run of decimal digits starting at `i` ends.
pub open spec fn digits_end(s: Seq<char>, i: int) -> int
    decreases s.len() - i,
{
    if 0 <= i < s.len() && '0' <= s[i] && s[i] <= '9' {
        digits_end(s, i + 1)
    } else {
        i
    }
}

/// A character in lower case, for ASCII letters.
pub open spec fn lower(c: char) -> char {
    if 'A' <= c && c <= 'Z' {
        ((c as u32) + 32) as char
    } else {
        c
    }
}

/// A text in lower case, for ASCII letters.
pub open spec fn lowered(s: Seq<char>) -> Seq<char> {
    s.map_values(|c: char| lower(c))
}

/// The names of the special values, in any case.
pub open spec fn float_special(b: Seq<char>) -> bool {
    lowered(b) == seq!['i', 'n', 'f'] || lowered(b) == seq!['i', 'n', 'f', 'i', 'n', 'i', 't', 'y']
        || lowered(b) == seq!['n', 'a', 'n']
}

/// Digits with at most one point and at least one digit, then an optional
/// exponent: `e` or `E`, an optional sign and digits.
pub open spec fn float_number(b: Seq<char>) -> bool {
    let d1 = digits_end(b, 0);
    let has_point = d1 < b.len() && b[d1] == '.';
    let after = if has_point {
        digits_end(b, d1 + 1)
    } else {
        d1
    };
    let mantissa = if has_point {
        d1 > 0 || after > d1 + 1
    } else {
        d1 > 0
    };
    if !mantissa {
        false
    } else if after >= b.len() {
        true
    } else if lower(b[after]) == 'e' {
        let e = after + 1;
        let e2 = if e < b.len() && (b[e] == '+' || b[e] == '-') {
            e + 1
        } else {
            e
        };
        let d3 = digits_end(b, e2);
        d3 > e2 && d3 == b.len()
    } else {
        false
    }
}

/// The text of a decimal floating-point number, as `str::parse` reads one
/// for a float: an optional sign, then `inf`, `infinity` or `nan` in any
/// case, or digits as [`float_number`] describes them.
pub open spec fn float_text(s: Seq<char>) -> bool {
    let b = if s.len() > 0 && (s[0] == '+' || s[0] == '-') {
        s.drop_first()
    } else {
        s
    };
    float_special(b) || float_number(b)
}

proof fn lemma_digits_end(s: Seq<char>, i: int)
    requires
        0 <= i <= s.len(),
    ensures
        i <= digits_end(s, i) <= s.len(),
    decreases s.len() - i,
{
    if i < s.len() && '0' <= s[i] && s[i] <= '9' {
        lemma_digits_end(s, i + 1);
    }
}

fn digits_end_at(b: &[char], i: usize) -> (r: usize)
    requires
        i <= b.len(),
    ensures
        r == digits_end(b@, i as int),
{
    let mut j: usize = i;
    while j < b.len() && '0' <= b[j] && b[j] <= '9'
        invariant
            i <= j <= b.len(),
            digits_end(b@, i as int) == digits_end(b@, j as int),
        decreases b.len() - j,
    {
        j += 1;
    }
    j
}

fn lower_char(c: char) -> (r: char)
    ensures
        r == lower(c),
{
    if 'A' <= c && c <= 'Z' {
        let u = c as u32 + 32;
        assert(0x61 <= u <= 0x7a);
        char_of_ascii(u)
    } else {
        c
    }
}

fn char_of_ascii(u: u32) -> (c: char)
    requires
        0x61 <= u <= 0x7a,
    ensures
        c == u as char,
{
    let letters = ['a', 'b', 'c', 'd', 'e', 'f', 'g', 'h', 'i', 'j', 'k', 'l', 'm', 'n', 'o', 'p', 'q', 'r', 's', 't', 'u', 'v', 'w', 'x', 'y', 'z'];
    let k = (u - 0x61) as usize;
    proof {
        assert(letters@[k as int] == u as char) by {
            assert(letters@ == seq!['a', 'b', 'c', 'd', 'e', 'f', 'g', 'h', 'i', 'j', 'k', 'l', 'm', 'n', 'o', 'p', 'q', 'r', 's', 't', 'u', 'v', 'w', 'x', 'y', 'z']);
        }
    }
    letters[k]
}

fn is_lowered(b: &[char], word: &[char]) -> (r: bool)
    ensures
        r == (lowered(b@) == word@),
{
    if b.len() != word.len() {
        proof {
            assert(lowered(b@).len() == b@.len());
        }
        return false;
    }
    let mut i: usize = 0;
    while i < b.len()
        invariant
            0 <= i <= b.len(),
            b.len() == word.len(),
            lowered(b@).take(i as int) == word@.take(i as int),
        decreases b.len() - i,
    {
        if lower_char(b[i]) != word[i] {
            proof {
                assert(lowered(b@)[i as int] != word@[i as int]);
            }
            return false;
        }
        proof {
            assert(lowered(b@).take(i + 1) =~= lowered(b@).take(i as int).push(
                lowered(b@)[i as int],
            ));
            assert(word@.take(i + 1) =~= word@.take(i as int).push(word@[i as int]));
        }
        i += 1;
    }
    proof {
        assert(lowered(b@) =~= lowered(b@).take(i as int));
        assert(word@ =~= word@.take(i as int));
    }
    true
}

/// Whether a text is a decimal floating-point number.
pub fn is_float_text(s: &[char]) -> (r: bool)
    ensures
        r == float_text(s@),
{
    let start: usize = if s.len() > 0 && (s[0] == '+' || s[0] == '-') {
        1
    } else {
        0
    };
    let mut b: Vec<char> = Vec::new();
    let mut i: usize = start;
    while i < s.len()
        invariant
            start <= i <= s.len(),
            b@ == s@.subrange(start as int, i as int),
        decreases s.len() - i,
    {
        b.push(s[i]);
        proof {
            assert(s@.subrange(start as int, i + 1) =~= s@.subrange(start as int, i as int).push(
                s@[i as int],
            ));
        }
        i += 1;
    }
    proof {
        if start == 1 {
            assert(b@ =~= s@.drop_first());
        } else {
            assert(b@ =~= s@);
        }
    }
    let inf = ['i', 'n', 'f'];
    let infinity = ['i', 'n', 'f', 'i', 'n', 'i', 't', 'y'];
    let nan = ['n', 'a', 'n'];
    proof {
        assert(inf@ =~= seq!['i', 'n', 'f']);
        assert(infinity@ =~= seq!['i', 'n', 'f', 'i', 'n', 'i', 't', 'y']);
        assert(nan@ =~= seq!['n', 'a', 'n']);
    }
    if is_lowered(b.as_slice(), &inf) || is_lowered(b.as_slice(), &infinity) || is_lowered(
        b.as_slice(),
        &nan,
    ) {
        return true;
    }
    let d1 = digits_end_at(b.as_slice(), 0);
    proof {
        lemma_digits_end(b@, 0);
    }
    let has_point = d1 < b.len() && b[d1] == '.';
    let after = if has_point {
        proof {
            lemma_digits_end(b@, d1 + 1);
        }
        digits_end_at(b.as_slice(), d1 + 1)
    } else {
        d1
    };
    let mantissa = if has_point {
        d1 > 0 || after > d1 + 1
    } else {
        d1 > 0
    };
    if !mantissa {
        return false;
    }
    if after >= b.len() {
        return true;
    }
    if lower_char(b[after]) == 'e' {
        let e = after + 1;
        let e2 = if e < b.len() && (b[e] == '+' || b[e] == '-') {
            e + 1
        } else {
            e
        };
        let d3 = digits_end_at(b.as_slice(), e2);
        d3 > e2 && d3 == b.len()
    } else {
        false
    }
}

/// The value of an attribute.
#[derive(Debug)]
pub enum AttrValue {
    String(String),
    /// A number, as written
    Number(String),
    Array(Vec<AttrValue>),
    Node(Node),
}

/// A node of a document.
#[derive(Debug)]
pub enum Node {
    Text(String),
    /// A number at the top of a document, as written
    Number(String),
    /// A number among the children of an element, as written; it is shown
    /// as text
    Figure(String),
    Sexp { tag: String, attrs: Vec<(String, AttrValue)>, children: Vec<Node> },
}

/// Why a document could not be read.
#[derive(Debug)]
pub enum DocError {
    /// The character reader failed, with this message
    Reader(String),
    /// A closing bracket outside any element
    UnexpectedClose,
    /// Text that starts like a number at the top is not one
    InvalidNumberText(String),
    /// A character that cannot start anything inside an element
    UnexpectedInElement(char),
    /// The document ends inside an element
    UnexpectedEof,
    /// An attribute value cannot start with this, or is missing
    InvalidAttr(Option<char>),
    /// A number inside an element is not one
    InvalidNumber,
}

/// The mathematical form of an attribute value.
pub enum DocAttr {
    String(Seq<char>),
    Number(Seq<char>),
    Array(Seq<DocAttr>),
    Node(DocNode),
}

/// The mathematical form of a node.
pub enum DocNode {
    Text(Seq<char>),
    Number(Seq<char>),
    Figure(Seq<char>),
    Sexp { tag: Seq<char>, attrs: Seq<(Seq<char>, DocAttr)>, children: Seq<DocNode> },
}

/// The mathematical form of an error.
pub enum DocErr {
    Reader(Seq<char>),
    UnexpectedClose,
    InvalidNumberText(Seq<char>),
    UnexpectedInElement(char),
    UnexpectedEof,
    InvalidAttr(Option<char>),
    InvalidNumber,
}

/// The form of a node.
pub open spec fn node_model(n: Node) -> DocNode
    decreases n,
{
    match n {
        Node::Text(t) => DocNode::Text(t@),
        Node::Number(t) => DocNode::Number(t@),
        Node::Figure(t) => DocNode::Figure(t@),
        Node::Sexp { tag, attrs, children } => DocNode::Sexp {
            tag: tag@,
            attrs: pairs_model(attrs@),
            children: nodes_model(children@),
        },
    }
}

/// The forms of a sequence of nodes.
pub open spec fn nodes_model(s: Seq<Node>) -> Seq<DocNode>
    decreases s,
{
    if s.len() == 0 {
        Seq::empty()
    } else {
        nodes_model(s.drop_last()).push(node_model(s.last()))
    }
}

/// The form of an attribute value.
pub open spec fn attr_model(a: AttrValue) -> DocAttr
    decreases a,
{
    match a {
        AttrValue::String(t) => DocAttr::String(t@),
        AttrValue::Number(t) => DocAttr::Number(t@),
        AttrValue::Array(items) => DocAttr::Array(attrs_model(items@)),
        AttrValue::Node(n) => DocAttr::Node(node_model(n)),
    }
}

/// The forms of a sequence of attribute values.
pub open spec fn attrs_model(s: Seq<AttrValue>) -> Seq<DocAttr>
    decreases s,
{
    if s.len() == 0 {
        Seq::empty()
    } else {
        attrs_model(s.drop_last()).push(attr_model(s.last()))
    }
}

/// The forms of the attributes of an element.
pub open spec fn pairs_model(s: Seq<(String, AttrValue)>) -> Seq<(Seq<char>, DocAttr)>
    decreases s,
{
    if s.len() == 0 {
        Seq::empty()
    } else {
        pairs_model(s.drop_last()).push((s.last().0@, attr_model(s.last().1)))
    }
}

/// The form of an error.
pub open spec fn err_model(e: DocError) -> DocErr {
    match e {
        DocError::Reader(m) => DocErr::Reader(m@),
        DocError::UnexpectedClose => DocErr::UnexpectedClose,
        DocError::InvalidNumberText(t) => DocErr::InvalidNumberText(t@),
        DocError::UnexpectedInElement(c) => DocErr::UnexpectedInElement(c),
        DocError::UnexpectedEof => DocErr::UnexpectedEof,
        DocError::InvalidAttr(c) => DocErr::InvalidAttr(c),
        DocError::InvalidNumber => DocErr::InvalidNumber,
    }
}

/// Where a run of white space starting at `i` ends lies between `i` and
/// the end of the text.
pub proof fn lemma_ws_range(s: Seq<char>, i: int)
    requires
        0 <= i <= s.len(),
    ensures
        i <= white_space_end(s, i) <= s.len(),
    decreases s.len() - i,
{
    if i < s.len() && crate::unicode::is_white_space(s[i]) {
        lemma_ws_range(s, i + 1);
    }
}

/// Where a run of identifier characters starting at `i` ends lies between
/// `i` and the end of the text.
pub proof fn lemma_ident_range(s: Seq<char>, i: int)
    requires
        0 <= i <= s.len(),
    ensures
        i <= ident_end(s, i) <= s.len(),
    decreases s.len() - i,
{
    if i < s.len() && crate::bolger::is_ident_char(s[i]) {
        lemma_ident_range(s, i + 1);
    }
}

/// Where a run of number characters starting at `i` ends lies between `i`
/// and the end of the text.
pub proof fn lemma_number_range(s: Seq<char>, i: int)
    requires
        0 <= i <= s.len(),
    ensures
        i <= number_end(s, i) <= s.len(),
    decreases s.len() - i,
{
    if i < s.len() && crate::bolger::is_number_char(s[i]) {
        lemma_number_range(s, i + 1);
    }
}

/// Where free text starting at `i` ends lies between `i` and the end.
pub proof fn lemma_free_text_range(s: Seq<char>, i: int)
    requires
        0 <= i <= s.len(),
    ensures
        i <= free_text_end(s, i) <= s.len(),
    decreases s.len() - i,
{
    if i < s.len() && !crate::bolger::ends_free_text(s[i]) {
        lemma_free_text_range(s, i + 1);
    }
}

/// The body of a string ends after the position it starts from.
pub proof fn lemma_string_body_range(s: Seq<char>, i: int)
    requires
        0 <= i,
    ensures
        string_body(s, i) matches Ok((_, j)) ==> i < j <= s.len(),
    decreases s.len() + 1 - i,
{
    if 0 <= i < s.len() {
        if s[i] == '\\' && i + 1 < s.len() {
            lemma_string_body_range(s, i + 2);
        } else if s[i] == '\r' {
            lemma_string_body_range(s, i + 2);
        } else if s[i] != '\x22' && s[i] != '\\' {
            lemma_string_body_range(s, i + 1);
        }
    }
}

/// The text with leading white space skipped.
pub open spec fn ws_skip(s: Seq<char>) -> Seq<char> {
    s.skip(white_space_end(s, 0))
}

/// A decimal digit.
pub open spec fn is_digit_char(c: char) -> bool {
    '0' <= c && c <= '9'
}

/// A number inside an element: an optional minus sign, digits and points,
/// which must form a number; the number and the rest of the text.
pub open spec fn p_number(t: Seq<char>) -> Result<(Seq<char>, Seq<char>), DocErr> {
    let start: int = if t.len() > 0 && t[0] == '-' {
        1
    } else {
        0
    };
    let end = number_end(t, start);
    if float_text(t.take(end)) {
        Ok((t.take(end), t.skip(end)))
    } else {
        Err(DocErr::InvalidNumber)
    }
}

/// An element at the start of `s`: `(`, its tag, then its attributes and
/// children up to `)`; the element and the rest of the text.
pub open spec fn p_element(s: Seq<char>) -> Result<(DocNode, Seq<char>), DocErr>
    decreases s.len(), 1int,
{
    if s.len() == 0 || s[0] != '\x28' {
        Err(DocErr::Reader(expected_message('\x28')))
    } else {
        let t = ws_skip(s.drop_first());
        let e = ident_end(t, 0);
        proof {
            lemma_ws_range(s.drop_first(), 0);
            lemma_ident_range(t, 0);
        }
        if e == 0 {
            Err(DocErr::Reader(ident_error()))
        } else {
            p_items(t.skip(e), t.take(e), Seq::empty(), Seq::empty())
        }
    }
}

/// The attributes and children of an element from `s` on, with those read
/// so far, up to its `)`.
pub open spec fn p_items(
    s: Seq<char>,
    tag: Seq<char>,
    attrs: Seq<(Seq<char>, DocAttr)>,
    children: Seq<DocNode>,
) -> Result<(DocNode, Seq<char>), DocErr>
    decreases s.len(), 2int,
{
    let t = ws_skip(s);
    proof {
        lemma_ws_range(s, 0);
    }
    if t.len() == 0 {
        Err(DocErr::UnexpectedEof)
    } else if t[0] == '\x29' {
        Ok((DocNode::Sexp { tag, attrs, children }, t.drop_first()))
    } else if t[0] == ':' {
        let u = t.drop_first();
        let e = ident_end(u, 0);
        proof {
            lemma_ident_range(u, 0);
        }
        if e == 0 {
            Err(DocErr::Reader(ident_error()))
        } else {
            let w = ws_skip(u.skip(e));
            proof {
                lemma_ws_range(u.skip(e), 0);
            }
            match p_attr(w) {
                Ok((v, rest)) => if rest.len() < s.len() {
                    p_items(rest, tag, attrs.push((u.take(e), v)), children)
                } else {
                    Err(DocErr::UnexpectedEof)
                },
                Err(x) => Err(x),
            }
        }
    } else if t[0] == '\x28' {
        match p_element(t) {
            Ok((n, rest)) => if rest.len() < s.len() {
                p_items(rest, tag, attrs, children.push(n))
            } else {
                Err(DocErr::UnexpectedEof)
            },
            Err(x) => Err(x),
        }
    } else if t[0] == '\x22' {
        match string_body(t, 1) {
            Ok((b, j)) => if 1 <= j <= t.len() {
                p_items(t.skip(j), tag, attrs, children.push(DocNode::Text(b)))
            } else {
                Err(DocErr::UnexpectedEof)
            },
            Err(m) => Err(DocErr::Reader(m)),
        }
    } else if is_digit_char(t[0]) || t[0] == '-' {
        match p_number(t) {
            Ok((text, rest)) => if rest.len() < s.len() {
                p_items(rest, tag, attrs, children.push(DocNode::Figure(text)))
            } else {
                Err(DocErr::UnexpectedEof)
            },
            Err(x) => Err(x),
        }
    } else {
        Err(DocErr::UnexpectedInElement(t[0]))
    }
}

/// An attribute value at the start of `s`, after white space: a string, an
/// array in `[ ]`, an element or a number; the value and the rest.
pub open spec fn p_attr(s: Seq<char>) -> Result<(DocAttr, Seq<char>), DocErr>
    decreases s.len(), 2int,
{
    let t = ws_skip(s);
    proof {
        lemma_ws_range(s, 0);
    }
    if t.len() == 0 {
        Err(DocErr::InvalidAttr(None))
    } else if t[0] == '\x22' {
        match string_body(t, 1) {
            Ok((b, j)) => Ok((DocAttr::String(b), t.skip(j))),
            Err(m) => Err(DocErr::Reader(m)),
        }
    } else if t[0] == '[' {
        p_attr_items(t.drop_first(), Seq::empty())
    } else if t[0] == '\x28' {
        match p_element(t) {
            Ok((n, rest)) => Ok((DocAttr::Node(n), rest)),
            Err(x) => Err(x),
        }
    } else if is_digit_char(t[0]) || t[0] == '-' {
        match p_number(t) {
            Ok((text, rest)) => Ok((DocAttr::Number(text), rest)),
            Err(x) => Err(x),
        }
    } else {
        Err(DocErr::InvalidAttr(Some(t[0])))
    }
}

/// The items of an array value from `s` on, with those read so far, up to
/// its `]`.
pub open spec fn p_attr_items(s: Seq<char>, acc: Seq<DocAttr>) -> Result<
    (DocAttr, Seq<char>),
    DocErr,
>
    decreases s.len(), 3int,
{
    let t = ws_skip(s);
    proof {
        lemma_ws_range(s, 0);
    }
    if t.len() > 0 && t[0] == ']' {
        Ok((DocAttr::Array(acc), t.drop_first()))
    } else {
        match p_attr(t) {
            Ok((v, rest)) => if rest.len() < s.len() {
                p_attr_items(rest, acc.push(v))
            } else {
                Err(DocErr::UnexpectedEof)
            },
            Err(x) => Err(x),
        }
    }
}

/// The nodes of a document from `s` on, with those read so far: elements,
/// strings, numbers and free text, with white space between them. Free
/// text runs up to the next bracket or quote.
pub open spec fn p_doc(s: Seq<char>, acc: Seq<DocNode>) -> Result<Seq<DocNode>, DocErr>
    decreases s.len(),
{
    if s.len() == 0 {
        Ok(acc)
    } else if s[0] == '\x28' {
        match p_element(s) {
            Ok((n, rest)) => if rest.len() < s.len() {
                p_doc(rest, acc.push(n))
            } else {
                Err(DocErr::UnexpectedEof)
            },
            Err(x) => Err(x),
        }
    } else if s[0] == '\x29' {
        Err(DocErr::UnexpectedClose)
    } else if s[0] == '\x22' {
        match string_body(s, 1) {
            Ok((b, j)) => if 1 <= j <= s.len() {
                p_doc(s.skip(j), acc.push(DocNode::Text(b)))
            } else {
                Err(DocErr::UnexpectedEof)
            },
            Err(m) => Err(DocErr::Reader(m)),
        }
    } else if s[0] == '\n' || s[0] == '\r' || s[0] == '\t' || s[0] == ' ' {
        p_doc(s.drop_first(), acc)
    } else if s[0] == '-' || is_digit_char(s[0]) {
        let e = free_text_end(s, 0);
        proof {
            lemma_free_text_range(s, 0);
        }
        if !float_text(s.take(e)) {
            Err(DocErr::InvalidNumberText(s.take(e)))
        } else if e >= 1 {
            p_doc(s.skip(e), acc.push(DocNode::Number(s.take(e))))
        } else {
            Err(DocErr::UnexpectedEof)
        }
    } else {
        let e = free_text_end(s, 0);
        proof {
            lemma_free_text_range(s, 0);
        }
        if e >= 1 {
            p_doc(s.skip(e), acc.push(DocNode::Text(s.take(e))))
        } else {
            Err(DocErr::UnexpectedEof)
        }
    }
}

proof fn lemma_number_shrinks(t: Seq<char>)
    requires
        t.len() > 0,
        is_digit_char(t[0]) || t[0] == '-',
    ensures
        p_number(t) matches Ok((_, rest)) ==> rest.len() < t.len(),
{
    let start: int = if t[0] == '-' {
        1
    } else {
        0
    };
    lemma_number_range(t, 1);
    if start == 0 {
        assert(crate::bolger::is_number_char(t[0]));
        assert(number_end(t, 0) == number_end(t, 1));
    }
}

proof fn lemma_element_shrinks(s: Seq<char>)
    ensures
        p_element(s) matches Ok((_, rest)) ==> rest.len() < s.len(),
    decreases s.len(), 1int,
{
    if s.len() > 0 && s[0] == '\x28' {
        let t = ws_skip(s.drop_first());
        lemma_ws_range(s.drop_first(), 0);
        lemma_ident_range(t, 0);
        let e = ident_end(t, 0);
        if e != 0 {
            lemma_items_shrinks(t.skip(e), t.take(e), Seq::empty(), Seq::empty());
        }
    }
}

proof fn lemma_items_shrinks(
    s: Seq<char>,
    tag: Seq<char>,
    attrs: Seq<(Seq<char>, DocAttr)>,
    children: Seq<DocNode>,
)
    ensures
        p_items(s, tag, attrs, children) matches Ok((_, rest)) ==> rest.len() < s.len(),
    decreases s.len(), 2int,
{
    let t = ws_skip(s);
    lemma_ws_range(s, 0);
    if t.len() > 0 && t[0] == ':' {
        let u = t.drop_first();
        lemma_ident_range(u, 0);
        let e = ident_end(u, 0);
        if e != 0 {
            let w = ws_skip(u.skip(e));
            lemma_ws_range(u.skip(e), 0);
            lemma_attr_shrinks(w);
            match p_attr(w) {
                Ok((v, rest)) => if rest.len() < s.len() {
                    lemma_items_shrinks(rest, tag, attrs.push((u.take(e), v)), children);
                },
                Err(_) => {},
            }
        }
    } else if t.len() > 0 && t[0] == '\x28' {
        lemma_element_shrinks(t);
        match p_element(t) {
            Ok((n, rest)) => if rest.len() < s.len() {
                lemma_items_shrinks(rest, tag, attrs, children.push(n));
            },
            Err(_) => {},
        }
    } else if t.len() > 0 && t[0] == '\x22' {
        match string_body(t, 1) {
            Ok((b, j)) => if 1 <= j <= t.len() {
                lemma_items_shrinks(t.skip(j), tag, attrs, children.push(DocNode::Text(b)));
            },
            Err(_) => {},
        }
    } else if t.len() > 0 && (is_digit_char(t[0]) || t[0] == '-') {
        match p_number(t) {
            Ok((text, rest)) => if rest.len() < s.len() {
                lemma_items_shrinks(rest, tag, attrs, children.push(DocNode::Figure(text)));
            },
            Err(_) => {},
        }
    }
}

proof fn lemma_attr_shrinks(s: Seq<char>)
    ensures
        p_attr(s) matches Ok((_, rest)) ==> rest.len() < s.len(),
    decreases s.len(), 2int,
{
    let t = ws_skip(s);
    lemma_ws_range(s, 0);
    if t.len() > 0 {
        if t[0] == '\x22' {
            lemma_string_body_range(t, 1);
        } else if t[0] == '[' {
            lemma_attr_items_shrinks(t.drop_first(), Seq::empty());
        } else if t[0] == '\x28' {
            lemma_element_shrinks(t);
        } else if is_digit_char(t[0]) || t[0] == '-' {
            lemma_number_shrinks(t);
        }
    }
}

proof fn lemma_attr_items_shrinks(s: Seq<char>, acc: Seq<DocAttr>)
    ensures
        p_attr_items(s, acc) matches Ok((_, rest)) ==> rest.len() < s.len(),
    decreases s.len(), 3int,
{
    let t = ws_skip(s);
    lemma_ws_range(s, 0);
    if !(t.len() > 0 && t[0] == ']') {
        lemma_attr_shrinks(t);
        match p_attr(t) {
            Ok((v, rest)) => if rest.len() < s.len() {
                lemma_attr_items_shrinks(rest, acc.push(v));
            },
            Err(_) => {},
        }
    }
}

proof fn lemma_nodes_push(s: Seq<Node>, n: Node)
    ensures
        nodes_model(s.push(n)) == nodes_model(s).push(node_model(n)),
{
    assert(s.push(n).drop_last() =~= s);
}

proof fn lemma_attrs_push(s: Seq<AttrValue>, a: AttrValue)
    ensures
        attrs_model(s.push(a)) == attrs_model(s).push(attr_model(a)),
{
    assert(s.push(a).drop_last() =~= s);
}

proof fn lemma_pairs_push(s: Seq<(String, AttrValue)>, k: String, a: AttrValue)
    ensures
        pairs_model(s.push((k, a))) == pairs_model(s).push((k@, attr_model(a))),
{
    assert(s.push((k, a)).drop_last() =~= s);
}

/// What reading gave stands for what the grammar gives.
pub open spec fn read_as<T, M>(
    g: Result<(M, Seq<char>), DocErr>,
    r: Result<T, DocError>,
    model: spec_fn(T) -> M,
    after: Seq<char>,
) -> bool {
    match g {
        Ok((m, rest)) => r matches Ok(x) && model(x) == m && after == rest,
        Err(e) => r matches Err(x) && err_model(x) == e,
    }
}

impl Parser {
    /// Reads a number inside an element: the text of the number.
    pub fn read_number(&mut self) -> (r: Result<String, DocError>)
        requires
            old(self)@.len() > 0,
            is_digit_char(old(self)@[0]) || old(self)@[0] == '-',
        ensures
            match p_number(old(self)@) {
                Ok((text, rest)) => r matches Ok(x) && x@ == text && final(self)@ == rest,
                Err(e) => r matches Err(x) && err_model(x) == e,
            },
    {
        let text = self.read_number_text();
        if is_float_text(chars_of(text.as_str()).as_slice()) {
            Ok(text)
        } else {
            Err(DocError::InvalidNumber)
        }
    }

    /// Reads an element: `(`, its tag, its attributes and children, `)`.
    pub fn parse_element(&mut self) -> (r: Result<Node, DocError>)
        ensures
            read_as(p_element(old(self)@), r, |n: Node| node_model(n), final(self)@),
        decreases old(self)@.len(), 1int,
    {
        let ghost s = self@;
        match self.expect('\x28') {
            Ok(()) => {},
            Err(m) => {
                return Err(DocError::Reader(m));
            },
        }
        self.skip_ws();
        proof {
            lemma_ws_range(s.drop_first(), 0);
        }
        proof {
            lemma_ident_range(self@, 0);
        }
        let tag = match self.read_ident() {
            Ok(t) => t,
            Err(m) => {
                return Err(DocError::Reader(m));
            },
        };
        proof {
            let t = ws_skip(s.drop_first());
            lemma_ident_range(t, 0);
        }
        let ghost tagv = tag@;
        let mut attrs: Vec<(String, AttrValue)> = Vec::new();
        let mut children: Vec<Node> = Vec::new();
        proof {
            assert(pairs_model(attrs@) =~= Seq::<(Seq<char>, DocAttr)>::empty());
            assert(nodes_model(children@) =~= Seq::<DocNode>::empty());
        }
        loop
            invariant
                self@.len() < s.len(),
                s == old(self)@,
                tag@ == tagv,
                p_element(s) == p_items(self@, tagv, pairs_model(attrs@), nodes_model(children@)),
            decreases self@.len(),
        {
            let ghost cur = self@;
            self.skip_ws();
            proof {
                lemma_ws_range(cur, 0);
            }
            let ghost t = self@;
            let c = match self.peek_char() {
                Some(c) => c,
                None => {
                    return Err(DocError::UnexpectedEof);
                },
            };
            if c == '\x29' {
                let _ = self.next_char();
                return Ok(Node::Sexp { tag, attrs, children });
            } else if c == ':' {
                let _ = self.next_char();
                proof {
                    lemma_ident_range(self@, 0);
                }
                let key = match self.read_ident() {
                    Ok(k) => k,
                    Err(m) => {
                        return Err(DocError::Reader(m));
                    },
                };
                proof {
                    lemma_ident_range(t.drop_first(), 0);
                }
                let ghost before_ws = self@;
                self.skip_ws();
                proof {
                    lemma_ws_range(before_ws, 0);
                }
                let ghost w = self@;
                let v = match self.parse_attr_value() {
                    Ok(v) => v,
                    Err(e) => {
                        return Err(e);
                    },
                };
                proof {
                    lemma_attr_shrinks(w);
                    lemma_pairs_push(attrs@, key, v);
                }
                attrs.push((key, v));
            } else if c == '\x28' {
                let n = match self.parse_element() {
                    Ok(n) => n,
                    Err(e) => {
                        return Err(e);
                    },
                };
                proof {
                    lemma_element_shrinks(t);
                    lemma_nodes_push(children@, n);
                }
                children.push(n);
            } else if c == '\x22' {
                let b = match self.read_string() {
                    Ok(b) => b,
                    Err(m) => {
                        return Err(DocError::Reader(m));
                    },
                };
                proof {
                    lemma_string_body_range(t, 1);
                    lemma_nodes_push(children@, Node::Text(b));
                }
                children.push(Node::Text(b));
            } else if ('0' <= c && c <= '9') || c == '-' {
                let text = match self.read_number() {
                    Ok(x) => x,
                    Err(e) => {
                        return Err(e);
                    },
                };
                proof {
                    lemma_number_shrinks(t);
                    lemma_nodes_push(children@, Node::Figure(text));
                }
                children.push(Node::Figure(text));
            } else {
                return Err(DocError::UnexpectedInElement(c));
            }
        }
    }

    /// Reads an attribute value: a string, an array, an element or a number.
    pub fn parse_attr_value(&mut self) -> (r: Result<AttrValue, DocError>)
        ensures
            read_as(p_attr(old(self)@), r, |a: AttrValue| attr_model(a), final(self)@),
        decreases old(self)@.len(), 2int,
    {
        let ghost s = self@;
        self.skip_ws();
        proof {
            lemma_ws_range(s, 0);
        }
        let ghost t = self@;
        let c = match self.peek_char() {
            Some(c) => c,
            None => {
                return Err(DocError::InvalidAttr(None));
            },
        };
        if c == '\x22' {
            match self.read_string() {
                Ok(b) => Ok(AttrValue::String(b)),
                Err(m) => Err(DocError::Reader(m)),
            }
        } else if c == '[' {
            let _ = self.next_char();
            let mut items: Vec<AttrValue> = Vec::new();
            proof {
                assert(attrs_model(items@) =~= Seq::<DocAttr>::empty());
            }
            loop
                invariant
                    self@.len() < s.len(),
                    s == old(self)@,
                    p_attr(s) == p_attr_items(self@, attrs_model(items@)),
                decreases self@.len(),
            {
                let ghost cur = self@;
                self.skip_ws();
                proof {
                    lemma_ws_range(cur, 0);
                }
                let ghost u = self@;
                let close = match self.peek_char() {
                    Some(d) => d == ']',
                    None => false,
                };
                if close {
                    let _ = self.next_char();
                    return Ok(AttrValue::Array(items));
                }
                let v = match self.parse_attr_value() {
                    Ok(v) => v,
                    Err(e) => {
                        return Err(e);
                    },
                };
                proof {
                    lemma_attr_shrinks(u);
                    lemma_attrs_push(items@, v);
                }
                items.push(v);
            }
        } else if c == '\x28' {
            match self.parse_element() {
                Ok(n) => Ok(AttrValue::Node(n)),
                Err(e) => Err(e),
            }
        } else if ('0' <= c && c <= '9') || c == '-' {
            match self.read_number() {
                Ok(x) => Ok(AttrValue::Number(x)),
                Err(e) => Err(e),
            }
        } else {
            Err(DocError::InvalidAttr(Some(c)))
        }
    }
}

/// The nodes of a document, in the terms of the contract.
pub open spec fn doc_as(g: Result<Seq<DocNode>, DocErr>, r: Result<Vec<Node>, DocError>) -> bool {
    match g {
        Ok(nodes) => r matches Ok(x) && nodes_model(x@) == nodes,
        Err(e) => r matches Err(x) && err_model(x) == e,
    }
}

impl Parser {
    /// Reads the whole document: elements, strings and numbers, with white
    /// space between them.
    pub fn parse_document(&mut self) -> (r: Result<Vec<Node>, DocError>)
        ensures
            doc_as(p_doc(old(self)@, Seq::empty()), r),
    {
        let mut nodes: Vec<Node> = Vec::new();
        proof {
            assert(nodes_model(nodes@) =~= Seq::<DocNode>::empty());
        }
        loop
            invariant
                p_doc(old(self)@, Seq::empty()) == p_doc(self@, nodes_model(nodes@)),
            decreases self@.len(),
        {
            let ghost t = self@;
            let c = match self.peek_char() {
                Some(c) => c,
                None => {
                    return Ok(nodes);
                },
            };
            if c == '\x28' {
                let n = match self.parse_element() {
                    Ok(n) => n,
                    Err(e) => {
                        return Err(e);
                    },
                };
                proof {
                    lemma_element_shrinks(t);
                    lemma_nodes_push(nodes@, n);
                }
                nodes.push(n);
            } else if c == '\x29' {
                return Err(DocError::UnexpectedClose);
            } else if c == '\x22' {
                let b = match self.read_string() {
                    Ok(b) => b,
                    Err(m) => {
                        return Err(DocError::Reader(m));
                    },
                };
                proof {
                    lemma_string_body_range(t, 1);
                    lemma_nodes_push(nodes@, Node::Text(b));
                }
                nodes.push(Node::Text(b));
            } else if c == '\n' || c == '\r' || c == '\t' || c == ' ' {
                let _ = self.next_char();
            } else if c == '-' || ('0' <= c && c <= '9') {
                let text = self.read_free_text();
                proof {
                    lemma_free_text_range(t, 0);
                    assert(free_text_end(t, 0) == free_text_end(t, 1));
                    lemma_free_text_range(t, 1);
                }
                if !is_float_text(chars_of(text.as_str()).as_slice()) {
                    return Err(DocError::InvalidNumberText(text));
                }
                proof {
                    lemma_nodes_push(nodes@, Node::Number(text));
                }
                nodes.push(Node::Number(text));
            } else {
                let text = self.read_free_text();
                proof {
                    lemma_free_text_range(t, 0);
                    assert(free_text_end(t, 0) == free_text_end(t, 1));
                    lemma_free_text_range(t, 1);
                    lemma_nodes_push(nodes@, Node::Text(text));
                }
                nodes.push(Node::Text(text));
            }
        }
    }
}

/// What std's `Debug` writes for a character: the character quoted, with
/// escapes.
pub uninterp spec fn debug_char(c: char) -> Seq<char>;

/// Formats a character with std's `Debug` (`format!("{c:?}")`). The result
/// is named; as std documents, a printable ASCII character other than a
/// quote or a backslash is written between single quotes as it is.
#[verifier::external_body]
fn char_debug(c: char) -> (s: String)
    ensures
        s@ == debug_char(c),
        (' ' <= c && c <= '~' && c != '\x27' && c != '\x5c') ==> s@ == seq!['\x27', c, '\x27'],
{
    format!("{c:?}")
}

/// The message of a document error, as the parser's users print it.
pub open spec fn doc_message(e: DocErr) -> Seq<char> {
    match e {
        DocErr::Reader(m) => m,
        DocErr::UnexpectedClose => "Unexpected ')'"@,
        DocErr::InvalidNumberText(t) => "Invalid number "@ + t,
        DocErr::UnexpectedInElement(c) => "Unexpected character inside element "@ + debug_char(c),
        DocErr::UnexpectedEof => "Unexpected EOF inside element"@,
        DocErr::InvalidAttr(None) => "Invalid attribute value None"@,
        DocErr::InvalidAttr(Some(c)) => "Invalid attribute value Some("@ + debug_char(c) + ")"@,
        DocErr::InvalidNumber => "Invalid number"@,
    }
}

impl DocError {
    /// The message of the error.
    pub fn message(&self) -> (m: String)
        ensures
            m@ == doc_message(err_model(*self)),
    {
        let mut out: Vec<char> = Vec::new();
        match self {
            DocError::Reader(m) => push_str(&mut out, m.as_str()),
            DocError::UnexpectedClose => push_str(&mut out, "Unexpected ')'"),
            DocError::InvalidNumberText(t) => {
                push_str(&mut out, "Invalid number ");
                push_str(&mut out, t.as_str());
            },
            DocError::UnexpectedInElement(c) => {
                push_str(&mut out, "Unexpected character inside element ");
                let d = char_debug(*c);
                push_str(&mut out, d.as_str());
            },
            DocError::UnexpectedEof => push_str(&mut out, "Unexpected EOF inside element"),
            DocError::InvalidAttr(None) => push_str(&mut out, "Invalid attribute value None"),
            DocError::InvalidAttr(Some(c)) => {
                push_str(&mut out, "Invalid attribute value Some(");
                let d = char_debug(*c);
                push_str(&mut out, d.as_str());
                push_str(&mut out, ")");
            },
            DocError::InvalidNumber => push_str(&mut out, "Invalid number"),
        }
        string_of(out.as_slice())
    }
}

/// Reads a document.
pub fn parse(src: &str) -> (r: Result<Vec<Node>, DocError>)
    ensures
        doc_as(p_doc(src@, Seq::empty()), r),
{
    let mut p = Parser::new(src);
    p.parse_document()
}

} // verus!
