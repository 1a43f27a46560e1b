//! What a bolger document stands for: its nodes checked and turned into the
//! elements the shell window shows (styled text, headers, tables), with the
//! elements that carry an `id` kept by that id.
use vstd::prelude::*;
use crate::bolger::push_str;
use crate::bolger_doc::{attr_model, attrs_model, node_model, nodes_model, pairs_model, AttrValue, DocAttr, DocNode, Node};
use crate::unicode::{chars_of, string_of};

verus! {

/// The size of a run of text in a document.
#[derive(Default, PartialEq, Eq, Copy, Clone, Debug, Structural)]
pub enum TextSize {
    #[default]
    Normal,
    H(u8),
}

/// A named column of a table.
#[derive(Debug, Clone)]
pub struct TableColumn {
    pub name: String,
}

/// An element of a document.
#[derive(Debug)]
pub enum Element {
    /// A number, as written
    Number(String),
    Text(String),
    Bold(Box<Element>),
    Italic(Box<Element>),
    Header(u8, Box<Element>),
    Table { columns: Vec<TableColumn>, rows: Vec<Vec<Option<Element>>> },
    Column(TableColumn),
    /// The element kept under this id
    Id(String),
}

/// The mathematical form of an element.
pub enum Elem {
    Number(Seq<char>),
    Text(Seq<char>),
    Bold(Box<Elem>),
    Italic(Box<Elem>),
    Header(u8, Box<Elem>),
    Table { columns: Seq<Seq<char>>, rows: Seq<Seq<Option<Elem>>> },
    Column(Seq<char>),
    Id(Seq<char>),
}

/// The form of an element.
pub open spec fn elem_model(e: Element) -> Elem
    decreases e,
{
    match e {
        Element::Number(t) => Elem::Number(t@),
        Element::Text(t) => Elem::Text(t@),
        Element::Bold(b) => Elem::Bold(Box::new(elem_model(*b))),
        Element::Italic(b) => Elem::Italic(Box::new(elem_model(*b))),
        Element::Header(l, b) => Elem::Header(l, Box::new(elem_model(*b))),
        Element::Table { columns, rows } => Elem::Table {
            columns: columns_model(columns@),
            rows: rows_model(rows@),
        },
        Element::Column(c) => Elem::Column(c.name@),
        Element::Id(s) => Elem::Id(s@),
    }
}

/// The names of columns.
pub open spec fn columns_model(cs: Seq<TableColumn>) -> Seq<Seq<char>> {
    cs.map_values(|c: TableColumn| c.name@)
}

/// The forms of the rows of a table.
pub open spec fn rows_model(rows: Seq<Vec<Option<Element>>>) -> Seq<Seq<Option<Elem>>>
    decreases rows,
{
    if rows.len() == 0 {
        Seq::empty()
    } else {
        rows_model(rows.drop_last()).push(cells_model(rows.last()@))
    }
}

/// The forms of the cells of a row.
pub open spec fn cells_model(cells: Seq<Option<Element>>) -> Seq<Option<Elem>>
    decreases cells,
{
    if cells.len() == 0 {
        Seq::empty()
    } else {
        cells_model(cells.drop_last()).push(
            match cells.last() {
                Some(e) => Some(elem_model(e)),
                None => None,
            },
        )
    }
}

/// The forms of the elements kept by id, in the order their ids first came.
pub open spec fn ids_model(ids: Seq<(String, Element)>) -> Seq<(Seq<char>, Elem)>
    decreases ids,
{
    if ids.len() == 0 {
        Seq::empty()
    } else {
        ids_model(ids.drop_last()).push((ids.last().0@, elem_model(ids.last().1)))
    }
}

/// The forms of a sequence of elements.
pub open spec fn elems_model(es: Seq<Element>) -> Seq<Elem>
    decreases es,
{
    if es.len() == 0 {
        Seq::empty()
    } else {
        elems_model(es.drop_last()).push(elem_model(es.last()))
    }
}

/// Whether an element is a block, rather than a run of text.
pub open spec fn is_block_elem(e: Elem) -> bool {
    !(e is Number || e is Bold || e is Text || e is Italic)
}

/// Where the first entry with key `k` is, from `j` on, or the length.
pub open spec fn first_key(ids: Seq<(Seq<char>, Elem)>, k: Seq<char>, j: int) -> int
    decreases ids.len() - j,
{
    if j < 0 || j >= ids.len() {
        ids.len() as int
    } else if ids[j].0 == k {
        j
    } else {
        first_key(ids, k, j + 1)
    }
}

/// The elements kept by id with `e` kept under `k`: it replaces the element
/// kept under `k`, or comes last.
pub open spec fn with_id(ids: Seq<(Seq<char>, Elem)>, k: Seq<char>, e: Elem) -> Seq<(Seq<char>, Elem)> {
    let i = first_key(ids, k, 0);
    if 0 <= i < ids.len() {
        ids.update(i, (k, e))
    } else {
        ids.push((k, e))
    }
}

/// The id that the attributes of an element give it: the first `id`
/// attribute, which must be a string.
pub open spec fn id_of(attrs: Seq<(Seq<char>, DocAttr)>) -> Result<Option<Seq<char>>, Seq<char>>
    decreases attrs.len(),
{
    if attrs.len() == 0 {
        Ok(None)
    } else if attrs[0].0 == "id"@ {
        match attrs[0].1 {
            DocAttr::String(s) => Ok(Some(s)),
            _ => Err("Id must be a string"@),
        }
    } else {
        id_of(attrs.drop_first())
    }
}

/// The message for a styled element with attributes.
pub open spec fn styled_attrs_message() -> Seq<char> {
    "`b` and `i` should not have attributes"@
}

/// The message for a styled element without exactly one run of text.
pub open spec fn styled_child_message() -> Seq<char> {
    "`b` and `i` should only have one non-block child"@
}

/// Whether a tag styles its one child: bold, italic, or a header.
pub open spec fn is_style_tag(tag: Seq<char>) -> bool {
    tag == "b"@ || tag == "i"@ || tag == "h1"@ || tag == "h2"@ || tag == "h3"@
}

/// The element a style tag makes of its child.
pub open spec fn styled(tag: Seq<char>, inner: Elem) -> Elem {
    if tag == "b"@ {
        Elem::Bold(Box::new(inner))
    } else if tag == "i"@ {
        Elem::Italic(Box::new(inner))
    } else if tag == "h1"@ {
        Elem::Header(1, Box::new(inner))
    } else if tag == "h2"@ {
        Elem::Header(2, Box::new(inner))
    } else {
        Elem::Header(3, Box::new(inner))
    }
}

/// What a node stands for, with the elements kept by id so far: the element
/// or the message of the first fault found, and the elements kept by id
/// after it. An element with an `id` is kept under it and stands for a
/// reference to it.
pub open spec fn consumed(n: DocNode, ids: Seq<(Seq<char>, Elem)>) -> (
    Result<Elem, Seq<char>>,
    Seq<(Seq<char>, Elem)>,
)
    decreases n,
{
    match n {
        DocNode::Text(t) => (Ok(Elem::Text(t)), ids),
        DocNode::Number(t) => (Ok(Elem::Number(t)), ids),
        DocNode::Figure(t) => (Ok(Elem::Number(t)), ids),
        DocNode::Sexp { tag, attrs, children } => match id_of(attrs) {
            Err(m) => (Err(m), ids),
            Ok(id) => {
                let (r, ids1) = if is_style_tag(tag) {
                    if attrs.len() > 0 {
                        (Err(styled_attrs_message()), ids)
                    } else if children.len() != 1 {
                        (Err(styled_child_message()), ids)
                    } else {
                        let (ri, ids2) = consumed(children[0], ids);
                        match ri {
                            Err(m) => (Err(m), ids2),
                            Ok(inner) => if is_block_elem(inner) {
                                (Err(styled_child_message()), ids2)
                            } else {
                                (Ok(styled(tag, inner)), ids2)
                            },
                        }
                    }
                } else if tag == "table"@ {
                    let (rc, ids2) = table_columns(attrs, ids);
                    match rc {
                        Err(m) => (Err(m), ids2),
                        Ok(columns) => {
                            let (rr, ids3) = table_rows(children, ids2);
                            match rr {
                                Err(m) => (Err(m), ids3),
                                Ok(rows) => (Ok(Elem::Table { columns, rows }), ids3),
                            }
                        },
                    }
                } else if tag == "column"@ {
                    if attrs.len() > 0 {
                        (Err("Unknown column attribute "@ + attrs[0].0), ids)
                    } else if children.len() != 1 {
                        (Err("Expected one inner value for column."@), ids)
                    } else {
                        match children[0] {
                            DocNode::Text(t) => (Ok(Elem::Column(t)), ids),
                            DocNode::Number(t) => (Ok(Elem::Column(t)), ids),
                            DocNode::Figure(t) => (Ok(Elem::Column(t)), ids),
                            _ => (Err("Column inner value must not be a block."@), ids),
                        }
                    }
                } else if tag == "row"@ {
                    (Err("Row element can only appear within a table."@), ids)
                } else {
                    (Err("Unknown element "@ + tag + "."@), ids)
                };
                match r {
                    Ok(e) => match id {
                        Some(k) => (Ok(Elem::Id(k)), with_id(ids1, k, e)),
                        None => (Ok(e), ids1),
                    },
                    Err(m) => (Err(m), ids1),
                }
            },
        },
    }
}

/// The columns that the attributes of a table give, in order: `id` is
/// skipped, each `columns` is a list of `column` elements.
pub open spec fn table_columns(attrs: Seq<(Seq<char>, DocAttr)>, ids: Seq<(Seq<char>, Elem)>) -> (
    Result<Seq<Seq<char>>, Seq<char>>,
    Seq<(Seq<char>, Elem)>,
)
    decreases attrs,
{
    if attrs.len() == 0 {
        (Ok(Seq::empty()), ids)
    } else if attrs[0].0 == "id"@ {
        table_columns(attrs.drop_first(), ids)
    } else if attrs[0].0 == "columns"@ {
        match attrs[0].1 {
            DocAttr::Array(items) => {
                let (rc, ids2) = column_items(items, ids);
                match rc {
                    Err(m) => (Err(m), ids2),
                    Ok(cs) => {
                        let (rest, ids3) = table_columns(attrs.drop_first(), ids2);
                        match rest {
                            Err(m) => (Err(m), ids3),
                            Ok(more) => (Ok(cs + more), ids3),
                        }
                    },
                }
            },
            _ => (Err("Expected list of columns"@), ids),
        }
    } else {
        (Err("Unknown table attribute "@ + attrs[0].0), ids)
    }
}

/// The names of the `column` elements of a list.
pub open spec fn column_items(items: Seq<DocAttr>, ids: Seq<(Seq<char>, Elem)>) -> (
    Result<Seq<Seq<char>>, Seq<char>>,
    Seq<(Seq<char>, Elem)>,
)
    decreases items,
{
    if items.len() == 0 {
        (Ok(Seq::empty()), ids)
    } else {
        match items[0] {
            DocAttr::Node(nd) => {
                let (r, ids2) = consumed(nd, ids);
                match r {
                    Err(m) => (Err(m), ids2),
                    Ok(Elem::Column(name)) => {
                        let (rest, ids3) = column_items(items.drop_first(), ids2);
                        match rest {
                            Err(m) => (Err(m), ids3),
                            Ok(names) => (Ok(seq![name] + names), ids3),
                        }
                    },
                    Ok(_) => (Err("Expected list of columns"@), ids2),
                }
            },
            _ => (Err("Expected list of columns"@), ids),
        }
    }
}

/// The rows of a table: each child is a `row` element without attributes,
/// whose children are its cells.
pub open spec fn table_rows(children: Seq<DocNode>, ids: Seq<(Seq<char>, Elem)>) -> (
    Result<Seq<Seq<Option<Elem>>>, Seq<char>>,
    Seq<(Seq<char>, Elem)>,
)
    decreases children,
{
    if children.len() == 0 {
        (Ok(Seq::empty()), ids)
    } else {
        match children[0] {
            DocNode::Sexp { tag, attrs, children: cells } => if tag == "row"@ {
                if attrs.len() > 0 {
                    (Err("Unknown row attribute "@ + attrs[0].0), ids)
                } else {
                    let (rc, ids2) = row_cells(cells, ids);
                    match rc {
                        Err(m) => (Err(m), ids2),
                        Ok(row) => {
                            let (rest, ids3) = table_rows(children.drop_first(), ids2);
                            match rest {
                                Err(m) => (Err(m), ids3),
                                Ok(rows) => (Ok(seq![row] + rows), ids3),
                            }
                        },
                    }
                }
            } else {
                (Err("Expected row"@), ids)
            },
            _ => (Err("Expected row"@), ids),
        }
    }
}

/// The cells of a row: what each child stands for.
pub open spec fn row_cells(cells: Seq<DocNode>, ids: Seq<(Seq<char>, Elem)>) -> (
    Result<Seq<Option<Elem>>, Seq<char>>,
    Seq<(Seq<char>, Elem)>,
)
    decreases cells,
{
    if cells.len() == 0 {
        (Ok(Seq::empty()), ids)
    } else {
        let (r, ids2) = consumed(cells[0], ids);
        match r {
            Err(m) => (Err(m), ids2),
            Ok(e) => {
                let (rest, ids3) = row_cells(cells.drop_first(), ids2);
                match rest {
                    Err(m) => (Err(m), ids3),
                    Ok(es) => (Ok(seq![Some(e)] + es), ids3),
                }
            },
        }
    }
}

/// What the nodes of a document stand for, one after another.
pub open spec fn consumed_all(nodes: Seq<DocNode>, ids: Seq<(Seq<char>, Elem)>) -> (
    Result<Seq<Elem>, Seq<char>>,
    Seq<(Seq<char>, Elem)>,
)
    decreases nodes,
{
    if nodes.len() == 0 {
        (Ok(Seq::empty()), ids)
    } else {
        let (r, ids2) = consumed(nodes[0], ids);
        match r {
            Err(m) => (Err(m), ids2),
            Ok(e) => {
                let (rest, ids3) = consumed_all(nodes.drop_first(), ids2);
                match rest {
                    Err(m) => (Err(m), ids3),
                    Ok(es) => (Ok(seq![e] + es), ids3),
                }
            },
        }
    }
}

/// A document: its elements, and the elements kept by id, each id once.
pub struct Document {
    pub elements: Vec<Element>,
    pub ids: Vec<(String, Element)>,
}

proof fn lemma_nodes_index(s: Seq<Node>)
    ensures
        nodes_model(s).len() == s.len(),
        forall|i: int| 0 <= i < s.len() ==> #[trigger] nodes_model(s)[i] == node_model(s[i]),
    decreases s.len(),
{
    if s.len() > 0 {
        lemma_nodes_index(s.drop_last());
    }
}

proof fn lemma_attrs_index(s: Seq<AttrValue>)
    ensures
        attrs_model(s).len() == s.len(),
        forall|i: int| 0 <= i < s.len() ==> #[trigger] attrs_model(s)[i] == attr_model(s[i]),
    decreases s.len(),
{
    if s.len() > 0 {
        lemma_attrs_index(s.drop_last());
    }
}

proof fn lemma_pairs_index(s: Seq<(String, AttrValue)>)
    ensures
        pairs_model(s).len() == s.len(),
        forall|i: int|
            0 <= i < s.len() ==> #[trigger] pairs_model(s)[i] == (s[i].0@, attr_model(s[i].1)),
    decreases s.len(),
{
    if s.len() > 0 {
        lemma_pairs_index(s.drop_last());
    }
}

proof fn lemma_ids_index(s: Seq<(String, Element)>)
    ensures
        ids_model(s).len() == s.len(),
        forall|i: int|
            0 <= i < s.len() ==> #[trigger] ids_model(s)[i] == (s[i].0@, elem_model(s[i].1)),
    decreases s.len(),
{
    if s.len() > 0 {
        lemma_ids_index(s.drop_last());
    }
}

proof fn lemma_ids_update(s: Seq<(String, Element)>, i: int, k: String, e: Element)
    requires
        0 <= i < s.len(),
    ensures
        ids_model(s.update(i, (k, e))) == ids_model(s).update(i, (k@, elem_model(e))),
{
    lemma_ids_index(s);
    lemma_ids_index(s.update(i, (k, e)));
    assert(ids_model(s.update(i, (k, e))) =~= ids_model(s).update(i, (k@, elem_model(e))));
}

proof fn lemma_ids_push(s: Seq<(String, Element)>, k: String, e: Element)
    ensures
        ids_model(s.push((k, e))) == ids_model(s).push((k@, elem_model(e))),
{
    assert(s.push((k, e)).drop_last() =~= s);
}

proof fn lemma_elems_push(s: Seq<Element>, e: Element)
    ensures
        elems_model(s.push(e)) == elems_model(s).push(elem_model(e)),
{
    assert(s.push(e).drop_last() =~= s);
}

proof fn lemma_cells_push(s: Seq<Option<Element>>, e: Element)
    ensures
        cells_model(s.push(Some(e))) == cells_model(s).push(Some(elem_model(e))),
{
    assert(s.push(Some(e)).drop_last() =~= s);
}

proof fn lemma_rows_push(s: Seq<Vec<Option<Element>>>, r: Vec<Option<Element>>)
    ensures
        rows_model(s.push(r)) == rows_model(s).push(cells_model(r@)),
{
    assert(s.push(r).drop_last() =~= s);
}

/// Whether a string holds the text `b`.
pub(crate) fn same_text(a: &String, b: &str) -> (r: bool)
    ensures
        r == (a@ == b@),
{
    let xs = chars_of(a.as_str());
    let ys = chars_of(b);
    if xs.len() != ys.len() {
        return false;
    }
    let mut i: usize = 0;
    while i < xs.len()
        invariant
            0 <= i <= xs.len(),
            xs@ == a@,
            ys@ == b@,
            xs@.len() == ys@.len(),
            forall|j: int| 0 <= j < i ==> xs@[j] == ys@[j],
        decreases xs.len() - i,
    {
        if xs[i] != ys[i] {
            return false;
        }
        i += 1;
    }
    assert(xs@ =~= ys@);
    true
}

fn owned(s: &str) -> (r: String)
    ensures
        r@ == s@,
{
    s.to_owned()
}

/// `before` followed by `rest`.
fn message2(before: &str, rest: &str) -> (r: String)
    ensures
        r@ == before@ + rest@,
{
    let mut out: Vec<char> = Vec::new();
    push_str(&mut out, before);
    push_str(&mut out, rest);
    string_of(out.as_slice())
}

/// `before` followed by `middle` and `after`.
fn message3(before: &str, middle: &str, after: &str) -> (r: String)
    ensures
        r@ == before@ + middle@ + after@,
{
    let mut out: Vec<char> = Vec::new();
    push_str(&mut out, before);
    push_str(&mut out, middle);
    push_str(&mut out, after);
    string_of(out.as_slice())
}

/// Keeps `e` under `k`: in place of the element kept under `k`, or last.
fn keep_id(ids: &mut Vec<(String, Element)>, k: String, e: Element)
    ensures
        ids_model(final(ids)@) == with_id(ids_model(old(ids)@), k@, elem_model(e)),
{
    let ghost m = ids_model(ids@);
    proof {
        lemma_ids_index(ids@);
    }
    let mut i: usize = 0;
    while i < ids.len()
        invariant
            0 <= i <= ids.len(),
            ids@ == old(ids)@,
            m == ids_model(ids@),
            m.len() == ids@.len(),
            forall|j: int| 0 <= j < ids@.len() ==> #[trigger] m[j] == (ids@[j].0@, elem_model(ids@[j].1)),
            first_key(m, k@, 0) == first_key(m, k@, i as int),
        decreases ids.len() - i,
    {
        if same_text(&ids[i].0, k.as_str()) {
            proof {
                assert(m[i as int].0 == k@);
                lemma_ids_update(ids@, i as int, k, e);
            }
            ids.set(i, (k, e));
            return;
        }
        i += 1;
    }
    proof {
        lemma_ids_push(ids@, k, e);
    }
    ids.push((k, e));
}

/// The id that the attributes of an element give it.
fn id_attr(attrs: &Vec<(String, AttrValue)>) -> (r: Result<Option<String>, String>)
    ensures
        match id_of(pairs_model(attrs@)) {
            Ok(Some(s)) => r matches Ok(Some(x)) && x@ == s,
            Ok(None) => r matches Ok(None),
            Err(m) => r matches Err(x) && x@ == m,
        },
{
    let ghost p = pairs_model(attrs@);
    proof {
        lemma_pairs_index(attrs@);
        assert(p.skip(0) =~= p);
    }
    let mut i: usize = 0;
    while i < attrs.len()
        invariant
            0 <= i <= attrs.len(),
            p == pairs_model(attrs@),
            p.len() == attrs@.len(),
            forall|j: int|
                0 <= j < attrs@.len() ==> #[trigger] p[j] == (attrs@[j].0@, attr_model(attrs@[j].1)),
            id_of(p) == id_of(p.skip(i as int)),
        decreases attrs.len() - i,
    {
        proof {
            assert(p.skip(i as int)[0] == p[i as int]);
            assert(p.skip(i as int).drop_first() =~= p.skip(i + 1));
        }
        if same_text(&attrs[i].0, "id") {
            match &attrs[i].1 {
                AttrValue::String(s) => {
                    return Ok(Some(s.clone()));
                },
                _ => {
                    return Err(owned("Id must be a string"));
                },
            }
        }
        i += 1;
    }
    Ok(None)
}

/// A consuming step that returned `r` and left the elements kept by id as
/// `after` did what `c` describes, `model` giving the form of a result.
pub open spec fn consumed_as<T, U>(
    c: (Result<U, Seq<char>>, Seq<(Seq<char>, Elem)>),
    r: Result<T, String>,
    after: Seq<(Seq<char>, Elem)>,
    model: spec_fn(T) -> U,
) -> bool {
    &&& after == c.1
    &&& match c.0 {
        Ok(u) => r is Ok && model(r->Ok_0) == u,
        Err(m) => r is Err && r->Err_0@ == m,
    }
}

fn is_style(tag: &String) -> (b: bool)
    ensures
        b == is_style_tag(tag@),
{
    same_text(tag, "b") || same_text(tag, "i") || same_text(tag, "h1") || same_text(tag, "h2")
        || same_text(tag, "h3")
}

fn make_styled(tag: &String, inner: Element) -> (e: Element)
    requires
        is_style_tag(tag@),
    ensures
        elem_model(e) == styled(tag@, elem_model(inner)),
{
    if same_text(tag, "b") {
        Element::Bold(Box::new(inner))
    } else if same_text(tag, "i") {
        Element::Italic(Box::new(inner))
    } else if same_text(tag, "h1") {
        Element::Header(1, Box::new(inner))
    } else if same_text(tag, "h2") {
        Element::Header(2, Box::new(inner))
    } else {
        Element::Header(3, Box::new(inner))
    }
}

/// The element a node stands for, with the elements kept by id: the
/// element, or the message of the first fault found. An element with an
/// `id` is kept under it in `ids`, and a reference to it is returned.
pub fn consume(node: &Node, ids: &mut Vec<(String, Element)>) -> (r: Result<Element, String>)
    ensures
        consumed_as(
            consumed(node_model(*node), ids_model(old(ids)@)),
            r,
            ids_model(final(ids)@),
            |e: Element| elem_model(e),
        ),
    decreases node, 1int,
{
    match node {
        Node::Text(t) => Ok(Element::Text(t.clone())),
        Node::Number(t) => Ok(Element::Number(t.clone())),
        Node::Figure(t) => Ok(Element::Number(t.clone())),
        Node::Sexp { tag, attrs, children } => {
            let ghost i0 = ids_model(ids@);
            let ghost pm = pairs_model(attrs@);
            let ghost cm = nodes_model(children@);
            proof {
                lemma_pairs_index(attrs@);
                lemma_nodes_index(children@);
                let dn = node_model(*node);
                assert(dn == DocNode::Sexp { tag: tag@, attrs: pm, children: cm });
                assert(decreases_to!(dn => dn->attrs));
                assert(decreases_to!(dn => dn->children));
                if cm.len() > 0 {
                    assert(decreases_to!(cm => cm[0]));
                }
            }
            let id = match id_attr(attrs) {
                Ok(id) => id,
                Err(m) => {
                    return Err(m);
                },
            };
            let elem = if is_style(tag) {
                if attrs.len() > 0 {
                    return Err(owned("`b` and `i` should not have attributes"));
                }
                if children.len() != 1 {
                    return Err(owned("`b` and `i` should only have one non-block child"));
                }
                let inner = match consume(&children[0], ids) {
                    Ok(e) => e,
                    Err(m) => {
                        return Err(m);
                    },
                };
                if inner.is_block() {
                    return Err(owned("`b` and `i` should only have one non-block child"));
                }
                make_styled(tag, inner)
            } else if same_text(tag, "table") {
                let columns = match consume_columns(attrs, ids) {
                    Ok(c) => c,
                    Err(m) => {
                        return Err(m);
                    },
                };
                let rows = match consume_rows(children, ids) {
                    Ok(rs) => rs,
                    Err(m) => {
                        return Err(m);
                    },
                };
                Element::Table { columns, rows }
            } else if same_text(tag, "column") {
                if attrs.len() > 0 {
                    return Err(message2("Unknown column attribute ", attrs[0].0.as_str()));
                }
                if children.len() != 1 {
                    return Err(owned("Expected one inner value for column."));
                }
                match &children[0] {
                    Node::Text(t) => Element::Column(TableColumn { name: t.clone() }),
                    Node::Number(t) => Element::Column(TableColumn { name: t.clone() }),
                    Node::Figure(t) => Element::Column(TableColumn { name: t.clone() }),
                    _ => {
                        return Err(owned("Column inner value must not be a block."));
                    },
                }
            } else if same_text(tag, "row") {
                return Err(owned("Row element can only appear within a table."));
            } else {
                return Err(message3("Unknown element ", tag.as_str(), "."));
            };
            match id {
                Some(k) => {
                    let kk = k.clone();
                    keep_id(ids, k, elem);
                    Ok(Element::Id(kk))
                },
                None => Ok(elem),
            }
        },
    }
}

/// The columns that the attributes of a table give.
fn consume_columns(attrs: &Vec<(String, AttrValue)>, ids: &mut Vec<(String, Element)>) -> (r: Result<
    Vec<TableColumn>,
    String,
>)
    ensures
        consumed_as(
            table_columns(pairs_model(attrs@), ids_model(old(ids)@)),
            r,
            ids_model(final(ids)@),
            |cs: Vec<TableColumn>| columns_model(cs@),
        ),
    decreases attrs, 0int,
{
    let ghost p = pairs_model(attrs@);
    let ghost i0 = ids_model(ids@);
    proof {
        lemma_pairs_index(attrs@);
        assert(p.skip(0) =~= p);
    }
    let mut out: Vec<TableColumn> = Vec::new();
    let mut i: usize = 0;
    while i < attrs.len()
        invariant
            0 <= i <= attrs.len(),
            i0 == ids_model(old(ids)@),
            p == pairs_model(attrs@),
            p.len() == attrs@.len(),
            forall|j: int|
                0 <= j < attrs@.len() ==> #[trigger] p[j] == (attrs@[j].0@, attr_model(attrs@[j].1)),
            table_columns(p, i0) == (match table_columns(p.skip(i as int), ids_model(ids@)) {
                (Ok(more), f) => (Ok(columns_model(out@) + more), f),
                (Err(m), f) => (Err(m), f),
            }),
        decreases attrs.len() - i,
    {
        let ghost cur = ids_model(ids@);
        let ghost rest = p.skip(i as int);
        proof {
            assert(rest[0] == p[i as int]);
            assert(rest.drop_first() =~= p.skip(i + 1));
            assert(decreases_to!(rest => rest[0]));
            assert(decreases_to!(rest => rest.drop_first()));
            assert(decreases_to!(rest[0] => rest[0].1));
            if rest[0].1 is Array {
                assert(decreases_to!(rest[0].1 => rest[0].1->Array_0));
            }
        }
        if same_text(&attrs[i].0, "id") {
        } else if same_text(&attrs[i].0, "columns") {
            match &attrs[i].1 {
                AttrValue::Array(items) => {
                    proof {
                        assert(decreases_to!(attrs => attrs@[i as int].1));
                        lemma_attrs_index(items@);
                    }
                    let cs = match consume_column_items(items, ids) {
                        Ok(cs) => cs,
                        Err(m) => {
                            return Err(m);
                        },
                    };
                    let ghost before = out@;
                    let mut k: usize = 0;
                    while k < cs.len()
                        invariant
                            0 <= k <= cs.len(),
                            columns_model(out@) == columns_model(before) + columns_model(
                                cs@.take(k as int),
                            ),
                        decreases cs.len() - k,
                    {
                        let ghost prev = out@;
                        out.push(TableColumn { name: cs[k].name.clone() });
                        proof {
                            assert(columns_model(cs@.take(k + 1)) =~= columns_model(cs@.take(k as int)).push(
                                cs@[k as int].name@,
                            ));
                            assert(columns_model(out@) =~= columns_model(prev).push(cs@[k as int].name@));
                        }
                        k += 1;
                    }
                    proof {
                        assert(cs@.take(cs@.len() as int) =~= cs@);
                        match table_columns(p.skip(i + 1), ids_model(ids@)) {
                            (Ok(more), f) => {
                                assert(columns_model(before) + (columns_model(cs@) + more) =~= columns_model(
                                    out@,
                                ) + more);
                            },
                            _ => {},
                        }
                    }
                },
                _ => {
                    return Err(owned("Expected list of columns"));
                },
            }
        } else {
            return Err(message2("Unknown table attribute ", attrs[i].0.as_str()));
        }
        i += 1;
    }
    proof {
        assert(p.skip(attrs@.len() as int) =~= Seq::<(Seq<char>, DocAttr)>::empty());
        assert(columns_model(out@) + Seq::<Seq<char>>::empty() =~= columns_model(out@));
    }
    Ok(out)
}

/// The names of the `column` elements of a list.
fn consume_column_items(items: &Vec<AttrValue>, ids: &mut Vec<(String, Element)>) -> (r: Result<
    Vec<TableColumn>,
    String,
>)
    ensures
        consumed_as(
            column_items(attrs_model(items@), ids_model(old(ids)@)),
            r,
            ids_model(final(ids)@),
            |cs: Vec<TableColumn>| columns_model(cs@),
        ),
    decreases items, 0int,
{
    let ghost a = attrs_model(items@);
    let ghost i0 = ids_model(ids@);
    proof {
        lemma_attrs_index(items@);
        assert(a.skip(0) =~= a);
    }
    let mut out: Vec<TableColumn> = Vec::new();
    let mut i: usize = 0;
    while i < items.len()
        invariant
            0 <= i <= items.len(),
            i0 == ids_model(old(ids)@),
            a == attrs_model(items@),
            a.len() == items@.len(),
            forall|j: int| 0 <= j < items@.len() ==> #[trigger] a[j] == attr_model(items@[j]),
            column_items(a, i0) == (match column_items(a.skip(i as int), ids_model(ids@)) {
                (Ok(more), f) => (Ok(columns_model(out@) + more), f),
                (Err(m), f) => (Err(m), f),
            }),
        decreases items.len() - i,
    {
        let ghost rest = a.skip(i as int);
        proof {
            assert(rest[0] == a[i as int]);
            assert(rest.drop_first() =~= a.skip(i + 1));
            assert(decreases_to!(rest => rest[0]));
            assert(decreases_to!(rest => rest.drop_first()));
            if rest[0] is Node {
                assert(decreases_to!(rest[0] => rest[0]->Node_0));
            }
        }
        match &items[i] {
            AttrValue::Node(nd) => {
                proof {
                    assert(decreases_to!(items => items@[i as int]));
                }
                match consume(nd, ids) {
                    Ok(Element::Column(c)) => {
                        let ghost before = out@;
                        let ghost name = c.name@;
                        out.push(c);
                        proof {
                            assert(columns_model(out@) =~= columns_model(before) + seq![name]);
                            match column_items(a.skip(i + 1), ids_model(ids@)) {
                                (Ok(more), f) => {
                                    assert(columns_model(before) + (seq![name] + more) =~= columns_model(out@)
                                        + more);
                                },
                                _ => {},
                            }
                        }
                    },
                    Ok(_) => {
                        return Err(owned("Expected list of columns"));
                    },
                    Err(m) => {
                        return Err(m);
                    },
                }
            },
            _ => {
                return Err(owned("Expected list of columns"));
            },
        }
        i += 1;
    }
    proof {
        assert(a.skip(items@.len() as int) =~= Seq::<DocAttr>::empty());
        assert(columns_model(out@) + Seq::<Seq<char>>::empty() =~= columns_model(out@));
    }
    Ok(out)
}

/// The rows of a table.
fn consume_rows(children: &Vec<Node>, ids: &mut Vec<(String, Element)>) -> (r: Result<
    Vec<Vec<Option<Element>>>,
    String,
>)
    ensures
        consumed_as(
            table_rows(nodes_model(children@), ids_model(old(ids)@)),
            r,
            ids_model(final(ids)@),
            |rs: Vec<Vec<Option<Element>>>| rows_model(rs@),
        ),
    decreases children, 0int,
{
    let ghost n = nodes_model(children@);
    let ghost i0 = ids_model(ids@);
    proof {
        lemma_nodes_index(children@);
        assert(n.skip(0) =~= n);
    }
    let mut out: Vec<Vec<Option<Element>>> = Vec::new();
    let mut i: usize = 0;
    while i < children.len()
        invariant
            0 <= i <= children.len(),
            i0 == ids_model(old(ids)@),
            n == nodes_model(children@),
            n.len() == children@.len(),
            forall|j: int| 0 <= j < children@.len() ==> #[trigger] n[j] == node_model(children@[j]),
            table_rows(n, i0) == (match table_rows(n.skip(i as int), ids_model(ids@)) {
                (Ok(more), f) => (Ok(rows_model(out@) + more), f),
                (Err(m), f) => (Err(m), f),
            }),
        decreases children.len() - i,
    {
        let ghost rest = n.skip(i as int);
        proof {
            assert(rest[0] == n[i as int]);
            assert(rest.drop_first() =~= n.skip(i + 1));
            assert(decreases_to!(rest => rest[0]));
            assert(decreases_to!(rest => rest.drop_first()));
            if rest[0] is Sexp {
                assert(decreases_to!(rest[0] => rest[0]->children));
            }
        }
        match &children[i] {
            Node::Sexp { tag, attrs, children: cells } => {
                proof {
                    lemma_pairs_index(attrs@);
                    assert(decreases_to!(children => children@[i as int]));
                }
                if !same_text(tag, "row") {
                    return Err(owned("Expected row"));
                }
                if attrs.len() > 0 {
                    return Err(message2("Unknown row attribute ", attrs[0].0.as_str()));
                }
                let row = match consume_cells(cells, ids) {
                    Ok(row) => row,
                    Err(m) => {
                        return Err(m);
                    },
                };
                let ghost before = out@;
                proof {
                    lemma_rows_push(before, row);
                    assert(rows_model(before) + seq![cells_model(row@)] =~= rows_model(before).push(
                        cells_model(row@),
                    ));
                }
                out.push(row);
                proof {
                    match table_rows(n.skip(i + 1), ids_model(ids@)) {
                        (Ok(more), f) => {
                            assert(rows_model(before) + (seq![cells_model(row@)] + more) =~= rows_model(out@)
                                + more);
                        },
                        _ => {},
                    }
                }
            },
            _ => {
                return Err(owned("Expected row"));
            },
        }
        i += 1;
    }
    proof {
        assert(n.skip(children@.len() as int) =~= Seq::<DocNode>::empty());
        assert(rows_model(out@) + Seq::<Seq<Option<Elem>>>::empty() =~= rows_model(out@));
    }
    Ok(out)
}

/// The cells of a row.
fn consume_cells(cells: &Vec<Node>, ids: &mut Vec<(String, Element)>) -> (r: Result<
    Vec<Option<Element>>,
    String,
>)
    ensures
        consumed_as(
            row_cells(nodes_model(cells@), ids_model(old(ids)@)),
            r,
            ids_model(final(ids)@),
            |cs: Vec<Option<Element>>| cells_model(cs@),
        ),
    decreases cells, 0int,
{
    let ghost n = nodes_model(cells@);
    let ghost i0 = ids_model(ids@);
    proof {
        lemma_nodes_index(cells@);
        assert(n.skip(0) =~= n);
    }
    let mut out: Vec<Option<Element>> = Vec::new();
    let mut i: usize = 0;
    while i < cells.len()
        invariant
            0 <= i <= cells.len(),
            i0 == ids_model(old(ids)@),
            n == nodes_model(cells@),
            n.len() == cells@.len(),
            forall|j: int| 0 <= j < cells@.len() ==> #[trigger] n[j] == node_model(cells@[j]),
            row_cells(n, i0) == (match row_cells(n.skip(i as int), ids_model(ids@)) {
                (Ok(more), f) => (Ok(cells_model(out@) + more), f),
                (Err(m), f) => (Err(m), f),
            }),
        decreases cells.len() - i,
    {
        let ghost rest = n.skip(i as int);
        proof {
            assert(rest[0] == n[i as int]);
            assert(rest.drop_first() =~= n.skip(i + 1));
            assert(decreases_to!(cells => cells@[i as int]));
            assert(decreases_to!(rest => rest[0]));
            assert(decreases_to!(rest => rest.drop_first()));
        }
        let e = match consume(&cells[i], ids) {
            Ok(e) => e,
            Err(m) => {
                return Err(m);
            },
        };
        let ghost before = out@;
        proof {
            lemma_cells_push(before, e);
        }
        out.push(Some(e));
        proof {
            match row_cells(n.skip(i + 1), ids_model(ids@)) {
                (Ok(more), f) => {
                    assert(cells_model(before) + (seq![Some(elem_model(e))] + more) =~= cells_model(out@)
                        + more);
                },
                _ => {},
            }
        }
        i += 1;
    }
    proof {
        assert(n.skip(cells@.len() as int) =~= Seq::<DocNode>::empty());
        assert(cells_model(out@) + Seq::<Option<Elem>>::empty() =~= cells_model(out@));
    }
    Ok(out)
}

/// The document that the nodes stand for: their elements, and the elements
/// kept by id; or the message of the first fault found.
pub fn consume_ast(ast: &Vec<Node>) -> (r: Result<Document, String>)
    ensures
        match consumed_all(nodes_model(ast@), Seq::empty()) {
            (Ok(es), f) => r matches Ok(d) && elems_model(d.elements@) == es && ids_model(d.ids@) == f,
            (Err(m), _) => r matches Err(x) && x@ == m,
        },
{
    let ghost n = nodes_model(ast@);
    let mut ids: Vec<(String, Element)> = Vec::new();
    proof {
        lemma_nodes_index(ast@);
        assert(n.skip(0) =~= n);
        assert(ids_model(ids@) =~= Seq::<(Seq<char>, Elem)>::empty());
    }
    let mut out: Vec<Element> = Vec::new();
    let mut i: usize = 0;
    while i < ast.len()
        invariant
            0 <= i <= ast.len(),
            n == nodes_model(ast@),
            n.len() == ast@.len(),
            forall|j: int| 0 <= j < ast@.len() ==> #[trigger] n[j] == node_model(ast@[j]),
            consumed_all(n, Seq::empty()) == (match consumed_all(n.skip(i as int), ids_model(ids@)) {
                (Ok(more), f) => (Ok(elems_model(out@) + more), f),
                (Err(m), f) => (Err(m), f),
            }),
        decreases ast.len() - i,
    {
        let ghost rest = n.skip(i as int);
        proof {
            assert(rest[0] == n[i as int]);
            assert(rest.drop_first() =~= n.skip(i + 1));
            assert(decreases_to!(rest => rest[0]));
            assert(decreases_to!(rest => rest.drop_first()));
        }
        let e = match consume(&ast[i], &mut ids) {
            Ok(e) => e,
            Err(m) => {
                return Err(m);
            },
        };
        let ghost before = out@;
        proof {
            lemma_elems_push(before, e);
        }
        out.push(e);
        proof {
            match consumed_all(n.skip(i + 1), ids_model(ids@)) {
                (Ok(more), f) => {
                    assert(elems_model(before) + (seq![elem_model(e)] + more) =~= elems_model(out@) + more);
                },
                _ => {},
            }
        }
        i += 1;
    }
    proof {
        assert(n.skip(ast@.len() as int) =~= Seq::<DocNode>::empty());
        assert(elems_model(out@) + Seq::<Elem>::empty() =~= elems_model(out@));
    }
    Ok(Document { elements: out, ids })
}

impl Element {
    /// Whether the element is a block, rather than a run of text.
    pub fn is_block(&self) -> (b: bool)
        ensures
            b == is_block_elem(elem_model(*self)),
    {
        match self {
            Element::Number(_) | Element::Bold(_) | Element::Text(_) | Element::Italic(_) => false,
            _ => true,
        }
    }
}

} // verus!
