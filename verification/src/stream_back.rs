//! The streaming reader and the encoder agree: driving the reader over the
//! encoding of a value reads all of it, step by step, and the tokens it
//! gives gather back to the value.
use vstd::prelude::*;
use crate::bwine::{
    all_arrays, byte_parts, gathered, gathered_items, row_items, text_parts, Datum, Expecting, Gathered,
    Token, PATH_TAG, TABLE_TAG, TIMESTAMP_TAG,
};
use crate::utf8::{lemma_utf8_decode_encode, utf8_encode};
use crate::codec::{encoding, encodings, head, in_cbor_range, row_encodings};
use crate::roundtrip::{lemma_encoding_nonempty, lemma_head, lemma_scalar_reads_back, reads_back};
use crate::codec::{value_at, Parsed};
use crate::wire::{
    argument, atomic_item, beginner_overflows, count_item, info, item_step,
    kind_at, length_item, major, array_step, piece_of, read_step, Fault, Kind, Piece,
    Step,
};

verus! {

/// One step of the reader: [`read_step`], kept folded where a proof only
/// chains steps.
#[verifier::opaque]
pub open spec fn step_of(stack: Seq<Expecting>, buf: Seq<u8>, astlen: int) -> Step {
    read_step(stack, buf, astlen as usize)
}

/// What driving the reader `n` steps from the stack `stack` over `buf`
/// does, when the stream already holds `astlen` tokens: how many bytes it
/// read, the tokens it added (by their models) and the stack it left;
/// `None` where a step fails, gives up, or reports more bytes than it had.
pub open spec fn run(stack: Seq<Expecting>, buf: Seq<u8>, astlen: int, n: nat) -> Option<
    (int, Seq<Piece>, Seq<Expecting>),
>
    decreases n,
{
    if n == 0 {
        Some((0, Seq::empty(), stack))
    } else {
        match step_of(stack, buf, astlen) {
            Step::Reads(k, p, s1) => if 0 <= k <= buf.len() {
                match run(s1, buf.skip(k), astlen + p.len(), (n - 1) as nat) {
                    Some((k2, p2, s2)) => Some((k + k2, p + p2, s2)),
                    None => None,
                }
            } else {
                None
            },
            _ => None,
        }
    }
}

/// The datum is read back by the streaming reader: it holds no map, no tag
/// with the number of a path, a table or a timestamp; its integers are in
/// the range of CBOR integers; and its strings and compound values are no
/// longer than a length can say.
pub open spec fn streams_back(d: Datum) -> bool
    decreases d,
{
    match d {
        Datum::Int(i) => in_cbor_range(i as int),
        Datum::Path(b) => b.len() <= usize::MAX,
        Datum::Bytes(b) => b.len() <= usize::MAX,
        Datum::Text(t) => utf8_encode(t).len() <= usize::MAX,
        Datum::Array(items) => items.len() <= u64::MAX && forall|k: int|
            0 <= k < items.len() ==> streams_back(#[trigger] items[k]),
        Datum::Dict(_) => false,
        Datum::Tag(t, inner) => t != PATH_TAG && t != TABLE_TAG && t != TIMESTAMP_TAG
            && streams_back(*inner),
        Datum::Table { header, rows } => {
            &&& header.len() <= u64::MAX
            &&& rows.len() <= u64::MAX
            &&& forall|k: int| 0 <= k < header.len() ==> streams_back(#[trigger] header[k])
            &&& forall|r: int|
                0 <= r < rows.len() ==> (#[trigger] rows[r]).len() <= u64::MAX && forall|k: int|
                    0 <= k < rows[r].len() ==> streams_back(#[trigger] rows[r][k])
        },
        _ => true,
    }
}

/// The tokens, by their models, that the reader gives for a datum.
pub open spec fn pieces_of(d: Datum) -> Seq<Piece>
    decreases d,
{
    match d {
        Datum::Int(i) => seq![Piece::Int(i)],
        Datum::Float(f) => seq![Piece::Float(f)],
        Datum::Bool(b) => seq![Piece::Bool(b)],
        Datum::Null => seq![Piece::Null],
        Datum::Undefined => seq![Piece::Undefined],
        Datum::Simple(x) => seq![Piece::Simple(x)],
        Datum::Text(t) => seq![Piece::Text, Piece::TextPart(t), Piece::End],
        Datum::Bytes(b) => seq![Piece::Bytes, Piece::BytesPart(b), Piece::End],
        Datum::Path(b) => seq![Piece::Path, Piece::BytesPart(b), Piece::End],
        Datum::Array(items) => seq![Piece::Array(Some(items.len() as u64))] + items_pieces(items)
            + seq![Piece::End],
        Datum::Dict(_) => Seq::empty(),
        Datum::Tag(t, inner) => seq![Piece::Tag(t)] + pieces_of(*inner),
        Datum::Table { header, rows } => seq![Piece::Table, Piece::Array(Some(header.len() as u64))]
            + items_pieces(header) + seq![Piece::End, Piece::Array(Some(rows.len() as u64))]
            + rows_pieces(rows) + seq![Piece::End],
        Datum::Timestamp(t) => seq![Piece::Timestamp, Piece::Int(t as i128)],
    }
}

/// The tokens of the items of an array, one item after the other.
pub open spec fn items_pieces(items: Seq<Datum>) -> Seq<Piece>
    decreases items,
{
    if items.len() == 0 {
        Seq::empty()
    } else {
        items_pieces(items.drop_last()) + pieces_of(items.last())
    }
}

/// The tokens of the rows of a table, each an array.
pub open spec fn rows_pieces(rows: Seq<Seq<Datum>>) -> Seq<Piece>
    decreases rows,
{
    if rows.len() == 0 {
        Seq::empty()
    } else {
        rows_pieces(rows.drop_last()) + seq![Piece::Array(Some(rows.last().len() as u64))]
            + items_pieces(rows.last()) + seq![Piece::End]
    }
}

/// How many steps the reader takes over a datum.
pub open spec fn steps_of(d: Datum) -> nat
    decreases d,
{
    match d {
        Datum::Text(_) => 2,
        Datum::Bytes(_) => 2,
        Datum::Path(_) => 2,
        Datum::Timestamp(_) => 2,
        Datum::Array(items) => items_steps(items) + 2,
        Datum::Dict(_) => 0,
        Datum::Tag(_, inner) => steps_of(*inner) + 1,
        Datum::Table { header, rows } => items_steps(header) + rows_steps(rows) + 5,
        _ => 1,
    }
}

/// How many steps the reader takes over the items of an array.
pub open spec fn items_steps(items: Seq<Datum>) -> nat
    decreases items,
{
    if items.len() == 0 {
        0
    } else {
        items_steps(items.drop_last()) + steps_of(items.last())
    }
}

/// How many steps the reader takes over the rows of a table.
pub open spec fn rows_steps(rows: Seq<Seq<Datum>>) -> nat
    decreases rows,
{
    if rows.len() == 0 {
        0
    } else {
        rows_steps(rows.drop_last()) + items_steps(rows.last()) + 2
    }
}

/// What a run reads stays within its input.
proof fn lemma_run_bounds(stack: Seq<Expecting>, buf: Seq<u8>, astlen: int, n: nat)
    ensures
        run(stack, buf, astlen, n) matches Some((k, _, _)) ==> 0 <= k <= buf.len(),
    decreases n,
{
    if n > 0 {
        if let Step::Reads(k, p, s1) = step_of(stack, buf, astlen) {
            if 0 <= k <= buf.len() {
                lemma_run_bounds(s1, buf.skip(k), astlen + p.len(), (n - 1) as nat);
            }
        }
    }
}

/// A run of `m1 + m2` steps is a run of `m1` steps, then one of `m2` steps
/// from where it left off.
proof fn lemma_run_concat(stack: Seq<Expecting>, buf: Seq<u8>, astlen: int, m1: nat, m2: nat)
    ensures
        run(stack, buf, astlen, m1 + m2) == match run(stack, buf, astlen, m1) {
            Some((k1, p1, s1)) => match run(s1, buf.skip(k1), astlen + p1.len(), m2) {
                Some((k2, p2, s2)) => Some((k1 + k2, p1 + p2, s2)),
                None => None,
            },
            None => None,
        },
    decreases m1,
{
    if m1 == 0 {
        assert(buf.skip(0) =~= buf);
        if let Some((k2, p2, s2)) = run(stack, buf, astlen, m2) {
            assert(Seq::<Piece>::empty() + p2 =~= p2);
        }
    } else {
        if let Step::Reads(k, p, s1) = step_of(stack, buf, astlen) {
            if 0 <= k <= buf.len() {
                let b1 = buf.skip(k);
                lemma_run_concat(s1, b1, astlen + p.len(), (m1 - 1) as nat, m2);
                lemma_run_bounds(s1, b1, astlen + p.len(), (m1 - 1) as nat);
                assert(((m1 + m2) - 1) as nat == ((m1 - 1) as nat + m2) as nat);
                if let Some((k1, p1, t1)) = run(s1, b1, astlen + p.len(), (m1 - 1) as nat) {
                    assert(b1.skip(k1) =~= buf.skip(k + k1));
                    assert(astlen + p.len() + p1.len() == astlen + (p + p1).len());
                    if let Some((k2, p2, t2)) = run(t1, b1.skip(k1), astlen + p.len() + p1.len(), m2) {
                        assert(p + (p1 + p2) =~= (p + p1) + p2);
                    }
                }
            }
        }
    }
}

/// Two stacks on which the first step does the same run the same.
proof fn lemma_run_same_start(s1: Seq<Expecting>, s2: Seq<Expecting>, buf: Seq<u8>, astlen: int, n: nat)
    requires
        n >= 1,
        step_of(s1, buf, astlen) == step_of(s2, buf, astlen),
    ensures
        run(s1, buf, astlen, n) == run(s2, buf, astlen, n),
{
}

/// One step that reads `k` bytes, as a run.
proof fn lemma_run_one(stack: Seq<Expecting>, buf: Seq<u8>, astlen: int)
    ensures
        match step_of(stack, buf, astlen) {
            Step::Reads(k, p, s1) => 0 <= k <= buf.len() ==> run(stack, buf, astlen, 1) == Some(
                (k, p, s1),
            ),
            _ => true,
        },
{
    if let Step::Reads(k, p, s1) = step_of(stack, buf, astlen) {
        assert(p + Seq::<Piece>::empty() =~= p);
        reveal_with_fuel(run, 2);
    }
}

/// A head of major type 2, 3, 4 or 6 at the start of the input: the kind
/// of item it opens, and its argument.
proof fn lemma_head_at_start(m: u8, x: u64, buf: Seq<u8>)
    requires
        m == 2 || m == 3 || m == 4 || m == 6,
        head(m, x).len() <= buf.len(),
        buf.take(head(m, x).len() as int) == head(m, x),
    ensures
        1 <= head(m, x).len(),
        kind_at(buf, 0) == Ok::<Kind, Fault>(
            if m == 2 {
                Kind::Bytes
            } else if m == 3 {
                Kind::Text
            } else if m == 4 {
                Kind::Array
            } else {
                Kind::Tag
            },
        ),
        argument(buf, 0) == Ok::<(u64, int), Fault>((x, head(m, x).len() as int)),
        length_item(buf, 0) == Ok::<(Option<u64>, int), Fault>((Some(x), head(m, x).len() as int)),
        m == 4 ==> count_item(buf, 0, 4) == Ok::<(Option<u64>, int), Fault>(
            (Some(x), head(m, x).len() as int),
        ),
        atomic_item(buf, 0) == Ok::<Option<(Piece, int)>, Fault>(None),
        !beginner_overflows(buf, 0),
{
    assert(buf.subrange(0, head(m, x).len() as int) == buf.take(head(m, x).len() as int));
    lemma_head(m, x, buf, 0);
    let b = buf[0];
    assert(32 * m <= b <= 32 * m + 27) by {
        assert(major(b) == m && info(b) <= 27);
    }
}

proof fn lemma_take_concat(a: Seq<u8>, b: Seq<u8>)
    ensures
        (a + b).take(a.len() as int) == a,
        (a + b).skip(a.len() as int) == b,
{
    assert((a + b).take(a.len() as int) =~= a);
    assert((a + b).skip(a.len() as int) =~= b);
}

/// A datum with no parts, at the start of the input, is one token, read in
/// one step.
proof fn lemma_scalar_step(d: Datum, rest: Seq<u8>, astlen: usize, after: Seq<Expecting>)
    requires
        streams_back(d),
        d is Int || d is Float || d is Bool || d is Null || d is Undefined || d is Simple,
    ensures
        atomic_item(encoding(d) + rest, 0) == Ok::<Option<(Piece, int)>, Fault>(
            Some((pieces_of(d)[0], encoding(d).len() as int)),
        ),
        pieces_of(d).len() == 1,
        item_step(encoding(d) + rest, astlen, after) == Step::Reads(
            encoding(d).len() as int,
            pieces_of(d),
            after,
        ),
{
    let buf = encoding(d) + rest;
    assert(buf.subrange(0, encoding(d).len() as int) =~= encoding(d));
    assert(reads_back(d));
    lemma_scalar_reads_back(d, buf, 0);
    lemma_encoding_nonempty(d);
    assert(value_at(buf, 0) == Parsed::Done(d, encoding(d).len() as int));
    assert(pieces_of(d) =~= seq![pieces_of(d)[0]]);
}

/// A text string at the start of the input: its head in one step, then
/// its bytes, as one part, in another.
proof fn lemma_text_steps(t: Seq<char>, rest: Seq<u8>, astlen: usize, i: usize, a2: usize, after: Seq<Expecting>)
    requires
        utf8_encode(t).len() <= usize::MAX,
    ensures
        ({
            let e = utf8_encode(t);
            let h = head(3, e.len() as u64);
            let buf = encoding(Datum::Text(t)) + rest;
            &&& item_step(buf, astlen, after) == Step::Reads(
                h.len() as int,
                seq![Piece::Text],
                after.push(Expecting::String(astlen, Some(e.len() as u64))),
            )
            &&& buf.skip(h.len() as int) == e + rest
            &&& read_step(after.push(Expecting::String(i, Some(e.len() as u64))), e + rest, a2)
                == Step::Reads(e.len() as int, seq![Piece::TextPart(t), Piece::End], after)
        }),
{
    let e = utf8_encode(t);
    let h = head(3, e.len() as u64);
    let buf = encoding(Datum::Text(t)) + rest;
    assert(buf =~= h + (e + rest));
    lemma_take_concat(h, e + rest);
    lemma_head_at_start(3, e.len() as u64, buf);
    lemma_take_concat(e, rest);
    lemma_utf8_decode_encode(t);
    let st = after.push(Expecting::String(i, Some(e.len() as u64)));
    assert(st.drop_last() =~= after);
}

/// A byte string, or a path (its tag, then a byte string), at the start of
/// the input: the head in one step, then the bytes, as one part, in
/// another.
#[verifier::rlimit(40)]
#[verifier::spinoff_prover]
proof fn lemma_bytes_steps(d: Datum, rest: Seq<u8>, astlen: usize, i: usize, a2: usize, after: Seq<Expecting>)
    requires
        d is Bytes || d is Path,
        streams_back(d),
    ensures
        ({
            let b = if d is Bytes { d->Bytes_0 } else { d->Path_0 };
            let hl = (encoding(d).len() - b.len()) as int;
            let buf = encoding(d) + rest;
            &&& item_step(buf, astlen, after) == Step::Reads(
                hl,
                seq![if d is Bytes { Piece::Bytes } else { Piece::Path }],
                after.push(Expecting::Bytes(astlen, Some(b.len() as u64))),
            )
            &&& 0 <= hl
            &&& buf.skip(hl) == b + rest
            &&& read_step(after.push(Expecting::Bytes(i, Some(b.len() as u64))), b + rest, a2)
                == Step::Reads(b.len() as int, seq![Piece::BytesPart(b), Piece::End], after)
        }),
{
    let buf = encoding(d) + rest;
    let st = after.push(Expecting::Bytes(i, Some(0)));
    match d {
        Datum::Bytes(b) => {
            let h = head(2, b.len() as u64);
            assert(buf =~= h + (b + rest));
            lemma_take_concat(h, b + rest);
            lemma_head_at_start(2, b.len() as u64, buf);
            lemma_take_concat(b, rest);
        },
        Datum::Path(b) => {
            let h1 = head(6, PATH_TAG);
            let h2 = head(2, b.len() as u64);
            assert(buf =~= h1 + (h2 + (b + rest)));
            lemma_take_concat(h1, h2 + (b + rest));
            lemma_head_at_start(6, PATH_TAG, buf);
            assert(buf.subrange(h1.len() as int, (h1.len() + h2.len()) as int) =~= h2);
            lemma_head(2, b.len() as u64, buf, h1.len() as int);
            assert(buf.skip((h1.len() + h2.len()) as int) =~= b + rest);
            lemma_take_concat(b, rest);
        },
        _ => {},
    }
    let b = if d is Bytes { d->Bytes_0 } else { d->Path_0 };
    assert(after.push(Expecting::Bytes(i, Some(b.len() as u64))).drop_last() =~= after);
}

/// A tag at the start of the input is read in one step: a table's or a
/// timestamp's opens what they hold, any other expects one value.
proof fn lemma_tag_step(t: u64, tail: Seq<u8>, astlen: usize, after: Seq<Expecting>)
    requires
        t != PATH_TAG,
    ensures
        ({
            let h = head(6, t);
            let buf = h + tail;
            &&& buf.skip(h.len() as int) == tail
            &&& item_step(buf, astlen, after) == if t == TABLE_TAG {
                Step::Reads(h.len() as int, seq![Piece::Table], after.push(Expecting::TableHeader))
            } else if t == TIMESTAMP_TAG {
                Step::Reads(
                    h.len() as int,
                    seq![Piece::Timestamp],
                    after.push(Expecting::TimestampValue),
                )
            } else {
                Step::Reads(h.len() as int, seq![Piece::Tag(t)], after.push(Expecting::Something))
            }
        }),
{
    let h = head(6, t);
    lemma_take_concat(h, tail);
    lemma_head_at_start(6, t, h + tail);
}

/// The integer of a timestamp is read in one step.
proof fn lemma_timestamp_value_step(ts: i64, rest: Seq<u8>, astlen: usize, after: Seq<Expecting>)
    ensures
        read_step(
            after.push(Expecting::TimestampValue),
            encoding(Datum::Int(ts as i128)) + rest,
            astlen,
        ) == Step::Reads(
            encoding(Datum::Int(ts as i128)).len() as int,
            seq![Piece::Int(ts as i128)],
            after,
        ),
{
    lemma_scalar_step(Datum::Int(ts as i128), rest, astlen, after);
    assert(after.push(Expecting::TimestampValue).drop_last() =~= after);
}

/// The head of an array at the start of the input is read in one step,
/// where any value may come and where a table wants an array alike.
proof fn lemma_array_head(items: Seq<Datum>, rest: Seq<u8>, astlen: usize, after: Seq<Expecting>)
    requires
        items.len() <= u64::MAX,
    ensures
        ({
            let h = head(4, items.len() as u64);
            let buf = encoding(Datum::Array(items)) + rest;
            let step = Step::Reads(
                h.len() as int,
                seq![Piece::Array(Some(items.len() as u64))],
                after.push(Expecting::Array(astlen, Some(items.len() as u64))),
            );
            &&& buf.skip(h.len() as int) == encodings(items) + rest
            &&& item_step(buf, astlen, after) == step
            &&& array_step(buf, astlen, after) == step
        }),
{
    let h = head(4, items.len() as u64);
    let buf = encoding(Datum::Array(items)) + rest;
    assert(buf =~= h + (encodings(items) + rest));
    lemma_take_concat(h, encodings(items) + rest);
    lemma_head_at_start(4, items.len() as u64, buf);
}

/// The head of an array of `n` items at the start of the input is read in
/// one step, where any value may come and where a table wants an array
/// alike.
proof fn lemma_count_head(n: u64, tail: Seq<u8>, astlen: usize, after: Seq<Expecting>)
    ensures
        ({
            let h = head(4, n);
            let buf = h + tail;
            let step = Step::Reads(
                h.len() as int,
                seq![Piece::Array(Some(n))],
                after.push(Expecting::Array(astlen, Some(n))),
            );
            &&& 1 <= h.len()
            &&& buf.skip(h.len() as int) == tail
            &&& item_step(buf, astlen, after) == step
            &&& array_step(buf, astlen, after) == step
        }),
{
    let h = head(4, n);
    lemma_take_concat(h, tail);
    lemma_head_at_start(4, n, h + tail);
}

/// What the reader does first, by the expectation on top of its stack.
proof fn lemma_top_steps(s: Seq<Expecting>, buf: Seq<u8>, astlen: int, i: usize, k: u64)
    ensures
        step_of(s.push(Expecting::Something), buf, astlen) == item_step(buf, astlen as usize, s),
        k > 0 ==> step_of(s.push(Expecting::Array(i, Some(k))), buf, astlen) == item_step(
            buf,
            astlen as usize,
            s.push(Expecting::Array(i, Some((k - 1) as u64))),
        ),
        step_of(s.push(Expecting::Array(i, Some(0))), buf, astlen) == Step::Reads(
            0,
            seq![Piece::End],
            s,
        ),
        step_of(s.push(Expecting::TableHeader), buf, astlen) == array_step(
            buf,
            astlen as usize,
            s.push(Expecting::TableRows),
        ),
        step_of(s.push(Expecting::TableRows), buf, astlen) == array_step(buf, astlen as usize, s),
        step_of(s.push(Expecting::TimestampValue), buf, astlen) == read_step(
            s.push(Expecting::TimestampValue),
            buf,
            astlen as usize,
        ),
        step_of(s.push(Expecting::String(i, Some(k))), buf, astlen) == read_step(
            s.push(Expecting::String(i, Some(k))),
            buf,
            astlen as usize,
        ),
        step_of(s.push(Expecting::Bytes(i, Some(k))), buf, astlen) == read_step(
            s.push(Expecting::Bytes(i, Some(k))),
            buf,
            astlen as usize,
        ),
{
    reveal(step_of);
    assert(s.push(Expecting::Something).drop_last() =~= s);
    assert(s.push(Expecting::Array(i, Some(k))).drop_last() =~= s);
    assert(s.push(Expecting::Array(i, Some(0))).drop_last() =~= s);
    assert(s.push(Expecting::TableHeader).drop_last() =~= s);
    assert(s.push(Expecting::TableRows).drop_last() =~= s);
}

/// Runs one after the other make one run.
proof fn lemma_run_then(
    s0: Seq<Expecting>,
    buf: Seq<u8>,
    astlen: int,
    m1: nat,
    m2: nat,
    r1: (int, Seq<Piece>, Seq<Expecting>),
    r2: (int, Seq<Piece>, Seq<Expecting>),
)
    requires
        run(s0, buf, astlen, m1) == Some(r1),
        run(r1.2, buf.skip(r1.0), astlen + r1.1.len(), m2) == Some(r2),
    ensures
        run(s0, buf, astlen, m1 + m2) == Some((r1.0 + r2.0, r1.1 + r2.1, r2.2)),
{
    lemma_run_concat(s0, buf, astlen, m1, m2);
}

/// Every datum that streams back takes at least one step.
proof fn lemma_steps_positive(d: Datum)
    requires
        streams_back(d),
    ensures
        steps_of(d) >= 1,
{
}

/// The items of an array that stream back, read where the array still
/// expects `k` items: the reader reads each in turn, and then expects
/// `k` less.
proof fn lemma_items_run(items: Seq<Datum>, rest: Seq<u8>, s: Seq<Expecting>, i: usize, k: nat, astlen: int)
    requires
        items.len() <= k <= u64::MAX,
        forall|j: int| 0 <= j < items.len() ==> streams_back(#[trigger] items[j]),
    ensures
        run(
            s.push(Expecting::Array(i, Some(k as u64))),
            encodings(items) + rest,
            astlen,
            items_steps(items),
        ) == Some(
            (
                encodings(items).len() as int,
                items_pieces(items),
                s.push(Expecting::Array(i, Some((k - items.len()) as u64))),
            ),
        ),
    decreases items, 0int,
{
    if items.len() == 0 {
        assert(Seq::<u8>::empty() + rest =~= rest);
        assert(encodings(items) =~= Seq::<u8>::empty());
        assert(items_pieces(items) =~= Seq::<Piece>::empty());
    } else {
        let init = items.drop_last();
        let x = items.last();
        let n = items.len();
        let buf = encodings(items) + rest;
        let tail = encoding(x) + rest;
        assert(buf =~= encodings(init) + tail);
        assert forall|j: int| 0 <= j < init.len() implies streams_back(#[trigger] init[j]) by {
            assert(init[j] == items[j]);
        }
        lemma_items_run(init, tail, s, i, k, astlen);
        let r1 = (
            encodings(init).len() as int,
            items_pieces(init),
            s.push(Expecting::Array(i, Some((k - init.len()) as u64))),
        );
        lemma_take_concat(encodings(init), tail);
        let a2 = astlen + items_pieces(init).len();
        let below = s.push(Expecting::Array(i, Some((k - n) as u64)));
        assert(streams_back(x)) by {
            assert(x == items[n - 1]);
        }
        assert(decreases_to!(items => items[n - 1]));
        lemma_item_run(x, rest, below, a2);
        lemma_steps_positive(x);
        lemma_top_steps(s, tail, a2, i, (k - init.len()) as u64);
        lemma_top_steps(below, tail, a2, i, 0);
        lemma_run_same_start(
            s.push(Expecting::Array(i, Some((k - init.len()) as u64))),
            below.push(Expecting::Something),
            tail,
            a2,
            steps_of(x),
        );
        let r2 = (encoding(x).len() as int, pieces_of(x), below);
        lemma_run_then(
            s.push(Expecting::Array(i, Some(k as u64))),
            buf,
            astlen,
            items_steps(init),
            steps_of(x),
            r1,
            r2,
        );
    }
}

/// The items of an array that stream back, read after its head: each
/// item, then the end of the array.
proof fn lemma_array_body(items: Seq<Datum>, rest: Seq<u8>, s: Seq<Expecting>, i: usize, astlen: int)
    requires
        items.len() <= u64::MAX,
        forall|j: int| 0 <= j < items.len() ==> streams_back(#[trigger] items[j]),
    ensures
        run(
            s.push(Expecting::Array(i, Some(items.len() as u64))),
            encodings(items) + rest,
            astlen,
            items_steps(items) + 1,
        ) == Some(
            (
                encodings(items).len() as int,
                items_pieces(items) + seq![Piece::End],
                s,
            ),
        ),
    decreases items, 1int,
{
    let buf = encodings(items) + rest;
    lemma_items_run(items, rest, s, i, items.len(), astlen);
    let r1 = (
        encodings(items).len() as int,
        items_pieces(items),
        s.push(Expecting::Array(i, Some(0))),
    );
    lemma_take_concat(encodings(items), rest);
    let a2 = astlen + items_pieces(items).len();
    lemma_top_steps(s, rest, a2, i, 0);
    lemma_run_one(s.push(Expecting::Array(i, Some(0))), rest, a2);
    lemma_run_then(
        s.push(Expecting::Array(i, Some(items.len() as u64))),
        buf,
        astlen,
        items_steps(items),
        1,
        r1,
        (0, seq![Piece::End], s),
    );
}

/// The rows of a table that stream back, read where the array of rows
/// still expects `k` rows: each row as an array, and then `k` less are
/// expected.
proof fn lemma_rows_run(rows: Seq<Seq<Datum>>, rest: Seq<u8>, s: Seq<Expecting>, i: usize, k: nat, astlen: int)
    requires
        rows.len() <= k <= u64::MAX,
        forall|r: int|
            0 <= r < rows.len() ==> (#[trigger] rows[r]).len() <= u64::MAX && forall|j: int|
                0 <= j < rows[r].len() ==> streams_back(#[trigger] rows[r][j]),
    ensures
        run(
            s.push(Expecting::Array(i, Some(k as u64))),
            row_encodings(rows) + rest,
            astlen,
            rows_steps(rows),
        ) == Some(
            (
                row_encodings(rows).len() as int,
                rows_pieces(rows),
                s.push(Expecting::Array(i, Some((k - rows.len()) as u64))),
            ),
        ),
    decreases rows, 0int,
{
    if rows.len() == 0 {
        assert(Seq::<u8>::empty() + rest =~= rest);
        assert(row_encodings(rows) =~= Seq::<u8>::empty());
        assert(rows_pieces(rows) =~= Seq::<Piece>::empty());
    } else {
        let init = rows.drop_last();
        let x = rows.last();
        let n = rows.len();
        let buf = row_encodings(rows) + rest;
        let h = head(4, x.len() as u64);
        let tail = h + (encodings(x) + rest);
        assert(buf =~= row_encodings(init) + tail);
        assert forall|r: int|
            0 <= r < init.len() implies (#[trigger] init[r]).len() <= u64::MAX && forall|j: int|
                0 <= j < init[r].len() ==> streams_back(#[trigger] init[r][j]) by {
            assert(init[r] == rows[r]);
        }
        lemma_rows_run(init, tail, s, i, k, astlen);
        let r1 = (
            row_encodings(init).len() as int,
            rows_pieces(init),
            s.push(Expecting::Array(i, Some((k - init.len()) as u64))),
        );
        lemma_take_concat(row_encodings(init), tail);
        let a2 = astlen + rows_pieces(init).len();
        let below = s.push(Expecting::Array(i, Some((k - n) as u64)));
        assert(x == rows[n - 1]);
        assert(decreases_to!(rows => rows[n - 1]));
        lemma_top_steps(s, tail, a2, i, (k - init.len()) as u64);
        lemma_count_head(x.len() as u64, encodings(x) + rest, a2 as usize, below);
        lemma_run_one(s.push(Expecting::Array(i, Some((k - init.len()) as u64))), tail, a2);
        let st1 = (h.len() as int, seq![Piece::Array(Some(x.len() as u64))], below.push(
            Expecting::Array(a2 as usize, Some(x.len() as u64)),
        ));
        lemma_array_body(x, rest, below, a2 as usize, a2 + 1);
        let st2 = (encodings(x).len() as int, items_pieces(x) + seq![Piece::End], below);
        lemma_run_then(
            s.push(Expecting::Array(i, Some((k - init.len()) as u64))),
            tail,
            a2,
            1,
            items_steps(x) + 1,
            st1,
            st2,
        );
        let r2 = (
            (h.len() + encodings(x).len()) as int,
            seq![Piece::Array(Some(x.len() as u64))] + (items_pieces(x) + seq![Piece::End]),
            below,
        );
        lemma_run_then(
            s.push(Expecting::Array(i, Some(k as u64))),
            buf,
            astlen,
            rows_steps(init),
            items_steps(x) + 2,
            r1,
            r2,
        );
        assert(rows_pieces(rows) =~= rows_pieces(init) + (seq![Piece::Array(Some(x.len() as u64))]
            + (items_pieces(x) + seq![Piece::End])));
    }
}

/// The ensures of reading a datum where one value is expected.
pub open spec fn reads_whole(d: Datum, rest: Seq<u8>, s: Seq<Expecting>, astlen: int) -> bool {
    run(s.push(Expecting::Something), encoding(d) + rest, astlen, steps_of(d)) == Some(
        (encoding(d).len() as int, pieces_of(d), s),
    )
}

/// Two steps, one after the other, as a run.
proof fn lemma_two_steps(
    s0: Seq<Expecting>,
    buf: Seq<u8>,
    astlen: int,
    k1: int,
    p1: Seq<Piece>,
    s1: Seq<Expecting>,
    k2: int,
    p2: Seq<Piece>,
    s2: Seq<Expecting>,
)
    requires
        step_of(s0, buf, astlen) == Step::Reads(k1, p1, s1),
        0 <= k1 <= buf.len(),
        step_of(s1, buf.skip(k1), astlen + p1.len()) == Step::Reads(k2, p2, s2),
        0 <= k2 <= buf.len() - k1,
    ensures
        run(s0, buf, astlen, 2) == Some((k1 + k2, p1 + p2, s2)),
{
    lemma_run_one(s0, buf, astlen);
    lemma_run_one(s1, buf.skip(k1), astlen + p1.len());
    lemma_run_then(s0, buf, astlen, 1, 1, (k1, p1, s1), (k2, p2, s2));
}

proof fn lemma_text_run(t: Seq<char>, rest: Seq<u8>, s: Seq<Expecting>, astlen: int)
    requires
        streams_back(Datum::Text(t)),
    ensures
        reads_whole(Datum::Text(t), rest, s, astlen),
{
    let d = Datum::Text(t);
    let buf = encoding(d) + rest;
    let ai = astlen as usize;
    let e = utf8_encode(t);
    let h = head(3, e.len() as u64);
    lemma_top_steps(s, buf, astlen, 0, 0);
    lemma_text_steps(t, rest, ai, ai, (astlen + 1) as usize, s);
    let st = s.push(Expecting::String(ai, Some(e.len() as u64)));
    lemma_top_steps(s, e + rest, astlen + 1, ai, e.len() as u64);
    lemma_two_steps(
        s.push(Expecting::Something),
        buf,
        astlen,
        h.len() as int,
        seq![Piece::Text],
        st,
        e.len() as int,
        seq![Piece::TextPart(t), Piece::End],
        s,
    );
    assert(seq![Piece::Text] + seq![Piece::TextPart(t), Piece::End] =~= pieces_of(d));
}

proof fn lemma_bytes_run(d: Datum, rest: Seq<u8>, s: Seq<Expecting>, astlen: int)
    requires
        d is Bytes || d is Path,
        streams_back(d),
    ensures
        reads_whole(d, rest, s, astlen),
{
    let buf = encoding(d) + rest;
    let ai = astlen as usize;
    let b = if d is Bytes { d->Bytes_0 } else { d->Path_0 };
    let first = if d is Bytes { Piece::Bytes } else { Piece::Path };
    lemma_top_steps(s, buf, astlen, 0, 0);
    lemma_bytes_steps(d, rest, ai, ai, (astlen + 1) as usize, s);
    let hl = (encoding(d).len() - b.len()) as int;
    let st = s.push(Expecting::Bytes(ai, Some(b.len() as u64)));
    lemma_top_steps(s, b + rest, astlen + 1, ai, b.len() as u64);
    lemma_two_steps(
        s.push(Expecting::Something),
        buf,
        astlen,
        hl,
        seq![first],
        st,
        b.len() as int,
        seq![Piece::BytesPart(b), Piece::End],
        s,
    );
    assert(seq![first] + seq![Piece::BytesPart(b), Piece::End] =~= pieces_of(d));
}

proof fn lemma_timestamp_run(ts: i64, rest: Seq<u8>, s: Seq<Expecting>, astlen: int)
    ensures
        reads_whole(Datum::Timestamp(ts), rest, s, astlen),
{
    let d = Datum::Timestamp(ts);
    let buf = encoding(d) + rest;
    let ai = astlen as usize;
    let v = encoding(Datum::Int(ts as i128));
    let h = head(6, TIMESTAMP_TAG);
    assert(buf =~= h + (v + rest));
    lemma_top_steps(s, buf, astlen, 0, 0);
    lemma_tag_step(TIMESTAMP_TAG, v + rest, ai, s);
    lemma_timestamp_value_step(ts, rest, (astlen + 1) as usize, s);
    lemma_top_steps(s, v + rest, astlen + 1, 0, 0);
    lemma_two_steps(
        s.push(Expecting::Something),
        buf,
        astlen,
        h.len() as int,
        seq![Piece::Timestamp],
        s.push(Expecting::TimestampValue),
        v.len() as int,
        seq![Piece::Int(ts as i128)],
        s,
    );
    assert(seq![Piece::Timestamp] + seq![Piece::Int(ts as i128)] =~= pieces_of(d));
}

proof fn lemma_scalar_run(d: Datum, rest: Seq<u8>, s: Seq<Expecting>, astlen: int)
    requires
        streams_back(d),
        d is Int || d is Float || d is Bool || d is Null || d is Undefined || d is Simple,
    ensures
        reads_whole(d, rest, s, astlen),
{
    let buf = encoding(d) + rest;
    lemma_top_steps(s, buf, astlen, 0, 0);
    lemma_scalar_step(d, rest, astlen as usize, s);
    lemma_run_one(s.push(Expecting::Something), buf, astlen);
}

proof fn lemma_tag_run(d: Datum, rest: Seq<u8>, s: Seq<Expecting>, astlen: int)
    requires
        d is Tag,
        streams_back(d),
    ensures
        reads_whole(d, rest, s, astlen),
    decreases d, 0int,
{
    if let Datum::Tag(t, inner) = d {
        let buf = encoding(d) + rest;
        let top = s.push(Expecting::Something);
        let h = head(6, t);
        assert(buf =~= h + (encoding(*inner) + rest));
        lemma_top_steps(s, buf, astlen, 0, 0);
        lemma_tag_step(t, encoding(*inner) + rest, astlen as usize, s);
        lemma_run_one(top, buf, astlen);
        lemma_item_run(*inner, rest, s, astlen + 1);
        lemma_run_then(
            top,
            buf,
            astlen,
            1,
            steps_of(*inner),
            (h.len() as int, seq![Piece::Tag(t)], top),
            (encoding(*inner).len() as int, pieces_of(*inner), s),
        );
    }
}

proof fn lemma_array_run(d: Datum, rest: Seq<u8>, s: Seq<Expecting>, astlen: int)
    requires
        d is Array,
        streams_back(d),
    ensures
        reads_whole(d, rest, s, astlen),
    decreases d, 0int,
{
    if let Datum::Array(items) = d {
        let buf = encoding(d) + rest;
        let top = s.push(Expecting::Something);
        let ai = astlen as usize;
        let h = head(4, items.len() as u64);
        assert(buf =~= h + (encodings(items) + rest));
        lemma_top_steps(s, buf, astlen, 0, 0);
        lemma_count_head(items.len() as u64, encodings(items) + rest, ai, s);
        lemma_run_one(top, buf, astlen);
        let st = s.push(Expecting::Array(ai, Some(items.len() as u64)));
        lemma_array_body(items, rest, s, ai, astlen + 1);
        lemma_run_then(
            top,
            buf,
            astlen,
            1,
            items_steps(items) + 1,
            (h.len() as int, seq![Piece::Array(Some(items.len() as u64))], st),
            (encodings(items).len() as int, items_pieces(items) + seq![Piece::End], s),
        );
        assert(seq![Piece::Array(Some(items.len() as u64))] + (items_pieces(items) + seq![
            Piece::End,
        ]) =~= pieces_of(d));
    }
}

/// A datum that streams back, read where one value is expected: the
/// reader reads all its encoding, gives its tokens, and leaves the stack
/// as it was below the expectation.
proof fn lemma_item_run(d: Datum, rest: Seq<u8>, s: Seq<Expecting>, astlen: int)
    requires
        streams_back(d),
    ensures
        reads_whole(d, rest, s, astlen),
    decreases d, 2int,
{
    match d {
        Datum::Text(t) => lemma_text_run(t, rest, s, astlen),
        Datum::Bytes(_) => lemma_bytes_run(d, rest, s, astlen),
        Datum::Path(_) => lemma_bytes_run(d, rest, s, astlen),
        Datum::Timestamp(ts) => lemma_timestamp_run(ts, rest, s, astlen),
        Datum::Tag(_, _) => lemma_tag_run(d, rest, s, astlen),
        Datum::Array(_) => lemma_array_run(d, rest, s, astlen),
        Datum::Table { .. } => lemma_table_run(d, rest, s, astlen),
        Datum::Dict(_) => {},
        _ => lemma_scalar_run(d, rest, s, astlen),
    }
}

/// The tag of a table, then its header: the head of the array, its items
/// and its end, read where one value is expected; the rows are expected
/// next.
#[verifier::rlimit(40)]
#[verifier::spinoff_prover]
proof fn lemma_table_front(d: Datum, rest: Seq<u8>, s: Seq<Expecting>, astlen: int)
    requires
        d is Table,
        streams_back(d),
    ensures
        ({
            let header = d->header;
            let rows = d->rows;
            let k3 = (head(6, TABLE_TAG).len() + head(4, header.len() as u64).len() + encodings(
                header,
            ).len()) as int;
            let p3 = seq![Piece::Table, Piece::Array(Some(header.len() as u64))] + items_pieces(header)
                + seq![Piece::End];
            &&& run(
                s.push(Expecting::Something),
                encoding(d) + rest,
                astlen,
                items_steps(header) + 3,
            ) == Some((k3, p3, s.push(Expecting::TableRows)))
            &&& (encoding(d) + rest).skip(k3) == head(4, rows.len() as u64) + (row_encodings(rows)
                + rest)
        }),
    decreases d, 0int,
{
    if let Datum::Table { header, rows } = d {
        let nh = header.len() as u64;
        let nr = rows.len() as u64;
        let buf = encoding(d) + rest;
        let top = s.push(Expecting::Something);
        let h1 = head(6, TABLE_TAG);
        let h2 = head(4, nh);
        let eh = encodings(header);
        let t3 = head(4, nr) + (row_encodings(rows) + rest);
        let t2 = h2 + (eh + t3);
        assert(buf =~= h1 + t2);
        lemma_tag_step(TABLE_TAG, t2, astlen as usize, s);
        lemma_top_steps(s, buf, astlen, 0, 0);
        let sh = s.push(Expecting::TableHeader);
        let a1 = astlen + 1;
        let srows = s.push(Expecting::TableRows);
        lemma_top_steps(s, t2, a1, 0, 0);
        lemma_count_head(nh, eh + t3, a1 as usize, srows);
        let s2 = srows.push(Expecting::Array(a1 as usize, Some(nh)));
        lemma_two_steps(
            top,
            buf,
            astlen,
            h1.len() as int,
            seq![Piece::Table],
            sh,
            h2.len() as int,
            seq![Piece::Array(Some(nh))],
            s2,
        );
        let p12 = seq![Piece::Table] + seq![Piece::Array(Some(nh))];
        lemma_array_body(header, t3, srows, a1 as usize, a1 + 1);
        assert(buf.skip((h1.len() + h2.len()) as int) =~= eh + t3);
        lemma_run_then(
            top,
            buf,
            astlen,
            2,
            items_steps(header) + 1,
            ((h1.len() + h2.len()) as int, p12, s2),
            (eh.len() as int, items_pieces(header) + seq![Piece::End], srows),
        );
        assert(p12 + (items_pieces(header) + seq![Piece::End]) =~= seq![
            Piece::Table,
            Piece::Array(Some(nh)),
        ] + items_pieces(header) + seq![Piece::End]);
        assert(buf.skip((h1.len() + h2.len() + eh.len()) as int) =~= t3);
    }
}

/// The rows of a table, where a table expects them: the head of their
/// array, each row, and its end.
#[verifier::rlimit(40)]
#[verifier::spinoff_prover]
proof fn lemma_table_back(d: Datum, rest: Seq<u8>, s: Seq<Expecting>, astlen: int)
    requires
        d is Table,
        streams_back(d),
    ensures
        ({
            let rows = d->rows;
            let h3 = head(4, rows.len() as u64);
            run(
                s.push(Expecting::TableRows),
                h3 + (row_encodings(rows) + rest),
                astlen,
                rows_steps(rows) + 2,
            ) == Some(
                (
                    (h3.len() + row_encodings(rows).len()) as int,
                    seq![Piece::Array(Some(rows.len() as u64))] + rows_pieces(rows) + seq![Piece::End],
                    s,
                ),
            )
        }),
    decreases d, 0int,
{
    if let Datum::Table { header, rows } = d {
        let nr = rows.len() as u64;
        let h3 = head(4, nr);
        let er = row_encodings(rows);
        let t3 = h3 + (er + rest);
        let srows = s.push(Expecting::TableRows);
        let ai = astlen as usize;
        lemma_top_steps(s, t3, astlen, 0, 0);
        lemma_count_head(nr, er + rest, ai, s);
        lemma_run_one(srows, t3, astlen);
        let sa = s.push(Expecting::Array(ai, Some(nr)));
        let a4 = astlen + 1;
        lemma_rows_run(rows, rest, s, ai, rows.len(), a4);
        lemma_take_concat(er, rest);
        let sz = s.push(Expecting::Array(ai, Some(0)));
        let a5 = a4 + rows_pieces(rows).len();
        lemma_top_steps(s, rest, a5, ai, 0);
        lemma_run_one(sz, rest, a5);
        lemma_run_then(sa, er + rest, a4, rows_steps(rows), 1, (er.len() as int, rows_pieces(rows), sz), (
            0,
            seq![Piece::End],
            s,
        ));
        lemma_run_then(
            srows,
            t3,
            astlen,
            1,
            rows_steps(rows) + 1,
            (h3.len() as int, seq![Piece::Array(Some(nr))], sa),
            (er.len() as int, rows_pieces(rows) + seq![Piece::End], s),
        );
        assert(seq![Piece::Array(Some(nr))] + (rows_pieces(rows) + seq![Piece::End]) =~= seq![
            Piece::Array(Some(nr)),
        ] + rows_pieces(rows) + seq![Piece::End]);
    }
}

/// A table that streams back, read where one value is expected: its tag,
/// the array of its header, and the array of its rows.
proof fn lemma_table_run(d: Datum, rest: Seq<u8>, s: Seq<Expecting>, astlen: int)
    requires
        d is Table,
        streams_back(d),
    ensures
        reads_whole(d, rest, s, astlen),
    decreases d, 1int,
{
    if let Datum::Table { header, rows } = d {
        let k3 = (head(6, TABLE_TAG).len() + head(4, header.len() as u64).len() + encodings(
            header,
        ).len()) as int;
        let p3 = seq![Piece::Table, Piece::Array(Some(header.len() as u64))] + items_pieces(header)
            + seq![Piece::End];
        let h3 = head(4, rows.len() as u64);
        lemma_table_front(d, rest, s, astlen);
        lemma_table_back(d, rest, s, astlen + p3.len());
        lemma_run_then(
            s.push(Expecting::Something),
            encoding(d) + rest,
            astlen,
            items_steps(header) + 3,
            rows_steps(rows) + 2,
            (k3, p3, s.push(Expecting::TableRows)),
            (
                (h3.len() + row_encodings(rows).len()) as int,
                seq![Piece::Array(Some(rows.len() as u64))] + rows_pieces(rows) + seq![Piece::End],
                s,
            ),
        );
        assert(p3 + (seq![Piece::Array(Some(rows.len() as u64))] + rows_pieces(rows) + seq![
            Piece::End,
        ]) =~= pieces_of(d));
    }
}

/// The tokens at the start of `ts` are, by their models, `p`.
pub open spec fn shows(ts: Seq<Token>, p: Seq<Piece>) -> bool {
    p.len() <= ts.len() && forall|i: int| 0 <= i < p.len() ==> piece_of(#[trigger] ts[i]) == p[i]
}

/// Rows, each as an array.
pub open spec fn arrays(rows: Seq<Seq<Datum>>) -> Seq<Datum> {
    rows.map_values(|r: Seq<Datum>| Datum::Array(r))
}

proof fn lemma_items_pieces_front(items: Seq<Datum>)
    requires
        items.len() > 0,
    ensures
        items_pieces(items) == pieces_of(items[0]) + items_pieces(items.drop_first()),
    decreases items.len(),
{
    if items.len() == 1 {
        assert(items.drop_last() =~= Seq::<Datum>::empty());
        assert(items.drop_first() =~= Seq::<Datum>::empty());
        assert(items_pieces(items) =~= pieces_of(items[0]) + items_pieces(items.drop_first()));
    } else {
        lemma_items_pieces_front(items.drop_last());
        assert(items.drop_last().drop_first() =~= items.drop_first().drop_last());
        assert(items.drop_last()[0] == items[0]);
        assert(items.drop_first().last() == items.last());
        assert(items_pieces(items) =~= pieces_of(items[0]) + items_pieces(items.drop_first()));
    }
}

proof fn lemma_rows_pieces_arrays(rows: Seq<Seq<Datum>>)
    ensures
        rows_pieces(rows) == items_pieces(arrays(rows)),
    decreases rows.len(),
{
    if rows.len() > 0 {
        let a = arrays(rows);
        lemma_rows_pieces_arrays(rows.drop_last());
        assert(a.drop_last() =~= arrays(rows.drop_last()));
        assert(a.last() == Datum::Array(rows.last()));
        assert(a.len() > 0);
        assert(items_pieces(a) == items_pieces(a.drop_last()) + pieces_of(a.last()));
        assert(pieces_of(a.last()) == seq![Piece::Array(Some(rows.last().len() as u64))]
            + items_pieces(rows.last()) + seq![Piece::End]);
        assert(rows_pieces(rows) =~= items_pieces(a));
    } else {
        assert(arrays(rows) =~= Seq::<Datum>::empty());
    }
}

/// The tokens of a datum that streams back start with something other
/// than an end, and there is one at least.
proof fn lemma_pieces_start(d: Datum)
    requires
        streams_back(d),
    ensures
        pieces_of(d).len() >= 1,
        !(pieces_of(d)[0] is End),
{
    match d {
        Datum::Tag(t, inner) => {
            assert((seq![Piece::Tag(t)] + pieces_of(*inner))[0] == Piece::Tag(t));
        },
        Datum::Array(items) => {
            assert((seq![Piece::Array(Some(items.len() as u64))] + items_pieces(items) + seq![
                Piece::End,
            ])[0] == Piece::Array(Some(items.len() as u64)));
        },
        Datum::Table { header, rows } => {
            let p = pieces_of(d);
            assert(p[0] == Piece::Table);
        },
        _ => {},
    }
}

proof fn lemma_shows_skip(ts: Seq<Token>, a: Seq<Piece>, b: Seq<Piece>)
    requires
        shows(ts, a + b),
    ensures
        shows(ts, a),
        shows(ts.skip(a.len() as int), b),
{
    assert forall|i: int| 0 <= i < a.len() implies piece_of(#[trigger] ts[i]) == a[i] by {
        assert((a + b)[i] == a[i]);
    }
    assert forall|i: int| 0 <= i < b.len() implies piece_of(#[trigger] ts.skip(a.len() as int)[i])
        == b[i] by {
        assert(ts.skip(a.len() as int)[i] == ts[a.len() + i]);
        assert((a + b)[a.len() + i] == b[i]);
    }
}

/// Tokens that show a datum that streams back gather to it.
proof fn lemma_gathered_datum(d: Datum, ts: Seq<Token>)
    requires
        streams_back(d),
        shows(ts, pieces_of(d)),
    ensures
        gathered(ts) == Gathered::Done(pieces_of(d).len() as int, d),
    decreases d, 2int,
{
    lemma_pieces_start(d);
    assert(piece_of(ts[0]) == pieces_of(d)[0]);
    match d {
        Datum::Text(t) => {
            assert(piece_of(ts[1]) == Piece::TextPart(t));
            assert(piece_of(ts[2]) == Piece::End);
            let r = ts.drop_first();
            assert(r[0] == ts[1] && r[1] == ts[2]);
            assert(r.drop_first()[0] == ts[2]);
            if let Token::TextPart(x) = ts[1] {
                assert(x@ + Seq::<char>::empty() =~= t);
            }
            assert(text_parts(r.drop_first()) == Some((0int, Seq::<char>::empty())));
            assert(text_parts(r) == Some((1int, t)));
            assert(gathered(ts) == Gathered::Done(3, d));
        },
        Datum::Bytes(b) => {
            assert(piece_of(ts[1]) == Piece::BytesPart(b));
            assert(piece_of(ts[2]) == Piece::End);
            let r = ts.drop_first();
            assert(r[0] == ts[1] && r[1] == ts[2]);
            assert(r.drop_first()[0] == ts[2]);
            if let Token::BytesPart(x) = ts[1] {
                assert(x@ + Seq::<u8>::empty() =~= b);
            }
            assert(byte_parts(r.drop_first()) == Some((0int, Seq::<u8>::empty())));
            assert(byte_parts(r) == Some((1int, b)));
            assert(gathered(ts) == Gathered::Done(3, d));
        },
        Datum::Path(b) => {
            assert(piece_of(ts[1]) == Piece::BytesPart(b));
            assert(piece_of(ts[2]) == Piece::End);
            let r = ts.drop_first();
            assert(r[0] == ts[1] && r[1] == ts[2]);
            assert(r.drop_first()[0] == ts[2]);
            if let Token::BytesPart(x) = ts[1] {
                assert(x@ + Seq::<u8>::empty() =~= b);
            }
            assert(byte_parts(r.drop_first()) == Some((0int, Seq::<u8>::empty())));
            assert(byte_parts(r) == Some((1int, b)));
        },
        Datum::Timestamp(ts_v) => {
            assert(piece_of(ts[1]) == Piece::Int(ts_v as i128));
            assert(ts.drop_first()[0] == ts[1]);
            assert(gathered(ts.drop_first()) == Gathered::Done(1, Datum::Int(ts_v as i128)));
            assert(gathered(ts) == Gathered::Done(2, d));
        },
        Datum::Tag(t, inner) => {
            lemma_shows_skip(ts, seq![Piece::Tag(t)], pieces_of(*inner));
            assert(ts.skip(1) =~= ts.drop_first());
            lemma_gathered_datum(*inner, ts.drop_first());
        },
        Datum::Array(items) => {
            lemma_gathered_array(items, ts);
        },
        Datum::Table { .. } => {
            lemma_gathered_table(d, ts);
        },
        Datum::Dict(_) => {},
        _ => {
            assert(gathered(ts) == Gathered::Done(1, d));
        },
    }
}

/// Tokens that show an array of items that stream back gather to it.
proof fn lemma_gathered_array(items: Seq<Datum>, ts: Seq<Token>)
    requires
        forall|j: int| 0 <= j < items.len() ==> streams_back(#[trigger] items[j]),
        shows(ts, seq![Piece::Array(Some(items.len() as u64))] + items_pieces(items) + seq![Piece::End]),
    ensures
        gathered(ts) == Gathered::Done(items_pieces(items).len() + 2int, Datum::Array(items)),
    decreases items, 1int,
{
    let h = seq![Piece::Array(Some(items.len() as u64))];
    assert(h + items_pieces(items) + seq![Piece::End] =~= h + (items_pieces(items) + seq![Piece::End]));
    lemma_shows_skip(ts, h, items_pieces(items) + seq![Piece::End]);
    assert(ts.skip(1) =~= ts.drop_first());
    assert(piece_of(ts[0]) == Piece::Array(Some(items.len() as u64)));
    lemma_gathered_items(items, ts.drop_first());
}

/// Tokens that show the items of an array, then its end, gather to the
/// items.
proof fn lemma_gathered_items(items: Seq<Datum>, ts: Seq<Token>)
    requires
        forall|j: int| 0 <= j < items.len() ==> streams_back(#[trigger] items[j]),
        shows(ts, items_pieces(items) + seq![Piece::End]),
    ensures
        gathered_items(ts) == Gathered::Done(items_pieces(items).len() as int, items),
    decreases items, 0int,
{
    if items.len() == 0 {
        assert(items_pieces(items) =~= Seq::<Piece>::empty());
        assert(piece_of(ts[0]) == (items_pieces(items) + seq![Piece::End])[0]);
        assert(items =~= Seq::<Datum>::empty());
    } else {
        let x = items[0];
        let tail = items.drop_first();
        lemma_items_pieces_front(items);
        assert(items_pieces(items) + seq![Piece::End] =~= pieces_of(x) + (items_pieces(tail) + seq![
            Piece::End,
        ]));
        lemma_shows_skip(ts, pieces_of(x), items_pieces(tail) + seq![Piece::End]);
        assert(decreases_to!(items => items[0]));
        lemma_gathered_datum(x, ts);
        lemma_pieces_start(x);
        assert(piece_of(ts[0]) == pieces_of(x)[0]);
        assert forall|j: int| 0 <= j < tail.len() implies streams_back(#[trigger] tail[j]) by {
            assert(tail[j] == items[j + 1]);
        }
        lemma_gathered_items(tail, ts.skip(pieces_of(x).len() as int));
        assert(seq![x] + tail =~= items);
    }
}

/// Tokens that show the rows of a table, then the end of their array,
/// gather to the rows, each as an array.
proof fn lemma_gathered_rows(rows: Seq<Seq<Datum>>, ts: Seq<Token>)
    requires
        forall|r: int|
            0 <= r < rows.len() ==> (#[trigger] rows[r]).len() <= u64::MAX && forall|j: int|
                0 <= j < rows[r].len() ==> streams_back(#[trigger] rows[r][j]),
        shows(ts, rows_pieces(rows) + seq![Piece::End]),
    ensures
        gathered_items(ts) == Gathered::Done(rows_pieces(rows).len() as int, arrays(rows)),
    decreases rows, 0int,
{
    lemma_rows_pieces_arrays(rows);
    let items = arrays(rows);
    if rows.len() == 0 {
        assert(items_pieces(items) =~= Seq::<Piece>::empty());
        assert(piece_of(ts[0]) == (items_pieces(items) + seq![Piece::End])[0]);
        assert(items =~= Seq::<Datum>::empty());
    } else {
        let x = rows[0];
        let tail = rows.drop_first();
        lemma_items_pieces_front(items);
        assert(items[0] == Datum::Array(x));
        assert(items.drop_first() =~= arrays(tail));
        lemma_rows_pieces_arrays(tail);
        let px = seq![Piece::Array(Some(x.len() as u64))] + items_pieces(x) + seq![Piece::End];
        assert(pieces_of(items[0]) == px);
        assert(items_pieces(items) + seq![Piece::End] =~= px + (items_pieces(arrays(tail)) + seq![
            Piece::End,
        ]));
        lemma_shows_skip(ts, px, items_pieces(arrays(tail)) + seq![Piece::End]);
        assert(decreases_to!(rows => rows[0]));
        assert forall|j: int| 0 <= j < x.len() implies streams_back(#[trigger] x[j]) by {
            assert(x[j] == rows[0][j]);
        }
        lemma_gathered_array(x, ts);
        assert(piece_of(ts[0]) == px[0]);
        assert forall|r: int|
            0 <= r < tail.len() implies (#[trigger] tail[r]).len() <= u64::MAX && forall|j: int|
                0 <= j < tail[r].len() ==> streams_back(#[trigger] tail[r][j]) by {
            assert(tail[r] == rows[r + 1]);
        }
        lemma_gathered_rows(tail, ts.skip(px.len() as int));
        assert(seq![Datum::Array(x)] + arrays(tail) =~= items);
    }
}

/// Tokens that show a table that streams back gather to it.
#[verifier::rlimit(40)]
#[verifier::spinoff_prover]
proof fn lemma_gathered_table(d: Datum, ts: Seq<Token>)
    requires
        d is Table,
        streams_back(d),
        shows(ts, pieces_of(d)),
    ensures
        gathered(ts) == Gathered::Done(pieces_of(d).len() as int, d),
    decreases d, 1int,
{
    if let Datum::Table { header, rows } = d {
        let ph = seq![Piece::Array(Some(header.len() as u64))] + items_pieces(header) + seq![Piece::End];
        let pr = seq![Piece::Array(Some(rows.len() as u64))] + rows_pieces(rows) + seq![Piece::End];
        assert(pieces_of(d) =~= seq![Piece::Table] + (ph + pr));
        lemma_shows_skip(ts, seq![Piece::Table], ph + pr);
        assert(ts.skip(1) =~= ts.drop_first());
        let t1 = ts.drop_first();
        lemma_shows_skip(t1, ph, pr);
        lemma_gathered_array(header, t1);
        let n1 = ph.len() as int;
        assert(ts.skip(n1 + 1) =~= t1.skip(n1));
        let t2 = t1.skip(n1);
        assert(pr =~= seq![Piece::Array(Some(rows.len() as u64))] + (rows_pieces(rows) + seq![
            Piece::End,
        ]));
        lemma_shows_skip(t2, seq![Piece::Array(Some(rows.len() as u64))], rows_pieces(rows) + seq![
            Piece::End,
        ]);
        assert(t2.skip(1) =~= t2.drop_first());
        lemma_gathered_rows(rows, t2.drop_first());
        assert(piece_of(t2[0]) == Piece::Array(Some(rows.len() as u64)));
        assert(piece_of(ts[0]) == Piece::Table);
        assert(all_arrays(arrays(rows)));
        assert(row_items(arrays(rows)) =~= rows);
        assert(gathered(t2) == Gathered::Done(pr.len() as int, Datum::Array(arrays(rows))));
    }
}

/// A reader made to expect one value, driven over what the writer gives
/// for a value that streams back (and any bytes after it), reads the value
/// back: after [`steps_of`] steps, none of which fails, it is done, has
/// read the whole encoding and nothing after it, and has added the tokens
/// of the value.
pub proof fn law_reader_reads_whole_value(d: Datum, rest: Seq<u8>)
    requires
        streams_back(d),
    ensures
        run(seq![Expecting::Something], encoding(d) + rest, 0, steps_of(d)) == Some(
            (encoding(d).len() as int, pieces_of(d), Seq::<Expecting>::empty()),
        ),
{
    lemma_item_run(d, rest, Seq::empty(), 0);
    assert(Seq::<Expecting>::empty().push(Expecting::Something) =~= seq![Expecting::Something]);
}

/// The tokens that the reader gives for a value that streams back gather
/// back to the value, so that [`crate::bwine::Token::collect`] gives it,
/// with the number of tokens it took.
pub proof fn law_read_tokens_gather_back(d: Datum, ts: Seq<Token>)
    requires
        streams_back(d),
        shows(ts, pieces_of(d)),
    ensures
        gathered(ts) == Gathered::Done(pieces_of(d).len() as int, d),
{
    lemma_gathered_datum(d, ts);
}

} // verus!
