//! The encoder and the decoder of whole values agree: the encoding of a
//! value decodes back to the value.
use vstd::prelude::*;
use crate::bwine::{Datum, PATH_TAG, TABLE_TAG};
use crate::utf8::{lemma_utf8_decode_encode, utf8_encode};
use crate::codec::{
    be_bytes, bytes_value, encoding, encodings, head, in_cbor_range, int_head, items_at, pair_at,
    pair_encodings, pairs_at, row_encodings, rows_at, simple_bytes, value_at, Parsed,
};
use crate::wire::{
    argument, be_num, chunk_item, count_item, float_item, int_item, info, kind_at, kind_of_byte,
    major, pow256, simple_item, Fault, Kind,
};

verus! {

/// The number that the `w` bytes of `x` spell is `x`, if it fits in them.
proof fn lemma_be_roundtrip(x: nat, w: nat)
    requires
        x < pow256(w),
    ensures
        be_bytes(x, w).len() == w,
        be_num(be_bytes(x, w)) == x,
    decreases w,
{
    if w > 0 {
        let p = pow256((w - 1) as nat);
        assert(x / 256 < p) by (nonlinear_arith)
            requires
                x < 256 * p,
        ;
        lemma_be_roundtrip(x / 256, (w - 1) as nat);
        assert(be_bytes(x, w).drop_last() =~= be_bytes(x / 256, (w - 1) as nat));
    }
}

/// A head of major type `m` (0 to 6) with argument `x`, found at `p`,
/// reads back as `x`: its first byte tells the major type and a sized
/// form, and the argument ends where the head does.
pub(crate) proof fn lemma_head(m: u8, x: u64, buf: Seq<u8>, p: int)
    requires
        m <= 6,
        0 <= p,
        p + head(m, x).len() <= buf.len(),
        buf.subrange(p, p + head(m, x).len()) == head(m, x),
    ensures
        head(m, x).len() >= 1,
        buf[p] == head(m, x)[0],
        major(buf[p]) == m,
        info(buf[p]) <= 27,
        info(buf[p]) >= 24 ==> head(m, x).len() >= 2,
        argument(buf, p) == Ok::<(u64, int), crate::wire::Fault>((x, p + head(m, x).len())),
{
    reveal_with_fuel(pow256, 9);
    let h = head(m, x);
    assert(buf[p] == h[0]) by {
        assert(buf.subrange(p, p + h.len())[0] == buf[p]);
    }
    if x <= 0x17 {
    } else if x <= 0xff {
        assert(buf[p + 1] == h[1]) by {
            assert(buf.subrange(p, p + h.len())[1] == buf[p + 1]);
        }
        assert(be_num(buf.subrange(p + 1, p + 2)) == x) by {
            let s = buf.subrange(p + 1, p + 2);
            reveal_with_fuel(be_num, 2);
            assert(s.drop_last() =~= Seq::<u8>::empty());
            assert(s.last() == buf[p + 1]);
            assert(h[1] == x as u8);
        }
    } else {
        let w: nat = if x <= 0xffff {
            2
        } else if x <= 0xffff_ffff {
            4
        } else {
            8
        };
        lemma_be_roundtrip(x as nat, w);
        assert(h =~= seq![h[0]] + be_bytes(x as nat, w));
        assert(buf.subrange(p + 1, p + 1 + w) =~= be_bytes(x as nat, w)) by {
            assert forall|i: int| 0 <= i < w implies buf.subrange(p + 1, p + 1 + w)[i] == be_bytes(
                x as nat,
                w,
            )[i] by {
                assert(buf.subrange(p, p + h.len())[i + 1] == buf[p + 1 + i]);
            }
        }
    }
}

/// The datum reads back from its encoding: it holds no timestamp (which
/// reads back as its tag) and no tag with the number of a path or a table
/// (which reads back as one); its integers are in the range of CBOR
/// integers; and its strings and compound values are no longer than a
/// length can say.
pub open spec fn reads_back(d: Datum) -> bool
    decreases d,
{
    match d {
        Datum::Int(i) => in_cbor_range(i as int),
        Datum::Path(b) => b.len() <= usize::MAX,
        Datum::Bytes(b) => b.len() <= usize::MAX,
        Datum::Text(t) => utf8_encode(t).len() <= usize::MAX,
        Datum::Array(items) => items.len() <= u64::MAX && forall|k: int|
            0 <= k < items.len() ==> reads_back(#[trigger] items[k]),
        Datum::Dict(pairs) => pairs.len() <= u64::MAX && forall|k: int|
            0 <= k < pairs.len() ==> reads_back((#[trigger] pairs[k]).0) && reads_back(pairs[k].1),
        Datum::Tag(t, inner) => t != PATH_TAG && t != TABLE_TAG && reads_back(*inner),
        Datum::Table { header, rows } => {
            &&& header.len() <= u64::MAX
            &&& rows.len() <= u64::MAX
            &&& forall|k: int| 0 <= k < header.len() ==> reads_back(#[trigger] header[k])
            &&& forall|r: int|
                0 <= r < rows.len() ==> (#[trigger] rows[r]).len() <= u64::MAX && forall|k: int|
                    0 <= k < rows[r].len() ==> reads_back(#[trigger] rows[r][k])
        },
        Datum::Timestamp(_) => false,
        _ => true,
    }
}

/// Where `a + b` is found at `p`, `a` is found at `p` and `b` right after.
proof fn lemma_split(buf: Seq<u8>, p: int, a: Seq<u8>, b: Seq<u8>)
    requires
        0 <= p,
        p + a.len() + b.len() <= buf.len(),
        buf.subrange(p, p + (a + b).len()) == a + b,
    ensures
        buf.subrange(p, p + a.len()) == a,
        buf.subrange(p + a.len(), p + a.len() + b.len()) == b,
{
    assert forall|i: int| 0 <= i < a.len() implies buf.subrange(p, p + a.len())[i] == a[i] by {
        assert(buf.subrange(p, p + (a + b).len())[i] == (a + b)[i]);
    }
    assert forall|i: int| 0 <= i < b.len() implies buf.subrange(p + a.len(), p + a.len() + b.len())[i]
        == b[i] by {
        assert(buf.subrange(p, p + (a + b).len())[a.len() + i] == (a + b)[a.len() + i]);
        assert(buf.subrange(p, p + (a + b).len())[a.len() + i] == buf[p + a.len() + i]);
        assert(buf.subrange(p + a.len(), p + a.len() + b.len())[i] == buf[p + a.len() + i]);
        assert((a + b)[a.len() + i] == b[i]);
    }
    assert(buf.subrange(p, p + a.len()) =~= a);
    assert(buf.subrange(p + a.len(), p + a.len() + b.len()) =~= b);
}

/// The encodings of data start with the encoding of the first.
proof fn lemma_encodings_front(s: Seq<Datum>)
    requires
        s.len() > 0,
    ensures
        encodings(s) == encoding(s[0]) + encodings(s.drop_first()),
    decreases s.len(),
{
    if s.len() == 1 {
        assert(s.drop_last() =~= Seq::<Datum>::empty());
        assert(s.drop_first() =~= Seq::<Datum>::empty());
        assert(encoding(s[0]) + Seq::<u8>::empty() =~= Seq::<u8>::empty() + encoding(s[0]));
    } else {
        lemma_encodings_front(s.drop_last());
        assert(s.drop_last().drop_first() =~= s.drop_first().drop_last());
        assert(s.drop_last()[0] == s[0]);
        assert(s.drop_first().last() == s.last());
        assert(encodings(s) =~= encoding(s[0]) + encodings(s.drop_first()));
    }
}

/// The encodings of pairs start with the encoding of the first pair.
proof fn lemma_pair_encodings_front(s: Seq<(Datum, Datum)>)
    requires
        s.len() > 0,
    ensures
        pair_encodings(s) == encoding(s[0].0) + encoding(s[0].1) + pair_encodings(s.drop_first()),
    decreases s.len(),
{
    if s.len() == 1 {
        assert(s.drop_last() =~= Seq::<(Datum, Datum)>::empty());
        assert(s.drop_first() =~= Seq::<(Datum, Datum)>::empty());
        assert(pair_encodings(s) =~= encoding(s[0].0) + encoding(s[0].1) + pair_encodings(
            s.drop_first(),
        ));
    } else {
        lemma_pair_encodings_front(s.drop_last());
        assert(s.drop_last().drop_first() =~= s.drop_first().drop_last());
        assert(s.drop_last()[0] == s[0]);
        assert(s.drop_first().last() == s.last());
        assert(pair_encodings(s) =~= encoding(s[0].0) + encoding(s[0].1) + pair_encodings(
            s.drop_first(),
        ));
    }
}

/// The encodings of rows start with the encoding of the first row.
proof fn lemma_row_encodings_front(s: Seq<Seq<Datum>>)
    requires
        s.len() > 0,
    ensures
        row_encodings(s) == head(4, s[0].len() as u64) + encodings(s[0]) + row_encodings(
            s.drop_first(),
        ),
    decreases s.len(),
{
    if s.len() == 1 {
        assert(s.drop_last() =~= Seq::<Seq<Datum>>::empty());
        assert(s.drop_first() =~= Seq::<Seq<Datum>>::empty());
        assert(row_encodings(s) =~= head(4, s[0].len() as u64) + encodings(s[0]) + row_encodings(
            s.drop_first(),
        ));
    } else {
        lemma_row_encodings_front(s.drop_last());
        assert(s.drop_last().drop_first() =~= s.drop_first().drop_last());
        assert(s.drop_last()[0] == s[0]);
        assert(s.drop_first().last() == s.last());
        assert(row_encodings(s) =~= head(4, s[0].len() as u64) + encodings(s[0]) + row_encodings(
            s.drop_first(),
        ));
    }
}

/// Every encoding holds at least one byte.
pub(crate) proof fn lemma_encoding_nonempty(d: Datum)
    ensures
        encoding(d).len() >= 1,
{
    match d {
        Datum::Path(b) => assert(head(6, PATH_TAG).len() >= 1),
        Datum::Int(i) => assert(head(0, i as u64).len() >= 1 && head(1, (-1 - i) as u64).len() >= 1),
        Datum::Bytes(b) => assert(head(2, b.len() as u64).len() >= 1),
        Datum::Text(t) => assert(head(3, 0).len() >= 1),
        Datum::Array(items) => assert(head(4, items.len() as u64).len() >= 1),
        Datum::Dict(pairs) => assert(head(5, pairs.len() as u64).len() >= 1),
        Datum::Tag(t, inner) => assert(head(6, t).len() >= 1),
        Datum::Table { header, rows } => assert(head(6, TABLE_TAG).len() >= 1),
        Datum::Timestamp(t) => assert(head(6, 1).len() >= 1),
        _ => {},
    }
}

/// The encoding of a datum that reads back, found at `p`, decodes to the
/// datum and ends where the encoding does.
#[verifier::rlimit(40)]
pub proof fn law_encoding_decodes_back(d: Datum, buf: Seq<u8>, p: int)
    requires
        reads_back(d),
        0 <= p,
        p + encoding(d).len() <= buf.len(),
        buf.subrange(p, p + encoding(d).len()) == encoding(d),
    ensures
        value_at(buf, p) == Parsed::Done(d, p + encoding(d).len()),
    decreases d, 0int,
{
    let e = encoding(d);
    match d {
        Datum::Int(_) => lemma_scalar_reads_back(d, buf, p),
        Datum::Path(_) => lemma_scalar_reads_back(d, buf, p),
        Datum::Bytes(_) => lemma_scalar_reads_back(d, buf, p),
        Datum::Text(_) => lemma_scalar_reads_back(d, buf, p),
        Datum::Array(items) => {
            lemma_array_reads_back(items, buf, p);
        },
        Datum::Dict(pairs) => {
            let h = head(5, pairs.len() as u64);
            lemma_split(buf, p, h, pair_encodings(pairs));
            lemma_head(5, pairs.len() as u64, buf, p);
            lemma_encoding_nonempty(d);
            lemma_pairs_read_back(pairs, buf, p + h.len());
        },
        Datum::Tag(t, inner) => {
            let h = head(6, t);
            lemma_split(buf, p, h, encoding(*inner));
            lemma_head(6, t, buf, p);
            lemma_encoding_nonempty(*inner);
            law_encoding_decodes_back(*inner, buf, p + h.len());
        },
        Datum::Float(_) => lemma_scalar_reads_back(d, buf, p),
        Datum::Simple(_) => lemma_scalar_reads_back(d, buf, p),
        Datum::Bool(_) => lemma_scalar_reads_back(d, buf, p),
        Datum::Null => lemma_scalar_reads_back(d, buf, p),
        Datum::Undefined => lemma_scalar_reads_back(d, buf, p),
        Datum::Table { header, rows } => {
            let h1 = head(6, TABLE_TAG);
            let a = head(4, header.len() as u64) + encodings(header);
            let h3 = head(4, rows.len() as u64);
            let r = row_encodings(rows);
            assert(e =~= h1 + (a + (h3 + r)));
            lemma_split(buf, p, h1, a + (h3 + r));
            lemma_head(6, TABLE_TAG, buf, p);
            let q = p + h1.len();
            lemma_split(buf, q, a, h3 + r);
            lemma_array_reads_back(header, buf, q);
            let s = q + a.len();
            lemma_split(buf, s, h3, r);
            lemma_head(4, rows.len() as u64, buf, s);
            lemma_rows_read_back(rows, buf, s + h3.len());
            assert(head(4, header.len() as u64).len() >= 1);
        },
        _ => {},
    }
}

/// A datum with no parts that are data, encoded at `p`, decodes to itself.
pub(crate) proof fn lemma_scalar_reads_back(d: Datum, buf: Seq<u8>, p: int)
    requires
        reads_back(d),
        !(d is Array || d is Dict || d is Tag || d is Table),
        0 <= p,
        p + encoding(d).len() <= buf.len(),
        buf.subrange(p, p + encoding(d).len()) == encoding(d),
    ensures
        value_at(buf, p) == Parsed::Done(d, p + encoding(d).len()),
{
    let e = encoding(d);
    assert(buf[p] == e[0]) by {
        lemma_encoding_nonempty(d);
        assert(buf.subrange(p, p + e.len())[0] == buf[p]);
    }
    match d {
        Datum::Int(i) => {
            if i >= 0 {
                lemma_head(0, i as u64, buf, p);
            } else {
                lemma_head(1, (-1 - i) as u64, buf, p);
            }
        },
        Datum::Path(b) => {
            let h1 = head(6, PATH_TAG);
            let h2 = head(2, b.len() as u64);
            assert(e =~= h1 + (h2 + b));
            lemma_split(buf, p, h1, h2 + b);
            lemma_head(6, PATH_TAG, buf, p);
            lemma_split(buf, p + h1.len(), h2, b);
            lemma_head(2, b.len() as u64, buf, p + h1.len());
        },
        Datum::Bytes(b) => {
            let h = head(2, b.len() as u64);
            lemma_split(buf, p, h, b);
            lemma_head(2, b.len() as u64, buf, p);
        },
        Datum::Text(t) => {
            let bs = utf8_encode(t);
            let h = head(3, bs.len() as u64);
            lemma_split(buf, p, h, bs);
            lemma_head(3, bs.len() as u64, buf, p);
            lemma_utf8_decode_encode(t);
        },
        Datum::Float(f) => {
            reveal_with_fuel(pow256, 9);
            lemma_be_roundtrip(f as nat, 8);
            lemma_split(buf, p, seq![0xfbu8], be_bytes(f as nat, 8));
        },
        Datum::Simple(x) => {
            if x >= 0x14 {
                assert(buf[p + 1] == e[1]) by {
                    assert(buf.subrange(p, p + e.len())[1] == buf[p + 1]);
                }
            }
        },
        _ => {},
    }
}

/// An array of data that read back, encoded at `p`, decodes to the array.
proof fn lemma_array_reads_back(items: Seq<Datum>, buf: Seq<u8>, p: int)
    requires
        items.len() <= u64::MAX,
        forall|k: int| 0 <= k < items.len() ==> reads_back(#[trigger] items[k]),
        0 <= p,
        p + (head(4, items.len() as u64) + encodings(items)).len() <= buf.len(),
        buf.subrange(p, p + (head(4, items.len() as u64) + encodings(items)).len()) == head(
            4,
            items.len() as u64,
        ) + encodings(items),
    ensures
        value_at(buf, p) == Parsed::Done(
            Datum::Array(items),
            p + (head(4, items.len() as u64) + encodings(items)).len(),
        ),
    decreases items, 1int,
{
    let h = head(4, items.len() as u64);
    lemma_split(buf, p, h, encodings(items));
    lemma_head(4, items.len() as u64, buf, p);
    lemma_items_read_back(items, buf, p + h.len());
}

/// The items of an array that read back, encoded one after the other at
/// `q`, decode to the items.
proof fn lemma_items_read_back(items: Seq<Datum>, buf: Seq<u8>, q: int)
    requires
        items.len() <= u64::MAX,
        forall|k: int| 0 <= k < items.len() ==> reads_back(#[trigger] items[k]),
        0 <= q,
        q + encodings(items).len() <= buf.len(),
        buf.subrange(q, q + encodings(items).len()) == encodings(items),
    ensures
        items_at(buf, q, Some(items.len() as u64)) == Parsed::Done(items, q + encodings(items).len()),
    decreases items, 0int,
{
    if items.len() == 0 {
        assert(items =~= Seq::<Datum>::empty());
    } else {
        lemma_encodings_front(items);
        let e0 = encoding(items[0]);
        let rest = encodings(items.drop_first());
        lemma_split(buf, q, e0, rest);
        assert(reads_back(items[0]));
        assert(decreases_to!(items => items[0]));
        law_encoding_decodes_back(items[0], buf, q);
        lemma_encoding_nonempty(items[0]);
        let tail = items.drop_first();
        assert forall|k: int| 0 <= k < tail.len() implies reads_back(#[trigger] tail[k]) by {
            assert(tail[k] == items[k + 1]);
        }
        lemma_items_read_back(tail, buf, q + e0.len());
        assert(seq![items[0]] + tail =~= items);
    }
}

/// The pairs of a map that read back, encoded one after the other at `q`,
/// decode to the pairs.
proof fn lemma_pairs_read_back(pairs: Seq<(Datum, Datum)>, buf: Seq<u8>, q: int)
    requires
        pairs.len() <= u64::MAX,
        forall|k: int|
            0 <= k < pairs.len() ==> reads_back((#[trigger] pairs[k]).0) && reads_back(pairs[k].1),
        0 <= q,
        q + pair_encodings(pairs).len() <= buf.len(),
        buf.subrange(q, q + pair_encodings(pairs).len()) == pair_encodings(pairs),
    ensures
        pairs_at(buf, q, Some(pairs.len() as u64)) == Parsed::Done(
            pairs,
            q + pair_encodings(pairs).len(),
        ),
    decreases pairs, 0int,
{
    if pairs.len() == 0 {
        assert(pairs =~= Seq::<(Datum, Datum)>::empty());
    } else {
        lemma_pair_encodings_front(pairs);
        let e0 = encoding(pairs[0].0);
        let e1 = encoding(pairs[0].1);
        let rest = pair_encodings(pairs.drop_first());
        lemma_split(buf, q, e0 + e1, rest);
        lemma_split(buf, q, e0, e1);
        assert(reads_back(pairs[0].0) && reads_back(pairs[0].1));
        assert(decreases_to!(pairs => pairs[0]));
        assert(decreases_to!(pairs[0] => pairs[0].0));
        assert(decreases_to!(pairs[0] => pairs[0].1));
        law_encoding_decodes_back(pairs[0].0, buf, q);
        law_encoding_decodes_back(pairs[0].1, buf, q + e0.len());
        lemma_encoding_nonempty(pairs[0].0);
        lemma_encoding_nonempty(pairs[0].1);
        assert(pair_at(buf, q) == Parsed::Done(pairs[0], q + e0.len() + e1.len()));
        let tail = pairs.drop_first();
        assert forall|k: int| 0 <= k < tail.len() implies reads_back((#[trigger] tail[k]).0)
            && reads_back(tail[k].1) by {
            assert(tail[k] == pairs[k + 1]);
        }
        lemma_pairs_read_back(tail, buf, q + e0.len() + e1.len());
        assert(seq![pairs[0]] + tail =~= pairs);
    }
}

/// The rows of a table that read back, encoded one after the other at `q`,
/// decode to the rows.
proof fn lemma_rows_read_back(rows: Seq<Seq<Datum>>, buf: Seq<u8>, q: int)
    requires
        rows.len() <= u64::MAX,
        forall|r: int|
            0 <= r < rows.len() ==> (#[trigger] rows[r]).len() <= u64::MAX && forall|k: int|
                0 <= k < rows[r].len() ==> reads_back(#[trigger] rows[r][k]),
        0 <= q,
        q + row_encodings(rows).len() <= buf.len(),
        buf.subrange(q, q + row_encodings(rows).len()) == row_encodings(rows),
    ensures
        rows_at(buf, q, Some(rows.len() as u64)) == Parsed::Done(rows, q + row_encodings(rows).len()),
    decreases rows, 0int,
{
    if rows.len() == 0 {
        assert(rows =~= Seq::<Seq<Datum>>::empty());
    } else {
        lemma_row_encodings_front(rows);
        let a = head(4, rows[0].len() as u64) + encodings(rows[0]);
        let rest = row_encodings(rows.drop_first());
        assert(row_encodings(rows) =~= a + rest);
        lemma_split(buf, q, a, rest);
        assert(decreases_to!(rows => rows[0]));
        assert(rows[0].len() <= u64::MAX);
        lemma_array_reads_back(rows[0], buf, q);
        assert(head(4, rows[0].len() as u64).len() >= 1);
        let tail = rows.drop_first();
        assert forall|r: int| 0 <= r < tail.len() implies (#[trigger] tail[r]).len() <= u64::MAX
            && forall|k: int| 0 <= k < tail[r].len() ==> reads_back(#[trigger] tail[r][k]) by {
            assert(tail[r] == rows[r + 1]);
        }
        lemma_rows_read_back(tail, buf, q + a.len());
        assert(seq![rows[0]] + tail =~= rows);
    }
}

/// What `Value::write` appends after any bytes, `Value::read` reads back
/// from where it starts: the same datum, ending where the output ends.
pub proof fn law_read_gives_back_write(d: Datum, before: Seq<u8>)
    requires
        reads_back(d),
    ensures
        value_at(before + encoding(d), before.len() as int) == Parsed::Done(
            d,
            (before + encoding(d)).len() as int,
        ),
{
    let buf = before + encoding(d);
    assert(buf.subrange(before.len() as int, (before.len() + encoding(d).len()) as int) =~= encoding(d));
    law_encoding_decodes_back(d, buf, before.len() as int);
}

/// Rows that read back, each encoded as an array and then a break, decode
/// as the rows of an array of unknown length, up to the break.
proof fn lemma_rows_until_break(rows: Seq<Seq<Datum>>, buf: Seq<u8>, q: int)
    requires
        forall|r: int|
            0 <= r < rows.len() ==> (#[trigger] rows[r]).len() <= u64::MAX && forall|k: int|
                0 <= k < rows[r].len() ==> reads_back(#[trigger] rows[r][k]),
        0 <= q,
        q + row_encodings(rows).len() + 1 <= buf.len(),
        buf.subrange(q, q + row_encodings(rows).len() + 1) == row_encodings(rows) + seq![0xffu8],
    ensures
        rows_at(buf, q, None) == Parsed::Done(rows, q + row_encodings(rows).len() + 1),
    decreases rows.len(),
{
    if rows.len() == 0 {
        assert(rows =~= Seq::<Seq<Datum>>::empty());
        assert(buf[q] == 0xffu8) by {
            assert(buf.subrange(q, q + 1)[0] == buf[q]);
        }
    } else {
        lemma_row_encodings_front(rows);
        let a = head(4, rows[0].len() as u64) + encodings(rows[0]);
        let rest = row_encodings(rows.drop_first()) + seq![0xffu8];
        assert(row_encodings(rows) + seq![0xffu8] =~= a + rest);
        lemma_split(buf, q, a, rest);
        lemma_array_reads_back(rows[0], buf, q);
        let h = head(4, rows[0].len() as u64);
        lemma_split(buf, q, h, encodings(rows[0]));
        lemma_head(4, rows[0].len() as u64, buf, q);
        let tail = rows.drop_first();
        assert forall|r: int| 0 <= r < tail.len() implies (#[trigger] tail[r]).len() <= u64::MAX
            && forall|k: int| 0 <= k < tail[r].len() ==> reads_back(#[trigger] tail[r][k]) by {
            assert(tail[r] == rows[r + 1]);
        }
        lemma_rows_until_break(tail, buf, q + a.len());
        assert(seq![rows[0]] + tail =~= rows);
    }
}

/// A table tag at `p`, then a header array ending at `s`, then the head of
/// the array of rows and its rows ending at `e`, decode as the table.
proof fn lemma_table_at(header: Seq<Datum>, rows: Seq<Seq<Datum>>, buf: Seq<u8>, p: int, q: int, s: int, e: int)
    requires
        0 <= p < q < s < e <= buf.len(),
        kind_at(buf, p) == Ok::<Kind, Fault>(Kind::Tag),
        argument(buf, p) == Ok::<(u64, int), Fault>((TABLE_TAG, q)),
        value_at(buf, q) == Parsed::Done(Datum::Array(header), s),
        count_item(buf, s, 4) == Ok::<(Option<u64>, int), Fault>((None, s + 1)),
        rows_at(buf, s + 1, None) == Parsed::Done(rows, e),
    ensures
        value_at(buf, p) == Parsed::Done(Datum::Table { header, rows }, e),
{
}

/// A table written a row at a time (its tag, its header, the head of an
/// array of unknown length, the rows, the break) decodes as the table.
#[verifier::rlimit(40)]
pub proof fn law_streamed_table_reads_back(header: Seq<Datum>, rows: Seq<Seq<Datum>>, before: Seq<u8>)
    requires
        reads_back(Datum::Table { header, rows }),
    ensures
        ({
            let bytes = before + head(6, TABLE_TAG) + head(4, header.len() as u64) + encodings(header)
                + seq![0x9fu8] + row_encodings(rows) + seq![0xffu8];
            value_at(bytes, before.len() as int) == Parsed::Done(
                Datum::Table { header, rows },
                bytes.len() as int,
            )
        }),
{
    let h1 = head(6, TABLE_TAG);
    let a = head(4, header.len() as u64) + encodings(header);
    let r = row_encodings(rows);
    let bytes = before + h1 + head(4, header.len() as u64) + encodings(header) + seq![0x9fu8] + r
        + seq![0xffu8];
    let p = before.len() as int;
    assert(bytes =~= before + (h1 + (a + (seq![0x9fu8] + (r + seq![0xffu8])))));
    assert(bytes.subrange(p, bytes.len() as int) =~= h1 + (a + (seq![0x9fu8] + (r + seq![0xffu8]))));
    lemma_split(bytes, p, h1, a + (seq![0x9fu8] + (r + seq![0xffu8])));
    lemma_head(6, TABLE_TAG, bytes, p);
    let q = p + h1.len();
    lemma_split(bytes, q, a, seq![0x9fu8] + (r + seq![0xffu8]));
    lemma_array_reads_back(header, bytes, q);
    let s = q + a.len();
    lemma_split(bytes, s, seq![0x9fu8], r + seq![0xffu8]);
    assert(bytes[s] == 0x9fu8) by {
        assert(bytes.subrange(s, s + 1)[0] == bytes[s]);
    }
    lemma_rows_until_break(rows, bytes, s + 1);
    assert(head(4, header.len() as u64).len() >= 1);
    assert(kind_at(bytes, p) == Ok::<Kind, Fault>(Kind::Tag));
    assert(count_item(bytes, s, 4) == Ok::<(Option<u64>, int), Fault>((None, s + 1)));
    lemma_table_at(header, rows, bytes, p, q, s, bytes.len() as int);
}

} // verus!
