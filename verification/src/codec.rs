//! Whole brandywine values in the wire format: decoding a value at once,
//! as a reader of a complete buffer does.
use vstd::prelude::*;
use minicbor::data::{Int, Tag};
use minicbor::Encoder;
use crate::bwine::{
    data_of, datum_of, lemma_data_of_index, lemma_data_of_push, lemma_pairs_of_push,
    lemma_rows_of_index, lemma_rows_of_push, pairs_of,
    rows_of, Datum, Value,
    PATH_TAG, TABLE_TAG, TIMESTAMP_TAG,
};
use crate::unicode::{chars_of, string_of};
use crate::utf8::utf8_encode;
use crate::wire::{
    argument, cbor_array, cbor_bool, cbor_bytes, cbor_int, cbor_map, cbor_null, cbor_simple,
    cbor_skip_break, cbor_str, cbor_tag, cbor_undefined, chunk_item, count_item, fault_of,
    float_item, int_item, item_kind, kind_at, read_float, simple_item, text_item, Fault, Kind,
    ReadError,
};

verus! {

/// What decoding from a position gives, in the model: the result and
/// where it ends, why it fails, or that the decoder gives up on the input.
pub enum Parsed<T> {
    Done(T, int),
    Failed(Fault),
    GivesUp,
}

/// The byte chunks of an indefinite byte string from `p` to its break:
/// their bytes joined, and where the break ends.
pub open spec fn byte_chunks(buf: Seq<u8>, p: int) -> Result<(Seq<u8>, int), Fault>
    decreases buf.len() - p,
{
    if p < 0 || p >= buf.len() {
        Err(Fault::Short)
    } else if buf[p] == 0xff {
        Ok((Seq::empty(), p + 1))
    } else {
        match chunk_item(buf, p, 2) {
            Ok((c, q)) => if q <= p || q > buf.len() {
                Err(Fault::Short)
            } else {
                match byte_chunks(buf, q) {
                    Ok((rest, r)) => Ok((c + rest, r)),
                    Err(f) => Err(f),
                }
            },
            Err(f) => Err(f),
        }
    }
}

/// The text chunks of an indefinite text string from `p` to its break:
/// their text joined, and where the break ends.
pub open spec fn text_chunks(buf: Seq<u8>, p: int) -> Result<(Seq<char>, int), Fault>
    decreases buf.len() - p,
{
    if p < 0 || p >= buf.len() {
        Err(Fault::Short)
    } else if buf[p] == 0xff {
        Ok((Seq::empty(), p + 1))
    } else {
        match text_item(buf, p) {
            Ok((c, q)) => if q <= p || q > buf.len() {
                Err(Fault::Short)
            } else {
                match text_chunks(buf, q) {
                    Ok((rest, r)) => Ok((c + rest, r)),
                    Err(f) => Err(f),
                }
            },
            Err(f) => Err(f),
        }
    }
}

/// The bytes of the byte string at `p`, definite or indefinite.
pub open spec fn bytes_value(buf: Seq<u8>, p: int) -> Result<(Seq<u8>, int), Fault> {
    if 0 <= p < buf.len() && buf[p] == 0x5f {
        byte_chunks(buf, p + 1)
    } else {
        chunk_item(buf, p, 2)
    }
}

/// The text of the text string at `p`, definite or indefinite.
pub open spec fn text_value(buf: Seq<u8>, p: int) -> Result<(Seq<char>, int), Fault> {
    if 0 <= p < buf.len() && buf[p] == 0x7f {
        text_chunks(buf, p + 1)
    } else {
        text_item(buf, p)
    }
}

/// A result of reading turned into a parse.
pub open spec fn parsed_from<T>(r: Result<(T, int), Fault>) -> Parsed<T> {
    match r {
        Ok((v, q)) => Parsed::Done(v, q),
        Err(f) => Parsed::Failed(f),
    }
}

/// The value at `p`.
pub open spec fn value_at(buf: Seq<u8>, p: int) -> Parsed<Datum>
    decreases buf.len() - p, 1int,
{
    if p < 0 || p > buf.len() {
        Parsed::Failed(Fault::Short)
    } else {
        match kind_at(buf, p) {
            Err(f) => Parsed::Failed(f),
            Ok(k) => match k {
                Kind::Int => match int_item(buf, p) {
                    Ok((v, q)) => Parsed::Done(Datum::Int(v), q),
                    Err(f) => Parsed::Failed(f),
                },
                Kind::Float => match float_item(buf, p) {
                    Ok((v, q)) => Parsed::Done(Datum::Float(v), q),
                    Err(f) => Parsed::Failed(f),
                },
                Kind::Bool => Parsed::Done(Datum::Bool(buf[p] == 0xf5), p + 1),
                Kind::Null => Parsed::Done(Datum::Null, p + 1),
                Kind::Undefined => Parsed::Done(Datum::Undefined, p + 1),
                Kind::Simple => match simple_item(buf, p) {
                    Ok((v, q)) => Parsed::Done(Datum::Simple(v), q),
                    Err(f) => Parsed::Failed(f),
                },
                Kind::Bytes => match bytes_value(buf, p) {
                    Ok((b, q)) => Parsed::Done(Datum::Bytes(b), q),
                    Err(f) => Parsed::Failed(f),
                },
                Kind::Text => match text_value(buf, p) {
                    Ok((t, q)) => Parsed::Done(Datum::Text(t), q),
                    Err(f) => Parsed::Failed(f),
                },
                Kind::Array => match count_item(buf, p, 4) {
                    Err(f) => Parsed::Failed(f),
                    Ok((n, q)) => if q <= p || q > buf.len() {
                        Parsed::Failed(Fault::Short)
                    } else {
                        match items_at(buf, q, n) {
                            Parsed::Done(vs, r) => Parsed::Done(Datum::Array(vs), r),
                            Parsed::Failed(f) => Parsed::Failed(f),
                            Parsed::GivesUp => Parsed::GivesUp,
                        }
                    },
                },
                Kind::Dict => match count_item(buf, p, 5) {
                    Err(f) => Parsed::Failed(f),
                    Ok((n, q)) => if q <= p || q > buf.len() {
                        Parsed::Failed(Fault::Short)
                    } else {
                        match pairs_at(buf, q, n) {
                            Parsed::Done(ps, r) => Parsed::Done(Datum::Dict(ps), r),
                            Parsed::Failed(f) => Parsed::Failed(f),
                            Parsed::GivesUp => Parsed::GivesUp,
                        }
                    },
                },
                Kind::Tag => match argument(buf, p) {
                    Err(f) => Parsed::Failed(f),
                    Ok((t, q)) => if q <= p || q > buf.len() {
                        Parsed::Failed(Fault::Short)
                    } else if t == PATH_TAG {
                        match bytes_value(buf, q) {
                            Ok((b, r)) => Parsed::Done(Datum::Path(b), r),
                            Err(f) => Parsed::Failed(f),
                        }
                    } else if t == TABLE_TAG {
                        match value_at(buf, q) {
                            Parsed::Done(h, r) => match h {
                                Datum::Array(header) => if r <= q || r > buf.len() {
                                    Parsed::Failed(Fault::Short)
                                } else {
                                    match count_item(buf, r, 4) {
                                        Err(f) => Parsed::Failed(f),
                                        Ok((n, s)) => if s <= r || s > buf.len() {
                                            Parsed::Failed(Fault::Short)
                                        } else {
                                            match rows_at(buf, s, n) {
                                                Parsed::Done(rows, e) => Parsed::Done(
                                                    Datum::Table { header, rows },
                                                    e,
                                                ),
                                                Parsed::Failed(f) => Parsed::Failed(f),
                                                Parsed::GivesUp => Parsed::GivesUp,
                                            }
                                        },
                                    }
                                },
                                _ => Parsed::GivesUp,
                            },
                            Parsed::Failed(f) => Parsed::Failed(f),
                            Parsed::GivesUp => Parsed::GivesUp,
                        }
                    } else {
                        match value_at(buf, q) {
                            Parsed::Done(v, r) => Parsed::Done(Datum::Tag(t, Box::new(v)), r),
                            Parsed::Failed(f) => Parsed::Failed(f),
                            Parsed::GivesUp => Parsed::GivesUp,
                        }
                    },
                },
                _ => Parsed::GivesUp,
            },
        }
    }
}

/// The items of an array from `p`: `Some(n)` of them, or up to a break.
pub open spec fn items_at(buf: Seq<u8>, p: int, count: Option<u64>) -> Parsed<Seq<Datum>>
    decreases buf.len() - p, 2int,
{
    if p < 0 || p > buf.len() {
        Parsed::Failed(Fault::Short)
    } else {
        match count {
            Some(n) => if n == 0 {
                Parsed::Done(Seq::empty(), p)
            } else {
                match value_at(buf, p) {
                    Parsed::Done(v, q) => if q <= p || q > buf.len() {
                        Parsed::Failed(Fault::Short)
                    } else {
                        match items_at(buf, q, Some((n - 1) as u64)) {
                            Parsed::Done(vs, r) => Parsed::Done(seq![v] + vs, r),
                            Parsed::Failed(f) => Parsed::Failed(f),
                            Parsed::GivesUp => Parsed::GivesUp,
                        }
                    },
                    Parsed::Failed(f) => Parsed::Failed(f),
                    Parsed::GivesUp => Parsed::GivesUp,
                }
            },
            None => match kind_at(buf, p) {
                Err(f) => Parsed::Failed(f),
                Ok(k) => if k == Kind::Break {
                    Parsed::Done(Seq::empty(), p + 1)
                } else {
                    match value_at(buf, p) {
                        Parsed::Done(v, q) => if q <= p || q > buf.len() {
                            Parsed::Failed(Fault::Short)
                        } else {
                            match items_at(buf, q, None) {
                                Parsed::Done(vs, r) => Parsed::Done(seq![v] + vs, r),
                                Parsed::Failed(f) => Parsed::Failed(f),
                                Parsed::GivesUp => Parsed::GivesUp,
                            }
                        },
                        Parsed::Failed(f) => Parsed::Failed(f),
                        Parsed::GivesUp => Parsed::GivesUp,
                    }
                },
            },
        }
    }
}

/// One pair of a map at `p`: its key, then its value.
pub open spec fn pair_at(buf: Seq<u8>, p: int) -> Parsed<(Datum, Datum)>
    decreases buf.len() - p, 2int,
{
    if p < 0 || p > buf.len() {
        Parsed::Failed(Fault::Short)
    } else {
        match value_at(buf, p) {
            Parsed::Done(k, q) => if q <= p || q > buf.len() {
                Parsed::Failed(Fault::Short)
            } else {
                match value_at(buf, q) {
                    Parsed::Done(v, r) => Parsed::Done((k, v), r),
                    Parsed::Failed(f) => Parsed::Failed(f),
                    Parsed::GivesUp => Parsed::GivesUp,
                }
            },
            Parsed::Failed(f) => Parsed::Failed(f),
            Parsed::GivesUp => Parsed::GivesUp,
        }
    }
}

/// The pairs of a map from `p`: `Some(n)` of them, or up to a break.
pub open spec fn pairs_at(buf: Seq<u8>, p: int, count: Option<u64>) -> Parsed<Seq<(Datum, Datum)>>
    decreases buf.len() - p, 3int,
{
    if p < 0 || p > buf.len() {
        Parsed::Failed(Fault::Short)
    } else {
        let more = match count {
            Some(n) => n > 0,
            None => !(kind_at(buf, p) matches Ok(Kind::Break)),
        };
        if count is None && kind_at(buf, p) is Err {
            Parsed::Failed(kind_at(buf, p)->Err_0)
        } else if !more {
            Parsed::Done(Seq::empty(), if count is None { p + 1 } else { p })
        } else {
            match pair_at(buf, p) {
                Parsed::Done(kv, q) => if q <= p || q > buf.len() {
                    Parsed::Failed(Fault::Short)
                } else {
                    let rest = match count {
                        Some(n) => Some((n - 1) as u64),
                        None => None,
                    };
                    match pairs_at(buf, q, rest) {
                        Parsed::Done(ps, r) => Parsed::Done(seq![kv] + ps, r),
                        Parsed::Failed(f) => Parsed::Failed(f),
                        Parsed::GivesUp => Parsed::GivesUp,
                    }
                },
                Parsed::Failed(f) => Parsed::Failed(f),
                Parsed::GivesUp => Parsed::GivesUp,
            }
        }
    }
}

/// The rows of a table from `p`, each an array: `Some(n)` of them, or up
/// to a break; the decoder gives up on a row that is not an array.
pub open spec fn rows_at(buf: Seq<u8>, p: int, count: Option<u64>) -> Parsed<Seq<Seq<Datum>>>
    decreases buf.len() - p, 2int,
{
    if p < 0 || p > buf.len() {
        Parsed::Failed(Fault::Short)
    } else {
        let more = match count {
            Some(n) => n > 0,
            None => !(kind_at(buf, p) matches Ok(Kind::Break)),
        };
        if count is None && kind_at(buf, p) is Err {
            Parsed::Failed(kind_at(buf, p)->Err_0)
        } else if !more {
            Parsed::Done(Seq::empty(), if count is None { p + 1 } else { p })
        } else {
            match value_at(buf, p) {
                Parsed::Done(v, q) => match v {
                    Datum::Array(row) => if q <= p || q > buf.len() {
                        Parsed::Failed(Fault::Short)
                    } else {
                        let rest = match count {
                            Some(n) => Some((n - 1) as u64),
                            None => None,
                        };
                        match rows_at(buf, q, rest) {
                            Parsed::Done(rs, r) => Parsed::Done(seq![row] + rs, r),
                            Parsed::Failed(f) => Parsed::Failed(f),
                            Parsed::GivesUp => Parsed::GivesUp,
                        }
                    },
                    _ => Parsed::GivesUp,
                },
                Parsed::Failed(f) => Parsed::Failed(f),
                Parsed::GivesUp => Parsed::GivesUp,
            }
        }
    }
}

/// What decoding from a position gives: the result and where it ends,
/// why it fails, or that the decoder gives up on the input (a break or an
/// unknown item where a value should come, or a table whose header or
/// rows are not arrays).
#[derive(Debug)]
pub enum Decoding<T> {
    Done(T, usize),
    Failed(ReadError),
    GivesUp,
}

/// A parse with `pre` put before its items.
pub open spec fn prefixed<T>(pre: Seq<T>, r: Parsed<Seq<T>>) -> Parsed<Seq<T>> {
    match r {
        Parsed::Done(vs, q) => Parsed::Done(pre + vs, q),
        Parsed::Failed(f) => Parsed::Failed(f),
        Parsed::GivesUp => Parsed::GivesUp,
    }
}

/// A decoding agrees with its model, the result by `m`.
pub open spec fn decoding_as<T, U>(r: Decoding<T>, s: Parsed<U>, m: spec_fn(T) -> U) -> bool {
    match (r, s) {
        (Decoding::Done(v, p), Parsed::Done(d, q)) => m(v) == d && p as int == q,
        (Decoding::Failed(e), Parsed::Failed(f)) => fault_of(e) == f,
        (Decoding::GivesUp, Parsed::GivesUp) => true,
        _ => false,
    }
}

/// A result of reading with its bytes agrees with its model.
pub open spec fn bytes_as(r: Result<(Vec<u8>, usize), ReadError>, s: Result<(Seq<u8>, int), Fault>) -> bool {
    match (r, s) {
        (Ok((v, p)), Ok((b, q))) => v@ == b && p as int == q,
        (Err(e), Err(f)) => fault_of(e) == f,
        _ => false,
    }
}

/// A result of reading with its text agrees with its model.
pub open spec fn text_as(r: Result<(String, usize), ReadError>, s: Result<(Seq<char>, int), Fault>) -> bool {
    match (r, s) {
        (Ok((v, p)), Ok((t, q))) => v@ == t && p as int == q,
        (Err(e), Err(f)) => fault_of(e) == f,
        _ => false,
    }
}

/// Reads the byte chunks of an indefinite byte string from `p` to its
/// break.
fn read_byte_chunks(buf: &[u8], p: usize) -> (r: Result<(Vec<u8>, usize), ReadError>)
    ensures
        bytes_as(r, byte_chunks(buf@, p as int)),
{
    let mut acc: Vec<u8> = Vec::new();
    let mut cur = p;
    loop
        invariant
            p <= cur,
            byte_chunks(buf@, p as int) == match byte_chunks(buf@, cur as int) {
                Ok((rest, r)) => Ok((acc@ + rest, r)),
                Err(f) => Err(f),
            },
        decreases buf.len() - cur,
    {
        if cur >= buf.len() {
            return Err(ReadError::EndOfInput);
        }
        if buf[cur] == 0xff {
            proof {
                assert(acc@ + Seq::<u8>::empty() =~= acc@);
            }
            return Ok((acc, cur + 1));
        }
        match cbor_bytes(buf, cur) {
            Ok((c, q)) => {
                if q <= cur || q > buf.len() {
                    return Err(ReadError::EndOfInput);
                }
                let ghost before = acc@;
                let mut i: usize = 0;
                while i < c.len()
                    invariant
                        i <= c@.len(),
                        acc@ == before + c@.take(i as int),
                    decreases c.len() - i,
                {
                    acc.push(c[i]);
                    proof {
                        assert(c@.take(i + 1) =~= c@.take(i as int).push(c@[i as int]));
                    }
                    i += 1;
                }
                proof {
                    assert(c@.take(c@.len() as int) =~= c@);
                    match byte_chunks(buf@, q as int) {
                        Ok((rest, r)) => {
                            assert(before + (c@ + rest) =~= acc@ + rest);
                        },
                        Err(f) => {},
                    }
                }
                cur = q;
            },
            Err(e) => return Err(e),
        }
    }
}

/// Reads the text chunks of an indefinite text string from `p` to its
/// break.
fn read_text_chunks(buf: &[u8], p: usize) -> (r: Result<(String, usize), ReadError>)
    ensures
        text_as(r, text_chunks(buf@, p as int)),
{
    let mut acc: Vec<char> = Vec::new();
    let mut cur = p;
    loop
        invariant
            p <= cur,
            text_chunks(buf@, p as int) == match text_chunks(buf@, cur as int) {
                Ok((rest, r)) => Ok((acc@ + rest, r)),
                Err(f) => Err(f),
            },
        decreases buf.len() - cur,
    {
        if cur >= buf.len() {
            return Err(ReadError::EndOfInput);
        }
        if buf[cur] == 0xff {
            proof {
                assert(acc@ + Seq::<char>::empty() =~= acc@);
            }
            return Ok((string_of(acc.as_slice()), cur + 1));
        }
        match cbor_str(buf, cur) {
            Ok((s, q)) => {
                if q <= cur || q > buf.len() {
                    return Err(ReadError::EndOfInput);
                }
                let c = chars_of(s.as_str());
                let ghost before = acc@;
                let mut i: usize = 0;
                while i < c.len()
                    invariant
                        i <= c@.len(),
                        acc@ == before + c@.take(i as int),
                    decreases c.len() - i,
                {
                    acc.push(c[i]);
                    proof {
                        assert(c@.take(i + 1) =~= c@.take(i as int).push(c@[i as int]));
                    }
                    i += 1;
                }
                proof {
                    assert(c@.take(c@.len() as int) =~= c@);
                    match text_chunks(buf@, q as int) {
                        Ok((rest, r)) => {
                            assert(before + (c@ + rest) =~= acc@ + rest);
                        },
                        Err(f) => {},
                    }
                }
                cur = q;
            },
            Err(e) => return Err(e),
        }
    }
}

/// Reads the byte string at `p`, definite or indefinite.
fn read_bytes_value(buf: &[u8], p: usize) -> (r: Result<(Vec<u8>, usize), ReadError>)
    ensures
        bytes_as(r, bytes_value(buf@, p as int)),
{
    if p < buf.len() && buf[p] == 0x5f {
        read_byte_chunks(buf, p + 1)
    } else if p < buf.len() {
        cbor_bytes(buf, p)
    } else {
        Err(ReadError::EndOfInput)
    }
}

/// Reads the text string at `p`, definite or indefinite.
fn read_text_value(buf: &[u8], p: usize) -> (r: Result<(String, usize), ReadError>)
    ensures
        text_as(r, text_value(buf@, p as int)),
{
    if p < buf.len() && buf[p] == 0x7f {
        read_text_chunks(buf, p + 1)
    } else if p < buf.len() {
        cbor_str(buf, p)
    } else {
        Err(ReadError::EndOfInput)
    }
}

/// One fewer of a count, if the count is known.
fn one_less(count: Option<u64>) -> (r: Option<u64>)
    requires
        count matches Some(n) ==> n > 0,
    ensures
        r == match count {
            Some(n) => Some((n - 1) as u64),
            None => None::<u64>,
        },
{
    match count {
        Some(n) => Some(n - 1),
        None => None,
    }
}

/// Decodes the value at `p`.
fn decode_value(buf: &[u8], p: usize) -> (r: Decoding<Value>)
    ensures
        decoding_as(r, value_at(buf@, p as int), |v: Value| datum_of(v)),
    decreases buf@.len() - p, 1int,
{
    let k = match item_kind(buf, p) {
        Ok(k) => k,
        Err(e) => return Decoding::Failed(e),
    };
    match k {
        Kind::Int => match cbor_int(buf, p) {
            Ok((v, q)) => Decoding::Done(Value::Int(v), q),
            Err(e) => Decoding::Failed(e),
        },
        Kind::Float => match read_float(buf, p) {
            Ok((v, q)) => Decoding::Done(Value::Float(v), q),
            Err(e) => Decoding::Failed(e),
        },
        Kind::Bool => match cbor_bool(buf, p) {
            Ok((b, q)) => Decoding::Done(Value::Bool(b), q),
            Err(e) => Decoding::Failed(e),
        },
        Kind::Null => match cbor_null(buf, p) {
            Ok(q) => Decoding::Done(Value::Null, q),
            Err(e) => Decoding::Failed(e),
        },
        Kind::Undefined => match cbor_undefined(buf, p) {
            Ok(q) => Decoding::Done(Value::Undefined, q),
            Err(e) => Decoding::Failed(e),
        },
        Kind::Simple => match cbor_simple(buf, p) {
            Ok((v, q)) => Decoding::Done(Value::Simple(v), q),
            Err(e) => Decoding::Failed(e),
        },
        Kind::Bytes => match read_bytes_value(buf, p) {
            Ok((b, q)) => Decoding::Done(Value::Bytes(b), q),
            Err(e) => Decoding::Failed(e),
        },
        Kind::Text => match read_text_value(buf, p) {
            Ok((t, q)) => Decoding::Done(Value::Text(t), q),
            Err(e) => Decoding::Failed(e),
        },
        Kind::Array => match cbor_array(buf, p) {
            Err(e) => Decoding::Failed(e),
            Ok((n, q)) => {
                if q <= p || q > buf.len() {
                    return Decoding::Failed(ReadError::EndOfInput);
                }
                match decode_items(buf, q, n) {
                    Decoding::Done(vs, r) => Decoding::Done(Value::Array(vs), r),
                    Decoding::Failed(e) => Decoding::Failed(e),
                    Decoding::GivesUp => Decoding::GivesUp,
                }
            },
        },
        Kind::Dict => match cbor_map(buf, p) {
            Err(e) => Decoding::Failed(e),
            Ok((n, q)) => {
                if q <= p || q > buf.len() {
                    return Decoding::Failed(ReadError::EndOfInput);
                }
                match decode_pairs(buf, q, n) {
                    Decoding::Done(ps, r) => Decoding::Done(Value::Dict(ps), r),
                    Decoding::Failed(e) => Decoding::Failed(e),
                    Decoding::GivesUp => Decoding::GivesUp,
                }
            },
        },
        Kind::Tag => match cbor_tag(buf, p) {
            Err(e) => Decoding::Failed(e),
            Ok((t, q)) => {
                if q <= p || q > buf.len() {
                    return Decoding::Failed(ReadError::EndOfInput);
                }
                if t == PATH_TAG {
                    match read_bytes_value(buf, q) {
                        Ok((b, r)) => Decoding::Done(Value::Path(b), r),
                        Err(e) => Decoding::Failed(e),
                    }
                } else if t == TABLE_TAG {
                    match decode_value(buf, q) {
                        Decoding::Done(h, r) => match h {
                            Value::Array(header) => {
                                if r <= q || r > buf.len() {
                                    return Decoding::Failed(ReadError::EndOfInput);
                                }
                                match cbor_array(buf, r) {
                                    Err(e) => Decoding::Failed(e),
                                    Ok((n, s)) => {
                                        if s <= r || s > buf.len() {
                                            return Decoding::Failed(ReadError::EndOfInput);
                                        }
                                        match decode_rows(buf, s, n) {
                                            Decoding::Done(rows, e) => Decoding::Done(
                                                Value::Table { header, rows },
                                                e,
                                            ),
                                            Decoding::Failed(e) => Decoding::Failed(e),
                                            Decoding::GivesUp => Decoding::GivesUp,
                                        }
                                    },
                                }
                            },
                            _ => Decoding::GivesUp,
                        },
                        Decoding::Failed(e) => Decoding::Failed(e),
                        Decoding::GivesUp => Decoding::GivesUp,
                    }
                } else {
                    match decode_value(buf, q) {
                        Decoding::Done(v, r) => Decoding::Done(Value::Tag(t, Box::new(v)), r),
                        Decoding::Failed(e) => Decoding::Failed(e),
                        Decoding::GivesUp => Decoding::GivesUp,
                    }
                }
            },
        },
        _ => Decoding::GivesUp,
    }
}

/// Decodes the items of an array from `p`: `Some(n)` of them, or up to a
/// break.
fn decode_items(buf: &[u8], p: usize, count: Option<u64>) -> (r: Decoding<Vec<Value>>)
    ensures
        decoding_as(r, items_at(buf@, p as int, count), |v: Vec<Value>| data_of(v@)),
    decreases buf@.len() - p, 2int,
{
    if p > buf.len() {
        return Decoding::Failed(ReadError::EndOfInput);
    }
    let mut acc: Vec<Value> = Vec::new();
    let mut cur = p;
    let mut left = count;
    proof {
        assert(data_of(acc@) =~= Seq::<Datum>::empty());
        match items_at(buf@, p as int, count) {
            Parsed::Done(vs, r) => {
                assert(Seq::<Datum>::empty() + vs =~= vs);
            },
            _ => {},
        }
    }
    loop
        invariant
            p <= cur <= buf@.len(),
            items_at(buf@, p as int, count) == prefixed(
                data_of(acc@),
                items_at(buf@, cur as int, left),
            ),
        decreases buf@.len() - cur,
    {
        match left {
            Some(n) => {
                if n == 0 {
                    proof {
                        assert(data_of(acc@) + Seq::<Datum>::empty() =~= data_of(acc@));
                    }
                    return Decoding::Done(acc, cur);
                }
            },
            None => match item_kind(buf, cur) {
                Err(e) => return Decoding::Failed(e),
                Ok(Kind::Break) => {
                    let _ = cbor_skip_break(buf, cur);
                    proof {
                        assert(data_of(acc@) + Seq::<Datum>::empty() =~= data_of(acc@));
                    }
                    return Decoding::Done(acc, cur + 1);
                },
                Ok(_) => {},
            },
        }
        match decode_value(buf, cur) {
            Decoding::Done(v, q) => {
                if q <= cur || q > buf.len() {
                    return Decoding::Failed(ReadError::EndOfInput);
                }
                proof {
                    lemma_data_of_push(acc@, v);
                    match items_at(buf@, q as int, one_less_spec(left)) {
                        Parsed::Done(vs, r) => {
                            assert(data_of(acc@) + (seq![datum_of(v)] + vs) =~= data_of(acc@).push(
                                datum_of(v),
                            ) + vs);
                        },
                        _ => {},
                    }
                }
                acc.push(v);
                cur = q;
                left = one_less(left);
            },
            Decoding::Failed(e) => return Decoding::Failed(e),
            Decoding::GivesUp => return Decoding::GivesUp,
        }
    }
}

/// One fewer of a count, if the count is known.
pub open spec fn one_less_spec(count: Option<u64>) -> Option<u64> {
    match count {
        Some(n) => Some((n - 1) as u64),
        None => None,
    }
}

/// Decodes the pairs of a map from `p`: `Some(n)` of them, or up to a
/// break.
#[verifier::rlimit(30)]
fn decode_pairs(buf: &[u8], p: usize, count: Option<u64>) -> (r: Decoding<Vec<(Value, Value)>>)
    ensures
        decoding_as(r, pairs_at(buf@, p as int, count), |v: Vec<(Value, Value)>| pairs_of(v@)),
    decreases buf@.len() - p, 3int,
{
    if p > buf.len() {
        return Decoding::Failed(ReadError::EndOfInput);
    }
    let mut acc: Vec<(Value, Value)> = Vec::new();
    let mut cur = p;
    let mut left = count;
    proof {
        assert(pairs_of(acc@) =~= Seq::<(Datum, Datum)>::empty());
        match pairs_at(buf@, p as int, count) {
            Parsed::Done(vs, r) => {
                assert(Seq::<(Datum, Datum)>::empty() + vs =~= vs);
            },
            _ => {},
        }
    }
    loop
        invariant
            p <= cur <= buf@.len(),
            pairs_at(buf@, p as int, count) == prefixed(
                pairs_of(acc@),
                pairs_at(buf@, cur as int, left),
            ),
        decreases buf@.len() - cur,
    {
        match left {
            Some(n) => {
                if n == 0 {
                    proof {
                        assert(pairs_of(acc@) + Seq::<(Datum, Datum)>::empty() =~= pairs_of(acc@));
                    }
                    return Decoding::Done(acc, cur);
                }
            },
            None => match item_kind(buf, cur) {
                Err(e) => return Decoding::Failed(e),
                Ok(Kind::Break) => {
                    let _ = cbor_skip_break(buf, cur);
                    proof {
                        assert(pairs_of(acc@) + Seq::<(Datum, Datum)>::empty() =~= pairs_of(acc@));
                    }
                    return Decoding::Done(acc, cur + 1);
                },
                Ok(_) => {},
            },
        }
        let (k, q) = match decode_value(buf, cur) {
            Decoding::Done(k, q) => (k, q),
            Decoding::Failed(e) => {
                proof {
                    assert(pair_at(buf@, cur as int) == Parsed::<(Datum, Datum)>::Failed(fault_of(e)));
                }
                return Decoding::Failed(e);
            },
            Decoding::GivesUp => {
                proof {
                    assert(pair_at(buf@, cur as int) == Parsed::<(Datum, Datum)>::GivesUp);
                }
                return Decoding::GivesUp;
            },
        };
        if q <= cur || q > buf.len() {
            return Decoding::Failed(ReadError::EndOfInput);
        }
        let (v, r) = match decode_value(buf, q) {
            Decoding::Done(v, r) => (v, r),
            Decoding::Failed(e) => {
                proof {
                    assert(pair_at(buf@, cur as int) == Parsed::<(Datum, Datum)>::Failed(fault_of(e)));
                }
                return Decoding::Failed(e);
            },
            Decoding::GivesUp => {
                proof {
                    assert(pair_at(buf@, cur as int) == Parsed::<(Datum, Datum)>::GivesUp);
                }
                return Decoding::GivesUp;
            },
        };
        if r <= cur || r > buf.len() {
            return Decoding::Failed(ReadError::EndOfInput);
        }
        proof {
            lemma_pairs_of_push(acc@, (k, v));
            match pairs_at(buf@, r as int, one_less_spec(left)) {
                Parsed::Done(ps, e) => {
                    assert(pairs_of(acc@) + (seq![(datum_of(k), datum_of(v))] + ps)
                        =~= pairs_of(acc@).push((datum_of(k), datum_of(v))) + ps);
                },
                _ => {},
            }
        }
        acc.push((k, v));
        cur = r;
        left = one_less(left);
    }
}

/// Decodes the rows of a table from `p`, each an array: `Some(n)` of
/// them, or up to a break.
fn decode_rows(buf: &[u8], p: usize, count: Option<u64>) -> (r: Decoding<Vec<Vec<Value>>>)
    ensures
        decoding_as(r, rows_at(buf@, p as int, count), |v: Vec<Vec<Value>>| rows_of(v@)),
    decreases buf@.len() - p, 2int,
{
    if p > buf.len() {
        return Decoding::Failed(ReadError::EndOfInput);
    }
    let mut acc: Vec<Vec<Value>> = Vec::new();
    let mut cur = p;
    let mut left = count;
    proof {
        assert(rows_of(acc@) =~= Seq::<Seq<Datum>>::empty());
        match rows_at(buf@, p as int, count) {
            Parsed::Done(vs, r) => {
                assert(Seq::<Seq<Datum>>::empty() + vs =~= vs);
            },
            _ => {},
        }
    }
    loop
        invariant
            p <= cur <= buf@.len(),
            rows_at(buf@, p as int, count) == prefixed(rows_of(acc@), rows_at(buf@, cur as int, left)),
        decreases buf@.len() - cur,
    {
        match left {
            Some(n) => {
                if n == 0 {
                    proof {
                        assert(rows_of(acc@) + Seq::<Seq<Datum>>::empty() =~= rows_of(acc@));
                    }
                    return Decoding::Done(acc, cur);
                }
            },
            None => match item_kind(buf, cur) {
                Err(e) => return Decoding::Failed(e),
                Ok(Kind::Break) => {
                    let _ = cbor_skip_break(buf, cur);
                    proof {
                        assert(rows_of(acc@) + Seq::<Seq<Datum>>::empty() =~= rows_of(acc@));
                    }
                    return Decoding::Done(acc, cur + 1);
                },
                Ok(_) => {},
            },
        }
        match decode_value(buf, cur) {
            Decoding::Done(v, q) => match v {
                Value::Array(row) => {
                    if q <= cur || q > buf.len() {
                        return Decoding::Failed(ReadError::EndOfInput);
                    }
                    proof {
                        lemma_rows_of_push(acc@, row);
                        match rows_at(buf@, q as int, one_less_spec(left)) {
                            Parsed::Done(rs, e) => {
                                assert(rows_of(acc@) + (seq![data_of(row@)] + rs) =~= rows_of(
                                    acc@,
                                ).push(data_of(row@)) + rs);
                            },
                            _ => {},
                        }
                    }
                    acc.push(row);
                    cur = q;
                    left = one_less(left);
                },
                _ => return Decoding::GivesUp,
            },
            Decoding::Failed(e) => return Decoding::Failed(e),
            Decoding::GivesUp => return Decoding::GivesUp,
        }
    }
}

impl Value {
    /// Decodes the value at `pos` of `buf`, on any input: the value and
    /// where it ends, why it cannot be read, or that the decoder gives up on
    /// it.
    pub fn decode(buf: &[u8], pos: usize) -> (r: Decoding<Value>)
        ensures
            decoding_as(r, value_at(buf@, pos as int), |v: Value| datum_of(v)),
    {
        decode_value(buf, pos)
    }

    /// Decodes the value at `pos` of `buf`: the value and where it ends, or
    /// why it cannot be read.
    pub fn read(buf: &[u8], pos: usize) -> (r: Result<(Value, usize), ReadError>)
        requires
            !(value_at(buf@, pos as int) is GivesUp),
        ensures
            match value_at(buf@, pos as int) {
                Parsed::Done(d, q) => r is Ok && datum_of(r->Ok_0.0) == d && r->Ok_0.1 == q,
                Parsed::Failed(f) => r is Err && fault_of(r->Err_0) == f,
                Parsed::GivesUp => false,
            },
    {
        match decode_value(buf, pos) {
            Decoding::Done(v, q) => Ok((v, q)),
            Decoding::Failed(e) => Err(e),
            Decoding::GivesUp => {
                proof {
                    assert(false);
                }
                Err(ReadError::EndOfInput)
            },
        }
    }
}

/// The `w` bytes of `x`, most significant first (the bytes of `x` modulo
/// 256 to the power `w`).
pub open spec fn be_bytes(x: nat, w: nat) -> Seq<u8>
    decreases w,
{
    if w == 0 {
        Seq::empty()
    } else {
        be_bytes(x / 256, (w - 1) as nat).push((x % 256) as u8)
    }
}

/// The head of an item of major type `m` with argument `x`, in its
/// shortest form.
pub open spec fn head(m: u8, x: u64) -> Seq<u8> {
    if x <= 0x17 {
        seq![(m * 32 + x) as u8]
    } else if x <= 0xff {
        seq![(m * 32 + 24) as u8, x as u8]
    } else if x <= 0xffff {
        seq![(m * 32 + 25) as u8] + be_bytes(x as nat, 2)
    } else if x <= 0xffff_ffff {
        seq![(m * 32 + 26) as u8] + be_bytes(x as nat, 4)
    } else {
        seq![(m * 32 + 27) as u8] + be_bytes(x as nat, 8)
    }
}

/// The encoding of an integer of the CBOR range: a head of major type 0
/// for one that is not negative, of major type 1 for one that is.
pub open spec fn int_head(i: int) -> Seq<u8> {
    if i >= 0 {
        head(0, i as u64)
    } else {
        head(1, (-1 - i) as u64)
    }
}

/// The integer is in the range that CBOR integers cover.
pub open spec fn in_cbor_range(i: int) -> bool {
    -0x1_0000_0000_0000_0000 <= i <= 0xffff_ffff_ffff_ffff
}

/// The encoding of a simple value.
pub open spec fn simple_bytes(x: u8) -> Seq<u8> {
    if x < 0x14 {
        seq![(0xe0 + x) as u8]
    } else {
        seq![0xf8u8, x]
    }
}

/// The encoding of a datum.
pub open spec fn encoding(d: Datum) -> Seq<u8>
    decreases d,
{
    match d {
        Datum::Path(b) => head(6, PATH_TAG) + head(2, b.len() as u64) + b,
        Datum::Int(i) => int_head(i as int),
        Datum::Bytes(b) => head(2, b.len() as u64) + b,
        Datum::Text(t) => head(3, utf8_encode(t).len() as u64) + utf8_encode(t),
        Datum::Array(items) => head(4, items.len() as u64) + encodings(items),
        Datum::Dict(pairs) => head(5, pairs.len() as u64) + pair_encodings(pairs),
        Datum::Tag(t, inner) => head(6, t) + encoding(*inner),
        Datum::Float(f) => seq![0xfbu8] + be_bytes(f as nat, 8),
        Datum::Bool(b) => seq![if b { 0xf5u8 } else { 0xf4u8 }],
        Datum::Null => seq![0xf6u8],
        Datum::Undefined => seq![0xf7u8],
        Datum::Simple(x) => simple_bytes(x),
        Datum::Table { header, rows } => head(6, TABLE_TAG) + head(4, header.len() as u64) + encodings(
            header,
        ) + head(4, rows.len() as u64) + row_encodings(rows),
        Datum::Timestamp(t) => head(6, TIMESTAMP_TAG) + int_head(t as int),
    }
}

/// The encodings of data, one after the other.
pub open spec fn encodings(s: Seq<Datum>) -> Seq<u8>
    decreases s,
{
    if s.len() == 0 {
        Seq::empty()
    } else {
        encodings(s.drop_last()) + encoding(s.last())
    }
}

/// The encodings of pairs, each key before its value.
pub open spec fn pair_encodings(s: Seq<(Datum, Datum)>) -> Seq<u8>
    decreases s,
{
    if s.len() == 0 {
        Seq::empty()
    } else {
        pair_encodings(s.drop_last()) + encoding(s.last().0) + encoding(s.last().1)
    }
}

/// The encodings of rows, each as an array.
pub open spec fn row_encodings(s: Seq<Seq<Datum>>) -> Seq<u8>
    decreases s,
{
    if s.len() == 0 {
        Seq::empty()
    } else {
        row_encodings(s.drop_last()) + head(4, s.last().len() as u64) + encodings(s.last())
    }
}

/// Every integer in the datum is in the range that CBOR integers cover.
pub open spec fn encodable(d: Datum) -> bool
    decreases d,
{
    match d {
        Datum::Int(i) => in_cbor_range(i as int),
        Datum::Array(items) => forall|k: int| 0 <= k < items.len() ==> encodable(#[trigger] items[k]),
        Datum::Dict(pairs) => forall|k: int|
            0 <= k < pairs.len() ==> encodable(#[trigger] pairs[k].0) && encodable(pairs[k].1),
        Datum::Tag(_, inner) => encodable(*inner),
        Datum::Table { header, rows } => (forall|k: int|
            0 <= k < header.len() ==> encodable(#[trigger] header[k])) && (forall|r: int, k: int|
            0 <= r < rows.len() && 0 <= k < rows[r].len() ==> encodable(#[trigger] rows[r][k])),
        _ => true,
    }
}

/// Appends the integer `x` with minicbor's `Encoder::int`.
#[verifier::external_body]
fn enc_int(out: &mut Vec<u8>, x: i128)
    requires
        in_cbor_range(x as int),
    ensures
        final(out)@ == old(out)@ + int_head(x as int),
{
    let mut e = Encoder::new(std::mem::take(out));
    let _ = e.int(Int::try_from(x).unwrap());
    *out = e.into_writer();
}

/// Appends the integer `x` with minicbor's `Encoder::i64`.
#[verifier::external_body]
fn enc_i64(out: &mut Vec<u8>, x: i64)
    ensures
        final(out)@ == old(out)@ + int_head(x as int),
{
    let mut e = Encoder::new(std::mem::take(out));
    let _ = e.i64(x);
    *out = e.into_writer();
}

/// Appends the byte string `b` with minicbor's `Encoder::bytes`.
#[verifier::external_body]
fn enc_bytes(out: &mut Vec<u8>, b: &[u8])
    ensures
        final(out)@ == old(out)@ + head(2, b@.len() as u64) + b@,
{
    let mut e = Encoder::new(std::mem::take(out));
    let _ = e.bytes(b);
    *out = e.into_writer();
}

/// Appends the text string `s` with minicbor's `Encoder::str`, which
/// writes the bytes of `s` after its head.
#[verifier::external_body]
fn enc_str(out: &mut Vec<u8>, s: &str)
    ensures
        final(out)@ == old(out)@ + head(3, utf8_encode(s@).len() as u64) + utf8_encode(s@),
{
    let mut e = Encoder::new(std::mem::take(out));
    let _ = e.str(s);
    *out = e.into_writer();
}

/// Appends the head of an array of `n` items with minicbor's
/// `Encoder::array`.
#[verifier::external_body]
fn enc_array(out: &mut Vec<u8>, n: u64)
    ensures
        final(out)@ == old(out)@ + head(4, n),
{
    let mut e = Encoder::new(std::mem::take(out));
    let _ = e.array(n);
    *out = e.into_writer();
}

/// Appends the head of a map of `n` pairs with minicbor's `Encoder::map`.
#[verifier::external_body]
fn enc_map(out: &mut Vec<u8>, n: u64)
    ensures
        final(out)@ == old(out)@ + head(5, n),
{
    let mut e = Encoder::new(std::mem::take(out));
    let _ = e.map(n);
    *out = e.into_writer();
}

/// Appends the tag `t` with minicbor's `Encoder::tag`.
#[verifier::external_body]
fn enc_tag(out: &mut Vec<u8>, t: u64)
    ensures
        final(out)@ == old(out)@ + head(6, t),
{
    let mut e = Encoder::new(std::mem::take(out));
    let _ = e.tag(Tag::new(t));
    *out = e.into_writer();
}

/// Appends the boolean `b` with minicbor's `Encoder::bool`.
#[verifier::external_body]
fn enc_bool(out: &mut Vec<u8>, b: bool)
    ensures
        final(out)@ == old(out)@.push(if b { 0xf5u8 } else { 0xf4u8 }),
{
    let mut e = Encoder::new(std::mem::take(out));
    let _ = e.bool(b);
    *out = e.into_writer();
}

/// Appends a null with minicbor's `Encoder::null`.
#[verifier::external_body]
fn enc_null(out: &mut Vec<u8>)
    ensures
        final(out)@ == old(out)@.push(0xf6u8),
{
    let mut e = Encoder::new(std::mem::take(out));
    let _ = e.null();
    *out = e.into_writer();
}

/// Appends an undefined value with minicbor's `Encoder::undefined`.
#[verifier::external_body]
fn enc_undefined(out: &mut Vec<u8>)
    ensures
        final(out)@ == old(out)@.push(0xf7u8),
{
    let mut e = Encoder::new(std::mem::take(out));
    let _ = e.undefined();
    *out = e.into_writer();
}

/// Appends the simple value `x` with minicbor's `Encoder::simple`.
#[verifier::external_body]
fn enc_simple(out: &mut Vec<u8>, x: u8)
    ensures
        final(out)@ == old(out)@ + simple_bytes(x),
{
    let mut e = Encoder::new(std::mem::take(out));
    let _ = e.simple(x);
    *out = e.into_writer();
}

/// Appends the `w` bytes of `x`, most significant first.
fn push_be(out: &mut Vec<u8>, x: u64, w: usize)
    ensures
        final(out)@ == old(out)@ + be_bytes(x as nat, w as nat),
    decreases w,
{
    if w == 0 {
        proof {
            assert(old(out)@ + be_bytes(x as nat, 0) =~= old(out)@);
        }
        return;
    }
    push_be(out, x / 256, w - 1);
    out.push((x % 256) as u8);
    proof {
        assert(old(out)@ + be_bytes(x as nat, w as nat) =~= old(out)@ + be_bytes(
            (x / 256) as nat,
            (w - 1) as nat,
        ) + seq![(x % 256) as u8]);
    }
}

/// Appends the double with bits `f`: the head 0xfb and the bits, most
/// significant byte first.
fn enc_float_bits(out: &mut Vec<u8>, f: u64)
    ensures
        final(out)@ == old(out)@ + (seq![0xfbu8] + be_bytes(f as nat, 8)),
{
    out.push(0xfb);
    push_be(out, f, 8);
    proof {
        assert(old(out)@.push(0xfbu8) + be_bytes(f as nat, 8) =~= old(out)@ + (seq![0xfbu8]
            + be_bytes(f as nat, 8)));
    }
}

/// The pairs of data of a sequence of pairs are the data of its pairs.
proof fn lemma_pairs_of_index(s: Seq<(Value, Value)>)
    ensures
        pairs_of(s).len() == s.len(),
        forall|i: int|
            0 <= i < s.len() ==> #[trigger] pairs_of(s)[i] == (datum_of(s[i].0), datum_of(s[i].1)),
    decreases s.len(),
{
    if s.len() > 0 {
        lemma_pairs_of_index(s.drop_last());
    }
}

/// Appends the encodings of `items`, one after the other.
fn write_values(items: &Vec<Value>, out: &mut Vec<u8>)
    requires
        forall|k: int| 0 <= k < items@.len() ==> encodable(#[trigger] data_of(items@)[k]),
    ensures
        final(out)@ == old(out)@ + encodings(data_of(items@)),
    decreases items, 0int,
{
    let ghost start = out@;
    let mut i: usize = 0;
    proof {
        lemma_data_of_index(items@);
        assert(items@.take(0) =~= Seq::<Value>::empty());
        assert(start + encodings(data_of(items@.take(0))) =~= start);
    }
    while i < items.len()
        invariant
            0 <= i <= items.len(),
            forall|k: int| 0 <= k < items@.len() ==> encodable(#[trigger] data_of(items@)[k]),
            forall|k: int| 0 <= k < items@.len() ==> #[trigger] data_of(items@)[k] == datum_of(items@[k]),
            out@ == start + encodings(data_of(items@.take(i as int))),
        decreases items.len() - i,
    {
        proof {
            assert(decreases_to!(items => items@[i as int]));
            assert(encodable(data_of(items@)[i as int]));
        }
        items[i].write(out);
        proof {
            lemma_data_of_push(items@.take(i as int), items@[i as int]);
            assert(items@.take(i + 1) =~= items@.take(i as int).push(items@[i as int]));
            let d = data_of(items@.take(i as int));
            assert(d.push(datum_of(items@[i as int])).drop_last() =~= d);
            assert(out@ =~= start + encodings(data_of(items@.take(i + 1))));
        }
        i += 1;
    }
    proof {
        assert(items@.take(i as int) =~= items@);
    }
}

/// Appends the encodings of `pairs`, each key before its value.
fn write_pairs(pairs: &Vec<(Value, Value)>, out: &mut Vec<u8>)
    requires
        forall|k: int|
            0 <= k < pairs@.len() ==> encodable((#[trigger] pairs_of(pairs@)[k]).0) && encodable(
                pairs_of(pairs@)[k].1,
            ),
    ensures
        final(out)@ == old(out)@ + pair_encodings(pairs_of(pairs@)),
    decreases pairs, 0int,
{
    let ghost start = out@;
    let mut i: usize = 0;
    proof {
        lemma_pairs_of_index(pairs@);
        assert(pairs@.take(0) =~= Seq::<(Value, Value)>::empty());
        assert(start + pair_encodings(pairs_of(pairs@.take(0))) =~= start);
    }
    while i < pairs.len()
        invariant
            0 <= i <= pairs.len(),
            forall|k: int|
                0 <= k < pairs@.len() ==> encodable((#[trigger] pairs_of(pairs@)[k]).0) && encodable(
                    pairs_of(pairs@)[k].1,
                ),
            forall|k: int|
                0 <= k < pairs@.len() ==> #[trigger] pairs_of(pairs@)[k] == (
                    datum_of(pairs@[k].0),
                    datum_of(pairs@[k].1),
                ),
            out@ == start + pair_encodings(pairs_of(pairs@.take(i as int))),
        decreases pairs.len() - i,
    {
        let (k, v) = &pairs[i];
        proof {
            assert(decreases_to!(pairs => pairs@[i as int]));
            assert(pairs_of(pairs@)[i as int] == (datum_of(*k), datum_of(*v)));
            assert(encodable(datum_of(*k)) && encodable(datum_of(*v)));
        }
        k.write(out);
        v.write(out);
        proof {
            lemma_pairs_of_push(pairs@.take(i as int), pairs@[i as int]);
            assert(pairs@.take(i + 1) =~= pairs@.take(i as int).push(pairs@[i as int]));
            let d = pairs_of(pairs@.take(i as int));
            assert(d.push((datum_of(*k), datum_of(*v))).drop_last() =~= d);
            assert(out@ =~= start + pair_encodings(pairs_of(pairs@.take(i + 1))));
        }
        i += 1;
    }
    proof {
        assert(pairs@.take(i as int) =~= pairs@);
    }
}

/// Appends the rows of a table, each as an array.
fn write_rows(rows: &Vec<Vec<Value>>, out: &mut Vec<u8>)
    requires
        forall|r: int, k: int|
            0 <= r < rows@.len() && 0 <= k < rows_of(rows@)[r].len() ==> encodable(
                #[trigger] rows_of(rows@)[r][k],
            ),
    ensures
        final(out)@ == old(out)@ + row_encodings(rows_of(rows@)),
    decreases rows, 0int,
{
    let ghost start = out@;
    let mut i: usize = 0;
    proof {
        lemma_rows_of_index(rows@);
        assert(rows@.take(0) =~= Seq::<Vec<Value>>::empty());
        assert(start + row_encodings(rows_of(rows@.take(0))) =~= start);
    }
    while i < rows.len()
        invariant
            0 <= i <= rows.len(),
            forall|r: int, k: int|
                0 <= r < rows@.len() && 0 <= k < rows_of(rows@)[r].len() ==> encodable(
                    #[trigger] rows_of(rows@)[r][k],
                ),
            forall|r: int| 0 <= r < rows@.len() ==> #[trigger] rows_of(rows@)[r] == data_of(rows@[r]@),
            out@ == start + row_encodings(rows_of(rows@.take(i as int))),
        decreases rows.len() - i,
    {
        let row = &rows[i];
        proof {
            assert(decreases_to!(rows => rows@[i as int]));
            assert(rows_of(rows@)[i as int] == data_of(row@));
            lemma_data_of_index(row@);
            assert forall|k: int| 0 <= k < row@.len() implies encodable(
                #[trigger] data_of(row@)[k],
            ) by {
                assert(encodable(rows_of(rows@)[i as int][k]));
            }
        }
        enc_array(out, row.len() as u64);
        write_values(row, out);
        proof {
            lemma_rows_of_push(rows@.take(i as int), rows@[i as int]);
            assert(rows@.take(i + 1) =~= rows@.take(i as int).push(rows@[i as int]));
            let d = rows_of(rows@.take(i as int));
            assert(d.push(data_of(row@)).drop_last() =~= d);
            lemma_data_of_index(row@);
            assert(out@ =~= start + row_encodings(rows_of(rows@.take(i + 1))));
        }
        i += 1;
    }
    proof {
        assert(rows@.take(i as int) =~= rows@);
    }
}

impl Value {
    /// Appends the encoding of the value to `out`. Its integers must be in
    /// the range of CBOR integers.
    pub fn write(&self, out: &mut Vec<u8>)
        requires
            encodable(datum_of(*self)),
        ensures
            final(out)@ == old(out)@ + encoding(datum_of(*self)),
        decreases self, 1int,
    {
        match self {
            Value::Path(p) => {
                enc_tag(out, PATH_TAG);
                enc_bytes(out, p.as_slice());
                proof {
                    assert(out@ =~= old(out)@ + encoding(datum_of(*self)));
                }
            },
            Value::Int(x) => enc_int(out, *x),
            Value::Bytes(b) => enc_bytes(out, b.as_slice()),
            Value::Text(s) => enc_str(out, s.as_str()),
            Value::Array(items) => {
                proof {
                    lemma_data_of_index(items@);
                    assert(datum_of(*self) == Datum::Array(data_of(items@)));
                    lemma_encodable_parts(datum_of(*self));
                }
                enc_array(out, items.len() as u64);
                write_values(items, out);
                proof {
                    assert(out@ =~= old(out)@ + encoding(datum_of(*self)));
                }
            },
            Value::Dict(pairs) => {
                proof {
                    lemma_pairs_of_index(pairs@);
                    assert(datum_of(*self) == Datum::Dict(pairs_of(pairs@)));
                    lemma_encodable_parts(datum_of(*self));
                }
                enc_map(out, pairs.len() as u64);
                write_pairs(pairs, out);
                proof {
                    assert(out@ =~= old(out)@ + encoding(datum_of(*self)));
                }
            },
            Value::Tag(t, inner) => {
                proof {
                    assert(datum_of(*self) == Datum::Tag(*t, Box::new(datum_of(**inner))));
                    lemma_encodable_parts(datum_of(*self));
                }
                enc_tag(out, *t);
                inner.write(out);
                proof {
                    assert(out@ =~= old(out)@ + encoding(datum_of(*self)));
                }
            },
            Value::Float(f) => enc_float_bits(out, *f),
            Value::Bool(b) => {
                enc_bool(out, *b);
                proof {
                    assert(out@ =~= old(out)@ + encoding(datum_of(*self)));
                }
            },
            Value::Null => {
                enc_null(out);
                proof {
                    assert(out@ =~= old(out)@ + encoding(datum_of(*self)));
                }
            },
            Value::Undefined => {
                enc_undefined(out);
                proof {
                    assert(out@ =~= old(out)@ + encoding(datum_of(*self)));
                }
            },
            Value::Simple(x) => enc_simple(out, *x),
            Value::Table { header, rows } => {
                proof {
                    lemma_data_of_index(header@);
                    lemma_rows_of_index(rows@);
                    assert(datum_of(*self) == Datum::Table {
                        header: data_of(header@),
                        rows: rows_of(rows@),
                    });
                    lemma_encodable_parts(datum_of(*self));
                }
                enc_tag(out, TABLE_TAG);
                enc_array(out, header.len() as u64);
                write_values(header, out);
                enc_array(out, rows.len() as u64);
                write_rows(rows, out);
                proof {
                    assert(out@ =~= old(out)@ + encoding(datum_of(*self)));
                }
            },
            Value::Timestamp(t) => {
                enc_tag(out, TIMESTAMP_TAG);
                enc_i64(out, *t);
                proof {
                    assert(out@ =~= old(out)@ + encoding(datum_of(*self)));
                }
            },
        }
    }
}

/// What an encodable datum's parts are.
proof fn lemma_encodable_parts(d: Datum)
    requires
        encodable(d),
    ensures
        d matches Datum::Array(items) ==> forall|k: int|
            0 <= k < items.len() ==> encodable(#[trigger] items[k]),
        d matches Datum::Dict(pairs) ==> forall|k: int|
            0 <= k < pairs.len() ==> encodable((#[trigger] pairs[k]).0) && encodable(pairs[k].1),
        d matches Datum::Tag(_, inner) ==> encodable(*inner),
        d matches Datum::Table { header, rows } ==> (forall|k: int|
            0 <= k < header.len() ==> encodable(#[trigger] header[k])) && (forall|r: int, k: int|
            0 <= r < rows.len() && 0 <= k < rows[r].len() ==> encodable(#[trigger] rows[r][k])),
{
    match d {
        Datum::Dict(pairs) => {
            assert forall|k: int| 0 <= k < pairs.len() implies encodable((#[trigger] pairs[k]).0)
                && encodable(pairs[k].1) by {
                assert(encodable(pairs[k].0));
            }
        },
        _ => {},
    }
}

/// Appends the head of an array of unknown length with minicbor's
/// `Encoder::begin_array`.
#[verifier::external_body]
fn enc_begin_array(out: &mut Vec<u8>)
    ensures
        final(out)@ == old(out)@.push(0x9fu8),
{
    let mut e = Encoder::new(std::mem::take(out));
    let _ = e.begin_array();
    *out = e.into_writer();
}

/// Appends the break that ends an item of unknown length with minicbor's
/// `Encoder::end`.
#[verifier::external_body]
fn enc_end(out: &mut Vec<u8>)
    ensures
        final(out)@ == old(out)@.push(0xffu8),
{
    let mut e = Encoder::new(std::mem::take(out));
    let _ = e.end();
    *out = e.into_writer();
}

/// The items of a row (or header) can all be encoded.
pub open spec fn all_encodable(items: Seq<Value>) -> bool {
    forall|k: int| 0 <= k < items.len() ==> encodable(#[trigger] datum_of(items[k]))
}

/// A table written a row at a time: the header, once it is written, gives
/// the width that every row must have; the rows form an array of unknown
/// length, which [`StreamingTable::end`] closes.
pub struct StreamingTable {
    pub width: Option<usize>,
}

/// Begins a table whose header comes later: appends the table's tag.
pub fn stream_table_no_headers(out: &mut Vec<u8>) -> (t: StreamingTable)
    ensures
        t.width is None,
        final(out)@ == old(out)@ + head(6, TABLE_TAG),
{
    enc_tag(out, TABLE_TAG);
    StreamingTable { width: None }
}

/// Begins a table with its header: appends the table's tag, the header as
/// an array, and the head of the array of rows.
pub fn stream_table(out: &mut Vec<u8>, headers: &Vec<Value>) -> (t: StreamingTable)
    requires
        all_encodable(headers@),
    ensures
        t.width == Some(headers@.len() as usize),
        final(out)@ == old(out)@ + head(6, TABLE_TAG) + head(4, headers@.len() as u64) + encodings(
            data_of(headers@),
        ) + seq![0x9fu8],
{
    let mut t = stream_table_no_headers(out);
    t.headers(out, headers);
    proof {
        assert(out@ =~= old(out)@ + head(6, TABLE_TAG) + head(4, headers@.len() as u64) + encodings(
            data_of(headers@),
        ) + seq![0x9fu8]);
    }
    t
}

impl StreamingTable {
    /// Appends the header as an array and the head of the array of rows;
    /// the header's length becomes the table's width. A table has one
    /// header.
    pub fn headers(&mut self, out: &mut Vec<u8>, headers: &Vec<Value>)
        requires
            old(self).width is None,
            all_encodable(headers@),
        ensures
            final(self).width == Some(headers@.len() as usize),
            final(out)@ == old(out)@ + head(4, headers@.len() as u64) + encodings(data_of(headers@))
                + seq![0x9fu8],
    {
        proof {
            lemma_data_of_index(headers@);
        }
        enc_array(out, headers.len() as u64);
        write_values(headers, out);
        enc_begin_array(out);
        self.width = Some(headers.len());
        proof {
            assert(out@ =~= old(out)@ + head(4, headers@.len() as u64) + encodings(data_of(headers@))
                + seq![0x9fu8]);
        }
    }

    /// Appends a row as an array. The header must have been written, and
    /// the row must be as wide as it.
    pub fn row(&self, out: &mut Vec<u8>, row: &Vec<Value>)
        requires
            self.width == Some(row@.len() as usize),
            all_encodable(row@),
        ensures
            final(out)@ == old(out)@ + head(4, row@.len() as u64) + encodings(data_of(row@)),
    {
        proof {
            lemma_data_of_index(row@);
        }
        enc_array(out, row.len() as u64);
        write_values(row, out);
    }

    /// Ends the table: appends the break that closes the array of rows.
    pub fn end(self, out: &mut Vec<u8>)
        ensures
            final(out)@ == old(out)@.push(0xffu8),
    {
        enc_end(out);
    }
}

/// An array is encodable when its items are.
proof fn lemma_encodable_array(xs: Seq<Datum>)
    ensures
        encodable(Datum::Array(xs)) <==> forall|k: int| 0 <= k < xs.len() ==> encodable(#[trigger] xs[k]),
{
    let d = Datum::Array(xs);
    assert(d->Array_0 == xs);
    assert(decreases_to!(d => d->Array_0));
    assert forall|k: int| 0 <= k < xs.len() implies decreases_to!(d => #[trigger] xs[k]) by {
        assert(decreases_to!(xs => xs[k]));
    }
}

/// A map is encodable when its keys and values are.
proof fn lemma_encodable_dict(ps: Seq<(Datum, Datum)>)
    ensures
        encodable(Datum::Dict(ps)) <==> forall|k: int|
            0 <= k < ps.len() ==> encodable((#[trigger] ps[k]).0) && encodable(ps[k].1),
{
    let d = Datum::Dict(ps);
    assert(d->Dict_0 == ps);
    assert(decreases_to!(d => d->Dict_0));
    assert forall|k: int| 0 <= k < ps.len() implies decreases_to!(d => (#[trigger] ps[k]).0)
        && decreases_to!(d => ps[k].1) by {
        assert(decreases_to!(ps => ps[k]));
        assert(decreases_to!(ps[k] => ps[k].0));
        assert(decreases_to!(ps[k] => ps[k].1));
    }
}

/// A tagged datum is encodable when what it tags is.
proof fn lemma_encodable_tag(t: u64, inner: Datum)
    ensures
        encodable(Datum::Tag(t, Box::new(inner))) <==> encodable(inner),
{
    let d = Datum::Tag(t, Box::new(inner));
    assert(decreases_to!(d => *d->Tag_1));
}

/// A table is encodable when its header and its cells are.
proof fn lemma_encodable_table(header: Seq<Datum>, rows: Seq<Seq<Datum>>)
    ensures
        encodable(Datum::Table { header, rows }) <==> (forall|k: int|
            0 <= k < header.len() ==> encodable(#[trigger] header[k])) && (forall|r: int, k: int|
            0 <= r < rows.len() && 0 <= k < rows[r].len() ==> encodable(#[trigger] rows[r][k])),
{
    let d = Datum::Table { header, rows };
    assert(decreases_to!(d => d->header));
    assert(decreases_to!(d => d->rows));
    assert forall|k: int| 0 <= k < header.len() implies decreases_to!(d => #[trigger] header[k]) by {
        assert(decreases_to!(header => header[k]));
    }
    assert forall|r: int, k: int|
        0 <= r < rows.len() && 0 <= k < rows[r].len() implies decreases_to!(d => #[trigger] rows[r][k]) by {
        assert(decreases_to!(rows => rows[r]));
        assert(decreases_to!(rows[r] => rows[r][k]));
    }
}

/// Whether every integer in a value is in the range that CBOR integers
/// cover, so that it can be written.
pub fn is_encodable(v: &Value) -> (b: bool)
    ensures
        b == encodable(datum_of(*v)),
    decreases v, 1int,
{
    match v {
        Value::Int(i) => {
            let low: i128 = -0x1_0000_0000_0000_0000;
            let high: i128 = 0xffff_ffff_ffff_ffff;
            low <= *i && *i <= high
        },
        Value::Array(items) => {
            let ok = all_values_encodable(items);
            proof {
                lemma_data_of_index(items@);
                let xs = data_of(items@);
                assert(datum_of(*v) == Datum::Array(xs));
                lemma_encodable_array(xs);
                if ok {
                    assert forall|k: int| 0 <= k < xs.len() implies encodable(#[trigger] xs[k]) by {
                        assert(xs[k] == datum_of(items@[k]));
                    }
                } else {
                    let k = choose|k: int| 0 <= k < items@.len() && !encodable(#[trigger] datum_of(items@[k]));
                    assert(xs[k] == datum_of(items@[k]));
                }
            }
            ok
        },
        Value::Dict(pairs) => {
            let ok = pairs_encodable(pairs);
            proof {
                lemma_pairs_of_index(pairs@);
                let ps = pairs_of(pairs@);
                assert(datum_of(*v) == Datum::Dict(ps));
                lemma_encodable_dict(ps);
                if ok {
                    assert forall|k: int| 0 <= k < ps.len() implies encodable(#[trigger] ps[k].0) && encodable(
                        ps[k].1,
                    ) by {
                        assert(ps[k] == (datum_of(pairs@[k].0), datum_of(pairs@[k].1)));
                    }
                } else {
                    let k = choose|k: int|
                        0 <= k < pairs@.len() && !(encodable(#[trigger] datum_of(pairs@[k].0)) && encodable(
                            datum_of(pairs@[k].1),
                        ));
                    assert(ps[k] == (datum_of(pairs@[k].0), datum_of(pairs@[k].1)));
                }
            }
            ok
        },
        Value::Tag(t, inner) => {
            let r = is_encodable(inner);
            proof {
                lemma_encodable_tag(*t, datum_of(**inner));
            }
            r
        },
        Value::Table { header, rows } => {
            let h = all_values_encodable(header);
            let r = rows_encodable(rows);
            proof {
                lemma_data_of_index(header@);
                lemma_rows_of_index(rows@);
                let hs = data_of(header@);
                let rs = rows_of(rows@);
                assert(datum_of(*v) == Datum::Table { header: hs, rows: rs });
                lemma_encodable_table(hs, rs);
                if h {
                    assert forall|k: int| 0 <= k < hs.len() implies encodable(#[trigger] hs[k]) by {
                        assert(hs[k] == datum_of(header@[k]));
                    }
                } else {
                    let k = choose|k: int| 0 <= k < header@.len() && !encodable(#[trigger] datum_of(header@[k]));
                    assert(hs[k] == datum_of(header@[k]));
                }
                if r {
                    assert forall|i: int, k: int| 0 <= i < rs.len() && 0 <= k < rs[i].len() implies encodable(
                        #[trigger] rs[i][k],
                    ) by {
                        lemma_data_of_index(rows@[i]@);
                        assert(all_encodable(rows@[i]@));
                        assert(rs[i][k] == datum_of(rows@[i]@[k]));
                    }
                } else {
                    let i = choose|i: int| 0 <= i < rows@.len() && !all_encodable(#[trigger] rows@[i]@);
                    let k = choose|k: int|
                        0 <= k < rows@[i]@.len() && !encodable(#[trigger] datum_of(rows@[i]@[k]));
                    lemma_data_of_index(rows@[i]@);
                    assert(rs[i][k] == datum_of(rows@[i]@[k]));
                }
            }
            h && r
        },
        _ => {
            assert(encodable(datum_of(*v)));
            true
        },
    }
}

/// Whether every value of a sequence can be written.
pub fn all_values_encodable(items: &Vec<Value>) -> (b: bool)
    ensures
        b == all_encodable(items@),
    decreases items, 0int,
{
    let mut i: usize = 0;
    while i < items.len()
        invariant
            0 <= i <= items.len(),
            forall|k: int| 0 <= k < i ==> encodable(#[trigger] datum_of(items@[k])),
        decreases items.len() - i,
    {
        proof {
            assert(decreases_to!(items => items@[i as int]));
        }
        if !is_encodable(&items[i]) {
            return false;
        }
        i += 1;
    }
    true
}

fn pairs_encodable(pairs: &Vec<(Value, Value)>) -> (b: bool)
    ensures
        b == forall|k: int|
            0 <= k < pairs@.len() ==> encodable(#[trigger] datum_of(pairs@[k].0)) && encodable(
                datum_of(pairs@[k].1),
            ),
    decreases pairs, 0int,
{
    let mut i: usize = 0;
    while i < pairs.len()
        invariant
            0 <= i <= pairs.len(),
            forall|k: int|
                0 <= k < i ==> encodable(#[trigger] datum_of(pairs@[k].0)) && encodable(
                    datum_of(pairs@[k].1),
                ),
        decreases pairs.len() - i,
    {
        proof {
            assert(decreases_to!(pairs => pairs@[i as int].0));
            assert(decreases_to!(pairs => pairs@[i as int].1));
        }
        if !is_encodable(&pairs[i].0) || !is_encodable(&pairs[i].1) {
            return false;
        }
        i += 1;
    }
    true
}

fn rows_encodable(rows: &Vec<Vec<Value>>) -> (b: bool)
    ensures
        b == forall|k: int| 0 <= k < rows@.len() ==> all_encodable(#[trigger] rows@[k]@),
    decreases rows, 0int,
{
    let mut i: usize = 0;
    while i < rows.len()
        invariant
            0 <= i <= rows.len(),
            forall|k: int| 0 <= k < i ==> all_encodable(#[trigger] rows@[k]@),
        decreases rows.len() - i,
    {
        proof {
            assert(decreases_to!(rows => rows@[i as int]));
        }
        if !all_values_encodable(&rows[i]) {
            return false;
        }
        i += 1;
    }
    true
}

} // verus!
