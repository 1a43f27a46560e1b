//! Reading brandywine's wire format, CBOR, into the token stream: the heads
//! of items, the items that minicbor decodes, and the reader's step from one
//! expectation to the next.
use vstd::prelude::*;
use minicbor::Decoder;
use crate::utf8::utf8_decode;
use crate::bwine::{Expecting, StreamingReader, Token, PATH_TAG, TABLE_TAG, TIMESTAMP_TAG};

verus! {

#[verifier::external_type_specification]
#[verifier::external_body]
pub struct ExDecodeError(minicbor::decode::Error);

/// Why a piece of input could not be read.
#[derive(Debug)]
pub enum ReadError {
    /// The input ends inside an item: more of it is needed
    EndOfInput,
    /// The decoder refused the item
    Decode(minicbor::decode::Error),
    /// A half-precision float, which is not decoded
    HalfFloat,
    /// The head of a length, at this position, holds neither a small length
    /// nor one of the sized forms
    BadLength(usize),
}

/// The model of a [`ReadError`].
pub enum Fault {
    Short,
    Refused,
    Half,
    Length(int),
}

/// The model of an error.
pub open spec fn fault_of(e: ReadError) -> Fault {
    match e {
        ReadError::EndOfInput => Fault::Short,
        ReadError::Decode(_) => Fault::Refused,
        ReadError::HalfFloat => Fault::Half,
        ReadError::BadLength(p) => Fault::Length(p as int),
    }
}

/// A result of reading that ends at a position agrees with its model.
pub open spec fn agrees_at<A>(r: Result<(A, usize), ReadError>, s: Result<(A, int), Fault>) -> bool {
    match (r, s) {
        (Ok((a, p)), Ok((b, q))) => a == b && p as int == q,
        (Err(e), Err(f)) => fault_of(e) == f,
        _ => false,
    }
}

/// The major type of a head byte.
pub open spec fn major(b: u8) -> u8 {
    b / 32
}

/// The additional information of a head byte.
pub open spec fn info(b: u8) -> u8 {
    b % 32
}

/// How many bytes follow a head with this additional information to hold
/// its argument; -1 where none of the sized forms is meant.
pub open spec fn width_of(i: u8) -> int {
    if i < 24 {
        0
    } else if i == 24 {
        1
    } else if i == 25 {
        2
    } else if i == 26 {
        4
    } else if i == 27 {
        8
    } else {
        -1
    }
}

/// The number that bytes spell, most significant first.
pub open spec fn be_num(s: Seq<u8>) -> nat
    decreases s.len(),
{
    if s.len() == 0 {
        0
    } else {
        be_num(s.drop_last()) * 256 + s.last() as nat
    }
}

/// 256 to the power `n`.
pub open spec fn pow256(n: nat) -> nat
    decreases n,
{
    if n == 0 {
        1
    } else {
        256 * pow256((n - 1) as nat)
    }
}

/// The argument of the head at `pos` (a byte that is there): its value and
/// where the item's content starts.
pub open spec fn argument(buf: Seq<u8>, pos: int) -> Result<(u64, int), Fault> {
    let i = info(buf[pos]);
    if i < 24 {
        Ok((i as u64, pos + 1))
    } else if i <= 27 {
        let w = width_of(i);
        if pos + 1 + w <= buf.len() {
            Ok((be_num(buf.subrange(pos + 1, pos + 1 + w)) as u64, pos + 1 + w))
        } else {
            Err(Fault::Short)
        }
    } else {
        Err(Fault::Refused)
    }
}

/// The kinds of CBOR items, as the reader tells them apart by their head.
#[derive(Debug, Copy, Clone, PartialEq, Eq, Structural)]
pub enum Kind {
    Int,
    Float,
    Bool,
    Null,
    Undefined,
    Simple,
    Bytes,
    Text,
    Array,
    Dict,
    Tag,
    Break,
    Unknown,
}

/// The kind of the item that a head byte opens.
pub open spec fn kind_of_byte(b: u8) -> Kind {
    if b <= 0x1b || (0x20 <= b && b <= 0x3b) {
        Kind::Int
    } else if (0x40 <= b && b <= 0x5b) || b == 0x5f {
        Kind::Bytes
    } else if (0x60 <= b && b <= 0x7b) || b == 0x7f {
        Kind::Text
    } else if (0x80 <= b && b <= 0x9b) || b == 0x9f {
        Kind::Array
    } else if (0xa0 <= b && b <= 0xbb) || b == 0xbf {
        Kind::Dict
    } else if 0xc0 <= b && b <= 0xdb {
        Kind::Tag
    } else if (0xe0 <= b && b <= 0xf3) || b == 0xf8 {
        Kind::Simple
    } else if b == 0xf4 || b == 0xf5 {
        Kind::Bool
    } else if b == 0xf6 {
        Kind::Null
    } else if b == 0xf7 {
        Kind::Undefined
    } else if b == 0xf9 || b == 0xfa || b == 0xfb {
        Kind::Float
    } else if b == 0xff {
        Kind::Break
    } else {
        Kind::Unknown
    }
}

/// The kind of the item at `pos`; the input is short where the head byte
/// is missing, or where a negative integer's head is the last byte (the
/// decoder looks at the byte after it to size the integer).
pub open spec fn kind_at(buf: Seq<u8>, pos: int) -> Result<Kind, Fault> {
    if pos < 0 || pos >= buf.len() {
        Err(Fault::Short)
    } else if 0x38 <= buf[pos] && buf[pos] <= 0x3b && pos + 1 >= buf.len() {
        Err(Fault::Short)
    } else {
        Ok(kind_of_byte(buf[pos]))
    }
}

/// The fault of a string whose head at `pos` is not what the decoder
/// wants: a refusal, unless naming the head's type in the refusal needs a
/// byte that is missing (the decoder sizes a negative integer by the byte
/// after the one past its head).
pub open spec fn mismatch(buf: Seq<u8>, pos: int) -> Fault {
    if 0x38 <= buf[pos] && buf[pos] <= 0x3b && pos + 2 >= buf.len() {
        Fault::Short
    } else {
        Fault::Refused
    }
}

/// The integer at `pos`, an item of major type 0 or 1.
pub open spec fn int_item(buf: Seq<u8>, pos: int) -> Result<(i128, int), Fault> {
    match argument(buf, pos) {
        Ok((v, p)) => if major(buf[pos]) == 0 {
            Ok((v as i128, p))
        } else {
            Ok(((-1 - v) as i128, p))
        },
        Err(f) => Err(f),
    }
}

/// The simple value at `pos`, an item whose head is 0xe0 to 0xf3 or 0xf8.
pub open spec fn simple_item(buf: Seq<u8>, pos: int) -> Result<(u8, int), Fault> {
    if buf[pos] == 0xf8 {
        if pos + 1 < buf.len() {
            Ok((buf[pos + 1], pos + 2))
        } else {
            Err(Fault::Short)
        }
    } else {
        Ok(((buf[pos] - 0xe0) as u8, pos + 1))
    }
}

/// The length of the array (major type 4) or map (major type 5) whose
/// head is at `pos`, `None` for an indefinite one.
pub open spec fn count_item(buf: Seq<u8>, pos: int, m: u8) -> Result<(Option<u64>, int), Fault> {
    if pos < 0 || pos >= buf.len() {
        Err(Fault::Short)
    } else if major(buf[pos]) != m {
        Err(mismatch(buf, pos))
    } else if info(buf[pos]) == 31 {
        Ok((None, pos + 1))
    } else {
        match argument(buf, pos) {
            Ok((v, p)) => Ok((Some(v), p)),
            Err(f) => Err(f),
        }
    }
}

/// The content of the definite-length string at `pos`, of major type
/// `m`: its bytes and where it ends.
pub open spec fn chunk_item(buf: Seq<u8>, pos: int, m: u8) -> Result<(Seq<u8>, int), Fault> {
    if pos < 0 || pos >= buf.len() {
        Err(Fault::Short)
    } else if major(buf[pos]) != m || info(buf[pos]) == 31 {
        Err(mismatch(buf, pos))
    } else {
        match argument(buf, pos) {
            Ok((n, p)) => if n > usize::MAX {
                Err(Fault::Refused)
            } else if p + n > buf.len() {
                Err(Fault::Short)
            } else {
                Ok((buf.subrange(p, p + n), p + n))
            },
            Err(f) => Err(f),
        }
    }
}

/// The text of the definite-length text string at `pos`.
pub open spec fn text_item(buf: Seq<u8>, pos: int) -> Result<(Seq<char>, int), Fault> {
    match chunk_item(buf, pos, 3) {
        Ok((b, p)) => match utf8_decode(b) {
            Some(t) => Ok((t, p)),
            None => Err(Fault::Refused),
        },
        Err(f) => Err(f),
    }
}

/// A result of reading agrees with its model.
pub open spec fn agrees<A>(r: Result<A, ReadError>, s: Result<A, Fault>) -> bool {
    match (r, s) {
        (Ok(a), Ok(b)) => a == b,
        (Err(e), Err(f)) => fault_of(e) == f,
        _ => false,
    }
}

/// The length of a string or byte string whose head is at `pos`, `None`
/// for an indefinite one; only the additional information of the head is
/// read, whatever its major type.
pub open spec fn length_item(buf: Seq<u8>, pos: int) -> Result<(Option<u64>, int), Fault> {
    if pos < 0 || pos >= buf.len() {
        Err(Fault::Short)
    } else if info(buf[pos]) == 31 {
        Ok((None, pos + 1))
    } else if info(buf[pos]) <= 27 {
        match argument(buf, pos) {
            Ok((v, p)) => Ok((Some(v), p)),
            Err(f) => Err(f),
        }
    } else {
        Err(Fault::Length(pos))
    }
}

/// A subnormal single's significand `m`, doubled until its top bit is the
/// implicit one (at most `steps` times): how many doublings, and the
/// result.
pub open spec fn normalized(m: nat, steps: nat) -> (nat, nat)
    decreases steps,
{
    if steps == 0 || m == 0 || m >= 0x80_0000 {
        (0, m)
    } else {
        let (k, mm) = normalized(2 * m, (steps - 1) as nat);
        (k + 1, mm)
    }
}

/// The bits of the double that equals the single with bits `b`: the sign
/// stays, the exponent is rebased, the significand is moved to the top (a
/// subnormal single is normalized first), and a NaN keeps its payload and
/// becomes quiet.
pub open spec fn widened(b: u32) -> u64 {
    let sign: int = if b >= 0x8000_0000 { 0x8000_0000_0000_0000 } else { 0 };
    let e = (b / 0x80_0000) % 0x100;
    let m = b % 0x80_0000;
    (if e == 0xff {
        if m == 0 {
            sign + 0x7ff0_0000_0000_0000
        } else {
            sign + 0x7ff0_0000_0000_0000 + (if m >= 0x40_0000 { m as int } else { m + 0x40_0000 })
                * 0x2000_0000
        }
    } else if e == 0 {
        if m == 0 {
            sign
        } else {
            let (k, mm) = normalized(m as nat, 23);
            sign + (897 - k) * 0x10_0000_0000_0000 + (mm - 0x80_0000) * 0x2000_0000
        }
    } else {
        sign + (e + 896) * 0x10_0000_0000_0000 + m * 0x2000_0000
    }) as u64
}

/// The bits of the double that the float at `pos` (head 0xf9, 0xfa or
/// 0xfb) stands for; a half-precision float is not decoded.
pub open spec fn float_item(buf: Seq<u8>, pos: int) -> Result<(u64, int), Fault> {
    if buf[pos] == 0xfb {
        if pos + 9 <= buf.len() {
            Ok((be_num(buf.subrange(pos + 1, pos + 9)) as u64, pos + 9))
        } else {
            Err(Fault::Short)
        }
    } else if buf[pos] == 0xfa {
        if pos + 5 <= buf.len() {
            Ok((widened(be_num(buf.subrange(pos + 1, pos + 5)) as u32), pos + 5))
        } else {
            Err(Fault::Short)
        }
    } else {
        Err(Fault::Half)
    }
}

/// The number that `s` spells is below 256 to the power of its length.
pub proof fn lemma_be_num_bound(s: Seq<u8>)
    ensures
        be_num(s) < pow256(s.len()),
    decreases s.len(),
{
    if s.len() > 0 {
        lemma_be_num_bound(s.drop_last());
        let v = be_num(s.drop_last());
        let p = pow256(s.drop_last().len());
        let b = s.last() as nat;
        assert(v * 256 + b < p * 256) by (nonlinear_arith)
            requires
                v < p,
                b < 256,
        ;
    }
}

/// The kind of the item that a head byte opens.
fn kind_of(b: u8) -> (k: Kind)
    ensures
        k == kind_of_byte(b),
{
    if b <= 0x1b || (0x20 <= b && b <= 0x3b) {
        Kind::Int
    } else if (0x40 <= b && b <= 0x5b) || b == 0x5f {
        Kind::Bytes
    } else if (0x60 <= b && b <= 0x7b) || b == 0x7f {
        Kind::Text
    } else if (0x80 <= b && b <= 0x9b) || b == 0x9f {
        Kind::Array
    } else if (0xa0 <= b && b <= 0xbb) || b == 0xbf {
        Kind::Dict
    } else if 0xc0 <= b && b <= 0xdb {
        Kind::Tag
    } else if (0xe0 <= b && b <= 0xf3) || b == 0xf8 {
        Kind::Simple
    } else if b == 0xf4 || b == 0xf5 {
        Kind::Bool
    } else if b == 0xf6 {
        Kind::Null
    } else if b == 0xf7 {
        Kind::Undefined
    } else if b == 0xf9 || b == 0xfa || b == 0xfb {
        Kind::Float
    } else if b == 0xff {
        Kind::Break
    } else {
        Kind::Unknown
    }
}

/// The kind of the item at `pos`.
pub(crate) fn item_kind(buf: &[u8], pos: usize) -> (r: Result<Kind, ReadError>)
    ensures
        agrees(r, kind_at(buf@, pos as int)),
{
    if pos >= buf.len() {
        return Err(ReadError::EndOfInput);
    }
    let b = buf[pos];
    if 0x38 <= b && b <= 0x3b && pos + 1 >= buf.len() {
        return Err(ReadError::EndOfInput);
    }
    Ok(kind_of(b))
}

/// The number that `w` bytes from `start` spell, most significant first.
fn read_be(buf: &[u8], start: usize, w: usize) -> (r: u64)
    requires
        start + w <= buf@.len(),
        w <= 8,
    ensures
        r == be_num(buf@.subrange(start as int, start + w)),
{
    let mut v: u64 = 0;
    let mut i: usize = 0;
    while i < w
        invariant
            start + w <= buf@.len(),
            w <= 8,
            i <= w,
            v == be_num(buf@.subrange(start as int, start + i)),
        decreases w - i,
    {
        let ghost s = buf@.subrange(start as int, start + i + 1);
        proof {
            assert(s.drop_last() =~= buf@.subrange(start as int, start + i));
            lemma_be_num_bound(s);
            reveal_with_fuel(pow256, 9);
            assert(pow256(8) == 0x1_0000_0000_0000_0000);
            lemma_pow256_grows((i + 1) as nat, 8);
        }
        assert(start + i < buf.len());
        v = v * 256 + buf[start + i] as u64;
        i += 1;
    }
    v
}

/// 256 to a power grows with the power.
proof fn lemma_pow256_grows(a: nat, b: nat)
    requires
        a <= b,
    ensures
        pow256(a) <= pow256(b),
    decreases b,
{
    if a < b {
        lemma_pow256_grows(a, (b - 1) as nat);
    }
}

/// The argument of the head at `pos`, read without the decoder: for the
/// lengths of strings.
pub(crate) fn head_argument(buf: &[u8], pos: usize) -> (r: Result<(u64, usize), ReadError>)
    requires
        pos < buf@.len(),
        info(buf@[pos as int]) <= 27,
    ensures
        agrees_at(r, argument(buf@, pos as int)),
{
    let i = buf[pos] % 32;
    if i < 24 {
        return Ok((i as u64, pos + 1));
    }
    let w: usize = if i == 24 {
        1
    } else if i == 25 {
        2
    } else if i == 26 {
        4
    } else {
        8
    };
    if w > buf.len() - pos - 1 {
        return Err(ReadError::EndOfInput);
    }
    let v = read_be(buf, pos + 1, w);
    Ok((v, pos + 1 + w))
}

/// The length of the string or byte string whose head is at `pos`.
pub(crate) fn read_length(buf: &[u8], pos: usize) -> (r: Result<(Option<u64>, usize), ReadError>)
    ensures
        agrees_at(r, length_item(buf@, pos as int)),
{
    if pos >= buf.len() {
        return Err(ReadError::EndOfInput);
    }
    let i = buf[pos] % 32;
    if i == 31 {
        Ok((None, pos + 1))
    } else if i <= 27 {
        match head_argument(buf, pos) {
            Ok((v, p)) => Ok((Some(v), p)),
            Err(e) => Err(e),
        }
    } else {
        Err(ReadError::BadLength(pos))
    }
}

/// The bits of the double that equals the single with bits `b`.
fn widen_single(b: u32) -> (r: u64)
    ensures
        r == widened(b),
{
    let sign: u64 = if b >= 0x8000_0000 { 0x8000_0000_0000_0000 } else { 0 };
    let e = ((b / 0x80_0000) % 0x100) as u64;
    let m = (b % 0x80_0000) as u64;
    if e == 0xff {
        if m == 0 {
            sign + 0x7ff0_0000_0000_0000
        } else {
            let q = if m >= 0x40_0000 { m } else { m + 0x40_0000 };
            sign + 0x7ff0_0000_0000_0000 + q * 0x2000_0000
        }
    } else if e == 0 {
        if m == 0 {
            sign
        } else {
            let mut mm: u64 = m;
            let mut k: u64 = 0;
            while mm < 0x80_0000
                invariant
                    1 <= mm < 0x100_0000,
                    k <= 23,
                    two_to(k as nat) <= mm,
                    normalized(m as nat, 23) == ({
                        let (j, n) = normalized(mm as nat, (23 - k) as nat);
                        ((j + k) as nat, n)
                    }),
                decreases 23 - k,
            {
                proof {
                    if k >= 23 {
                        lemma_two_to_grows(23, k as nat);
                        reveal_with_fuel(two_to, 24);
                        assert(two_to(23) == 0x80_0000);
                    }
                }
                mm = mm * 2;
                k += 1;
            }
            sign + (897 - k) * 0x10_0000_0000_0000 + (mm - 0x80_0000) * 0x2000_0000
        }
    } else {
        sign + (e + 896) * 0x10_0000_0000_0000 + m * 0x2000_0000
    }
}

/// 2 to the power `n`.
pub open spec fn two_to(n: nat) -> nat
    decreases n,
{
    if n == 0 {
        1
    } else {
        2 * two_to((n - 1) as nat)
    }
}

/// 2 to a power grows with the power.
proof fn lemma_two_to_grows(a: nat, b: nat)
    requires
        a <= b,
    ensures
        two_to(a) <= two_to(b),
    decreases b,
{
    if a < b {
        lemma_two_to_grows(a, (b - 1) as nat);
    }
}

/// The double that the float at `pos` stands for, by its bits.
pub(crate) fn read_float(buf: &[u8], pos: usize) -> (r: Result<(u64, usize), ReadError>)
    requires
        pos < buf@.len(),
    ensures
        agrees_at(r, float_item(buf@, pos as int)),
{
    if buf[pos] == 0xfb {
        if buf.len() - pos < 9 {
            return Err(ReadError::EndOfInput);
        }
        Ok((read_be(buf, pos + 1, 8), pos + 9))
    } else if buf[pos] == 0xfa {
        if buf.len() - pos < 5 {
            return Err(ReadError::EndOfInput);
        }
        let v = read_be(buf, pos + 1, 4);
        proof {
            lemma_be_num_bound(buf@.subrange(pos + 1, pos + 5));
            reveal_with_fuel(pow256, 5);
            assert(pow256(4) == 0x1_0000_0000);
        }
        Ok((widen_single(v as u32), pos + 5))
    } else {
        Err(ReadError::HalfFloat)
    }
}

/// Decodes the integer at `pos` with minicbor's `Decoder::int`.
#[verifier::external_body]
pub(crate) fn cbor_int(buf: &[u8], pos: usize) -> (r: Result<(i128, usize), ReadError>)
    requires
        pos < buf@.len(),
        kind_of_byte(buf@[pos as int]) == Kind::Int,
    ensures
        agrees_at(r, int_item(buf@, pos as int)),
{
    let mut d = Decoder::new(buf);
    d.set_position(pos);
    match d.int() {
        Ok(i) => Ok((i.into(), d.position())),
        Err(e) => Err(if e.is_end_of_input() { ReadError::EndOfInput } else { ReadError::Decode(e) }),
    }
}

/// Decodes the boolean at `pos` with minicbor's `Decoder::bool`.
#[verifier::external_body]
pub(crate) fn cbor_bool(buf: &[u8], pos: usize) -> (r: Result<(bool, usize), ReadError>)
    requires
        pos < buf@.len(),
        buf@[pos as int] == 0xf4 || buf@[pos as int] == 0xf5,
    ensures
        r is Ok,
        r->Ok_0.0 == (buf@[pos as int] == 0xf5),
        r->Ok_0.1 == pos + 1,
{
    let mut d = Decoder::new(buf);
    d.set_position(pos);
    match d.bool() {
        Ok(b) => Ok((b, d.position())),
        Err(e) => Err(ReadError::Decode(e)),
    }
}

/// Decodes the null at `pos` with minicbor's `Decoder::null`, giving the
/// position after it.
#[verifier::external_body]
pub(crate) fn cbor_null(buf: &[u8], pos: usize) -> (r: Result<usize, ReadError>)
    requires
        pos < buf@.len(),
        buf@[pos as int] == 0xf6,
    ensures
        r is Ok,
        r->Ok_0 == pos + 1,
{
    let mut d = Decoder::new(buf);
    d.set_position(pos);
    match d.null() {
        Ok(()) => Ok(d.position()),
        Err(e) => Err(ReadError::Decode(e)),
    }
}

/// Decodes the undefined value at `pos` with minicbor's
/// `Decoder::undefined`, giving the position after it.
#[verifier::external_body]
pub(crate) fn cbor_undefined(buf: &[u8], pos: usize) -> (r: Result<usize, ReadError>)
    requires
        pos < buf@.len(),
        buf@[pos as int] == 0xf7,
    ensures
        r is Ok,
        r->Ok_0 == pos + 1,
{
    let mut d = Decoder::new(buf);
    d.set_position(pos);
    match d.undefined() {
        Ok(()) => Ok(d.position()),
        Err(e) => Err(ReadError::Decode(e)),
    }
}

/// Decodes the simple value at `pos` with minicbor's `Decoder::simple`.
#[verifier::external_body]
pub(crate) fn cbor_simple(buf: &[u8], pos: usize) -> (r: Result<(u8, usize), ReadError>)
    requires
        pos < buf@.len(),
        kind_of_byte(buf@[pos as int]) == Kind::Simple,
    ensures
        agrees_at(r, simple_item(buf@, pos as int)),
{
    let mut d = Decoder::new(buf);
    d.set_position(pos);
    match d.simple() {
        Ok(s) => Ok((s, d.position())),
        Err(e) => Err(if e.is_end_of_input() { ReadError::EndOfInput } else { ReadError::Decode(e) }),
    }
}

/// Decodes the head of the array at `pos` with minicbor's
/// `Decoder::array`: its length, `None` for an indefinite one.
#[verifier::external_body]
pub(crate) fn cbor_array(buf: &[u8], pos: usize) -> (r: Result<(Option<u64>, usize), ReadError>)
    ensures
        agrees_at(r, count_item(buf@, pos as int, 4)),
{
    let mut d = Decoder::new(buf);
    d.set_position(pos);
    match d.array() {
        Ok(n) => Ok((n, d.position())),
        Err(e) => Err(if e.is_end_of_input() { ReadError::EndOfInput } else { ReadError::Decode(e) }),
    }
}

/// Decodes the head of the map at `pos` with minicbor's `Decoder::map`:
/// its number of pairs, `None` for an indefinite one.
#[verifier::external_body]
pub(crate) fn cbor_map(buf: &[u8], pos: usize) -> (r: Result<(Option<u64>, usize), ReadError>)
    ensures
        agrees_at(r, count_item(buf@, pos as int, 5)),
{
    let mut d = Decoder::new(buf);
    d.set_position(pos);
    match d.map() {
        Ok(n) => Ok((n, d.position())),
        Err(e) => Err(if e.is_end_of_input() { ReadError::EndOfInput } else { ReadError::Decode(e) }),
    }
}

/// Decodes the tag at `pos` with minicbor's `Decoder::tag`, as its number.
#[verifier::external_body]
pub(crate) fn cbor_tag(buf: &[u8], pos: usize) -> (r: Result<(u64, usize), ReadError>)
    requires
        pos < buf@.len(),
        kind_of_byte(buf@[pos as int]) == Kind::Tag,
    ensures
        agrees_at(r, argument(buf@, pos as int)),
{
    let mut d = Decoder::new(buf);
    d.set_position(pos);
    match d.tag() {
        Ok(t) => Ok((t.into(), d.position())),
        Err(e) => Err(if e.is_end_of_input() { ReadError::EndOfInput } else { ReadError::Decode(e) }),
    }
}

/// Decodes the definite-length text string at `pos` with minicbor's
/// `Decoder::str`.
#[verifier::external_body]
pub(crate) fn cbor_str(buf: &[u8], pos: usize) -> (r: Result<(String, usize), ReadError>)
    requires
        pos < buf@.len(),
    ensures
        match (r, text_item(buf@, pos as int)) {
            (Ok((s, p)), Ok((t, q))) => s@ == t && p == q,
            (Err(e), Err(f)) => fault_of(e) == f,
            _ => false,
        },
{
    let mut d = Decoder::new(buf);
    d.set_position(pos);
    match d.str() {
        Ok(s) => Ok((s.to_string(), d.position())),
        Err(e) => Err(if e.is_end_of_input() { ReadError::EndOfInput } else { ReadError::Decode(e) }),
    }
}

/// Decodes the definite-length byte string at `pos` with minicbor's
/// `Decoder::bytes`.
#[verifier::external_body]
pub(crate) fn cbor_bytes(buf: &[u8], pos: usize) -> (r: Result<(Vec<u8>, usize), ReadError>)
    requires
        pos < buf@.len(),
    ensures
        match (r, chunk_item(buf@, pos as int, 2)) {
            (Ok((s, p)), Ok((t, q))) => s@ == t && p == q,
            (Err(e), Err(f)) => fault_of(e) == f,
            _ => false,
        },
{
    let mut d = Decoder::new(buf);
    d.set_position(pos);
    match d.bytes() {
        Ok(s) => Ok((s.to_vec(), d.position())),
        Err(e) => Err(if e.is_end_of_input() { ReadError::EndOfInput } else { ReadError::Decode(e) }),
    }
}

/// Skips the break at `pos` with minicbor's `Decoder::skip`, giving the
/// position after it.
#[verifier::external_body]
pub(crate) fn cbor_skip_break(buf: &[u8], pos: usize) -> (r: Result<usize, ReadError>)
    requires
        pos < buf@.len(),
        buf@[pos as int] == 0xff,
    ensures
        r is Ok,
        r->Ok_0 == pos + 1,
{
    let mut d = Decoder::new(buf);
    d.set_position(pos);
    match d.skip() {
        Ok(()) => Ok(d.position()),
        Err(e) => Err(ReadError::Decode(e)),
    }
}

/// The text that `bytes` spell in UTF-8, with `std::str::from_utf8`;
/// `None` where they are not well-formed UTF-8.
#[verifier::external_body]
pub(crate) fn utf8_string(bytes: &[u8]) -> (r: Option<String>)
    ensures
        match r {
            Some(s) => utf8_decode(bytes@) == Some(s@),
            None => utf8_decode(bytes@) is None,
        },
{
    match std::str::from_utf8(bytes) {
        Ok(s) => Some(s.to_string()),
        Err(_) => None,
    }
}

/// The model of a token: strings by their content.
pub enum Piece {
    Int(i128),
    Path,
    Bytes,
    BytesPart(Seq<u8>),
    Text,
    TextPart(Seq<char>),
    Array(Option<u64>),
    Dict(Option<u64>),
    Tag(u64),
    Float(u64),
    Bool(bool),
    Null,
    Undefined,
    Simple(u8),
    Table,
    Timestamp,
    End,
}

/// The model of a token.
pub open spec fn piece_of(t: Token) -> Piece {
    match t {
        Token::Int(i) => Piece::Int(i),
        Token::Path => Piece::Path,
        Token::Bytes => Piece::Bytes,
        Token::BytesPart(b) => Piece::BytesPart(b@),
        Token::Text => Piece::Text,
        Token::TextPart(s) => Piece::TextPart(s@),
        Token::Array(n) => Piece::Array(n),
        Token::Dict(n) => Piece::Dict(n),
        Token::Tag(t) => Piece::Tag(t),
        Token::Float(f) => Piece::Float(f),
        Token::Bool(b) => Piece::Bool(b),
        Token::Null => Piece::Null,
        Token::Undefined => Piece::Undefined,
        Token::Simple(v) => Piece::Simple(v),
        Token::Table => Piece::Table,
        Token::Timestamp => Piece::Timestamp,
        Token::End => Piece::End,
    }
}

/// The scalar at `pos`, as a token, and where it ends; `None` where the
/// item there is not a scalar.
pub open spec fn atomic_item(buf: Seq<u8>, pos: int) -> Result<Option<(Piece, int)>, Fault> {
    match kind_at(buf, pos) {
        Err(f) => Err(f),
        Ok(k) => match k {
            Kind::Int => match int_item(buf, pos) {
                Ok((v, p)) => Ok(Some((Piece::Int(v), p))),
                Err(f) => Err(f),
            },
            Kind::Float => match float_item(buf, pos) {
                Ok((v, p)) => Ok(Some((Piece::Float(v), p))),
                Err(f) => Err(f),
            },
            Kind::Bool => Ok(Some((Piece::Bool(buf[pos] == 0xf5), pos + 1))),
            Kind::Null => Ok(Some((Piece::Null, pos + 1))),
            Kind::Undefined => Ok(Some((Piece::Undefined, pos + 1))),
            Kind::Simple => match simple_item(buf, pos) {
                Ok((v, p)) => Ok(Some((Piece::Simple(v), p))),
                Err(f) => Err(f),
            },
            _ => Ok(None),
        },
    }
}

/// A count of pairs as a count of items.
pub open spec fn doubled(n: Option<u64>) -> Option<u64> {
    match n {
        Some(k) => Some((2 * k) as u64),
        None => None,
    }
}

/// The item at `pos` is a map with more pairs than a count of its items
/// can hold.
pub open spec fn beginner_overflows(buf: Seq<u8>, pos: int) -> bool {
    &&& kind_at(buf, pos) matches Ok(Kind::Dict)
    &&& count_item(buf, pos, 5) matches Ok((Some(n), _))
    &&& 2 * n > u64::MAX
}

/// The compound value that begins at `pos`: the token that opens it, what
/// the reader expects inside it (`astlen` is where the token goes in the
/// stream), and where its head ends; `None` where the item there does not
/// open a compound value.
pub open spec fn beginner_item(buf: Seq<u8>, pos: int, astlen: usize) -> Result<
    Option<(Piece, Expecting, int)>,
    Fault,
> {
    match kind_at(buf, pos) {
        Err(f) => Err(f),
        Ok(k) => match k {
            Kind::Bytes => match length_item(buf, pos) {
                Ok((n, p)) => Ok(Some((Piece::Bytes, Expecting::Bytes(astlen, n), p))),
                Err(f) => Err(f),
            },
            Kind::Text => match length_item(buf, pos) {
                Ok((n, p)) => Ok(Some((Piece::Text, Expecting::String(astlen, n), p))),
                Err(f) => Err(f),
            },
            Kind::Array => match count_item(buf, pos, 4) {
                Ok((n, p)) => Ok(Some((Piece::Array(n), Expecting::Array(astlen, n), p))),
                Err(f) => Err(f),
            },
            Kind::Dict => match count_item(buf, pos, 5) {
                Ok((n, p)) => Ok(
                    Some((Piece::Dict(doubled(n)), Expecting::Dict(astlen, doubled(n)), p)),
                ),
                Err(f) => Err(f),
            },
            Kind::Tag => match argument(buf, pos) {
                Ok((t, p)) => if t == PATH_TAG {
                    match length_item(buf, p) {
                        Ok((n, q)) => Ok(Some((Piece::Path, Expecting::Bytes(astlen, n), q))),
                        Err(f) => Err(f),
                    }
                } else if t == TABLE_TAG {
                    Ok(Some((Piece::Table, Expecting::TableHeader, p)))
                } else if t == TIMESTAMP_TAG {
                    Ok(Some((Piece::Timestamp, Expecting::TimestampValue, p)))
                } else {
                    Ok(Some((Piece::Tag(t), Expecting::Something, p)))
                },
                Err(f) => Err(f),
            },
            _ => Ok(None),
        },
    }
}

/// What one step of the reader does.
pub enum Step {
    /// The reader gives up on the input (it does not support it)
    Panics,
    /// The input cannot be read, for this reason; nothing changes
    Fails(Fault),
    /// So many bytes were read, these tokens are added to the stream, and
    /// this is the new stack of expectations
    Reads(int, Seq<Piece>, Seq<Expecting>),
}

/// A step that reads one item at the start of `buf` where any value may
/// come: a scalar, or the opening of a compound value, whose expectation
/// then goes on top of `after`.
pub open spec fn item_step(buf: Seq<u8>, astlen: usize, after: Seq<Expecting>) -> Step {
    match atomic_item(buf, 0) {
        Err(f) => Step::Fails(f),
        Ok(Some((t, p))) => Step::Reads(p, seq![t], after),
        Ok(None) => if beginner_overflows(buf, 0) {
            Step::Panics
        } else {
            match beginner_item(buf, 0, astlen) {
                Err(f) => Step::Fails(f),
                Ok(Some((t, e, p))) => Step::Reads(p, seq![t], after.push(e)),
                Ok(None) => Step::Panics,
            }
        },
    }
}

/// A step that reads the array that a table needs: its opening token goes
/// to the stream, and `after` with its expectation on top is the new stack.
pub open spec fn array_step(buf: Seq<u8>, astlen: usize, after: Seq<Expecting>) -> Step {
    if beginner_overflows(buf, 0) {
        Step::Panics
    } else {
        match beginner_item(buf, 0, astlen) {
            Err(f) => Step::Fails(f),
            Ok(None) => Step::Fails(Fault::Short),
            Ok(Some((t, e, p))) => if t is Array {
                Step::Reads(p, seq![t], after.push(e))
            } else {
                Step::Panics
            },
        }
    }
}

/// One step of the reader with the stack `stack`, on the input `buf`, when
/// the stream holds `astlen` tokens.
pub open spec fn read_step(stack: Seq<Expecting>, buf: Seq<u8>, astlen: usize) -> Step {
    if stack.len() == 0 {
        Step::Reads(0, seq![], stack)
    } else {
        let rest = stack.drop_last();
        match stack.last() {
            Expecting::TimestampValue => match atomic_item(buf, 0) {
                Err(f) => Step::Fails(f),
                Ok(None) => Step::Fails(Fault::Short),
                Ok(Some((t, p))) => if t is Int {
                    Step::Reads(p, seq![t], rest)
                } else {
                    Step::Panics
                },
            },
            Expecting::Array(i, Some(n)) => if n == 0 {
                Step::Reads(0, seq![Piece::End], rest)
            } else {
                item_step(buf, astlen, rest.push(Expecting::Array(i, Some((n - 1) as u64))))
            },
            Expecting::Array(_, None) => match kind_at(buf, 0) {
                Err(f) => Step::Fails(f),
                Ok(k) => if k == Kind::Break {
                    Step::Reads(1, seq![Piece::End], rest)
                } else {
                    item_step(buf, astlen, stack)
                },
            },
            Expecting::TableHeader => array_step(
                buf,
                astlen,
                rest.push(Expecting::TableRows),
            ),
            Expecting::TableRows => array_step(buf, astlen, rest),
            Expecting::TableRow(_) => array_step(buf, astlen, rest),
            Expecting::String(_, None) => if buf.len() == 0 {
                Step::Fails(Fault::Short)
            } else if buf[0] == 0xff {
                Step::Reads(1, seq![Piece::End], rest)
            } else {
                match text_item(buf, 0) {
                    Ok((t, p)) => Step::Reads(p, seq![Piece::TextPart(t)], stack),
                    Err(f) => Step::Fails(f),
                }
            },
            Expecting::String(_, Some(n)) => {
                let m = (n as usize) as int;
                if m > buf.len() {
                    Step::Fails(Fault::Short)
                } else {
                    match utf8_decode(buf.take(m)) {
                        Some(t) => Step::Reads(m, seq![Piece::TextPart(t), Piece::End], rest),
                        None => Step::Panics,
                    }
                }
            },
            Expecting::Bytes(_, None) => if buf.len() == 0 {
                Step::Fails(Fault::Short)
            } else if buf[0] == 0xff {
                Step::Reads(1, seq![Piece::End], rest)
            } else {
                match chunk_item(buf, 0, 2) {
                    Ok((b, p)) => Step::Reads(p, seq![Piece::BytesPart(b)], stack),
                    Err(f) => Step::Fails(f),
                }
            },
            Expecting::Bytes(_, Some(n)) => {
                let m = (n as usize) as int;
                if m > buf.len() {
                    Step::Fails(Fault::Short)
                } else {
                    Step::Reads(m, seq![Piece::BytesPart(buf.take(m)), Piece::End], rest)
                }
            },
            Expecting::Dict(_, _) => Step::Panics,
            Expecting::Something => item_step(buf, astlen, rest),
        }
    }
}

/// The stream `a1` is `a0` with tokens added that `pushed` models.
pub open spec fn extends(a0: Seq<Token>, a1: Seq<Token>, pushed: Seq<Piece>) -> bool {
    &&& a1.len() == a0.len() + pushed.len()
    &&& a1.take(a0.len() as int) == a0
    &&& forall|i: int| 0 <= i < pushed.len() ==> piece_of(#[trigger] a1[a0.len() + i]) == pushed[i]
}

/// The change from stack `s0` and stream `a0` to `s1` and `a1`, with
/// result `r`, is the one that `step` describes.
pub open spec fn done_as(
    step: Step,
    s0: Seq<Expecting>,
    s1: Seq<Expecting>,
    a0: Seq<Token>,
    a1: Seq<Token>,
    r: Result<usize, ReadError>,
) -> bool {
    match step {
        Step::Panics => false,
        Step::Fails(f) => r is Err && fault_of(r->Err_0) == f && s1 == s0 && a1 == a0,
        Step::Reads(n, pushed, s) => r is Ok && r->Ok_0 == n && s1 == s && extends(a0, a1, pushed),
    }
}

/// A step from stack `s0` and stream `a0` to `s1` and `a1`, with result
/// `r`, is the one that [`read_step`] describes.
pub open spec fn stepped(
    s0: Seq<Expecting>,
    s1: Seq<Expecting>,
    buf: Seq<u8>,
    a0: Seq<Token>,
    a1: Seq<Token>,
    r: Result<usize, ReadError>,
) -> bool {
    done_as(read_step(s0, buf, a0.len() as usize), s0, s1, a0, a1, r)
}

/// The stack with its top replaced by `rep`, or removed.
pub open spec fn replaced_top(stack: Seq<Expecting>, rep: Option<Expecting>) -> Seq<Expecting> {
    match rep {
        Some(e) => stack.drop_last().push(e),
        None => stack.drop_last(),
    }
}

/// The agreement of a decoded scalar with its model.
pub open spec fn agrees_atomic(
    r: Result<Option<(Token, usize)>, ReadError>,
    s: Result<Option<(Piece, int)>, Fault>,
) -> bool {
    match (r, s) {
        (Ok(None), Ok(None)) => true,
        (Ok(Some((t, p))), Ok(Some((q, pp)))) => piece_of(t) == q && p as int == pp,
        (Err(e), Err(f)) => fault_of(e) == f,
        _ => false,
    }
}

/// The agreement of a decoded opening of a compound value with its model.
pub open spec fn agrees_beginner(
    r: Result<Option<(Token, Expecting, usize)>, ReadError>,
    s: Result<Option<(Piece, Expecting, int)>, Fault>,
) -> bool {
    match (r, s) {
        (Ok(None), Ok(None)) => true,
        (Ok(Some((t, e, p))), Ok(Some((q, f, pp)))) => piece_of(t) == q && e == f && p as int == pp,
        (Err(e), Err(f)) => fault_of(e) == f,
        _ => false,
    }
}

/// Decodes the scalar at `pos`, if the item there is one.
fn decode_atomic(buf: &[u8], pos: usize) -> (r: Result<Option<(Token, usize)>, ReadError>)
    ensures
        agrees_atomic(r, atomic_item(buf@, pos as int)),
{
    let k = match item_kind(buf, pos) {
        Ok(k) => k,
        Err(e) => return Err(e),
    };
    match k {
        Kind::Int => match cbor_int(buf, pos) {
            Ok((v, p)) => Ok(Some((Token::Int(v), p))),
            Err(e) => Err(e),
        },
        Kind::Float => match read_float(buf, pos) {
            Ok((v, p)) => Ok(Some((Token::Float(v), p))),
            Err(e) => Err(e),
        },
        Kind::Bool => match cbor_bool(buf, pos) {
            Ok((b, p)) => Ok(Some((Token::Bool(b), p))),
            Err(e) => Err(e),
        },
        Kind::Null => match cbor_null(buf, pos) {
            Ok(p) => Ok(Some((Token::Null, p))),
            Err(e) => Err(e),
        },
        Kind::Undefined => match cbor_undefined(buf, pos) {
            Ok(p) => Ok(Some((Token::Undefined, p))),
            Err(e) => Err(e),
        },
        Kind::Simple => match cbor_simple(buf, pos) {
            Ok((v, p)) => Ok(Some((Token::Simple(v), p))),
            Err(e) => Err(e),
        },
        _ => Ok(None),
    }
}

/// Whether the item at `pos` is a map with more pairs than a count of its
/// items can hold.
fn map_overflows(buf: &[u8], pos: usize) -> (b: bool)
    ensures
        b == beginner_overflows(buf@, pos as int),
{
    match item_kind(buf, pos) {
        Ok(Kind::Dict) => match cbor_map(buf, pos) {
            Ok((Some(n), _)) => n > u64::MAX / 2,
            _ => false,
        },
        _ => false,
    }
}

/// Decodes the opening of the compound value at `pos`, if the item there
/// opens one; `astlen` is where its token goes in the stream.
fn decode_beginner(buf: &[u8], pos: usize, astlen: usize) -> (r: Result<
    Option<(Token, Expecting, usize)>,
    ReadError,
>)
    requires
        !beginner_overflows(buf@, pos as int),
    ensures
        agrees_beginner(r, beginner_item(buf@, pos as int, astlen)),
{
    let k = match item_kind(buf, pos) {
        Ok(k) => k,
        Err(e) => return Err(e),
    };
    match k {
        Kind::Bytes => match read_length(buf, pos) {
            Ok((n, p)) => Ok(Some((Token::Bytes, Expecting::Bytes(astlen, n), p))),
            Err(e) => Err(e),
        },
        Kind::Text => match read_length(buf, pos) {
            Ok((n, p)) => Ok(Some((Token::Text, Expecting::String(astlen, n), p))),
            Err(e) => Err(e),
        },
        Kind::Array => match cbor_array(buf, pos) {
            Ok((n, p)) => Ok(Some((Token::Array(n), Expecting::Array(astlen, n), p))),
            Err(e) => Err(e),
        },
        Kind::Dict => match cbor_map(buf, pos) {
            Ok((n, p)) => {
                let d = match n {
                    Some(k) => Some(k * 2),
                    None => None,
                };
                Ok(Some((Token::Dict(d), Expecting::Dict(astlen, d), p)))
            },
            Err(e) => Err(e),
        },
        Kind::Tag => match cbor_tag(buf, pos) {
            Ok((t, p)) => {
                if t == PATH_TAG {
                    match read_length(buf, p) {
                        Ok((n, q)) => Ok(Some((Token::Path, Expecting::Bytes(astlen, n), q))),
                        Err(e) => Err(e),
                    }
                } else if t == TABLE_TAG {
                    Ok(Some((Token::Table, Expecting::TableHeader, p)))
                } else if t == TIMESTAMP_TAG {
                    Ok(Some((Token::Timestamp, Expecting::TimestampValue, p)))
                } else {
                    Ok(Some((Token::Tag(t), Expecting::Something, p)))
                }
            },
            Err(e) => Err(e),
        },
        _ => Ok(None),
    }
}

/// The first `m` bytes of `buf`.
fn leading_bytes(buf: &[u8], m: usize) -> (r: Vec<u8>)
    requires
        m <= buf@.len(),
    ensures
        r@ == buf@.take(m as int),
{
    let mut v: Vec<u8> = Vec::new();
    let mut i: usize = 0;
    while i < m
        invariant
            m <= buf@.len(),
            i <= m,
            v@ == buf@.take(i as int),
        decreases m - i,
    {
        v.push(buf[i]);
        proof {
            assert(buf@.take(i + 1) =~= buf@.take(i as int).push(buf@[i as int]));
        }
        i += 1;
    }
    v
}

/// Adding one token extends the stream by it.
proof fn lemma_push_extends(a0: Seq<Token>, t: Token)
    ensures
        extends(a0, a0.push(t), seq![piece_of(t)]),
{
    assert(a0.push(t).take(a0.len() as int) =~= a0);
}

/// Adding two tokens extends the stream by them.
proof fn lemma_push_two_extends(a0: Seq<Token>, t: Token, u: Token)
    ensures
        extends(a0, a0.push(t).push(u), seq![piece_of(t), piece_of(u)]),
{
    assert(a0.push(t).push(u).take(a0.len() as int) =~= a0);
    assert forall|i: int| 0 <= i < 2 implies piece_of(#[trigger] a0.push(t).push(u)[a0.len() + i])
        == seq![piece_of(t), piece_of(u)][i] by {
        if i == 0 {
        } else {
        }
    }
}

/// Nothing added leaves the stream as it was.
proof fn lemma_nothing_extends(a0: Seq<Token>)
    ensures
        extends(a0, a0, seq![]),
{
    assert(a0.take(a0.len() as int) =~= a0);
}

/// Whether a scalar token is an integer.
fn is_int_token(t: &Token) -> (b: bool)
    ensures
        b == (piece_of(*t) is Int),
{
    match t {
        Token::Int(_) => true,
        _ => false,
    }
}

/// Whether a token opens an array.
fn is_array_token(t: &Token) -> (b: bool)
    ensures
        b == (piece_of(*t) is Array),
{
    match t {
        Token::Array(_) => true,
        _ => false,
    }
}

impl StreamingReader {
    /// Reads the item where any value may come: a scalar goes to `ast`; the
    /// opening of a compound value goes to `ast` and its expectation on top
    /// of the stack; the top of the stack is first replaced by `rep`, or
    /// removed.
    fn read_item(&mut self, buf: &[u8], ast: &mut Vec<Token>, rep: Option<Expecting>) -> (r: Result<
        usize,
        ReadError,
    >)
        requires
            old(self).stack@.len() > 0,
            !(item_step(buf@, old(ast)@.len() as usize, replaced_top(old(self).stack@, rep)) is Panics),
        ensures
            done_as(
                item_step(buf@, old(ast)@.len() as usize, replaced_top(old(self).stack@, rep)),
                old(self).stack@,
                final(self).stack@,
                old(ast)@,
                final(ast)@,
                r,
            ),
    {
        let astlen = ast.len();
        match decode_atomic(buf, 0) {
            Err(e) => return Err(e),
            Ok(Some((t, p))) => {
                proof {
                    lemma_push_extends(ast@, t);
                }
                ast.push(t);
                self.stack.pop();
                match rep {
                    Some(e) => self.stack.push(e),
                    None => {},
                }
                return Ok(p);
            },
            Ok(None) => {},
        }
        if map_overflows(buf, 0) {
            proof {
                assert(false);
            }
            return Err(ReadError::EndOfInput);
        }
        match decode_beginner(buf, 0, astlen) {
            Err(e) => Err(e),
            Ok(Some((t, e, p))) => {
                proof {
                    lemma_push_extends(ast@, t);
                }
                ast.push(t);
                self.stack.pop();
                match rep {
                    Some(x) => self.stack.push(x),
                    None => {},
                }
                self.stack.push(e);
                Ok(p)
            },
            Ok(None) => {
                proof {
                    assert(false);
                }
                Err(ReadError::EndOfInput)
            },
        }
    }

    /// Reads the array that a table needs: its opening goes to `ast`, the
    /// top of the stack is removed, `extra` goes on the stack if given, and
    /// the array's expectation on top of it.
    fn read_table_array(&mut self, buf: &[u8], ast: &mut Vec<Token>, extra: Option<Expecting>) -> (r:
        Result<usize, ReadError>)
        requires
            old(self).stack@.len() > 0,
            !(array_step(
                buf@,
                old(ast)@.len() as usize,
                replaced_top(old(self).stack@, extra),
            ) is Panics),
        ensures
            done_as(
                array_step(buf@, old(ast)@.len() as usize, replaced_top(old(self).stack@, extra)),
                old(self).stack@,
                final(self).stack@,
                old(ast)@,
                final(ast)@,
                r,
            ),
    {
        let astlen = ast.len();
        if map_overflows(buf, 0) {
            proof {
                assert(false);
            }
            return Err(ReadError::EndOfInput);
        }
        match decode_beginner(buf, 0, astlen) {
            Err(e) => Err(e),
            Ok(None) => Err(ReadError::EndOfInput),
            Ok(Some((t, e, p))) => {
                if !is_array_token(&t) {
                    proof {
                        assert(false);
                    }
                    return Err(ReadError::EndOfInput);
                }
                proof {
                    lemma_push_extends(ast@, t);
                }
                ast.push(t);
                self.stack.pop();
                match extra {
                    Some(x) => self.stack.push(x),
                    None => {},
                }
                self.stack.push(e);
                Ok(p)
            },
        }
    }

    /// Reads what the innermost expectation wants from the start of `buf`:
    /// adds its tokens to `ast`, updates the stack of expectations, and
    /// gives how many bytes it read; with nothing expected it reads
    /// nothing. Where the input cannot be read it changes nothing and says
    /// why; [`StreamingReader::try_read_once`] takes any input.
    pub fn read_once(&mut self, buf: &[u8], ast: &mut Vec<Token>) -> (r: Result<usize, ReadError>)
        requires
            !(read_step(old(self).stack@, buf@, old(ast)@.len() as usize) is Panics),
        ensures
            stepped(old(self).stack@, final(self).stack@, buf@, old(ast)@, final(ast)@, r),
    {
        let n = self.stack.len();
        if n == 0 {
            proof {
                lemma_nothing_extends(ast@);
            }
            return Ok(0);
        }
        let top = self.stack[n - 1];
        proof {
            assert(self.stack@.last() == top);
        }
        match top {
            Expecting::TimestampValue => match decode_atomic(buf, 0) {
                Err(e) => Err(e),
                Ok(None) => Err(ReadError::EndOfInput),
                Ok(Some((t, p))) => {
                    if !is_int_token(&t) {
                        proof {
                            assert(false);
                        }
                        return Err(ReadError::EndOfInput);
                    }
                    proof {
                        lemma_push_extends(ast@, t);
                    }
                    ast.push(t);
                    self.stack.pop();
                    Ok(p)
                },
            },
            Expecting::Array(i, Some(k)) => {
                if k == 0 {
                    proof {
                        lemma_push_extends(ast@, Token::End);
                    }
                    ast.push(Token::End);
                    self.stack.pop();
                    Ok(0)
                } else {
                    self.read_item(buf, ast, Some(Expecting::Array(i, Some(k - 1))))
                }
            },
            Expecting::Array(i, None) => match item_kind(buf, 0) {
                Err(e) => Err(e),
                Ok(Kind::Break) => match cbor_skip_break(buf, 0) {
                    Ok(p) => {
                        proof {
                            lemma_push_extends(ast@, Token::End);
                        }
                        ast.push(Token::End);
                        self.stack.pop();
                        Ok(p)
                    },
                    Err(e) => Err(e),
                },
                Ok(_) => {
                    proof {
                        assert(self.stack@.drop_last().push(top) =~= self.stack@);
                    }
                    self.read_item(buf, ast, Some(top))
                },
            },
            Expecting::TableHeader => self.read_table_array(buf, ast, Some(Expecting::TableRows)),
            Expecting::TableRows => self.read_table_array(buf, ast, None),
            Expecting::TableRow(_) => self.read_table_array(buf, ast, None),
            Expecting::String(_, None) => {
                if buf.len() == 0 {
                    return Err(ReadError::EndOfInput);
                }
                if buf[0] == 0xff {
                    proof {
                        lemma_push_extends(ast@, Token::End);
                    }
                    ast.push(Token::End);
                    self.stack.pop();
                    return Ok(1);
                }
                match cbor_str(buf, 0) {
                    Ok((s, p)) => {
                        proof {
                            lemma_push_extends(ast@, Token::TextPart(s));
                        }
                        ast.push(Token::TextPart(s));
                        Ok(p)
                    },
                    Err(e) => Err(e),
                }
            },
            Expecting::String(_, Some(k)) => {
                let m = k as usize;
                if m > buf.len() {
                    return Err(ReadError::EndOfInput);
                }
                let bytes = leading_bytes(buf, m);
                match utf8_string(bytes.as_slice()) {
                    Some(s) => {
                        proof {
                            lemma_push_two_extends(ast@, Token::TextPart(s), Token::End);
                        }
                        ast.push(Token::TextPart(s));
                        ast.push(Token::End);
                        self.stack.pop();
                        Ok(m)
                    },
                    None => {
                        proof {
                            assert(false);
                        }
                        Err(ReadError::EndOfInput)
                    },
                }
            },
            Expecting::Bytes(_, None) => {
                if buf.len() == 0 {
                    return Err(ReadError::EndOfInput);
                }
                if buf[0] == 0xff {
                    proof {
                        lemma_push_extends(ast@, Token::End);
                    }
                    ast.push(Token::End);
                    self.stack.pop();
                    return Ok(1);
                }
                match cbor_bytes(buf, 0) {
                    Ok((b, p)) => {
                        proof {
                            lemma_push_extends(ast@, Token::BytesPart(b));
                        }
                        ast.push(Token::BytesPart(b));
                        Ok(p)
                    },
                    Err(e) => Err(e),
                }
            },
            Expecting::Bytes(_, Some(k)) => {
                let m = k as usize;
                if m > buf.len() {
                    return Err(ReadError::EndOfInput);
                }
                let bytes = leading_bytes(buf, m);
                proof {
                    lemma_push_two_extends(ast@, Token::BytesPart(bytes), Token::End);
                }
                ast.push(Token::BytesPart(bytes));
                ast.push(Token::End);
                self.stack.pop();
                Ok(m)
            },
            Expecting::Dict(_, _) => {
                proof {
                    assert(false);
                }
                Err(ReadError::EndOfInput)
            },
            Expecting::Something => self.read_item(buf, ast, None),
        }
    }
}

/// Whether reading an item where any value may come gives up on `buf`.
fn item_gives_up(buf: &[u8], astlen: usize) -> (b: bool)
    ensures
        b == (item_step(buf@, astlen, seq![]) is Panics),
        forall|after: Seq<Expecting>|
            (#[trigger] item_step(buf@, astlen, after) is Panics) == (item_step(
                buf@,
                astlen,
                seq![],
            ) is Panics),
{
    match decode_atomic(buf, 0) {
        Ok(None) => {
            if map_overflows(buf, 0) {
                true
            } else {
                match decode_beginner(buf, 0, astlen) {
                    Ok(None) => true,
                    _ => false,
                }
            }
        },
        _ => false,
    }
}

/// Whether reading the array that a table needs gives up on `buf`.
fn table_array_gives_up(buf: &[u8], astlen: usize) -> (b: bool)
    ensures
        forall|after: Seq<Expecting>| b == (#[trigger] array_step(buf@, astlen, after) is Panics),
{
    if map_overflows(buf, 0) {
        true
    } else {
        match decode_beginner(buf, 0, astlen) {
            Ok(Some((t, _, _))) => !is_array_token(&t),
            _ => false,
        }
    }
}

impl StreamingReader {
    /// Whether the reader gives up on `buf` when the stream holds `astlen`
    /// tokens: on a map, on a timestamp that is not an integer, on a table
    /// part that is not an array, on a break or an unknown item where a
    /// value should come, and on a string that is not UTF-8.
    pub fn gives_up(&self, buf: &[u8], astlen: usize) -> (b: bool)
        ensures
            b == (read_step(self.stack@, buf@, astlen) is Panics),
    {
        let n = self.stack.len();
        if n == 0 {
            return false;
        }
        let top = self.stack[n - 1];
        proof {
            assert(self.stack@.last() == top);
        }
        match top {
            Expecting::TimestampValue => match decode_atomic(buf, 0) {
                Ok(Some((t, _))) => !is_int_token(&t),
                _ => false,
            },
            Expecting::Array(_, Some(k)) => k != 0 && item_gives_up(buf, astlen),
            Expecting::Array(_, None) => match item_kind(buf, 0) {
                Err(_) => false,
                Ok(Kind::Break) => false,
                Ok(_) => item_gives_up(buf, astlen),
            },
            Expecting::TableHeader => table_array_gives_up(buf, astlen),
            Expecting::TableRows => table_array_gives_up(buf, astlen),
            Expecting::TableRow(_) => table_array_gives_up(buf, astlen),
            Expecting::String(_, Some(k)) => {
                let m = k as usize;
                if m > buf.len() {
                    false
                } else {
                    let bytes = leading_bytes(buf, m);
                    match utf8_string(bytes.as_slice()) {
                        Some(_) => false,
                        None => true,
                    }
                }
            },
            Expecting::String(_, None) => false,
            Expecting::Bytes(_, _) => false,
            Expecting::Dict(_, _) => true,
            Expecting::Something => item_gives_up(buf, astlen),
        }
    }

    /// One step of the reader on any input: `None`, with nothing changed,
    /// where the reader gives up on it; otherwise the step of
    /// [`StreamingReader::read_once`].
    pub fn try_read_once(&mut self, buf: &[u8], ast: &mut Vec<Token>) -> (r: Option<
        Result<usize, ReadError>,
    >)
        ensures
            read_step(old(self).stack@, buf@, old(ast)@.len() as usize) is Panics ==> r is None
                && final(self).stack@ == old(self).stack@ && final(ast)@ == old(ast)@,
            !(read_step(old(self).stack@, buf@, old(ast)@.len() as usize) is Panics) ==> r is Some
                && stepped(old(self).stack@, final(self).stack@, buf@, old(ast)@, final(ast)@, r->Some_0),
    {
        if self.gives_up(buf, ast.len()) {
            None
        } else {
            Some(self.read_once(buf, ast))
        }
    }
}


/// A read that fails changes nothing: the stack of expectations and the
/// stream of tokens stay as they were, so the read can be made again once
/// more input has come.
pub proof fn law_failed_read_changes_nothing(
    s0: Seq<Expecting>,
    s1: Seq<Expecting>,
    buf: Seq<u8>,
    a0: Seq<Token>,
    a1: Seq<Token>,
    r: Result<usize, ReadError>,
)
    requires
        stepped(s0, s1, buf, a0, a1, r),
        r is Err,
    ensures
        s1 == s0,
        a1 == a0,
{
}

/// What a part of an item read from a prefix of the input gives: the same
/// where the prefix holds the part, else a short input.
pub open spec fn cut_short<A>(full: Result<(A, int), Fault>, pre: Result<(A, int), Fault>, m: int) -> bool {
    match full {
        Ok((_, p)) => if p <= m {
            pre == full
        } else {
            pre == Err::<(A, int), Fault>(Fault::Short)
        },
        Err(_) => true,
    }
}

proof fn lemma_argument_prefix(buf: Seq<u8>, pos: int, m: int)
    requires
        0 <= pos < m <= buf.len(),
    ensures
        cut_short(argument(buf, pos), argument(buf.take(m), pos), m),
{
    let t = buf.take(m);
    assert(t[pos] == buf[pos]);
    let i = info(buf[pos]);
    if 24 <= i <= 27 {
        let w = width_of(i);
        if pos + 1 + w <= m {
            assert(t.subrange(pos + 1, pos + 1 + w) =~= buf.subrange(pos + 1, pos + 1 + w));
        }
    }
}

proof fn lemma_count_prefix(buf: Seq<u8>, pos: int, mj: u8, m: int)
    requires
        0 <= pos,
        0 <= m <= buf.len(),
    ensures
        cut_short(count_item(buf, pos, mj), count_item(buf.take(m), pos, mj), m),
{
    if pos < m {
        assert(buf.take(m)[pos] == buf[pos]);
        lemma_argument_prefix(buf, pos, m);
    }
}

proof fn lemma_length_prefix(buf: Seq<u8>, pos: int, m: int)
    requires
        0 <= pos,
        0 <= m <= buf.len(),
    ensures
        cut_short(length_item(buf, pos), length_item(buf.take(m), pos), m),
{
    if pos < m {
        assert(buf.take(m)[pos] == buf[pos]);
        lemma_argument_prefix(buf, pos, m);
    }
}

proof fn lemma_chunk_prefix(buf: Seq<u8>, pos: int, mj: u8, m: int)
    requires
        0 <= pos,
        0 <= m <= buf.len(),
    ensures
        cut_short(chunk_item(buf, pos, mj), chunk_item(buf.take(m), pos, mj), m),
{
    let t = buf.take(m);
    if pos < m {
        assert(t[pos] == buf[pos]);
        lemma_argument_prefix(buf, pos, m);
        if let Ok((n, p)) = argument(buf, pos) {
            if p <= m && p + n <= m {
                assert(t.subrange(p, p + n) =~= buf.subrange(p, p + n));
            }
        }
    }
}

/// The scalar at the start of the input, read from a prefix that does not
/// hold all of it, is short; where no scalar starts the input, none starts
/// the prefix, unless it is too short to tell.
proof fn lemma_atomic_prefix(buf: Seq<u8>, m: int)
    requires
        0 <= m <= buf.len(),
    ensures
        atomic_item(buf, 0) matches Ok(Some((_, p))) && m < p ==> atomic_item(buf.take(m), 0)
            == Err::<Option<(Piece, int)>, Fault>(Fault::Short),
        atomic_item(buf, 0) matches Ok(None) ==> atomic_item(buf.take(m), 0) matches Ok(None)
            || atomic_item(buf.take(m), 0) == Err::<Option<(Piece, int)>, Fault>(Fault::Short),
        atomic_item(buf, 0) matches Ok(None) && kind_at(buf.take(m), 0) is Ok ==> kind_at(
            buf.take(m),
            0,
        ) == kind_at(buf, 0),
{
    let t = buf.take(m);
    if m > 0 {
        assert(t[0] == buf[0]);
        if m > 1 {
            assert(t[1] == buf[1]);
        }
        lemma_argument_prefix(buf, 0, m);
        if buf[0] == 0xfb && 9 <= m {
            assert(t.subrange(1, 9) =~= buf.subrange(1, 9));
        }
        if buf[0] == 0xfa && 5 <= m {
            assert(t.subrange(1, 5) =~= buf.subrange(1, 5));
        }
    }
}

/// The opening of a compound value at the start of the input, read from a
/// prefix that does not hold all its head, is short; and the prefix never
/// shows more pairs than the whole.
proof fn lemma_beginner_prefix(buf: Seq<u8>, astlen: usize, m: int)
    requires
        0 <= m <= buf.len(),
        !beginner_overflows(buf, 0),
    ensures
        !beginner_overflows(buf.take(m), 0),
        beginner_item(buf, 0, astlen) matches Ok(Some((_, _, p))) && m < p ==> beginner_item(
            buf.take(m),
            0,
            astlen,
        ) == Err::<Option<(Piece, Expecting, int)>, Fault>(Fault::Short),
        beginner_item(buf, 0, astlen) is Ok && m < buf.len() && kind_at(buf.take(m), 0) is Ok
            ==> kind_at(buf.take(m), 0) == kind_at(buf, 0),
{
    let t = buf.take(m);
    lemma_count_prefix(buf, 0, 5, m);
    lemma_count_prefix(buf, 0, 4, m);
    lemma_length_prefix(buf, 0, m);
    if m > 0 {
        assert(t[0] == buf[0]);
        if m > 1 {
            assert(t[1] == buf[1]);
        }
        lemma_argument_prefix(buf, 0, m);
        if let Ok((_, p1)) = argument(buf, 0) {
            lemma_length_prefix(buf, p1, m);
        }
    }
}

proof fn lemma_item_step_prefix(buf: Seq<u8>, astlen: usize, after: Seq<Expecting>, m: int)
    requires
        item_step(buf, astlen, after) matches Step::Reads(k, _, _) && 0 <= m < k,
        m <= buf.len(),
    ensures
        item_step(buf.take(m), astlen, after) == Step::Fails(Fault::Short),
{
    lemma_atomic_prefix(buf, m);
    if atomic_item(buf, 0) is Ok && atomic_item(buf, 0)->Ok_0 is None {
        lemma_beginner_prefix(buf, astlen, m);
    }
}

proof fn lemma_array_step_prefix(buf: Seq<u8>, astlen: usize, after: Seq<Expecting>, m: int)
    requires
        array_step(buf, astlen, after) matches Step::Reads(k, _, _) && 0 <= m < k,
        m <= buf.len(),
    ensures
        array_step(buf.take(m), astlen, after) == Step::Fails(Fault::Short),
{
    lemma_beginner_prefix(buf, astlen, m);
}

/// A read needs all the bytes that it reads: on any proper prefix of them
/// the same step fails as a short input, with nothing changed, and can be
/// made again once the rest has come.
pub proof fn law_read_of_a_prefix_is_short(
    stack: Seq<Expecting>,
    buf: Seq<u8>,
    astlen: usize,
    m: int,
)
    requires
        read_step(stack, buf, astlen) matches Step::Reads(k, _, _) && 0 <= m < k,
        m <= buf.len(),
    ensures
        read_step(stack, buf.take(m), astlen) == Step::Fails(Fault::Short),
{
    let t = buf.take(m);
    let rest = stack.drop_last();
    match stack.last() {
        Expecting::TimestampValue => {
            lemma_atomic_prefix(buf, m);
        },
        Expecting::Array(i, Some(n)) => {
            lemma_item_step_prefix(buf, astlen, rest.push(Expecting::Array(i, Some((n - 1) as u64))), m);
        },
        Expecting::Array(_, None) => {
            if m > 0 {
                assert(t[0] == buf[0]);
                if m > 1 {
                    assert(t[1] == buf[1]);
                }
                lemma_item_step_prefix(buf, astlen, stack, m);
            }
        },
        Expecting::TableHeader => {
            lemma_array_step_prefix(buf, astlen, rest.push(Expecting::TableRows), m);
        },
        Expecting::TableRows => {
            lemma_array_step_prefix(buf, astlen, rest, m);
        },
        Expecting::TableRow(_) => {
            lemma_array_step_prefix(buf, astlen, rest, m);
        },
        Expecting::String(_, None) => {
            if m > 0 {
                assert(t[0] == buf[0]);
                lemma_chunk_prefix(buf, 0, 3, m);
            }
        },
        Expecting::Bytes(_, None) => {
            if m > 0 {
                assert(t[0] == buf[0]);
                lemma_chunk_prefix(buf, 0, 2, m);
            }
        },
        Expecting::Something => {
            lemma_item_step_prefix(buf, astlen, rest, m);
        },
        _ => {},
    }
}

} // verus!
