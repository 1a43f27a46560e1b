//! UTF-8, the encoding of text in the wire format: the bytes of each
//! character, which byte sequences are well formed, and the text they
//! spell.
use vstd::prelude::*;

verus! {

/// The UTF-8 bytes of one character.
pub open spec fn utf8_char(c: char) -> Seq<u8> {
    let v = c as u32 as int;
    if v < 0x80 {
        seq![v as u8]
    } else if v < 0x800 {
        seq![(0xc0 + v / 64) as u8, (0x80 + v % 64) as u8]
    } else if v < 0x10000 {
        seq![(0xe0 + v / 4096) as u8, (0x80 + (v / 64) % 64) as u8, (0x80 + v % 64) as u8]
    } else {
        seq![
            (0xf0 + v / 262144) as u8,
            (0x80 + (v / 4096) % 64) as u8,
            (0x80 + (v / 64) % 64) as u8,
            (0x80 + v % 64) as u8,
        ]
    }
}

/// The UTF-8 bytes of a text.
pub open spec fn utf8_encode(t: Seq<char>) -> Seq<u8>
    decreases t.len(),
{
    if t.len() == 0 {
        Seq::empty()
    } else {
        utf8_encode(t.drop_last()) + utf8_char(t.last())
    }
}

/// A byte that continues a character.
pub open spec fn continues(b: u8) -> bool {
    0x80 <= b <= 0xbf
}

/// The character that `b` starts with, and how many bytes it takes, if
/// `b` starts with a well-formed one (Unicode's table of well-formed
/// UTF-8 byte sequences: no overlong form, no surrogate, nothing above
/// U+10FFFF).
pub open spec fn first_char(b: Seq<u8>) -> Option<(char, int)> {
    if b.len() == 0 {
        None
    } else {
        let b0 = b[0];
        if b0 < 0x80 {
            Some((b0 as char, 1))
        } else if 0xc2 <= b0 <= 0xdf {
            if b.len() >= 2 && continues(b[1]) {
                Some((((b0 - 0xc0) * 64 + (b[1] - 0x80)) as char, 2))
            } else {
                None
            }
        } else if 0xe0 <= b0 <= 0xef {
            let lo: u8 = if b0 == 0xe0 { 0xa0 } else { 0x80 };
            let hi: u8 = if b0 == 0xed { 0x9f } else { 0xbf };
            if b.len() >= 3 && lo <= b[1] <= hi && continues(b[2]) {
                Some((((b0 - 0xe0) * 4096 + (b[1] - 0x80) * 64 + (b[2] - 0x80)) as char, 3))
            } else {
                None
            }
        } else if 0xf0 <= b0 <= 0xf4 {
            let lo: u8 = if b0 == 0xf0 { 0x90 } else { 0x80 };
            let hi: u8 = if b0 == 0xf4 { 0x8f } else { 0xbf };
            if b.len() >= 4 && lo <= b[1] <= hi && continues(b[2]) && continues(b[3]) {
                Some(
                    (
                        ((b0 - 0xf0) * 262144 + (b[1] - 0x80) * 4096 + (b[2] - 0x80) * 64 + (b[3]
                            - 0x80)) as char,
                        4,
                    ),
                )
            } else {
                None
            }
        } else {
            None
        }
    }
}

/// The text that the bytes spell in UTF-8, if they are well formed.
pub open spec fn utf8_decode(b: Seq<u8>) -> Option<Seq<char>>
    decreases b.len(),
{
    if b.len() == 0 {
        Some(Seq::empty())
    } else {
        match first_char(b) {
            Some((c, n)) => if 1 <= n <= b.len() {
                match utf8_decode(b.skip(n)) {
                    Some(rest) => Some(seq![c] + rest),
                    None => None,
                }
            } else {
                None
            },
            None => None,
        }
    }
}

/// A number split into digits of six bits.
proof fn lemma_digits(v: int)
    requires
        0 <= v,
    ensures
        0 <= v % 64 < 64,
        0 <= (v / 64) % 64 < 64,
        0 <= (v / 4096) % 64 < 64,
        v == (v / 64) * 64 + v % 64,
        v == (v / 4096) * 4096 + ((v / 64) % 64) * 64 + v % 64,
        v == (v / 262144) * 262144 + ((v / 4096) % 64) * 4096 + ((v / 64) % 64) * 64 + v % 64,
{
    let a = v / 64;
    let b = a / 64;
    let c = b / 64;
    assert(v == a * 64 + v % 64 && 0 <= v % 64 < 64) by (nonlinear_arith)
        requires
            a == v / 64,
            0 <= v,
    ;
    assert(a == b * 64 + a % 64 && 0 <= a % 64 < 64 && a >= 0) by (nonlinear_arith)
        requires
            b == a / 64,
            a == v / 64,
            0 <= v,
    ;
    assert(b == c * 64 + b % 64 && 0 <= b % 64 < 64 && b >= 0) by (nonlinear_arith)
        requires
            c == b / 64,
            b == a / 64,
            a >= 0,
    ;
    assert(b == v / 4096) by (nonlinear_arith)
        requires
            a == v / 64,
            b == a / 64,
            0 <= v,
    ;
    assert(c == v / 262144) by (nonlinear_arith)
        requires
            b == v / 4096,
            c == b / 64,
            0 <= v,
    ;
    assert(v == b * 4096 + (a % 64) * 64 + v % 64) by (nonlinear_arith)
        requires
            v == a * 64 + v % 64,
            a == b * 64 + a % 64,
    ;
    assert(v == c * 262144 + (b % 64) * 4096 + (a % 64) * 64 + v % 64) by (nonlinear_arith)
        requires
            v == b * 4096 + (a % 64) * 64 + v % 64,
            b == c * 64 + b % 64,
    ;
}

/// The bytes of a character, followed by anything, start with that
/// character.
proof fn lemma_first_char(c: char, rest: Seq<u8>)
    ensures
        first_char(utf8_char(c) + rest) == Some((c, utf8_char(c).len() as int)),
        1 <= utf8_char(c).len() <= 4,
{
    let v = c as u32 as int;
    let b = utf8_char(c) + rest;
    assert(0 <= v < 0xd800 || 0xe000 <= v <= 0x10ffff);
    if v < 0x80 {
        assert(b[0] == v as u8);
    } else if v < 0x800 {
        assert(2 <= v / 64 < 32 && 0 <= v % 64 < 64 && (v / 64) * 64 + v % 64 == v) by (nonlinear_arith)
            requires
                0x80 <= v < 0x800,
        ;
        assert(b[0] == (0xc0 + v / 64) as u8 && b[1] == (0x80 + v % 64) as u8);
    } else if v < 0x10000 {
        lemma_digits(v);
        assert(0 <= v / 4096 < 16) by (nonlinear_arith)
            requires
                0x800 <= v < 0x10000,
        ;
        assert(v / 4096 == 0 ==> (v / 64) % 64 >= 32) by (nonlinear_arith)
            requires
                0x800 <= v < 0x10000,
        ;
        assert(v / 4096 == 13 ==> (v / 64) % 64 < 32) by (nonlinear_arith)
            requires
                0x800 <= v < 0x10000,
                v < 0xd800 || 0xe000 <= v,
        ;
        assert(b[0] == (0xe0 + v / 4096) as u8 && b[1] == (0x80 + (v / 64) % 64) as u8 && b[2] == (0x80
            + v % 64) as u8);
    } else {
        lemma_digits(v);
        assert(0 <= v / 262144 <= 4) by (nonlinear_arith)
            requires
                0x10000 <= v <= 0x10ffff,
        ;
        assert(v / 262144 == 0 ==> (v / 4096) % 64 >= 16) by (nonlinear_arith)
            requires
                0x10000 <= v <= 0x10ffff,
        ;
        assert(v / 262144 == 4 ==> (v / 4096) % 64 < 16) by (nonlinear_arith)
            requires
                0x10000 <= v <= 0x10ffff,
        ;
        assert(b[0] == (0xf0 + v / 262144) as u8 && b[1] == (0x80 + (v / 4096) % 64) as u8 && b[2]
            == (0x80 + (v / 64) % 64) as u8 && b[3] == (0x80 + v % 64) as u8);
    }
}

/// The bytes of a text start with the bytes of its first character.
proof fn lemma_encode_front(t: Seq<char>)
    requires
        t.len() > 0,
    ensures
        utf8_encode(t) == utf8_char(t[0]) + utf8_encode(t.drop_first()),
    decreases t.len(),
{
    if t.len() == 1 {
        assert(t.drop_last() =~= Seq::<char>::empty());
        assert(t.drop_first() =~= Seq::<char>::empty());
        assert(utf8_encode(t) =~= utf8_char(t[0]) + utf8_encode(t.drop_first()));
    } else {
        lemma_encode_front(t.drop_last());
        assert(t.drop_last().drop_first() =~= t.drop_first().drop_last());
        assert(t.drop_first().last() == t.last());
        assert(utf8_encode(t) =~= utf8_char(t[0]) + utf8_encode(t.drop_first()));
    }
}

/// The UTF-8 bytes of a text spell the text.
pub proof fn lemma_utf8_decode_encode(t: Seq<char>)
    ensures
        utf8_decode(utf8_encode(t)) == Some(t),
    decreases t.len(),
{
    if t.len() == 0 {
        assert(t =~= Seq::<char>::empty());
    } else {
        lemma_encode_front(t);
        let x = utf8_char(t[0]);
        let r = utf8_encode(t.drop_first());
        lemma_first_char(t[0], r);
        assert((x + r).skip(x.len() as int) =~= r);
        lemma_utf8_decode_encode(t.drop_first());
        assert(seq![t[0]] + t.drop_first() =~= t);
    }
}

} // verus!
