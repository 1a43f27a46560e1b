//! Decimal integers as the tools read them, with the same acceptance and
//! the same kinds of error as std's `str::parse` for integer types.
use vstd::prelude::*;
use crate::unicode::chars_of;

verus! {

/// Why a text is not an integer.
#[derive(Debug, Copy, Clone, PartialEq, Eq, Structural)]
pub enum IntErrorKind {
    /// The text is empty
    Empty,
    /// The text holds a character that is not a digit where a digit must
    /// stand
    InvalidDigit,
    /// The number is too large for the type
    PosOverflow,
    /// The number is too small for the type
    NegOverflow,
}

/// The value of a decimal digit.
pub open spec fn digit_value(c: char) -> int {
    c as int - '0' as int
}

/// A decimal digit.
pub open spec fn is_digit(c: char) -> bool {
    '0' <= c && c <= '9'
}

/// Reads the digits of `d` from position `i` on, with `acc` read so far,
/// allowing at most `bound`: the value, or the first problem met from left
/// to right.
pub open spec fn scan_digits(d: Seq<char>, i: int, acc: int, bound: int, overflow: IntErrorKind) -> Result<
    int,
    IntErrorKind,
>
    decreases d.len() - i,
{
    if i >= d.len() || i < 0 {
        Ok(acc)
    } else if !is_digit(d[i]) {
        Err(IntErrorKind::InvalidDigit)
    } else if acc * 10 + digit_value(d[i]) > bound {
        Err(overflow)
    } else {
        scan_digits(d, i + 1, acc * 10 + digit_value(d[i]), bound, overflow)
    }
}

/// The integer that a text stands for, for an integer type from `min` to
/// `max` (with `min <= 0 < max`): an optional sign (`-` only where `min`
/// is negative) and decimal digits, nothing else.
pub open spec fn parsed_int(s: Seq<char>, min: int, max: int) -> Result<int, IntErrorKind> {
    if s.len() == 0 {
        Err(IntErrorKind::Empty)
    } else if s.len() == 1 && (s[0] == '+' || s[0] == '-') {
        Err(IntErrorKind::InvalidDigit)
    } else if s[0] == '+' {
        scan_digits(s, 1, 0, max, IntErrorKind::PosOverflow)
    } else if s[0] == '-' && min < 0 {
        match scan_digits(s, 1, 0, -min, IntErrorKind::NegOverflow) {
            Ok(v) => Ok(-v),
            Err(e) => Err(e),
        }
    } else {
        scan_digits(s, 0, 0, max, IntErrorKind::PosOverflow)
    }
}

proof fn lemma_scan_bounds(d: Seq<char>, i: int, acc: int, bound: int, overflow: IntErrorKind)
    requires
        0 <= acc <= bound,
    ensures
        scan_digits(d, i, acc, bound, overflow) matches Ok(v) ==> 0 <= v <= bound,
    decreases d.len() - i,
{
    if 0 <= i < d.len() && is_digit(d[i]) && acc * 10 + digit_value(d[i]) <= bound {
        lemma_scan_bounds(d, i + 1, acc * 10 + digit_value(d[i]), bound, overflow);
    }
}

/// Reads decimal digits from `start`, allowing at most `bound`.
fn scan(cs: &[char], start: usize, bound: u64, overflow: IntErrorKind) -> (r: Result<
    u64,
    IntErrorKind,
>)
    requires
        start <= cs.len(),
    ensures
        match scan_digits(cs@, start as int, 0, bound as int, overflow) {
            Ok(v) => r matches Ok(x) && x == v,
            Err(e) => r == Err::<u64, IntErrorKind>(e),
        },
{
    let mut acc: u64 = 0;
    let mut i: usize = start;
    while i < cs.len()
        invariant
            start <= i <= cs.len(),
            acc <= bound,
            scan_digits(cs@, start as int, 0, bound as int, overflow) == scan_digits(
                cs@,
                i as int,
                acc as int,
                bound as int,
                overflow,
            ),
        decreases cs.len() - i,
    {
        let c = cs[i];
        if !('0' <= c && c <= '9') {
            return Err(IntErrorKind::InvalidDigit);
        }
        let dv = (c as u32 - '0' as u32) as u64;
        assert(dv == digit_value(c));
        if dv > bound {
            return Err(overflow);
        }
        if acc > (bound - dv) / 10 {
            assert(acc * 10 + dv > bound) by (nonlinear_arith)
                requires
                    acc > (bound - dv) / 10,
                    dv <= bound,
            ;
            return Err(overflow);
        }
        assert(acc * 10 + dv <= bound) by (nonlinear_arith)
            requires
                acc <= (bound - dv) / 10,
                dv <= bound,
        ;
        acc = acc * 10 + dv;
        i += 1;
    }
    Ok(acc)
}

/// Parses an integer from `min` to `max`, given as the magnitude of `min`
/// and `max`: the sign and the magnitude of the value.
fn parse_int(s: &str, min_mag: u64, max: u64) -> (r: Result<(bool, u64), IntErrorKind>)
    requires
        max > 0,
    ensures
        match parsed_int(s@, -(min_mag as int), max as int) {
            Ok(v) => r matches Ok((neg, m)) && (if neg {
                -(m as int)
            } else {
                m as int
            }) == v && (neg ==> m > 0),
            Err(e) => r == Err::<(bool, u64), IntErrorKind>(e),
        },
{
    let cs = chars_of(s);
    proof {
        lemma_scan_bounds(s@, 0, 0, max as int, IntErrorKind::PosOverflow);
        lemma_scan_bounds(s@, 1, 0, max as int, IntErrorKind::PosOverflow);
        lemma_scan_bounds(s@, 1, 0, min_mag as int, IntErrorKind::NegOverflow);
    }
    if cs.len() == 0 {
        return Err(IntErrorKind::Empty);
    }
    if cs.len() == 1 && (cs[0] == '+' || cs[0] == '-') {
        return Err(IntErrorKind::InvalidDigit);
    }
    if cs[0] == '+' {
        match scan(cs.as_slice(), 1, max, IntErrorKind::PosOverflow) {
            Ok(m) => Ok((false, m)),
            Err(e) => Err(e),
        }
    } else if cs[0] == '-' && min_mag > 0 {
        match scan(cs.as_slice(), 1, min_mag, IntErrorKind::NegOverflow) {
            Ok(m) => Ok((m > 0, m)),
            Err(e) => Err(e),
        }
    } else {
        match scan(cs.as_slice(), 0, max, IntErrorKind::PosOverflow) {
            Ok(m) => Ok((false, m)),
            Err(e) => Err(e),
        }
    }
}

/// Parses a `u64`, as `str::parse::<u64>` does.
pub fn parse_u64(s: &str) -> (r: Result<u64, IntErrorKind>)
    ensures
        match parsed_int(s@, 0, u64::MAX as int) {
            Ok(v) => r matches Ok(x) && x == v,
            Err(e) => r == Err::<u64, IntErrorKind>(e),
        },
{
    proof {
        lemma_scan_bounds(s@, 0, 0, u64::MAX as int, IntErrorKind::PosOverflow);
        lemma_scan_bounds(s@, 1, 0, u64::MAX as int, IntErrorKind::PosOverflow);
    }
    match parse_int(s, 0, u64::MAX) {
        Ok((_, m)) => Ok(m),
        Err(e) => Err(e),
    }
}

/// Parses a `usize`, as `str::parse::<usize>` does.
pub fn parse_usize(s: &str) -> (r: Result<usize, IntErrorKind>)
    ensures
        match parsed_int(s@, 0, usize::MAX as int) {
            Ok(v) => r matches Ok(x) && x == v,
            Err(e) => r == Err::<usize, IntErrorKind>(e),
        },
{
    let max = usize::MAX as u64;
    proof {
        lemma_scan_bounds(s@, 0, 0, max as int, IntErrorKind::PosOverflow);
        lemma_scan_bounds(s@, 1, 0, max as int, IntErrorKind::PosOverflow);
    }
    match parse_int(s, 0, max) {
        Ok((_, m)) => Ok(m as usize),
        Err(e) => Err(e),
    }
}

/// Parses an `i32`, as `str::parse::<i32>` does.
pub fn parse_i32(s: &str) -> (r: Result<i32, IntErrorKind>)
    ensures
        match parsed_int(s@, i32::MIN as int, i32::MAX as int) {
            Ok(v) => r matches Ok(x) && x == v,
            Err(e) => r == Err::<i32, IntErrorKind>(e),
        },
{
    proof {
        lemma_scan_bounds(s@, 0, 0, i32::MAX as int, IntErrorKind::PosOverflow);
        lemma_scan_bounds(s@, 1, 0, i32::MAX as int, IntErrorKind::PosOverflow);
        lemma_scan_bounds(s@, 1, 0, 0x8000_0000, IntErrorKind::NegOverflow);
    }
    match parse_int(s, 0x8000_0000, 0x7fff_ffff) {
        Ok((neg, m)) => {
            if neg {
                if m == 0x8000_0000 {
                    Ok(i32::MIN)
                } else {
                    Ok(-(m as i32))
                }
            } else {
                Ok(m as i32)
            }
        },
        Err(e) => Err(e),
    }
}

} // verus!
