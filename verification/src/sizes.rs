//! Disk usage and free space as the tools report them: sizes with unit
//! suffixes, the threshold and depth rules of the usage walk, scaled sizes
//! and percentages, and the table of mounted file systems.
use vstd::prelude::*;
use std::collections::HashSet;
use crate::numbers::{parse_u64, parsed_int, IntErrorKind};
use crate::pieces::{first_sep, lemma_first_sep_range, split_on, split_pieces};
use crate::unicode::{char_is_whitespace, chars_of, is_white_space, string_of};

verus! {

/// The decimal digits of a natural number.
pub open spec fn decimal_of(n: nat) -> Seq<char>
    decreases n,
{
    if n < 10 {
        seq![digit_char(n)]
    } else {
        decimal_of(n / 10).push(digit_char(n % 10))
    }
}

/// The digit for a number below ten.
pub open spec fn digit_char(d: nat) -> char {
    ('0' as u32 + d) as char
}

/// Writes a number in decimal.
pub fn decimal_string(n: u128) -> (s: String)
    ensures
        s@ == decimal_of(n as nat),
{
    let mut digits: Vec<char> = Vec::new();
    let mut m: u128 = n;
    loop
        invariant
            decimal_of(n as nat) == decimal_of(m as nat) + digits@,
        decreases m,
    {
        let d = (m % 10) as u32;
        let c = char_from_digit(d);
        if m < 10 {
            proof {
                assert(decimal_of(m as nat) == seq![c]);
            }
            let mut out: Vec<char> = Vec::new();
            out.push(c);
            let mut i: usize = 0;
            while i < digits.len()
                invariant
                    0 <= i <= digits.len(),
                    out@ == seq![c] + digits@.take(i as int),
                decreases digits.len() - i,
            {
                out.push(digits[i]);
                proof {
                    assert(digits@.take(i + 1) =~= digits@.take(i as int).push(digits@[i as int]));
                }
                i += 1;
            }
            proof {
                assert(digits@.take(i as int) =~= digits@);
            }
            return string_of(out.as_slice());
        }
        proof {
            assert(decimal_of(m as nat) == decimal_of((m / 10) as nat).push(c));
            assert(decimal_of((m / 10) as nat).push(c) + digits@ =~= decimal_of((m / 10) as nat) + (
            seq![c] + digits@));
        }
        let mut nd: Vec<char> = Vec::new();
        nd.push(c);
        let mut i: usize = 0;
        while i < digits.len()
            invariant
                0 <= i <= digits.len(),
                nd@ == seq![c] + digits@.take(i as int),
            decreases digits.len() - i,
        {
            nd.push(digits[i]);
            proof {
                assert(digits@.take(i + 1) =~= digits@.take(i as int).push(digits@[i as int]));
            }
            i += 1;
        }
        proof {
            assert(digits@.take(i as int) =~= digits@);
        }
        digits = nd;
        m = m / 10;
    }
}

fn char_from_digit(d: u32) -> (c: char)
    requires
        d < 10,
    ensures
        c == digit_char(d as nat),
{
    if d == 0 {
        '0'
    } else if d == 1 {
        '1'
    } else if d == 2 {
        '2'
    } else if d == 3 {
        '3'
    } else if d == 4 {
        '4'
    } else if d == 5 {
        '5'
    } else if d == 6 {
        '6'
    } else if d == 7 {
        '7'
    } else if d == 8 {
        '8'
    } else {
        '9'
    }
}

/// Where the text starts once leading white space is skipped.
pub open spec fn trim_start(s: Seq<char>, i: int) -> int
    decreases s.len() - i,
{
    if 0 <= i < s.len() && is_white_space(s[i]) {
        trim_start(s, i + 1)
    } else {
        i
    }
}

/// Where the text ends once trailing white space is dropped.
pub open spec fn trim_end(s: Seq<char>, j: int) -> int
    decreases j,
{
    if 0 < j <= s.len() && is_white_space(s[j - 1]) {
        trim_end(s, j - 1)
    } else {
        j
    }
}

/// The text without white space at either end, as `str::trim` gives it.
pub open spec fn trimmed(s: Seq<char>) -> Seq<char> {
    let a = trim_start(s, 0);
    if a >= s.len() {
        Seq::empty()
    } else {
        s.subrange(a, trim_end(s, s.len() as int))
    }
}

proof fn lemma_trim_bounds(s: Seq<char>)
    ensures
        0 <= trim_start(s, 0) <= s.len(),
        trim_start(s, 0) < s.len() ==> trim_start(s, 0) < trim_end(s, s.len() as int) <= s.len(),
{
    lemma_trim_start(s, 0);
    lemma_trim_end(s, s.len() as int);
    if trim_start(s, 0) < s.len() {
        lemma_trim_order(s, s.len() as int);
    }
}

proof fn lemma_trim_start(s: Seq<char>, i: int)
    requires
        0 <= i <= s.len(),
    ensures
        i <= trim_start(s, i) <= s.len(),
        trim_start(s, i) < s.len() ==> !is_white_space(s[trim_start(s, i)]),
        forall|k: int| i <= k < trim_start(s, i) ==> is_white_space(#[trigger] s[k]),
    decreases s.len() - i,
{
    if i < s.len() && is_white_space(s[i]) {
        lemma_trim_start(s, i + 1);
    }
}

proof fn lemma_trim_end(s: Seq<char>, j: int)
    requires
        0 <= j <= s.len(),
    ensures
        0 <= trim_end(s, j) <= j,
        trim_end(s, j) > 0 ==> !is_white_space(s[trim_end(s, j) - 1]),
        forall|k: int| trim_end(s, j) <= k < j ==> is_white_space(#[trigger] s[k]),
    decreases j,
{
    if j > 0 && is_white_space(s[j - 1]) {
        lemma_trim_end(s, j - 1);
    }
}

proof fn lemma_trim_order(s: Seq<char>, j: int)
    requires
        0 <= j <= s.len(),
        trim_start(s, 0) < s.len(),
        trim_start(s, 0) < j,
    ensures
        trim_start(s, 0) < trim_end(s, j),
    decreases j,
{
    lemma_trim_start(s, 0);
    if is_white_space(s[j - 1]) {
        if j - 1 == trim_start(s, 0) {
        } else {
            lemma_trim_order(s, j - 1);
        }
    }
}

/// Drops white space from both ends of a text.
pub fn trim(s: &[char]) -> (r: Vec<char>)
    ensures
        r@ == trimmed(s@),
{
    let mut a: usize = 0;
    while a < s.len() && char_is_whitespace(s[a])
        invariant
            0 <= a <= s.len(),
            trim_start(s@, 0) == trim_start(s@, a as int),
        decreases s.len() - a,
    {
        a += 1;
    }
    proof {
        lemma_trim_bounds(s@);
    }
    if a >= s.len() {
        return Vec::new();
    }
    let mut b: usize = s.len();
    while b > 0 && char_is_whitespace(s[b - 1])
        invariant
            0 <= b <= s.len(),
            trim_end(s@, s@.len() as int) == trim_end(s@, b as int),
        decreases b,
    {
        b -= 1;
    }
    let mut out: Vec<char> = Vec::new();
    let mut i: usize = a;
    while i < b
        invariant
            a <= i <= b,
            b <= s.len(),
            out@ == s@.subrange(a as int, i as int),
        decreases b - i,
    {
        out.push(s[i]);
        proof {
            assert(s@.subrange(a as int, i + 1) =~= s@.subrange(a as int, i as int).push(
                s@[i as int],
            ));
        }
        i += 1;
    }
    out
}

/// Why a size is not valid.
#[derive(Debug, Copy, Clone, PartialEq, Eq, Structural)]
pub enum SizeError {
    /// The size ends in a letter that is not a unit
    InvalidSuffix(char),
    /// The number part is not a number
    Number(IntErrorKind),
}

/// An ASCII letter.
pub open spec fn is_ascii_letter(c: char) -> bool {
    ('a' <= c && c <= 'z') || ('A' <= c && c <= 'Z')
}

/// The factor of a unit letter, either case: `B` for bytes, then `K`, `M`,
/// `G`, `T` and `P` for powers of 1024.
pub open spec fn unit_factor(c: char) -> Option<int> {
    if c == 'B' || c == 'b' {
        Some(1)
    } else if c == 'K' || c == 'k' {
        Some(1024)
    } else if c == 'M' || c == 'm' {
        Some(0x10_0000)
    } else if c == 'G' || c == 'g' {
        Some(0x4000_0000)
    } else if c == 'T' || c == 't' {
        Some(0x100_0000_0000)
    } else if c == 'P' || c == 'p' {
        Some(0x4_0000_0000_0000)
    } else {
        None
    }
}

/// The number of bytes that a size such as ` 4K ` stands for: a decimal
/// number, then an optional unit letter, with white space around.
pub open spec fn parsed_size(s: Seq<char>) -> Result<int, SizeError> {
    let t = trimmed(s);
    if t.len() > 0 && is_ascii_letter(t.last()) {
        match unit_factor(t.last()) {
            None => Err(SizeError::InvalidSuffix(t.last())),
            Some(f) => match parsed_int(t.drop_last(), 0, u64::MAX as int) {
                Ok(v) => Ok(v * f),
                Err(e) => Err(SizeError::Number(e)),
            },
        }
    } else {
        match parsed_int(t, 0, u64::MAX as int) {
            Ok(v) => Ok(v),
            Err(e) => Err(SizeError::Number(e)),
        }
    }
}

fn unit_of(c: char) -> (r: Option<u64>)
    ensures
        match unit_factor(c) {
            Some(f) => r == Some(f as u64),
            None => r is None,
        },
{
    if c == 'B' || c == 'b' {
        Some(1)
    } else if c == 'K' || c == 'k' {
        Some(1024)
    } else if c == 'M' || c == 'm' {
        Some(0x10_0000)
    } else if c == 'G' || c == 'g' {
        Some(0x4000_0000)
    } else if c == 'T' || c == 't' {
        Some(0x100_0000_0000)
    } else if c == 'P' || c == 'p' {
        Some(0x4_0000_0000_0000)
    } else {
        None
    }
}

/// Reads a size with an optional unit suffix.
pub fn parse_size(s: &str) -> (r: Result<u64, SizeError>)
    requires
        parsed_size(s@) matches Ok(v) ==> v <= u64::MAX,
    ensures
        match parsed_size(s@) {
            Ok(v) => r matches Ok(x) && x == v,
            Err(e) => r == Err::<u64, SizeError>(e),
        },
{
    let t = trim(chars_of(s).as_slice());
    if t.len() > 0 {
        let c = t[t.len() - 1];
        if ('a' <= c && c <= 'z') || ('A' <= c && c <= 'Z') {
            let f = match unit_of(c) {
                Some(f) => f,
                None => {
                    return Err(SizeError::InvalidSuffix(c));
                },
            };
            let mut num: Vec<char> = Vec::new();
            let mut i: usize = 0;
            while i + 1 < t.len()
                invariant
                    0 <= i <= t.len() - 1,
                    num@ == t@.take(i as int),
                decreases t.len() - i,
            {
                num.push(t[i]);
                proof {
                    assert(t@.take(i + 1) =~= t@.take(i as int).push(t@[i as int]));
                }
                i += 1;
            }
            proof {
                assert(num@ =~= t@.drop_last());
            }
            return match parse_u64(string_of(num.as_slice()).as_str()) {
                Ok(v) => {
                    assert(v * f <= u64::MAX);
                    Ok(v * f)
                },
                Err(e) => Err(SizeError::Number(e)),
            };
        }
    }
    match parse_u64(string_of(t.as_slice()).as_str()) {
        Ok(v) => Ok(v),
        Err(e) => Err(SizeError::Number(e)),
    }
}

/// The number of bytes that a size stands for, without a limit on it.
fn size_wide(s: &str) -> (r: Result<u128, SizeError>)
    ensures
        match parsed_size(s@) {
            Ok(v) => r matches Ok(x) && x == v,
            Err(e) => r == Err::<u128, SizeError>(e),
        },
{
    let t = trim(chars_of(s).as_slice());
    if t.len() > 0 {
        let c = t[t.len() - 1];
        if ('a' <= c && c <= 'z') || ('A' <= c && c <= 'Z') {
            let f = match unit_of(c) {
                Some(f) => f,
                None => {
                    return Err(SizeError::InvalidSuffix(c));
                },
            };
            let mut num: Vec<char> = Vec::new();
            let mut i: usize = 0;
            while i + 1 < t.len()
                invariant
                    0 <= i <= t.len() - 1,
                    num@ == t@.take(i as int),
                decreases t.len() - i,
            {
                num.push(t[i]);
                proof {
                    assert(t@.take(i + 1) =~= t@.take(i as int).push(t@[i as int]));
                }
                i += 1;
            }
            proof {
                assert(num@ =~= t@.drop_last());
            }
            return match parse_u64(string_of(num.as_slice()).as_str()) {
                Ok(v) => {
                    assert(v as u128 * f as u128 <= 0xffff_ffff_ffff_ffff * 0x4_0000_0000_0000) by (nonlinear_arith)
                        requires
                            v <= 0xffff_ffff_ffff_ffff,
                            f <= 0x4_0000_0000_0000,
                    ;
                    Ok(v as u128 * f as u128)
                },
                Err(e) => Err(SizeError::Number(e)),
            };
        }
    }
    match parse_u64(string_of(t.as_slice()).as_str()) {
        Ok(v) => Ok(v as u128),
        Err(e) => Err(SizeError::Number(e)),
    }
}

/// Reads a size on any text: `None` where its number of bytes is more than
/// a `u64` holds (reading it would overflow), else what [`parse_size`]
/// gives.
pub fn try_parse_size(s: &str) -> (r: Option<Result<u64, SizeError>>)
    ensures
        r is None <==> (parsed_size(s@) matches Ok(v) && v > u64::MAX),
        r matches Some(x) ==> match parsed_size(s@) {
            Ok(v) => x matches Ok(y) && y == v,
            Err(e) => x == Err::<u64, SizeError>(e),
        },
{
    match size_wide(s) {
        Ok(v) => {
            if v > u64::MAX as u128 {
                return None;
            }
        },
        Err(_) => {},
    }
    Some(parse_size(s))
}

/// Reads a threshold on any text: `None` where reading it would overflow
/// (a size beyond a `u64`, or the negation of `-9223372036854775808`),
/// else what [`parse_threshold`] gives.
pub fn try_parse_threshold(s: &str) -> (r: Option<Result<i64, SizeError>>)
    ensures
        r is None <==> ((parsed_size(s@) matches Ok(v) && v > u64::MAX) || (s@.len() > 0 && s@[0]
            == '-' && (parsed_size(s@.drop_first()) matches Ok(v) && (v > u64::MAX || v
            == 0x8000_0000_0000_0000)))),
        r matches Some(x) ==> match parsed_threshold(s@) {
            Ok(v) => x matches Ok(y) && y == v,
            Err(e) => x == Err::<i64, SizeError>(e),
        },
{
    match size_wide(s) {
        Ok(v) => {
            if v > u64::MAX as u128 {
                return None;
            }
        },
        Err(_) => {},
    }
    let cs = chars_of(s);
    if cs.len() > 0 && cs[0] == '-' {
        let mut rest: Vec<char> = Vec::new();
        let mut i: usize = 1;
        while i < cs.len()
            invariant
                1 <= i <= cs.len(),
                rest@ == cs@.subrange(1, i as int),
            decreases cs.len() - i,
        {
            rest.push(cs[i]);
            proof {
                assert(cs@.subrange(1, i + 1) =~= cs@.subrange(1, i as int).push(cs@[i as int]));
            }
            i += 1;
        }
        proof {
            assert(rest@ =~= s@.drop_first());
        }
        match size_wide(string_of(rest.as_slice()).as_str()) {
            Ok(v) => {
                if v > u64::MAX as u128 || v == 0x8000_0000_0000_0000 {
                    return None;
                }
            },
            Err(_) => {},
        }
    }
    Some(parse_threshold(s))
}

/// A `u64` read as an `i64`, as `as` casts it: wrapped past `i64::MAX`.
pub open spec fn wrapped_i64(v: int) -> int {
    if v <= i64::MAX {
        v
    } else {
        v - 0x1_0000_0000_0000_0000
    }
}

/// The threshold that a text names: a size, negated after a leading `-`.
pub open spec fn parsed_threshold(s: Seq<char>) -> Result<int, SizeError> {
    if s.len() > 0 && s[0] == '-' {
        match parsed_size(s.drop_first()) {
            Ok(v) => Ok(-wrapped_i64(v)),
            Err(e) => Err(e),
        }
    } else {
        match parsed_size(s) {
            Ok(v) => Ok(wrapped_i64(v)),
            Err(e) => Err(e),
        }
    }
}

/// Reads a threshold: a size, or a size after `-` for an upper limit.
pub fn parse_threshold(s: &str) -> (r: Result<i64, SizeError>)
    requires
        parsed_size(s@) matches Ok(v) ==> v <= u64::MAX,
        s@.len() > 0 && s@[0] == '-' ==> (parsed_size(s@.drop_first()) matches Ok(v) ==> v
            <= u64::MAX && v != 0x8000_0000_0000_0000),
    ensures
        match parsed_threshold(s@) {
            Ok(v) => r matches Ok(x) && x == v,
            Err(e) => r == Err::<i64, SizeError>(e),
        },
{
    let cs = chars_of(s);
    if cs.len() > 0 && cs[0] == '-' {
        let mut rest: Vec<char> = Vec::new();
        let mut i: usize = 1;
        while i < cs.len()
            invariant
                1 <= i <= cs.len(),
                rest@ == cs@.subrange(1, i as int),
            decreases cs.len() - i,
        {
            rest.push(cs[i]);
            proof {
                assert(cs@.subrange(1, i + 1) =~= cs@.subrange(1, i as int).push(cs@[i as int]));
            }
            i += 1;
        }
        proof {
            assert(rest@ =~= s@.drop_first());
        }
        match parse_size(string_of(rest.as_slice()).as_str()) {
            Ok(v) => {
                let w = v as i64;
                assert(w == wrapped_i64(v as int)) by (bit_vector)
                    requires
                        w == v as i64,
                ;
                Ok(-w)
            },
            Err(e) => Err(e),
        }
    } else {
        match parse_size(s) {
            Ok(v) => {
                let w = v as i64;
                assert(w == wrapped_i64(v as int)) by (bit_vector)
                    requires
                        w == v as i64,
                ;
                Ok(w)
            },
            Err(e) => Err(e),
        }
    }
}

/// The options of the usage walk that decide what it reports.
#[derive(Debug, Copy, Clone, PartialEq, Eq, Structural)]
pub struct DuOpts {
    /// Report files too, not just directories
    pub all: bool,
    /// Sizes for people to read
    pub human: bool,
    /// Count inodes, not blocks
    pub inodes: bool,
    /// Report only the arguments themselves
    pub summarize: bool,
    /// The unit of reported sizes, in bytes
    pub block_size: u64,
    /// How deep below the arguments to report
    pub max_depth: Option<usize>,
    /// Report only sizes of at least this, or of at most its magnitude when
    /// negative
    pub threshold: Option<i64>,
}

/// Whether the walk reports an entry of size `total` at `depth` below its
/// argument: directories (files only with `all`, arguments always), not
/// deeper than the depth limit (0 when summarizing), and within the
/// threshold.
pub open spec fn reported(total: u64, is_dir: bool, depth: usize, o: DuOpts) -> bool {
    let max_depth = if o.summarize {
        Some(0usize)
    } else {
        o.max_depth
    };
    let v = wrapped_i64(total as int);
    &&& (o.all || is_dir || depth == 0)
    &&& (max_depth matches Some(m) ==> depth <= m)
    &&& (o.threshold matches Some(t) ==> !((t >= 0 && v < t) || (t < 0 && v > -t)))
}

/// Decides whether the walk reports an entry.
pub fn emit(total: u64, is_dir: bool, depth: usize, opts: &DuOpts) -> (b: bool)
    requires
        opts.threshold matches Some(t) ==> t != i64::MIN,
    ensures
        b == reported(total, is_dir, depth, *opts),
{
    if !opts.all && !is_dir && depth != 0 {
        return false;
    }
    let max_depth = if opts.summarize {
        Some(0usize)
    } else {
        opts.max_depth
    };
    match max_depth {
        Some(m) => {
            if depth > m {
                return false;
            }
        },
        None => {},
    }
    match opts.threshold {
        Some(t) => {
            let value = total as i64;
            assert(value == wrapped_i64(total as int)) by (bit_vector)
                requires
                    value == total as i64,
            ;
            if (t >= 0 && value < t) || (t < 0 && value > -t) {
                return false;
            }
        },
        None => {},
    }
    true
}

/// What an entry counts for: one inode, or its blocks of 512 bytes.
pub fn unit(blocks: u64, opts: &DuOpts) -> (n: u64)
    requires
        !opts.inodes ==> blocks * 512 <= u64::MAX,
    ensures
        n == if opts.inodes {
            1
        } else {
            blocks * 512
        },
{
    if opts.inodes {
        1
    } else {
        blocks * 512
    }
}

/// A size as the walk reports it when not for people to read: a count of
/// inodes as it is, bytes in blocks of the block size, rounded up.
pub fn scaled(value: u64, opts: &DuOpts) -> (n: u64)
    requires
        !opts.inodes ==> opts.block_size > 0,
    ensures
        opts.inodes ==> n == value,
        !opts.inodes ==> n == (value + opts.block_size - 1) / (opts.block_size as int),
{
    if opts.inodes {
        value
    } else {
        let q = value / opts.block_size;
        let r = value % opts.block_size;
        if r != 0 {
            assert(q < u64::MAX) by (nonlinear_arith)
                requires
                    opts.block_size > 0,
                    q == value / opts.block_size,
                    r == value % opts.block_size,
                    r != 0,
            ;
        }
        let n = if r == 0 { q } else { q + 1 };
        assert(n == (value + opts.block_size - 1) / (opts.block_size as int)) by (nonlinear_arith)
            requires
                opts.block_size > 0,
                q == value / opts.block_size,
                r == value % opts.block_size,
                r == 0 ==> n == q,
                r != 0 ==> n == q + 1,
        ;
        n
    }
}

/// A count of the free-space table when not for people to read: inodes as
/// they are, bytes in kibibytes.
pub fn fmt(n: u64, inodes: bool) -> (s: String)
    ensures
        s@ == decimal_of(if inodes {
            n as nat
        } else {
            (n / 1024) as nat
        }),
{
    if inodes {
        decimal_string(n as u128)
    } else {
        decimal_string((n / 1024) as u128)
    }
}

/// The share of `used` in `total` as a whole percentage rounded up, or `-`
/// when the total is zero.
pub fn pct(used: u64, total: u64) -> (s: String)
    ensures
        total == 0 ==> s@ == seq!['-'],
        total > 0 ==> s@ == decimal_of(((used * 100 + total - 1) / (total as int)) as nat).push(
            '%',
        ),
{
    if total == 0 {
        let v = ['-'];
        proof {
            assert(v@ =~= seq!['-']);
        }
        return string_of(&v);
    }
    let u = used as u128 * 100;
    let t = total as u128;
    let q = u / t;
    let r = u % t;
    let n = if r == 0 { q } else { q + 1 };
    assert(n == (u + t - 1) / (t as int)) by (nonlinear_arith)
        requires
            t > 0,
            q == u / t,
            r == u % t,
            r == 0 ==> n == q,
            r != 0 ==> n == q + 1,
    ;
    let d = decimal_string(n);
    let mut cs = chars_of(d.as_str());
    cs.push('%');
    string_of(cs.as_slice())
}

/// The key of a file among those already counted: its inode and its
/// device.
pub open spec fn file_key(ino: u64, dev: u64) -> u128 {
    (ino as int * 0x1_0000_0000_0000_0000 + dev as int) as u128
}

/// Whether the usage walk counts a file it reaches: a directory, or a file
/// with more than one link, may be reached more than once and is counted
/// the first time only; it is then remembered in `seen`.
pub fn first_visit(seen: &mut HashSet<u128>, is_dir: bool, nlink: u64, ino: u64, dev: u64) -> (b: bool)
    ensures
        (is_dir || nlink > 1) ==> b == !old(seen)@.contains(file_key(ino, dev)) && final(seen)@
            == old(seen)@.insert(file_key(ino, dev)),
        !(is_dir || nlink > 1) ==> b && final(seen)@ == old(seen)@,
{
    if is_dir || nlink > 1 {
        let key: u128 = (ino as u128) * 0x1_0000_0000_0000_0000u128 + (dev as u128);
        proof {
            broadcast use vstd::std_specs::hash::group_hash_axioms;
        }
        seen.insert(key)
    } else {
        true
    }
}

/// Two different files, by inode and device, have different keys, so the
/// walk counts each of them.
pub proof fn law_file_keys_are_distinct(ino1: u64, dev1: u64, ino2: u64, dev2: u64)
    requires
        ino1 != ino2 || dev1 != dev2,
    ensures
        file_key(ino1, dev1) != file_key(ino2, dev2),
{
    let k1 = ino1 as int * 0x1_0000_0000_0000_0000 + dev1 as int;
    let k2 = ino2 as int * 0x1_0000_0000_0000_0000 + dev2 as int;
    assert(0 <= k1 < 0x1_0000_0000_0000_0000_0000_0000_0000_0000);
    assert(0 <= k2 < 0x1_0000_0000_0000_0000_0000_0000_0000_0000);
    assert(k1 != k2);
}

} // verus!
