//! Character classification and text segmentation, as std and
//! unicode-segmentation provide them, plus conversions between `str` and
//! vectors of characters.
use vstd::prelude::*;
use unicode_segmentation::UnicodeSegmentation;

verus! {

/// The `White_Space` property of a character (std's `char::is_whitespace`).
pub uninterp spec fn is_white_space(c: char) -> bool;

/// The `Alphabetic` or `Numeric` property of a character (std's
/// `char::is_alphanumeric`).
pub uninterp spec fn is_alphanumeric_char(c: char) -> bool;

/// The extended grapheme clusters of a text, in order.
pub uninterp spec fn grapheme_clusters(text: Seq<char>) -> Seq<Seq<char>>;

/// The pieces of a text between its UAX#29 word boundaries, in order.
pub uninterp spec fn word_bound_pieces(text: Seq<char>) -> Seq<Seq<char>>;

/// Whether a text is ASCII without a carriage return. Under UAX #29 each
/// character of such a text is a grapheme cluster of its own: the one rule
/// that joins two ASCII characters keeps a carriage return with the line
/// feed after it.
pub open spec fn plain_ascii(t: Seq<char>) -> bool {
    forall|i: int| 0 <= i < t.len() ==> (#[trigger] t[i] as u32) < 128 && t[i] != '\r'
}

/// Each character of a text on its own.
pub open spec fn single_chars(t: Seq<char>) -> Seq<Seq<char>> {
    t.map_values(|c: char| seq![c])
}

/// The views of a sequence of strings.
pub open spec fn strings_view(s: Seq<String>) -> Seq<Seq<char>> {
    s.map_values(|x: String| x@)
}

/// A text holds a character other than white space.
pub open spec fn has_non_white_space(s: Seq<char>) -> bool {
    exists|i: int| 0 <= i < s.len() && !is_white_space(#[trigger] s[i])
}

/// Calls `char::is_whitespace`: whether `c` has the `White_Space` property.
/// The contract gives the result a name, and states the members of that
/// property among the ASCII characters, as std documents them.
#[verifier::external_body]
pub fn char_is_whitespace(c: char) -> (b: bool)
    ensures
        b == is_white_space(c),
        (c == ' ' || c == '\t' || c == '\n' || c == '\r' || c == '\x0B' || c == '\x0C') ==> b,
        ('!' <= c && c <= '~') ==> !b,
{
    c.is_whitespace()
}

/// Calls `char::is_alphanumeric`. The contract names the result, and states
/// that ASCII letters and digits have it while the other printable ASCII
/// characters do not.
#[verifier::external_body]
pub fn char_is_alphanumeric(c: char) -> (b: bool)
    ensures
        b == is_alphanumeric_char(c),
        (('a' <= c && c <= 'z') || ('A' <= c && c <= 'Z') || ('0' <= c && c <= '9')) ==> b,
        (' ' <= c && c <= '/') || (':' <= c && c <= '@') || ('[' <= c && c <= '`') || ('{' <= c
            && c <= '~') ==> !b,
{
    c.is_alphanumeric()
}

/// Calls `str::chars` and collects the characters; the result holds exactly
/// the characters of `s`.
#[verifier::external_body]
pub fn chars_of(s: &str) -> (v: Vec<char>)
    ensures
        v@ == s@,
{
    s.chars().collect()
}

/// Collects characters into a `String` (std's `FromIterator<char>`); the
/// result holds exactly those characters.
#[verifier::external_body]
pub fn string_of(v: &[char]) -> (s: String)
    ensures
        s@ == v@,
{
    v.iter().collect()
}

/// Calls `UnicodeSegmentation::graphemes` with extended clusters and copies
/// each cluster into a `String`. The clusters are named; as the crate's
/// iterator yields consecutive non-empty slices of the text, they are not
/// empty and concatenate to the text; and as the crate follows UAX #29, a
/// text of ASCII without a carriage return splits into its characters.
#[verifier::external_body]
pub fn split_graphemes(text: &str) -> (pieces: Vec<String>)
    ensures
        strings_view(pieces@) == grapheme_clusters(text@),
        strings_view(pieces@).flatten() == text@,
        forall|i: int| 0 <= i < pieces@.len() ==> (#[trigger] pieces@[i])@.len() > 0,
        plain_ascii(text@) ==> strings_view(pieces@) == single_chars(text@),
{
    UnicodeSegmentation::graphemes(text, true).map(String::from).collect()
}

/// Calls `UnicodeSegmentation::split_word_bounds` and copies each piece into
/// a `String`. As the crate documents, the pieces concatenate to the text.
#[verifier::external_body]
pub fn split_word_bounds(text: &str) -> (pieces: Vec<String>)
    ensures
        strings_view(pieces@) == word_bound_pieces(text@),
        strings_view(pieces@).flatten() == text@,
{
    UnicodeSegmentation::split_word_bounds(text).map(String::from).collect()
}

/// Whether a text holds a character other than white space
/// (`!s.trim_start().is_empty()`).
pub fn has_non_whitespace(s: &str) -> (b: bool)
    ensures
        b == has_non_white_space(s@),
{
    let cs = chars_of(s);
    let mut i: usize = 0;
    while i < cs.len()
        invariant
            cs@ == s@,
            0 <= i <= cs.len(),
            forall|j: int| 0 <= j < i ==> is_white_space(#[trigger] cs@[j]),
        decreases cs.len() - i,
    {
        if !char_is_whitespace(cs[i]) {
            return true;
        }
        i += 1;
    }
    false
}

/// Concatenates strings in order.
pub fn concat_strings(parts: &[String]) -> (s: String)
    ensures
        s@ == strings_view(parts@).flatten(),
{
    let mut out: Vec<char> = Vec::new();
    let mut i: usize = 0;
    while i < parts.len()
        invariant
            0 <= i <= parts.len(),
            out@ == strings_view(parts@.take(i as int)).flatten(),
        decreases parts.len() - i,
    {
        let cs = chars_of(parts[i].as_str());
        let ghost before = out@;
        let mut j: usize = 0;
        while j < cs.len()
            invariant
                0 <= j <= cs.len(),
                out@ == before + cs@.take(j as int),
            decreases cs.len() - j,
        {
            out.push(cs[j]);
            proof {
                assert(cs@.take(j + 1) == cs@.take(j as int).push(cs@[j as int]));
            }
            j += 1;
        }
        proof {
            assert(cs@.take(cs@.len() as int) == cs@);
            assert(parts@.take(i + 1) == parts@.take(i as int).push(parts@[i as int]));
            assert(strings_view(parts@.take(i + 1)) == strings_view(parts@.take(i as int)).push(
                parts@[i as int]@,
            ));
            strings_view(parts@.take(i as int)).lemma_flatten_push(parts@[i as int]@);
        }
        i += 1;
    }
    proof {
        assert(parts@.take(parts@.len() as int) == parts@);
    }
    string_of(out.as_slice())
}

/// The number of grapheme clusters in a text.
pub fn count_graphemes(text: &str) -> (n: usize)
    ensures
        n == grapheme_clusters(text@).len(),
{
    let g = split_graphemes(text);
    g.len()
}

} // verus!
