//! Expansion of the words of a command line: `~` to the home directory,
//! and the decision whether a word is a glob pattern for the file system.
use vstd::prelude::*;
use crate::unicode::{chars_of, string_of};

verus! {

/// The word starts with `~` alone or `~/`.
pub open spec fn tilde_word(t: Seq<char>) -> bool {
    t == seq!['~'] || (t.len() >= 2 && t[0] == '~' && t[1] == '/')
}

/// The word with a leading `~` replaced by the home directory, where there
/// is one.
pub open spec fn tilde_expanded(t: Seq<char>, home: Option<Seq<char>>) -> Seq<char> {
    match home {
        Some(h) => if tilde_word(t) {
            h + t.drop_first()
        } else {
            t
        },
        None => t,
    }
}

/// The text of an optional home directory.
pub open spec fn home_view(home: Option<&str>) -> Option<Seq<char>> {
    match home {
        Some(h) => Some(h@),
        None => None,
    }
}

/// Replaces a leading `~` of a word by the home directory `home`, if the
/// word is `~` or starts with `~/` and the home directory is known.
pub fn expand_tilde(token: &str, home: Option<&str>) -> (r: String)
    ensures
        r@ == tilde_expanded(token@, home_view(home)),
{
    let t = chars_of(token);
    let is_tilde = (t.len() == 1 && t[0] == '~') || (t.len() >= 2 && t[0] == '~' && t[1] == '/');
    proof {
        if t.len() == 1 && t[0] == '~' {
            assert(t@ =~= seq!['~']);
        }
    }
    match home {
        Some(h) => {
            if is_tilde {
                let mut out = chars_of(h);
                let mut i: usize = 1;
                let ghost hv = out@;
                while i < t.len()
                    invariant
                        1 <= i <= t.len(),
                        out@ == hv + t@.subrange(1, i as int),
                    decreases t.len() - i,
                {
                    out.push(t[i]);
                    proof {
                        assert(t@.subrange(1, i + 1) =~= t@.subrange(1, i as int).push(
                            t@[i as int],
                        ));
                    }
                    i += 1;
                }
                proof {
                    assert(t@.subrange(1, t@.len() as int) =~= t@.drop_first());
                }
                string_of(out.as_slice())
            } else {
                string_of(t.as_slice())
            }
        },
        None => string_of(t.as_slice()),
    }
}

/// The word holds a character that makes it a glob pattern.
pub open spec fn glob_word(t: Seq<char>) -> bool {
    exists|i: int| 0 <= i < t.len() && (t[i] == '*' || t[i] == '?' || t[i] == '[')
}

/// Whether a word holds `*`, `?` or `[`, which make it a glob pattern.
pub fn is_glob(token: &str) -> (b: bool)
    ensures
        b == glob_word(token@),
{
    let t = chars_of(token);
    let mut i: usize = 0;
    while i < t.len()
        invariant
            0 <= i <= t.len(),
            t@ == token@,
            forall|k: int| 0 <= k < i ==> !(t@[k] == '*' || t@[k] == '?' || t@[k] == '['),
        decreases t.len() - i,
    {
        if t[i] == '*' || t[i] == '?' || t[i] == '[' {
            return true;
        }
        i += 1;
    }
    false
}

/// How a word of a command line is expanded.
#[derive(Debug)]
pub enum Expansion {
    /// The word stands for itself
    Literal(String),
    /// The word is a pattern whose matches in the file system stand for it
    Glob(String),
}

/// Whether `r` is the expansion of a word: the word with `~` expanded,
/// as a pattern when it holds a glob character and literally otherwise.
pub open spec fn expanded_as(token: Seq<char>, home: Option<Seq<char>>, r: Expansion) -> bool {
    let t = tilde_expanded(token, home);
    if glob_word(t) {
        r matches Expansion::Glob(p) && p@ == t
    } else {
        r matches Expansion::Literal(w) && w@ == t
    }
}

/// Expands `~` in a word, and tells whether the result is to be matched
/// against the file system.
pub fn expand_token(token: &str, home: Option<&str>) -> (r: Expansion)
    ensures
        expanded_as(token@, home_view(home), r),
{
    let t = expand_tilde(token, home);
    if is_glob(t.as_str()) {
        Expansion::Glob(t)
    } else {
        Expansion::Literal(t)
    }
}

/// The words that a glob pattern stands for: its matches, or the pattern
/// itself where nothing matches, as a POSIX shell does.
pub fn glob_or_literal(pattern: &str, matches: Vec<String>) -> (r: Vec<String>)
    ensures
        matches@.len() > 0 ==> r@ == matches@,
        matches@.len() == 0 ==> r@.len() == 1 && r@[0]@ == pattern@,
{
    if matches.len() > 0 {
        matches
    } else {
        let mut v: Vec<String> = Vec::new();
        v.push(string_of(chars_of(pattern).as_slice()));
        v
    }
}

} // verus!
