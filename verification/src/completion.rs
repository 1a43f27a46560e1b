//! Completion of the word under the cursor: the text before the cursor, the
//! word being typed, and the paths of a directory that complete it, sorted
//! and without repeats.
use vstd::prelude::*;
use vstd::utf8::{encode_utf8, is_char_boundary};
use vstd::utf8::decode_utf8;
use crate::unicode::{
    char_is_whitespace, chars_of, has_non_white_space, has_non_whitespace, is_white_space, string_of, strings_view,
};

verus! {

broadcast use vstd::utf8::group_utf8_lib;

/// `a` comes before `b` in lexicographic order of characters, which is the
/// order of `String`s.
pub open spec fn lex_lt(a: Seq<char>, b: Seq<char>) -> bool
    decreases a.len(),
{
    if a.len() == 0 {
        b.len() > 0
    } else if b.len() == 0 {
        false
    } else if a[0] < b[0] {
        true
    } else if a[0] == b[0] {
        lex_lt(a.drop_first(), b.drop_first())
    } else {
        false
    }
}

/// Each text comes strictly before the next: sorted, without repeats.
pub open spec fn strictly_sorted(s: Seq<Seq<char>>) -> bool {
    forall|i: int, j: int| 0 <= i < j < s.len() ==> lex_lt(#[trigger] s[i], #[trigger] s[j])
}

proof fn lemma_lex_irreflexive(a: Seq<char>)
    ensures
        !lex_lt(a, a),
    decreases a.len(),
{
    if a.len() > 0 {
        lemma_lex_irreflexive(a.drop_first());
    }
}

proof fn lemma_lex_total(a: Seq<char>, b: Seq<char>)
    ensures
        a != b ==> lex_lt(a, b) || lex_lt(b, a),
    decreases a.len(),
{
    if a.len() > 0 && b.len() > 0 && a[0] == b[0] {
        lemma_lex_total(a.drop_first(), b.drop_first());
        if a.drop_first() == b.drop_first() {
            assert(a =~= seq![a[0]] + a.drop_first());
            assert(b =~= seq![b[0]] + b.drop_first());
        }
    } else if a.len() == 0 && b.len() == 0 {
        assert(a =~= b);
    }
}

proof fn lemma_lex_transitive(a: Seq<char>, b: Seq<char>, c: Seq<char>)
    requires
        lex_lt(a, b),
        lex_lt(b, c),
    ensures
        lex_lt(a, c),
    decreases a.len(),
{
    if a.len() > 0 && b.len() > 0 && c.len() > 0 && a[0] == b[0] && b[0] == c[0] {
        lemma_lex_transitive(a.drop_first(), b.drop_first(), c.drop_first());
    }
}

/// Where `a` stands against `b` in lexicographic order.
#[derive(Debug, Copy, Clone, PartialEq, Eq, Structural)]
pub enum Placement {
    Before,
    Same,
    After,
}

/// Compares two texts in lexicographic order.
pub fn compare_texts(a: &[char], b: &[char]) -> (r: Placement)
    ensures
        r == Placement::Before <==> lex_lt(a@, b@),
        r == Placement::Same <==> a@ == b@,
        r == Placement::After <==> lex_lt(b@, a@),
{
    let mut i: usize = 0;
    proof {
        assert(a@.skip(0) =~= a@);
        assert(b@.skip(0) =~= b@);
    }
    while i < a.len() && i < b.len()
        invariant
            0 <= i <= a.len(),
            i <= b.len(),
            a@.take(i as int) == b@.take(i as int),
            lex_lt(a@, b@) == lex_lt(a@.skip(i as int), b@.skip(i as int)),
            lex_lt(b@, a@) == lex_lt(b@.skip(i as int), a@.skip(i as int)),
        decreases a.len() - i,
    {
        proof {
            assert(a@.skip(i as int)[0] == a@[i as int]);
            assert(b@.skip(i as int)[0] == b@[i as int]);
            assert(a@.skip(i as int).drop_first() =~= a@.skip(i + 1));
            assert(b@.skip(i as int).drop_first() =~= b@.skip(i + 1));
        }
        if a[i] < b[i] {
            proof {
                lemma_lex_total(a@, b@);
            }
            return Placement::Before;
        }
        if b[i] < a[i] {
            proof {
                lemma_lex_total(a@, b@);
            }
            return Placement::After;
        }
        proof {
            assert(a@.take(i + 1) =~= a@.take(i as int).push(a@[i as int]));
            assert(b@.take(i + 1) =~= b@.take(i as int).push(b@[i as int]));
        }
        i += 1;
    }
    proof {
        lemma_lex_irreflexive(a@);
        if i == a.len() && i == b.len() {
            assert(a@ =~= a@.take(i as int));
            assert(b@ =~= b@.take(i as int));
        } else if i == a.len() {
            assert(a@ =~= a@.take(i as int));
            assert(a@.len() != b@.len());
        } else {
            assert(b@ =~= b@.take(i as int));
            assert(a@.len() != b@.len());
        }
    }
    if a.len() < b.len() {
        Placement::Before
    } else if b.len() < a.len() {
        Placement::After
    } else {
        Placement::Same
    }
}

/// The texts of a list of character vectors.
pub open spec fn texts(l: Seq<Vec<char>>) -> Seq<Seq<char>> {
    l.map_values(|v: Vec<char>| v@)
}

/// Puts `x` into its place in a sorted list of texts, unless it is already
/// there.
fn insert_sorted(list: &mut Vec<Vec<char>>, x: Vec<char>)
    requires
        strictly_sorted(texts(old(list)@)),
    ensures
        strictly_sorted(texts(final(list)@)),
        forall|y: Seq<char>|
            #[trigger] texts(final(list)@).contains(y) <==> (texts(old(list)@).contains(y) || y
                == x@),
{
    let ghost old_view = texts(list@);
    let mut j: usize = 0;
    while j < list.len()
        invariant
            0 <= j <= list.len(),
            texts(list@) == old_view,
            strictly_sorted(old_view),
            forall|k: int| 0 <= k < j ==> lex_lt(#[trigger] old_view[k], x@),
        ensures
            j < list.len() ==> !lex_lt(old_view[j as int], x@),
            0 <= j <= list.len(),
            texts(list@) == old_view,
            forall|k: int| 0 <= k < j ==> lex_lt(#[trigger] old_view[k], x@),
        decreases list.len() - j,
    {
        let p = compare_texts(list[j].as_slice(), x.as_slice());
        if p != Placement::Before {
            break;
        }
        j += 1;
    }
    if j < list.len() && compare_texts(list[j].as_slice(), x.as_slice()) == Placement::Same {
        proof {
            assert forall|y: Seq<char>| old_view.contains(y) || y == x@ implies old_view.contains(
                y,
            ) by {
                if y == x@ {
                    assert(old_view[j as int] == y);
                }
            }
        }
        return;
    }
    proof {
        if j < list.len() {
            lemma_lex_total(old_view[j as int], x@);
        }
    }
    let ghost xv = x@;
    list.insert(j, x);
    proof {
        let nv = texts(list@);
        assert(nv =~= old_view.insert(j as int, xv));
        assert forall|a: int, b: int| 0 <= a < b < nv.len() implies lex_lt(
            #[trigger] nv[a],
            #[trigger] nv[b],
        ) by {
            if b < j {
            } else if a < j && b == j {
            } else if a < j {
                assert(lex_lt(old_view[a], xv));
                if j < old_view.len() {
                    assert(lex_lt(xv, old_view[j as int]));
                    if b - 1 > j {
                        lemma_lex_transitive(xv, old_view[j as int], old_view[b - 1]);
                    }
                    lemma_lex_transitive(old_view[a], xv, old_view[b - 1]);
                }
            } else if a == j {
                assert(lex_lt(xv, old_view[j as int]));
                if b - 1 > j {
                    lemma_lex_transitive(xv, old_view[j as int], old_view[b - 1]);
                }
            } else {
            }
        }
        assert forall|y: Seq<char>| nv.contains(y) <==> (old_view.contains(y) || y == xv) by {
            if nv.contains(y) {
                let k = choose|k: int| 0 <= k < nv.len() && nv[k] == y;
                if k < j {
                    assert(old_view[k] == y);
                } else if k > j {
                    assert(old_view[k - 1] == y);
                }
            }
            if old_view.contains(y) {
                let k = choose|k: int| 0 <= k < old_view.len() && old_view[k] == y;
                if k < j {
                    assert(nv[k] == y);
                } else {
                    assert(nv[k + 1] == y);
                }
            }
            if y == xv {
                assert(nv[j as int] == y);
            }
        }
    }
}

/// The last character boundary of `bytes` at or before `k`.
pub open spec fn boundary_at_or_before(bytes: Seq<u8>, k: int) -> int
    decreases k,
{
    if k <= 0 {
        0
    } else if is_char_boundary(bytes, k) {
        k
    } else {
        boundary_at_or_before(bytes, k - 1)
    }
}

/// The cut of a text of `len` bytes at the byte offset `cursor`: at the
/// cursor, or at the end of the text if the cursor lies beyond it, moved
/// back to the start of the character it falls in.
pub open spec fn cursor_cut(bytes: Seq<u8>, cursor: int, len: int) -> int {
    boundary_at_or_before(bytes, if cursor <= len {
        cursor
    } else {
        len
    })
}

/// The text of `input` before the cursor at byte offset `cursor`.
pub fn line_before_cursor(input: &str, cursor: usize) -> (line: &str)
    ensures
        encode_utf8(line@) == encode_utf8(input@).subrange(
            0,
            cursor_cut(encode_utf8(input@), cursor as int, input.len() as int),
        ),
{
    let len = input.len();
    let mut safe = if cursor <= len { cursor } else { len };
    let ghost k = safe as int;
    let ghost bytes = encode_utf8(input@);
    while safe > 0 && !input.is_char_boundary(safe)
        invariant
            0 <= safe <= k <= bytes.len(),
            bytes == encode_utf8(input@),
            boundary_at_or_before(bytes, k) == boundary_at_or_before(bytes, safe as int),
        decreases safe,
    {
        safe -= 1;
    }
    proof {
        assert(is_char_boundary(bytes, 0));
    }
    input.split_at(safe).0
}

/// Where the run of characters other than white space that ends at `i`
/// starts.
pub open spec fn word_start(s: Seq<char>, i: int) -> int
    decreases i,
{
    if i <= 0 {
        0
    } else if is_white_space(s[i - 1]) {
        i
    } else {
        word_start(s, i - 1)
    }
}

/// The word being typed at the end of a line: empty when the line ends in
/// white space.
pub open spec fn current_word_of(line: Seq<char>) -> Seq<char> {
    line.skip(word_start(line, line.len() as int))
}

/// The word being typed at the end of `line`.
pub fn current_word(line: &str) -> (w: Vec<char>)
    ensures
        w@ == current_word_of(line@),
{
    let cs = chars_of(line);
    let mut i: usize = cs.len();
    while i > 0 && !char_is_whitespace(cs[i - 1])
        invariant
            0 <= i <= cs.len(),
            cs@ == line@,
            word_start(line@, line@.len() as int) == word_start(line@, i as int),
        decreases i,
    {
        i -= 1;
    }
    let mut w: Vec<char> = Vec::new();
    let mut j: usize = i;
    while j < cs.len()
        invariant
            i <= j <= cs.len(),
            w@ == cs@.subrange(i as int, j as int),
        decreases cs.len() - j,
    {
        w.push(cs[j]);
        proof {
            assert(cs@.subrange(i as int, j + 1) =~= cs@.subrange(i as int, j as int).push(
                cs@[j as int],
            ));
        }
        j += 1;
    }
    proof {
        assert(cs@.subrange(i as int, cs@.len() as int) =~= cs@.skip(i as int));
    }
    w
}

/// Where the last `/` of a word stands, or `-1` if it has none.
pub open spec fn last_slash(w: Seq<char>, i: int) -> int
    decreases i,
{
    if i <= 0 {
        -1
    } else if w[i - 1] == '/' {
        i - 1
    } else {
        last_slash(w, i - 1)
    }
}

/// The directory part of a word, up to and with its last `/`.
pub open spec fn dir_part(w: Seq<char>) -> Seq<char> {
    w.take(last_slash(w, w.len() as int) + 1)
}

/// The part of a word after its last `/`.
pub open spec fn name_part(w: Seq<char>) -> Seq<char> {
    w.skip(last_slash(w, w.len() as int) + 1)
}

proof fn lemma_last_slash_range(w: Seq<char>, i: int)
    requires
        0 <= i <= w.len(),
    ensures
        -1 <= last_slash(w, i) < i,
    decreases i,
{
    if i > 0 {
        lemma_last_slash_range(w, i - 1);
    }
}

/// A word split into the directory to list and the prefix of the names
/// that complete it.
pub struct PathQuery {
    /// The directory part of the word, put in front of each completion
    pub dir_path: String,
    /// The start of the names that complete the word
    pub prefix: String,
}

/// Splits the word being completed at its last `/`.
pub fn path_query(word: &[char]) -> (q: PathQuery)
    ensures
        q.dir_path@ == dir_part(word@),
        q.prefix@ == name_part(word@),
{
    let mut i: usize = word.len();
    while i > 0 && word[i - 1] != '/'
        invariant
            0 <= i <= word.len(),
            last_slash(word@, word@.len() as int) == last_slash(word@, i as int),
        decreases i,
    {
        i -= 1;
    }
    proof {
        lemma_last_slash_range(word@, word@.len() as int);
    }
    let mut d: Vec<char> = Vec::new();
    let mut p: Vec<char> = Vec::new();
    let mut j: usize = 0;
    while j < word.len()
        invariant
            0 <= j <= word.len(),
            0 <= i <= word.len(),
            last_slash(word@, word@.len() as int) + 1 == i,
            d@ == word@.take(if j < i { j as int } else { i as int }),
            p@ == (if j < i { Seq::<char>::empty() } else { word@.subrange(i as int, j as int) }),
        decreases word.len() - j,
    {
        if j < i {
            d.push(word[j]);
            proof {
                assert(word@.take(j + 1) =~= word@.take(j as int).push(word@[j as int]));
            }
        } else {
            p.push(word[j]);
            proof {
                assert(word@.subrange(i as int, j + 1) =~= word@.subrange(i as int, j as int).push(
                    word@[j as int],
                ));
                assert(word@.subrange(i as int, i as int) =~= Seq::<char>::empty());
            }
        }
        j += 1;
    }
    proof {
        assert(word@.subrange(i as int, word@.len() as int) =~= word@.skip(i as int));
        if word@.len() < i {
        }
    }
    PathQuery { dir_path: string_of(d.as_slice()), prefix: string_of(p.as_slice()) }
}

/// The directory that a query lists: its directory part, or `.` when that
/// is empty.
pub open spec fn scan_dir_of(q_dir: Seq<char>) -> Seq<char> {
    if q_dir.len() == 0 {
        seq!['.']
    } else {
        q_dir
    }
}

/// The directory to list for a query.
pub fn scan_dir(q: &PathQuery) -> (d: String)
    ensures
        d@ == scan_dir_of(q.dir_path@),
{
    let cs = chars_of(q.dir_path.as_str());
    if cs.len() == 0 {
        let dot = ['.'];
        proof {
            assert(dot@ =~= seq!['.']);
        }
        string_of(&dot)
    } else {
        string_of(cs.as_slice())
    }
}

/// What a directory listing tells of one entry.
pub struct DirEntryInfo {
    /// The name of the entry
    pub name: String,
    /// Whether it is a directory
    pub is_dir: bool,
    /// Whether it can be run: a file with an execute permission
    pub is_executable: bool,
}

/// The text starts with a dot.
pub open spec fn starts_with_dot(s: Seq<char>) -> bool {
    s.len() > 0 && s[0] == '.'
}

/// The completion that an entry gives, if it gives one: hidden entries only
/// for a prefix that starts with a dot, only names that start with the
/// prefix, and a `/` after a directory; where executables are asked for,
/// only directories and executables.
pub open spec fn entry_completion(
    dir: Seq<char>,
    prefix: Seq<char>,
    e: DirEntryInfo,
    require_executable: bool,
) -> Option<Seq<char>> {
    if require_executable && !e.is_dir && !e.is_executable {
        None
    } else if starts_with_dot(e.name@) && !starts_with_dot(prefix) {
        None
    } else if prefix.is_prefix_of(e.name@) {
        Some(
            dir + e.name@ + if e.is_dir {
                seq!['/']
            } else {
                Seq::<char>::empty()
            },
        )
    } else {
        None
    }
}

/// The completions that the entries of a listing give, in their order.
pub open spec fn path_candidates(
    dir: Seq<char>,
    prefix: Seq<char>,
    entries: Seq<DirEntryInfo>,
    require_executable: bool,
) -> Seq<Seq<char>>
    decreases entries.len(),
{
    if entries.len() == 0 {
        Seq::empty()
    } else {
        let rest = path_candidates(dir, prefix, entries.drop_last(), require_executable);
        match entry_completion(dir, prefix, entries.last(), require_executable) {
            Some(c) => rest.push(c),
            None => rest,
        }
    }
}

/// The texts are the candidates, sorted and without repeats.
pub open spec fn sorted_set_of(r: Seq<Seq<char>>, candidates: Seq<Seq<char>>) -> bool {
    &&& strictly_sorted(r)
    &&& forall|y: Seq<char>| #[trigger] r.contains(y) <==> candidates.contains(y)
}

proof fn lemma_push_contains(s: Seq<Seq<char>>, x: Seq<char>)
    ensures
        forall|y: Seq<char>| #[trigger] s.push(x).contains(y) <==> (s.contains(y) || y == x),
{
    assert forall|y: Seq<char>| #[trigger] s.push(x).contains(y) <==> (s.contains(y) || y == x) by {
        if s.push(x).contains(y) {
            let k = choose|k: int| 0 <= k < s.push(x).len() && s.push(x)[k] == y;
            if k < s.len() {
                assert(s[k] == y);
            }
        }
        if s.contains(y) {
            let k = choose|k: int| 0 <= k < s.len() && s[k] == y;
            assert(s.push(x)[k] == y);
        }
        if y == x {
            assert(s.push(x)[s.len() as int] == y);
        }
    }
}

fn starts_with_chars(s: &[char], prefix: &[char]) -> (b: bool)
    ensures
        b == prefix@.is_prefix_of(s@),
{
    if prefix.len() > s.len() {
        return false;
    }
    let mut i: usize = 0;
    while i < prefix.len()
        invariant
            0 <= i <= prefix.len() <= s.len(),
            prefix@.take(i as int) == s@.take(i as int),
        decreases prefix.len() - i,
    {
        if prefix[i] != s[i] {
            proof {
                assert(prefix@.is_prefix_of(s@) ==> prefix@[i as int] == s@[i as int]);
            }
            return false;
        }
        proof {
            assert(prefix@.take(i + 1) =~= prefix@.take(i as int).push(prefix@[i as int]));
            assert(s@.take(i + 1) =~= s@.take(i as int).push(s@[i as int]));
        }
        i += 1;
    }
    proof {
        assert(prefix@.take(i as int) =~= prefix@);
        assert(prefix@ =~= s@.subrange(0, prefix@.len() as int));
    }
    true
}

/// The completions of `q` among the entries of the listing of its
/// directory, sorted and without repeats.
pub fn path_completions(q: &PathQuery, entries: &[DirEntryInfo], require_executable: bool) -> (r:
    Vec<String>)
    ensures
        sorted_set_of(
            strings_view(r@),
            path_candidates(q.dir_path@, q.prefix@, entries@, require_executable),
        ),
{
    let dir = chars_of(q.dir_path.as_str());
    let prefix = chars_of(q.prefix.as_str());
    let prefix_dot = prefix.len() > 0 && prefix[0] == '.';
    let mut list: Vec<Vec<char>> = Vec::new();
    let mut i: usize = 0;
    while i < entries.len()
        invariant
            0 <= i <= entries.len(),
            dir@ == q.dir_path@,
            prefix@ == q.prefix@,
            prefix_dot == starts_with_dot(q.prefix@),
            strictly_sorted(texts(list@)),
            forall|y: Seq<char>| #[trigger]
                texts(list@).contains(y) <==> path_candidates(
                    q.dir_path@,
                    q.prefix@,
                    entries@.take(i as int),
                    require_executable,
                ).contains(y),
        decreases entries.len() - i,
    {
        let e = &entries[i];
        let ghost before = texts(list@);
        proof {
            assert(entries@.take(i + 1).drop_last() =~= entries@.take(i as int));
            assert(entries@.take(i + 1).last() == entries@[i as int]);
        }
        let ghost prev = path_candidates(
            q.dir_path@,
            q.prefix@,
            entries@.take(i as int),
            require_executable,
        );
        let ghost comp = entry_completion(q.dir_path@, q.prefix@, *e, require_executable);
        proof {
            assert(path_candidates(q.dir_path@, q.prefix@, entries@.take(i + 1), require_executable)
                == match comp {
                Some(c) => prev.push(c),
                None => prev,
            });
        }
        let skip = require_executable && !e.is_dir && !e.is_executable;
        if !skip {
            let name = chars_of(e.name.as_str());
            let name_dot = name.len() > 0 && name[0] == '.';
            if !(name_dot && !prefix_dot) && starts_with_chars(name.as_slice(), prefix.as_slice()) {
                let mut c: Vec<char> = Vec::new();
                let mut j: usize = 0;
                while j < dir.len()
                    invariant
                        0 <= j <= dir.len(),
                        c@ == dir@.take(j as int),
                    decreases dir.len() - j,
                {
                    c.push(dir[j]);
                    proof {
                        assert(dir@.take(j + 1) =~= dir@.take(j as int).push(dir@[j as int]));
                    }
                    j += 1;
                }
                let mut k: usize = 0;
                while k < name.len()
                    invariant
                        0 <= k <= name.len(),
                        j == dir.len(),
                        c@ == dir@ + name@.take(k as int),
                    decreases name.len() - k,
                {
                    c.push(name[k]);
                    proof {
                        assert(name@.take(k + 1) =~= name@.take(k as int).push(name@[k as int]));
                    }
                    k += 1;
                }
                if e.is_dir {
                    c.push('/');
                }
                proof {
                    assert(dir@.take(j as int) =~= dir@);
                    assert(name@.take(k as int) =~= name@);
                    assert(c@ =~= dir@ + name@ + if e.is_dir {
                        seq!['/']
                    } else {
                        Seq::<char>::empty()
                    });
                }
                proof {
                    assert(comp == Some(c@));
                    lemma_push_contains(prev, c@);
                }
                insert_sorted(&mut list, c);
            } else {
                proof {
                    assert(comp is None);
                }
            }
        } else {
            proof {
                assert(comp is None);
            }
        }
        i += 1;
    }
    proof {
        assert(entries@.take(entries@.len() as int) =~= entries@);
    }
    let mut out: Vec<String> = Vec::new();
    let mut m: usize = 0;
    while m < list.len()
        invariant
            0 <= m <= list.len(),
            strings_view(out@) == texts(list@).take(m as int),
        decreases list.len() - m,
    {
        out.push(string_of(list[m].as_slice()));
        proof {
            assert(texts(list@).take(m + 1) =~= texts(list@).take(m as int).push(list@[m as int]@));
            assert(strings_view(out@) =~= texts(list@).take(m + 1));
        }
        m += 1;
    }
    proof {
        assert(texts(list@).take(m as int) =~= texts(list@));
    }
    out
}

/// The text of `input` before the cursor at byte offset `cursor`.
pub open spec fn text_before_cursor(input: &str, cursor: usize) -> Seq<char> {
    decode_utf8(
        encode_utf8(input@).subrange(
            0,
            cursor_cut(encode_utf8(input@), cursor as int, input.len() as int),
        ),
    )
}

/// The word being completed as an argument: the word before the cursor.
pub open spec fn arg_word(input: &str, cursor: usize) -> Seq<char> {
    current_word_of(text_before_cursor(input, cursor))
}

fn arg_word_at(input: &str, cursor: usize) -> (w: Vec<char>)
    ensures
        w@ == arg_word(input, cursor),
{
    let line = line_before_cursor(input, cursor);
    current_word(line)
}

/// The directory to list to complete an argument, or `None` for an option
/// (a word that starts with `-`), which is not completed.
pub fn arg_scan_dir(input: &str, cursor: usize) -> (d: Option<String>)
    ensures
        arg_word(input, cursor).len() > 0 && arg_word(input, cursor)[0] == '-' ==> d is None,
        !(arg_word(input, cursor).len() > 0 && arg_word(input, cursor)[0] == '-') ==> (d matches Some(
            s,
        ) && s@ == scan_dir_of(dir_part(arg_word(input, cursor)))),
{
    let w = arg_word_at(input, cursor);
    if w.len() > 0 && w[0] == '-' {
        None
    } else {
        let q = path_query(w.as_slice());
        Some(scan_dir(&q))
    }
}

/// Completes the argument under the cursor of a command line with the
/// entries of the listing of the directory that [`arg_scan_dir`] names:
/// nothing for an option, else the matching paths, sorted and without
/// repeats.
pub fn complete_arg_dumb(
    _command: &str,
    input: &str,
    cursor: usize,
    listing: &[DirEntryInfo],
) -> (r: Vec<String>)
    requires
        has_non_white_space(text_before_cursor(input, cursor)),
    ensures
        ({
            let w = arg_word(input, cursor);
            if w.len() > 0 && w[0] == '-' {
                r@.len() == 0
            } else {
                sorted_set_of(
                    strings_view(r@),
                    path_candidates(dir_part(w), name_part(w), listing@, false),
                )
            }
        }),
{
    let w = arg_word_at(input, cursor);
    if w.len() > 0 && w[0] == '-' {
        Vec::new()
    } else {
        let q = path_query(w.as_slice());
        path_completions(&q, listing, false)
    }
}

/// Completes the argument under the cursor as [`complete_arg_dumb`] does,
/// after checking its demand: `None` when the text before the cursor is
/// blank (there is no word to complete), else the completions.
pub fn try_complete_arg_dumb(
    command: &str,
    input: &str,
    cursor: usize,
    listing: &[DirEntryInfo],
) -> (r: Option<Vec<String>>)
    ensures
        r is None <==> !has_non_white_space(text_before_cursor(input, cursor)),
        r matches Some(v) ==> ({
            let w = arg_word(input, cursor);
            if w.len() > 0 && w[0] == '-' {
                v@.len() == 0
            } else {
                sorted_set_of(
                    strings_view(v@),
                    path_candidates(dir_part(w), name_part(w), listing@, false),
                )
            }
        }),
{
    let line = line_before_cursor(input, cursor);
    proof {
        vstd::utf8::encode_utf8_decode_utf8(line@);
    }
    if has_non_whitespace(line) {
        Some(complete_arg_dumb(command, input, cursor, listing))
    } else {
        None
    }
}

/// The directory to list to complete a command name.
pub fn cmd_scan_dir(input: &str) -> (d: String)
    ensures
        d@ == scan_dir_of(dir_part(input@)),
{
    let w = chars_of(input);
    let q = path_query(w.as_slice());
    scan_dir(&q)
}

/// Completes a command name with the entries of the listing of the
/// directory that [`cmd_scan_dir`] names: the directories and executables
/// that match, sorted and without repeats.
pub fn complete_cmd_dumb(input: &str, listing: &[DirEntryInfo]) -> (r: Vec<String>)
    ensures
        sorted_set_of(
            strings_view(r@),
            path_candidates(dir_part(input@), name_part(input@), listing@, true),
        ),
{
    let w = chars_of(input);
    let q = path_query(w.as_slice());
    path_completions(&q, listing, true)
}


/// The flags that start with `word`, in the order of `flags`.
pub open spec fn flag_candidates(flags: Seq<Seq<char>>, word: Seq<char>) -> Seq<Seq<char>>
    decreases flags.len(),
{
    if flags.len() == 0 {
        Seq::empty()
    } else {
        let rest = flag_candidates(flags.drop_last(), word);
        if word.is_prefix_of(flags.last()) {
            rest.push(flags.last())
        } else {
            rest
        }
    }
}

fn strings_of_texts(list: &Vec<Vec<char>>) -> (out: Vec<String>)
    ensures
        strings_view(out@) == texts(list@),
{
    let mut out: Vec<String> = Vec::new();
    let mut m: usize = 0;
    while m < list.len()
        invariant
            0 <= m <= list.len(),
            strings_view(out@) == texts(list@).take(m as int),
        decreases list.len() - m,
    {
        out.push(string_of(list[m].as_slice()));
        proof {
            assert(texts(list@).take(m + 1) =~= texts(list@).take(m as int).push(list@[m as int]@));
            assert(strings_view(out@) =~= texts(list@).take(m + 1));
        }
        m += 1;
    }
    proof {
        assert(texts(list@).take(m as int) =~= texts(list@));
    }
    out
}

/// The flags of a tool that complete `word`, sorted and without repeats.
pub fn complete_flags(flags: &[String], word: &[char]) -> (r: Vec<String>)
    ensures
        sorted_set_of(strings_view(r@), flag_candidates(strings_view(flags@), word@)),
{
    let mut list: Vec<Vec<char>> = Vec::new();
    let mut i: usize = 0;
    while i < flags.len()
        invariant
            0 <= i <= flags.len(),
            strictly_sorted(texts(list@)),
            forall|y: Seq<char>| #[trigger]
                texts(list@).contains(y) <==> flag_candidates(
                    strings_view(flags@.take(i as int)),
                    word@,
                ).contains(y),
        decreases flags.len() - i,
    {
        let f = chars_of(flags[i].as_str());
        let ghost prev = flag_candidates(strings_view(flags@.take(i as int)), word@);
        proof {
            assert(strings_view(flags@.take(i + 1)).drop_last() =~= strings_view(
                flags@.take(i as int),
            ));
            assert(strings_view(flags@.take(i + 1)).last() == flags@[i as int]@);
        }
        if starts_with_chars(f.as_slice(), word) {
            proof {
                lemma_push_contains(prev, f@);
            }
            insert_sorted(&mut list, f);
        }
        i += 1;
    }
    proof {
        assert(flags@.take(flags@.len() as int) =~= flags@);
    }
    strings_of_texts(&list)
}

/// Completes the argument under the cursor of a command line for one of
/// the tools, given its flags (`None` for a command that is not one of
/// them, which gets no completions) and the entries of the listing of the
/// directory that [`arg_scan_dir`] names: a word that starts with `-`
/// completes to the flags that start with it, any other word to the
/// matching paths; sorted and without repeats.
pub fn complete(
    flags: Option<&[String]>,
    input: &str,
    cursor: usize,
    listing: &[DirEntryInfo],
) -> (r: Vec<String>)
    requires
        text_before_cursor(input, cursor).len() > 0,
    ensures
        flags is None ==> r@.len() == 0,
        flags matches Some(f) ==> ({
            let w = arg_word(input, cursor);
            if w.len() > 0 && w[0] == '-' {
                sorted_set_of(strings_view(r@), flag_candidates(strings_view(f@), w))
            } else {
                sorted_set_of(
                    strings_view(r@),
                    path_candidates(dir_part(w), name_part(w), listing@, false),
                )
            }
        }),
{
    match flags {
        None => Vec::new(),
        Some(f) => {
            let w = arg_word_at(input, cursor);
            if w.len() > 0 && w[0] == '-' {
                complete_flags(f, w.as_slice())
            } else {
                let q = path_query(w.as_slice());
                path_completions(&q, listing, false)
            }
        },
    }
}

/// Every completion from a listing comes from one of its entries, and each
/// entry that gives a completion is among them: the directory part of the
/// word, then the entry's name, which starts with the name part of the
/// word, then a `/` for a directory. So each completion starts with the
/// word; a hidden entry comes only for a name part that starts with a dot;
/// and where executables are asked for, only directories and executables
/// come.
pub proof fn law_completions_come_from_entries(
    dir: Seq<char>,
    prefix: Seq<char>,
    entries: Seq<DirEntryInfo>,
    require_executable: bool,
    y: Seq<char>,
)
    ensures
        path_candidates(dir, prefix, entries, require_executable).contains(y) <==> exists|k: int|
            0 <= k < entries.len() && #[trigger] entry_completion(
                dir,
                prefix,
                entries[k],
                require_executable,
            ) == Some(y),
        path_candidates(dir, prefix, entries, require_executable).contains(y) ==> {
            &&& (dir + prefix).is_prefix_of(y)
            &&& exists|k: int|
                #![trigger entries[k]]
                {
                    &&& 0 <= k < entries.len()
                    &&& prefix.is_prefix_of(entries[k].name@)
                    &&& y == dir + entries[k].name@ + if entries[k].is_dir {
                        seq!['/']
                    } else {
                        Seq::<char>::empty()
                    }
                    &&& starts_with_dot(entries[k].name@) ==> starts_with_dot(prefix)
                    &&& require_executable ==> entries[k].is_dir || entries[k].is_executable
                }
        },
    decreases entries.len(),
{
    let c = path_candidates(dir, prefix, entries, require_executable);
    if entries.len() > 0 {
        let init = entries.drop_last();
        let last = entries.last();
        law_completions_come_from_entries(dir, prefix, init, require_executable, y);
        let rest = path_candidates(dir, prefix, init, require_executable);
        lemma_push_contains(rest, y);
        if let Some(x) = entry_completion(dir, prefix, last, require_executable) {
            lemma_push_contains(rest, x);
        }
        assert forall|k: int| 0 <= k < init.len() implies #[trigger] init[k] == entries[k] by {}
        if c.contains(y) {
            if rest.contains(y) {
                let k = choose|k: int|
                    0 <= k < init.len() && #[trigger] entry_completion(
                        dir,
                        prefix,
                        init[k],
                        require_executable,
                    ) == Some(y);
                assert(entries[k] == init[k]);
            } else {
                assert(entry_completion(dir, prefix, entries[entries.len() - 1], require_executable)
                    == Some(y));
            }
        }
        if exists|k: int|
            0 <= k < entries.len() && #[trigger] entry_completion(
                dir,
                prefix,
                entries[k],
                require_executable,
            ) == Some(y) {
            let k = choose|k: int|
                0 <= k < entries.len() && #[trigger] entry_completion(
                    dir,
                    prefix,
                    entries[k],
                    require_executable,
                ) == Some(y);
            if k < init.len() {
                assert(init[k] == entries[k]);
                assert(rest.contains(y));
            }
        }
        if c.contains(y) {
            let k = choose|k: int|
                0 <= k < entries.len() && #[trigger] entry_completion(
                    dir,
                    prefix,
                    entries[k],
                    require_executable,
                ) == Some(y);
            let e = entries[k];
            let slash = if e.is_dir {
                seq!['/']
            } else {
                Seq::<char>::empty()
            };
            assert(y == dir + e.name@ + slash);
            assert((dir + prefix) =~= y.take((dir + prefix).len() as int)) by {
                assert(prefix =~= e.name@.take(prefix.len() as int));
                assert forall|i: int| 0 <= i < (dir + prefix).len() implies (dir + prefix)[i]
                    == y[i] by {
                    if i >= dir.len() {
                        assert(y[i] == e.name@[i - dir.len()]);
                    }
                }
            }
        }
    }
}

} // verus!
