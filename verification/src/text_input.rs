//! The editing model of the command line input: a text held as grapheme
//! clusters, a cursor that is either a caret or a selection, and an editor
//! that applies insertions and deletions to both.
use vstd::prelude::*;
use crate::unicode::{
    concat_strings, count_graphemes, grapheme_clusters, has_non_white_space, has_non_whitespace,
    split_graphemes, split_word_bounds, string_of, strings_view, word_bound_pieces, plain_ascii,
    single_chars,
};

verus! {

broadcast use Seq::lemma_flatten_push;

/// The state of a [`Cursor`].
#[derive(Debug, Copy, Clone, PartialEq, Eq, Structural)]
pub enum CursorState {
    /// Cursor without a selection
    Index(usize),
    /// Cursor selecting a range of text
    Selection {
        /// The start of the selection
        start: usize,
        /// The end of the selection
        end: usize,
    },
}

/// Which side of a text input an icon stands on.
#[derive(Debug, Copy, Clone, PartialEq, Eq, Structural)]
pub enum Side {
    /// The left side
    Left,
    /// The right side
    Right,
}

/// The interaction status of a text input.
#[derive(Debug, Copy, Clone, PartialEq, Eq, Structural)]
pub enum Status {
    /// Not interacted with
    Active,
    /// Under the mouse
    Hovered,
    /// Focused, possibly under the mouse as well
    Focused { is_hovered: bool },
    /// Cannot be interacted with
    Disabled,
}

/// The smaller of two indices.
pub open spec fn min_index(a: usize, b: usize) -> usize {
    if a <= b { a } else { b }
}

/// The larger of two indices.
pub open spec fn max_index(a: usize, b: usize) -> usize {
    if a <= b { b } else { a }
}

/// A cursor state with every position brought within a text of `len`
/// graphemes; an empty selection becomes a caret.
pub open spec fn clamp_state(s: CursorState, len: usize) -> CursorState {
    match s {
        CursorState::Index(i) => CursorState::Index(min_index(i, len)),
        CursorState::Selection { start, end } => {
            let s2 = min_index(start, len);
            let e2 = min_index(end, len);
            if s2 == e2 {
                CursorState::Index(s2)
            } else {
                CursorState::Selection { start: s2, end: e2 }
            }
        },
    }
}

/// The state that `select_range(start, end)` sets.
pub open spec fn range_state(start: usize, end: usize) -> CursorState {
    if start == end {
        CursorState::Index(start)
    } else {
        CursorState::Selection { start, end }
    }
}

/// The ordered selection of a clamped state, if it selects anything.
pub open spec fn selection_of(s: CursorState) -> Option<(usize, usize)> {
    match s {
        CursorState::Selection { start, end } => Some(
            (min_index(start, end), max_index(start, end)),
        ),
        CursorState::Index(_) => None,
    }
}

/// The left edge of a clamped state.
pub open spec fn left_of(s: CursorState) -> usize {
    match s {
        CursorState::Index(i) => i,
        CursorState::Selection { start, end } => min_index(start, end),
    }
}

/// The right edge of a clamped state.
pub open spec fn right_of(s: CursorState) -> usize {
    match s {
        CursorState::Index(i) => i,
        CursorState::Selection { start, end } => max_index(start, end),
    }
}

/// The raw start position of a state.
pub open spec fn start_of(s: CursorState) -> usize {
    match s {
        CursorState::Index(i) => i,
        CursorState::Selection { start, .. } => start,
    }
}

/// The raw end position of a state.
pub open spec fn end_of(s: CursorState) -> usize {
    match s {
        CursorState::Index(i) => i,
        CursorState::Selection { end, .. } => end,
    }
}

/// The state after moving left by one grapheme in a text of `len` graphemes.
pub open spec fn moved_left(s: CursorState, len: usize) -> CursorState {
    match clamp_state(s, len) {
        CursorState::Index(i) => if i > 0 {
            CursorState::Index((i - 1) as usize)
        } else {
            CursorState::Index(0)
        },
        CursorState::Selection { start, end } => CursorState::Index(min_index(start, end)),
    }
}

/// The state after moving right by `amount` graphemes in a text of `len`
/// graphemes.
pub open spec fn moved_right(s: CursorState, len: usize, amount: usize) -> CursorState {
    match clamp_state(s, len) {
        CursorState::Index(i) => CursorState::Index(
            if i + amount <= len {
                (i + amount) as usize
            } else {
                len
            },
        ),
        CursorState::Selection { start, end } => CursorState::Index(max_index(start, end)),
    }
}

/// The text that results from a sequence of graphemes: it is segmented anew.
pub open spec fn resegmented(g: Seq<Seq<char>>) -> Seq<Seq<char>> {
    grapheme_clusters(g.flatten())
}

/// The graphemes `[start, end)` replaced by nothing.
pub open spec fn removed_range(g: Seq<Seq<char>>, start: int, end: int) -> Seq<Seq<char>> {
    g.take(start) + g.skip(end)
}

/// Index of the last piece that holds a character other than white space,
/// among the first `n` pieces; `-1` if there is none.
pub open spec fn last_word_piece(pieces: Seq<Seq<char>>, n: int) -> int
    decreases n,
{
    if n <= 0 {
        -1
    } else if has_non_white_space(pieces[n - 1]) {
        n - 1
    } else {
        last_word_piece(pieces, n - 1)
    }
}

/// Index of the first piece from `k` on that holds a character other than
/// white space; `pieces.len()` if there is none.
pub open spec fn first_word_piece(pieces: Seq<Seq<char>>, k: int) -> int
    decreases pieces.len() - k,
{
    if k >= pieces.len() || k < 0 {
        pieces.len() as int
    } else if has_non_white_space(pieces[k]) {
        k
    } else {
        first_word_piece(pieces, k + 1)
    }
}

/// Where a move by words to the left lands from grapheme `index` of `g`: the
/// start of the last word before it, counted in graphemes back from `index`,
/// or 0 when there is no such word (or the count exceeds `index`).
pub open spec fn word_start_before(g: Seq<Seq<char>>, index: usize) -> usize {
    let before = g.take(min_index(index, g.len() as usize) as int).flatten();
    let pieces = word_bound_pieces(before);
    let k = last_word_piece(pieces, pieces.len() as int);
    if k < 0 {
        0
    } else {
        let back = grapheme_clusters(pieces[k]).len() + grapheme_clusters(
            pieces.skip(k + 1).flatten(),
        ).len();
        if back <= index {
            (index - back) as usize
        } else {
            0
        }
    }
}

/// Where a move by words to the right lands from grapheme `index` of `g`: the
/// end of the first word after it, or the end of the text when there is none.
pub open spec fn word_end_after(g: Seq<Seq<char>>, index: usize) -> usize {
    let after = g.skip(index as int).flatten();
    let pieces = word_bound_pieces(after);
    let k = first_word_piece(pieces, 0);
    if k >= pieces.len() {
        g.len() as usize
    } else {
        let ahead = grapheme_clusters(pieces[k]).len() + grapheme_clusters(
            pieces.take(k).flatten(),
        ).len();
        if index + ahead <= usize::MAX {
            (index + ahead) as usize
        } else {
            usize::MAX
        }
    }
}

/// The value of a text input: its text as a sequence of grapheme clusters.
#[derive(Debug, Clone)]
pub struct Value {
    graphemes: Vec<String>,
}

impl View for Value {
    type V = Seq<Seq<char>>;

    closed spec fn view(&self) -> Seq<Seq<char>> {
        strings_view(self.graphemes@)
    }
}

impl Value {
    /// Creates a value from a text, split into grapheme clusters.
    pub fn new(string: &str) -> (v: Value)
        ensures
            v@ == grapheme_clusters(string@),
            v@.flatten() == string@,
            plain_ascii(string@) ==> v@ == single_chars(string@),
            forall|i: int| 0 <= i < v@.len() ==> (#[trigger] v@[i]).len() > 0,
    {
        let g = split_graphemes(string);
        let v = Value { graphemes: g };
        proof {
            assert forall|i: int| 0 <= i < v@.len() implies (#[trigger] v@[i]).len() > 0 by {
                assert(v@[i] == g@[i]@);
            }
        }
        v
    }

    /// Whether the value holds no grapheme.
    pub fn is_empty(&self) -> (b: bool)
        ensures
            b == (self@.len() == 0),
    {
        self.len() == 0
    }

    /// The number of graphemes in the value.
    pub fn len(&self) -> (n: usize)
        ensures
            n == self@.len(),
    {
        self.graphemes.len()
    }

    /// The text of the value.
    pub fn to_string(&self) -> (s: String)
        ensures
            s@ == self@.flatten(),
    {
        concat_strings(self.graphemes.as_slice())
    }

    /// The position of the previous start of a word from grapheme `index`.
    pub fn previous_start_of_word(&self, index: usize) -> (r: usize)
        ensures
            r == word_start_before(self@, index),
    {
        let n = if index <= self.graphemes.len() { index } else { self.graphemes.len() };
        let mut prefix: Vec<String> = Vec::new();
        let mut i: usize = 0;
        while i < n
            invariant
                n <= self.graphemes.len(),
                0 <= i <= n,
                prefix@ == self.graphemes@.take(i as int),
            decreases n - i,
        {
            prefix.push(self.graphemes[i].clone());
            proof {
                assert(self.graphemes@.take(i + 1) == self.graphemes@.take(i as int).push(
                    self.graphemes@[i as int],
                ));
            }
            i += 1;
        }
        let before = concat_strings(prefix.as_slice());
        proof {
            assert(strings_view(prefix@) == self@.take(n as int));
        }
        let pieces = split_word_bounds(before.as_str());
        let ghost pv = word_bound_pieces(before@);
        let mut k: usize = pieces.len();
        while k > 0
            invariant_except_break
                strings_view(pieces@) == pv,
                0 <= k <= pieces.len(),
                last_word_piece(pv, pieces.len() as int) == last_word_piece(pv, k as int),
            ensures
                strings_view(pieces@) == pv,
                0 <= k <= pieces.len(),
                k == 0 ==> last_word_piece(pv, pieces.len() as int) == -1,
                k > 0 ==> last_word_piece(pv, pieces.len() as int) == k - 1,
            decreases k,
        {
            if has_non_whitespace(pieces[k - 1].as_str()) {
                proof {
                    assert(pv[k - 1] == pieces@[k - 1]@);
                }
                break;
            }
            proof {
                assert(pv[k - 1] == pieces@[k - 1]@);
            }
            k -= 1;
        }
        if k == 0 {
            return 0;
        }
        let k = k - 1;
        proof {
            assert(pv[k as int] == pieces@[k as int]@);
        }
        let word_len = count_graphemes(pieces[k].as_str());
        let mut rest: Vec<String> = Vec::new();
        let mut j: usize = k + 1;
        while j < pieces.len()
            invariant
                k < pieces.len(),
                k + 1 <= j <= pieces.len(),
                rest@ == pieces@.subrange(k + 1, j as int),
            decreases pieces.len() - j,
        {
            rest.push(pieces[j].clone());
            proof {
                assert(pieces@.subrange(k + 1, j + 1) == pieces@.subrange(k + 1, j as int).push(
                    pieces@[j as int],
                ));
            }
            j += 1;
        }
        proof {
            assert(pieces@.subrange(k + 1, pieces@.len() as int) == pieces@.skip(k + 1));
            assert(strings_view(rest@) == pv.skip(k + 1));
        }
        let after = concat_strings(rest.as_slice());
        let after_len = count_graphemes(after.as_str());
        if word_len <= index && after_len <= index - word_len {
            index - word_len - after_len
        } else {
            0
        }
    }

    /// The position of the next end of a word from grapheme `index`.
    pub fn next_end_of_word(&self, index: usize) -> (r: usize)
        requires
            index <= self@.len(),
        ensures
            r == word_end_after(self@, index),
    {
        let mut suffix: Vec<String> = Vec::new();
        let mut i: usize = index;
        while i < self.graphemes.len()
            invariant
                index <= i <= self.graphemes.len(),
                suffix@ == self.graphemes@.subrange(index as int, i as int),
            decreases self.graphemes.len() - i,
        {
            suffix.push(self.graphemes[i].clone());
            proof {
                assert(self.graphemes@.subrange(index as int, i + 1) == self.graphemes@.subrange(
                    index as int,
                    i as int,
                ).push(self.graphemes@[i as int]));
            }
            i += 1;
        }
        proof {
            assert(self.graphemes@.subrange(index as int, self.graphemes@.len() as int)
                == self.graphemes@.skip(index as int));
            assert(strings_view(suffix@) == self@.skip(index as int));
        }
        let after = concat_strings(suffix.as_slice());
        let pieces = split_word_bounds(after.as_str());
        let ghost pv = word_bound_pieces(after@);
        let mut k: usize = 0;
        while k < pieces.len()
            invariant_except_break
                strings_view(pieces@) == pv,
                0 <= k <= pieces.len(),
                first_word_piece(pv, 0) == first_word_piece(pv, k as int),
            ensures
                strings_view(pieces@) == pv,
                0 <= k <= pieces.len(),
                first_word_piece(pv, 0) == first_word_piece(pv, k as int),
                k < pieces.len() ==> has_non_white_space(pv[k as int]),
            decreases pieces.len() - k,
        {
            if has_non_whitespace(pieces[k].as_str()) {
                proof {
                    assert(pv[k as int] == pieces@[k as int]@);
                }
                break;
            }
            proof {
                assert(pv[k as int] == pieces@[k as int]@);
            }
            k += 1;
        }
        if k == pieces.len() {
            return self.graphemes.len();
        }
        proof {
            assert(pv[k as int] == pieces@[k as int]@);
            assert(first_word_piece(pv, k as int) == k);
        }
        let word_len = count_graphemes(pieces[k].as_str());
        let mut lead: Vec<String> = Vec::new();
        let mut j: usize = 0;
        while j < k
            invariant
                k < pieces.len(),
                0 <= j <= k,
                lead@ == pieces@.take(j as int),
            decreases k - j,
        {
            lead.push(pieces[j].clone());
            proof {
                assert(pieces@.take(j + 1) == pieces@.take(j as int).push(pieces@[j as int]));
            }
            j += 1;
        }
        proof {
            assert(strings_view(lead@) == pv.take(k as int));
        }
        let between = concat_strings(lead.as_slice());
        let lead_len = count_graphemes(between.as_str());
        if word_len <= usize::MAX - index && lead_len <= usize::MAX - index - word_len {
            index + word_len + lead_len
        } else {
            usize::MAX
        }
    }

    /// A new value holding the graphemes from `start` until `end`.
    pub fn select(&self, start: usize, end: usize) -> (v: Value)
        requires
            min_index(start, self@.len() as usize) <= min_index(end, self@.len() as usize),
        ensures
            v@ == self@.subrange(
                min_index(start, self@.len() as usize) as int,
                min_index(end, self@.len() as usize) as int,
            ),
    {
        let len = self.graphemes.len();
        let s = if start <= len { start } else { len };
        let e = if end <= len { end } else { len };
        let mut out: Vec<String> = Vec::new();
        let mut i: usize = s;
        while i < e
            invariant
                s <= i <= e <= self.graphemes.len(),
                out@ == self.graphemes@.subrange(s as int, i as int),
            decreases e - i,
        {
            out.push(self.graphemes[i].clone());
            proof {
                assert(self.graphemes@.subrange(s as int, i + 1) == self.graphemes@.subrange(
                    s as int,
                    i as int,
                ).push(self.graphemes@[i as int]));
            }
            i += 1;
        }
        Value { graphemes: out }
    }

    /// A new value holding the same graphemes.
    pub fn duplicate(&self) -> (v: Value)
        ensures
            v@ == self@,
    {
        let v = self.select(0, self.len());
        proof {
            assert(self@.subrange(0, self@.len() as int) =~= self@);
        }
        v
    }

    /// A new value holding the graphemes until `index`.
    pub fn until(&self, index: usize) -> (v: Value)
        ensures
            v@ == self@.take(min_index(index, self@.len() as usize) as int),
    {
        let v = self.select(0, index);
        proof {
            assert(self@.subrange(0, min_index(index, self@.len() as usize) as int) == self@.take(
                min_index(index, self@.len() as usize) as int,
            ));
        }
        v
    }

    /// Inserts a character at grapheme `index`; the text is then segmented
    /// anew, as the character may join a neighbouring grapheme.
    pub fn insert(&mut self, index: usize, c: char)
        requires
            index <= old(self)@.len(),
        ensures
            final(self)@ == resegmented(old(self)@.insert(index as int, seq![c])),
            final(self)@.flatten() == old(self)@.take(index as int).flatten() + seq![c] + old(
                self,
            )@.skip(index as int).flatten(),
            plain_ascii(final(self)@.flatten()) ==> final(self)@ == single_chars(final(self)@.flatten()),
    {
        let cs = [c];
        let s = string_of(&cs);
        proof {
            assert(cs@ =~= seq![c]);
        }
        self.graphemes.insert(index, s);
        proof {
            assert(strings_view(self.graphemes@) =~= old(self)@.insert(index as int, seq![c]));
        }
        let text = self.to_string();
        self.graphemes = split_graphemes(text.as_str());
        proof {
            let g = old(self)@;
            let i = index as int;
            assert(g.insert(i, seq![c]) =~= g.take(i) + seq![seq![c]] + g.skip(i));
            vstd::seq_lib::lemma_flatten_concat(g.take(i) + seq![seq![c]], g.skip(i));
            vstd::seq_lib::lemma_flatten_concat(g.take(i), seq![seq![c]]);
            seq![seq![c]].lemma_flatten_one_element();
        }
    }

    /// Inserts the graphemes of `value` at grapheme `index`.
    pub fn insert_many(&mut self, index: usize, value: Value)
        requires
            index <= old(self)@.len(),
        ensures
            final(self)@ == old(self)@.take(index as int) + value@ + old(self)@.skip(index as int),
    {
        let mut out: Vec<String> = Vec::new();
        let mut i: usize = 0;
        while i < index
            invariant
                index <= self.graphemes.len(),
                0 <= i <= index,
                out@ == self.graphemes@.take(i as int),
            decreases index - i,
        {
            out.push(self.graphemes[i].clone());
            proof {
                assert(self.graphemes@.take(i + 1) == self.graphemes@.take(i as int).push(
                    self.graphemes@[i as int],
                ));
            }
            i += 1;
        }
        let mut j: usize = 0;
        while j < value.graphemes.len()
            invariant
                index <= self.graphemes.len(),
                0 <= j <= value.graphemes.len(),
                out@ == self.graphemes@.take(index as int) + value.graphemes@.take(j as int),
            decreases value.graphemes.len() - j,
        {
            out.push(value.graphemes[j].clone());
            proof {
                assert(value.graphemes@.take(j + 1) == value.graphemes@.take(j as int).push(
                    value.graphemes@[j as int],
                ));
            }
            j += 1;
        }
        let mut k: usize = index;
        while k < self.graphemes.len()
            invariant
                index <= k <= self.graphemes.len(),
                out@ == self.graphemes@.take(index as int) + value.graphemes@
                    + self.graphemes@.subrange(index as int, k as int),
            decreases self.graphemes.len() - k,
        {
            proof {
                assert(value.graphemes@.take(value.graphemes@.len() as int) == value.graphemes@);
            }
            out.push(self.graphemes[k].clone());
            proof {
                assert(self.graphemes@.subrange(index as int, k + 1) == self.graphemes@.subrange(
                    index as int,
                    k as int,
                ).push(self.graphemes@[k as int]));
            }
            k += 1;
        }
        proof {
            assert(value.graphemes@.take(value.graphemes@.len() as int) == value.graphemes@);
            assert(self.graphemes@.subrange(index as int, self.graphemes@.len() as int)
                == self.graphemes@.skip(index as int));
            assert(strings_view(out@) == old(self)@.take(index as int) + value@ + old(
                self,
            )@.skip(index as int));
        }
        self.graphemes = out;
    }

    /// Removes the grapheme at `index`.
    pub fn remove(&mut self, index: usize)
        requires
            index < old(self)@.len(),
        ensures
            final(self)@ == old(self)@.remove(index as int),
    {
        let _ = self.graphemes.remove(index);
        proof {
            assert(strings_view(self.graphemes@) == old(self)@.remove(index as int));
        }
    }

    /// Removes the graphemes from `start` to `end`.
    pub fn remove_many(&mut self, start: usize, end: usize)
        requires
            start <= end <= old(self)@.len(),
        ensures
            final(self)@ == removed_range(old(self)@, start as int, end as int),
    {
        let mut out: Vec<String> = Vec::new();
        let mut i: usize = 0;
        while i < start
            invariant
                start <= end <= self.graphemes.len(),
                0 <= i <= start,
                out@ == self.graphemes@.take(i as int),
            decreases start - i,
        {
            out.push(self.graphemes[i].clone());
            proof {
                assert(self.graphemes@.take(i + 1) == self.graphemes@.take(i as int).push(
                    self.graphemes@[i as int],
                ));
            }
            i += 1;
        }
        let mut k: usize = end;
        while k < self.graphemes.len()
            invariant
                start <= end <= k <= self.graphemes.len(),
                out@ == self.graphemes@.take(start as int) + self.graphemes@.subrange(
                    end as int,
                    k as int,
                ),
            decreases self.graphemes.len() - k,
        {
            out.push(self.graphemes[k].clone());
            proof {
                assert(self.graphemes@.subrange(end as int, k + 1) == self.graphemes@.subrange(
                    end as int,
                    k as int,
                ).push(self.graphemes@[k as int]));
            }
            k += 1;
        }
        proof {
            assert(self.graphemes@.subrange(end as int, self.graphemes@.len() as int)
                == self.graphemes@.skip(end as int));
            assert(strings_view(out@) == removed_range(old(self)@, start as int, end as int));
        }
        self.graphemes = out;
    }
}


/// The cursor of a text input.
#[derive(Debug, Copy, Clone, PartialEq, Eq, Structural)]
pub struct Cursor {
    state: CursorState,
}

impl View for Cursor {
    type V = CursorState;

    closed spec fn view(&self) -> CursorState {
        self.state
    }
}

impl Default for Cursor {
    fn default() -> (c: Cursor)
        ensures
            c@ == CursorState::Index(0),
    {
        Cursor { state: CursorState::Index(0) }
    }
}

/// Two cursors are equal exactly when their states are.
pub proof fn lemma_cursor_equal_iff_state_equal(a: Cursor, b: Cursor)
    ensures
        (a == b) == (a@ == b@),
{
}

/// The state after extending the selection one grapheme to the left.
pub open spec fn selected_left(s: CursorState, len: usize) -> CursorState {
    match clamp_state(s, len) {
        CursorState::Index(i) => if i > 0 {
            range_state(i, (i - 1) as usize)
        } else {
            s
        },
        CursorState::Selection { start, end } => if end > 0 {
            range_state(start, (end - 1) as usize)
        } else {
            s
        },
    }
}

/// The state after extending the selection one grapheme to the right.
pub open spec fn selected_right(s: CursorState, len: usize) -> CursorState {
    match clamp_state(s, len) {
        CursorState::Index(i) => if i < len {
            range_state(i, (i + 1) as usize)
        } else {
            s
        },
        CursorState::Selection { start, end } => if end < len {
            range_state(start, (end + 1) as usize)
        } else {
            s
        },
    }
}

impl Cursor {
    /// Creates a cursor in a given state.
    pub fn new(state: CursorState) -> (c: Cursor)
        ensures
            c@ == state,
    {
        Cursor { state }
    }

    /// The state of the cursor, brought within `value`.
    pub fn state(&self, value: &Value) -> (r: CursorState)
        ensures
            r == clamp_state(self@, value@.len() as usize),
    {
        let len = value.len();
        match self.state {
            CursorState::Index(index) => CursorState::Index(if index <= len { index } else { len }),
            CursorState::Selection { start, end } => {
                let start = if start <= len { start } else { len };
                let end = if end <= len { end } else { len };
                if start == end {
                    CursorState::Index(start)
                } else {
                    CursorState::Selection { start, end }
                }
            },
        }
    }

    /// The current selection within `value`, its start before its end.
    pub fn selection(&self, value: &Value) -> (r: Option<(usize, usize)>)
        ensures
            r == selection_of(clamp_state(self@, value@.len() as usize)),
            r matches Some((a, b)) ==> a < b <= value@.len(),
    {
        match self.state(value) {
            CursorState::Selection { start, end } => Some(
                (if start <= end { start } else { end }, if start <= end { end } else { start }),
            ),
            CursorState::Index(_) => None,
        }
    }

    /// Places a caret at `position`.
    pub fn move_to(&mut self, position: usize)
        ensures
            final(self)@ == CursorState::Index(position),
    {
        self.state = CursorState::Index(position);
    }

    /// Moves one grapheme to the right.
    pub fn move_right(&mut self, value: &Value)
        ensures
            final(self)@ == moved_right(old(self)@, value@.len() as usize, 1),
    {
        self.move_right_by_amount(value, 1);
    }

    /// Moves to the end of the next word.
    pub fn move_right_by_words(&mut self, value: &Value)
        ensures
            final(self)@ == CursorState::Index(
                word_end_after(value@, right_of(clamp_state(old(self)@, value@.len() as usize))),
            ),
    {
        let r = self.right(value);
        self.move_to(value.next_end_of_word(r));
    }

    /// Moves `amount` graphemes to the right, at most to the end of `value`;
    /// a selection collapses to its right edge.
    pub fn move_right_by_amount(&mut self, value: &Value, amount: usize)
        ensures
            final(self)@ == moved_right(old(self)@, value@.len() as usize, amount),
    {
        match self.state(value) {
            CursorState::Index(index) => {
                let len = value.len();
                let target = if index <= usize::MAX - amount {
                    index + amount
                } else {
                    usize::MAX
                };
                self.move_to(if target <= len { target } else { len });
            },
            CursorState::Selection { start, end } => self.move_to(
                if end >= start { end } else { start },
            ),
        }
    }

    /// Moves one grapheme to the left; a selection collapses to its left edge.
    pub fn move_left(&mut self, value: &Value)
        ensures
            final(self)@ == moved_left(old(self)@, value@.len() as usize),
    {
        match self.state(value) {
            CursorState::Index(index) if index > 0 => self.move_to(index - 1),
            CursorState::Selection { start, end } => self.move_to(
                if start <= end { start } else { end },
            ),
            CursorState::Index(_) => self.move_to(0),
        }
    }

    /// Moves to the start of the previous word.
    pub fn move_left_by_words(&mut self, value: &Value)
        ensures
            final(self)@ == CursorState::Index(
                word_start_before(value@, left_of(clamp_state(old(self)@, value@.len() as usize))),
            ),
    {
        let l = self.left(value);
        self.move_to(value.previous_start_of_word(l));
    }

    /// Selects from `start` to `end`; an empty range is a caret.
    pub fn select_range(&mut self, start: usize, end: usize)
        ensures
            final(self)@ == range_state(start, end),
    {
        if start == end {
            self.state = CursorState::Index(start);
        } else {
            self.state = CursorState::Selection { start, end };
        }
    }

    /// Extends the selection one grapheme to the left.
    pub fn select_left(&mut self, value: &Value)
        ensures
            final(self)@ == selected_left(old(self)@, value@.len() as usize),
    {
        match self.state(value) {
            CursorState::Index(index) => {
                if index > 0 {
                    self.select_range(index, index - 1);
                }
            },
            CursorState::Selection { start, end } => {
                if end > 0 {
                    self.select_range(start, end - 1);
                }
            },
        }
    }

    /// Extends the selection one grapheme to the right.
    pub fn select_right(&mut self, value: &Value)
        ensures
            final(self)@ == selected_right(old(self)@, value@.len() as usize),
    {
        let len = value.len();
        match self.state(value) {
            CursorState::Index(index) => {
                if index < len {
                    self.select_range(index, index + 1);
                }
            },
            CursorState::Selection { start, end } => {
                if end < len {
                    self.select_range(start, end + 1);
                }
            },
        }
    }

    /// Extends the selection to the start of the previous word.
    pub fn select_left_by_words(&mut self, value: &Value)
        ensures
            final(self)@ == (match clamp_state(old(self)@, value@.len() as usize) {
                CursorState::Index(i) => range_state(i, word_start_before(value@, i)),
                CursorState::Selection { start, end } => range_state(
                    start,
                    word_start_before(value@, end),
                ),
            }),
    {
        match self.state(value) {
            CursorState::Index(index) => {
                self.select_range(index, value.previous_start_of_word(index));
            },
            CursorState::Selection { start, end } => {
                self.select_range(start, value.previous_start_of_word(end));
            },
        }
    }

    /// Extends the selection to the end of the next word.
    pub fn select_right_by_words(&mut self, value: &Value)
        ensures
            final(self)@ == (match clamp_state(old(self)@, value@.len() as usize) {
                CursorState::Index(i) => range_state(i, word_end_after(value@, i)),
                CursorState::Selection { start, end } => range_state(
                    start,
                    word_end_after(value@, end),
                ),
            }),
    {
        match self.state(value) {
            CursorState::Index(index) => {
                self.select_range(index, value.next_end_of_word(index));
            },
            CursorState::Selection { start, end } => {
                self.select_range(start, value.next_end_of_word(end));
            },
        }
    }

    /// Selects the whole of `value`.
    pub fn select_all(&mut self, value: &Value)
        ensures
            final(self)@ == range_state(0, value@.len() as usize),
    {
        self.select_range(0, value.len());
    }

    /// The start of the cursor, brought within `value`.
    pub fn start(&self, value: &Value) -> (r: usize)
        ensures
            r == min_index(start_of(self@), value@.len() as usize),
    {
        let start = match self.state {
            CursorState::Index(index) => index,
            CursorState::Selection { start, .. } => start,
        };
        let len = value.len();
        if start <= len { start } else { len }
    }

    /// The end of the cursor, brought within `value`.
    pub fn end(&self, value: &Value) -> (r: usize)
        ensures
            r == min_index(end_of(self@), value@.len() as usize),
    {
        let end = match self.state {
            CursorState::Index(index) => index,
            CursorState::Selection { end, .. } => end,
        };
        let len = value.len();
        if end <= len { end } else { len }
    }

    fn left(&self, value: &Value) -> (r: usize)
        ensures
            r == left_of(clamp_state(self@, value@.len() as usize)),
            r <= value@.len(),
    {
        match self.state(value) {
            CursorState::Index(index) => index,
            CursorState::Selection { start, end } => if start <= end { start } else { end },
        }
    }

    fn right(&self, value: &Value) -> (r: usize)
        ensures
            r == right_of(clamp_state(self@, value@.len() as usize)),
            r <= value@.len(),
    {
        match self.state(value) {
            CursorState::Index(index) => index,
            CursorState::Selection { start, end } => if start <= end { end } else { start },
        }
    }
}


/// The text and cursor after the selection, if any, is cut out: the cursor
/// moves to the selection's left edge.
pub open spec fn cut_selection(v: Seq<Seq<char>>, c: CursorState) -> (Seq<Seq<char>>, CursorState) {
    match selection_of(clamp_state(c, v.len() as usize)) {
        Some((l, r)) => (removed_range(v, l as int, r as int), moved_left(c, v.len() as usize)),
        None => (v, c),
    }
}

/// The text and cursor after typing `ch`: the selection is replaced by it.
pub open spec fn typed(v: Seq<Seq<char>>, c: CursorState, ch: char) -> (
    Seq<Seq<char>>,
    CursorState,
) {
    let (v1, c1) = cut_selection(v, c);
    let v2 = resegmented(v1.insert(min_index(end_of(c1), v1.len() as usize) as int, seq![ch]));
    (v2, moved_right(c1, v2.len() as usize, 1))
}

/// The characters of the text after typing `ch`: those before the caret, once
/// the selection is cut out, then `ch`, then those after it.
pub open spec fn typed_text(v: Seq<Seq<char>>, c: CursorState, ch: char) -> Seq<char> {
    let (v1, c1) = cut_selection(v, c);
    let at = min_index(end_of(c1), v1.len() as usize) as int;
    v1.take(at).flatten() + seq![ch] + v1.skip(at).flatten()
}

/// The text and cursor after pasting `content`: the selection is replaced by
/// it, and the caret lands after it.
pub open spec fn pasted(v: Seq<Seq<char>>, c: CursorState, content: Seq<Seq<char>>) -> (
    Seq<Seq<char>>,
    CursorState,
) {
    let (v1, c1) = cut_selection(v, c);
    let at = min_index(end_of(c1), v1.len() as usize) as int;
    let v2 = v1.take(at) + content + v1.skip(at);
    (v2, moved_right(c1, v2.len() as usize, content.len() as usize))
}

/// The text and cursor after a backspace: the selection goes, or else the
/// grapheme before the caret.
pub open spec fn backspaced(v: Seq<Seq<char>>, c: CursorState) -> (Seq<Seq<char>>, CursorState) {
    match selection_of(clamp_state(c, v.len() as usize)) {
        Some((l, r)) => (removed_range(v, l as int, r as int), moved_left(c, v.len() as usize)),
        None => {
            let start = min_index(start_of(c), v.len() as usize);
            if start > 0 {
                (v.remove(start - 1), moved_left(c, v.len() as usize))
            } else {
                (v, c)
            }
        },
    }
}

/// The text and cursor after a delete: the selection goes, or else the
/// grapheme after the caret.
pub open spec fn deleted(v: Seq<Seq<char>>, c: CursorState) -> (Seq<Seq<char>>, CursorState) {
    match selection_of(clamp_state(c, v.len() as usize)) {
        Some(_) => backspaced(v, c),
        None => {
            let end = min_index(end_of(c), v.len() as usize);
            if end < v.len() {
                (v.remove(end as int), c)
            } else {
                (v, c)
            }
        },
    }
}

/// Applies edits to a [`Value`] and its [`Cursor`] together.
pub struct Editor {
    value: Value,
    cursor: Cursor,
}

impl View for Editor {
    type V = (Seq<Seq<char>>, CursorState);

    closed spec fn view(&self) -> (Seq<Seq<char>>, CursorState) {
        (self.value@, self.cursor@)
    }
}

impl Editor {
    /// An editor over a value and its cursor.
    pub fn new(value: Value, cursor: Cursor) -> (e: Editor)
        ensures
            e@ == (value@, cursor@),
    {
        Editor { value, cursor }
    }

    /// The edited value and cursor.
    pub fn into_parts(self) -> (r: (Value, Cursor))
        ensures
            (r.0@, r.1@) == self@,
    {
        (self.value, self.cursor)
    }

    /// The cursor.
    pub fn cursor(&self) -> (c: Cursor)
        ensures
            c@ == self@.1,
    {
        self.cursor
    }

    /// The text of the edited value.
    pub fn contents(&self) -> (s: String)
        ensures
            s@ == self@.0.flatten(),
    {
        self.value.to_string()
    }

    fn cut(&mut self)
        ensures
            final(self)@ == cut_selection(old(self)@.0, old(self)@.1),
    {
        if let Some((left, right)) = self.cursor.selection(&self.value) {
            self.cursor.move_left(&self.value);
            self.value.remove_many(left, right);
        }
    }

    /// Types a character over the selection or at the caret.
    pub fn insert(&mut self, character: char)
        ensures
            final(self)@ == typed(old(self)@.0, old(self)@.1, character),
            final(self)@.0.flatten() == typed_text(old(self)@.0, old(self)@.1, character),
            plain_ascii(final(self)@.0.flatten()) ==> final(self)@.0 == single_chars(
                final(self)@.0.flatten(),
            ),
    {
        self.cut();
        let at = self.cursor.end(&self.value);
        self.value.insert(at, character);
        self.cursor.move_right(&self.value);
    }

    /// Pastes graphemes over the selection or at the caret.
    pub fn paste(&mut self, content: Value)
        ensures
            final(self)@ == pasted(old(self)@.0, old(self)@.1, content@),
    {
        let length = content.len();
        self.cut();
        let at = self.cursor.end(&self.value);
        self.value.insert_many(at, content);
        self.cursor.move_right_by_amount(&self.value, length);
    }

    /// Deletes the selection, or else the grapheme before the caret.
    pub fn backspace(&mut self)
        ensures
            final(self)@ == backspaced(old(self)@.0, old(self)@.1),
            selection_of(clamp_state(old(self)@.1, old(self)@.0.len() as usize)) is None
                && min_index(start_of(old(self)@.1), old(self)@.0.len() as usize) == 0
                ==> final(self)@ == old(self)@,
    {
        match self.cursor.selection(&self.value) {
            Some((start, end)) => {
                self.cursor.move_left(&self.value);
                self.value.remove_many(start, end);
            },
            None => {
                let start = self.cursor.start(&self.value);
                if start > 0 {
                    self.cursor.move_left(&self.value);
                    self.value.remove(start - 1);
                }
            },
        }
    }

    /// Deletes the selection, or else the grapheme after the caret.
    pub fn delete(&mut self)
        ensures
            final(self)@ == deleted(old(self)@.0, old(self)@.1),
            selection_of(clamp_state(old(self)@.1, old(self)@.0.len() as usize)) is None
                && min_index(end_of(old(self)@.1), old(self)@.0.len() as usize)
                == old(self)@.0.len() ==> final(self)@ == old(self)@,
    {
        match self.cursor.selection(&self.value) {
            Some(_) => {
                self.backspace();
            },
            None => {
                let end = self.cursor.end(&self.value);
                if end < self.value.len() {
                    self.value.remove(end);
                }
            },
        }
    }
}


/// Removing the graphemes just inserted gives the text back: `remove_many`
/// undoes `insert_many`.
pub proof fn law_remove_many_undoes_insert_many(v: Seq<Seq<char>>, i: int, w: Seq<Seq<char>>)
    requires
        0 <= i <= v.len(),
    ensures
        removed_range(v.take(i) + w + v.skip(i), i, i + w.len()) == v,
{
    let t = v.take(i) + w + v.skip(i);
    assert(t.take(i) =~= v.take(i));
    assert(t.skip(i + w.len()) =~= v.skip(i));
    assert(v.take(i) + v.skip(i) =~= v);
}

/// Bringing a cursor within a text twice is bringing it once.
pub proof fn law_clamp_idempotent(s: CursorState, len: usize)
    ensures
        clamp_state(clamp_state(s, len), len) == clamp_state(s, len),
{
}

/// Selecting all selects the whole text, unless it is empty.
pub proof fn law_select_all_selects_whole_text(len: usize)
    ensures
        selection_of(clamp_state(range_state(0, len), len)) == (if len > 0 {
            Some((0usize, len))
        } else {
            None
        }),
{
}

/// Moving one grapheme right and then one left returns a caret that is not
/// at the end of the text to where it was.
pub proof fn law_move_right_then_left(i: usize, len: usize)
    requires
        i < len,
    ensures
        moved_left(moved_right(CursorState::Index(i), len, 1), len) == CursorState::Index(i),
{
}

/// Moving one grapheme left and then one right returns a caret that is not
/// at the start of the text to where it was.
pub proof fn law_move_left_then_right(i: usize, len: usize)
    requires
        0 < i <= len,
    ensures
        moved_right(moved_left(CursorState::Index(i), len), len, 1) == CursorState::Index(i),
{
}

/// A backspace at a caret removes exactly the grapheme before it, and the
/// caret steps back over it.
pub proof fn law_backspace_removes_previous_grapheme(v: Seq<Seq<char>>, i: usize)
    requires
        0 < i <= v.len(),
        v.len() <= usize::MAX,
    ensures
        backspaced(v, CursorState::Index(i)) == (v.remove(i - 1), CursorState::Index(
            (i - 1) as usize,
        )),
{
}

/// A delete at a caret removes exactly the grapheme after it, and the caret
/// stays where it was.
pub proof fn law_delete_removes_next_grapheme(v: Seq<Seq<char>>, i: usize)
    requires
        i < v.len(),
        v.len() <= usize::MAX,
    ensures
        deleted(v, CursorState::Index(i)) == (v.remove(i as int), CursorState::Index(i)),
{
}

/// Pasting nothing at a caret leaves the text and the caret as they were.
pub proof fn law_paste_nothing_at_caret(v: Seq<Seq<char>>, i: usize)
    requires
        i <= v.len(),
        v.len() <= usize::MAX,
    ensures
        pasted(v, CursorState::Index(i), Seq::empty()) == (v, CursorState::Index(i)),
{
    assert(v.take(i as int) + Seq::<Seq<char>>::empty() + v.skip(i as int) =~= v);
}

} // verus!
