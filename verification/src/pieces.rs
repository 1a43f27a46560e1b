//! Texts cut into pieces at a separator character, as `str::split` cuts
//! them.
use vstd::prelude::*;

verus! {

/// Where the first `sep` at or after `j` stands, or the length of the text.
pub open spec fn first_sep(s: Seq<char>, sep: char, j: int) -> int
    decreases s.len() - j,
{
    if j >= s.len() || j < 0 {
        s.len() as int
    } else if s[j] == sep {
        j
    } else {
        first_sep(s, sep, j + 1)
    }
}

/// The pieces of a text between its `sep` characters, empty ones included,
/// as `str::split` gives them.
pub open spec fn split_pieces(s: Seq<char>, sep: char) -> Seq<Seq<char>>
    decreases s.len(),
{
    let k = first_sep(s, sep, 0);
    proof {
        lemma_first_sep_range(s, sep, 0);
    }
    if k >= s.len() {
        seq![s]
    } else {
        seq![s.take(k)] + split_pieces(s.skip(k + 1), sep)
    }
}

/// The first `sep` at or after `j` lies between `j` and the end.
pub proof fn lemma_first_sep_range(s: Seq<char>, sep: char, j: int)
    requires
        0 <= j <= s.len(),
    ensures
        j <= first_sep(s, sep, j) <= s.len(),
        first_sep(s, sep, j) < s.len() ==> s[first_sep(s, sep, j)] == sep,
    decreases s.len() - j,
{
    if j < s.len() && s[j] != sep {
        lemma_first_sep_range(s, sep, j + 1);
    }
}

/// Splits a text at each `sep`, as `str::split` does.
pub fn split_on(s: &[char], sep: char) -> (r: Vec<Vec<char>>)
    ensures
        r@.len() == split_pieces(s@, sep).len(),
        forall|i: int| 0 <= i < r@.len() ==> #[trigger] r@[i]@ == split_pieces(s@, sep)[i],
{
    let mut done: Vec<Vec<char>> = Vec::new();
    let mut cur: Vec<char> = Vec::new();
    let mut st: usize = 0;
    let mut i: usize = 0;
    proof {
        assert(s@.skip(0) =~= s@);
    }
    while i < s.len()
        invariant
            0 <= st <= i <= s.len(),
            cur@ == s@.subrange(st as int, i as int),
            first_sep(s@.skip(st as int), sep, 0) == first_sep(s@.skip(st as int), sep, i - st),
            done@.len() + split_pieces(s@.skip(st as int), sep).len() == split_pieces(s@, sep).len(),
            forall|k: int| 0 <= k < done@.len() ==> #[trigger] done@[k]@ == split_pieces(s@, sep)[k],
            forall|k: int|
                0 <= k < split_pieces(s@.skip(st as int), sep).len() ==> split_pieces(s@, sep)[done@.len() + k]
                    == #[trigger] split_pieces(s@.skip(st as int), sep)[k],
        decreases s.len() - i,
    {
        let ghost t = s@.skip(st as int);
        proof {
            assert(t[i - st] == s@[i as int]);
        }
        if s[i] == sep {
            let ghost t2 = s@.skip(i + 1);
            let ghost before = done@;
            proof {
                assert(first_sep(t, sep, i - st) == i - st);
                assert(t.take(i - st) =~= cur@);
                assert(t.skip(i - st + 1) =~= t2);
                assert(split_pieces(t, sep) == seq![t.take(i - st)] + split_pieces(t.skip(i - st + 1), sep));
                assert(split_pieces(t, sep)[0] == cur@);
                assert(split_pieces(s@, sep)[before.len() as int] == split_pieces(t, sep)[0]);
                assert forall|k: int| 0 <= k < split_pieces(t2, sep).len() implies split_pieces(s@, sep)[before.len()
                    + 1 + k] == #[trigger] split_pieces(t2, sep)[k] by {
                    assert(split_pieces(t, sep)[1 + k] == split_pieces(t2, sep)[k]);
                    assert(split_pieces(s@, sep)[before.len() + (1 + k)] == split_pieces(t, sep)[1 + k]);
                }
            }
            done.push(cur);
            cur = Vec::new();
            st = i + 1;
            proof {
                assert(cur@ =~= s@.subrange(st as int, st as int));
                assert(done@.len() == before.len() + 1);
                assert forall|k: int| 0 <= k < done@.len() implies #[trigger] done@[k]@
                    == split_pieces(s@, sep)[k] by {
                    if k < before.len() {
                        assert(done@[k] == before[k]);
                    }
                }
            }
        } else {
            cur.push(s[i]);
            proof {
                assert(s@.subrange(st as int, i + 1) =~= s@.subrange(st as int, i as int).push(
                    s@[i as int],
                ));
            }
        }
        i += 1;
    }
    proof {
        let t = s@.skip(st as int);
        assert(first_sep(t, sep, i - st) == t.len());
        assert(t =~= cur@);
        assert(split_pieces(t, sep) == seq![t]);
    }
    let ghost before = done@;
    done.push(cur);
    proof {
        let t = s@.skip(st as int);
        assert(split_pieces(s@, sep)[before.len() as int] == split_pieces(t, sep)[0]);
        assert forall|k: int| 0 <= k < done@.len() implies #[trigger] done@[k]@ == split_pieces(s@, sep)[k] by {
            if k < before.len() {
                assert(done@[k] == before[k]);
            }
        }
    }
    done
}

/// A split always gives at least one piece.
pub proof fn lemma_split_pieces_nonempty(s: Seq<char>, sep: char)
    ensures
        split_pieces(s, sep).len() >= 1,
    decreases s.len(),
{
    lemma_first_sep_range(s, sep, 0);
    let k = first_sep(s, sep, 0);
    if k < s.len() {
        lemma_split_pieces_nonempty(s.skip(k + 1), sep);
    }
}

/// Whether two texts are the same, character by character.
pub fn same_chars(a: &[char], b: &[char]) -> (r: bool)
    ensures
        r == (a@ == b@),
{
    if a.len() != b.len() {
        return false;
    }
    let mut i: usize = 0;
    while i < a.len()
        invariant
            0 <= i <= a.len(),
            a.len() == b.len(),
            a@.take(i as int) == b@.take(i as int),
        decreases a.len() - i,
    {
        if a[i] != b[i] {
            proof {
                assert(a@[i as int] != b@[i as int]);
            }
            return false;
        }
        proof {
            assert(a@.take(i + 1) =~= a@.take(i as int).push(a@[i as int]));
            assert(b@.take(i + 1) =~= b@.take(i as int).push(b@[i as int]));
        }
        i += 1;
    }
    proof {
        assert(a@ =~= a@.take(i as int));
        assert(b@ =~= b@.take(i as int));
    }
    true
}

} // verus!
