//! Finding commands: the directories of `PATH`, which files may be run,
//! and which entry of a directory a command name stands for.
use vstd::prelude::*;

verus! {

/// The byte that separates the directories of `PATH`.
pub const COLON: u8 = 58;

/// The byte that separates the parts of a file's path.
pub const SLASH: u8 = 47;

/// Pieces joined with a separator between each two.
pub open spec fn joined_by(ps: Seq<Seq<u8>>, sep: u8) -> Seq<u8>
    decreases ps.len(),
{
    if ps.len() == 0 {
        Seq::empty()
    } else if ps.len() == 1 {
        ps[0]
    } else {
        joined_by(ps.drop_last(), sep) + seq![sep] + ps.last()
    }
}

/// Whether bytes hold no `sep`.
pub open spec fn free_of(p: Seq<u8>, sep: u8) -> bool {
    forall|i: int| 0 <= i < p.len() ==> p[i] != sep
}

/// The bytes of each vector.
pub open spec fn bytes_view(v: Seq<Vec<u8>>) -> Seq<Seq<u8>> {
    v.map_values(|b: Vec<u8>| b@)
}

/// The value of `PATH`, empty where it is not set.
pub open spec fn path_value(path: Option<&[u8]>) -> Seq<u8> {
    match path {
        Some(p) => p@,
        None => Seq::empty(),
    }
}

proof fn lemma_joined_extend(ps: Seq<Seq<u8>>, c: Seq<u8>, b: u8, sep: u8)
    ensures
        joined_by(ps.push(c.push(b)), sep) == joined_by(ps.push(c), sep).push(b),
{
    let l = ps.push(c.push(b));
    let r = ps.push(c);
    assert(l.drop_last() =~= ps);
    assert(r.drop_last() =~= ps);
    if ps.len() == 0 {
        assert(l[0] == c.push(b));
    } else {
        assert(joined_by(l, sep) == joined_by(ps, sep) + seq![sep] + c.push(b));
        assert(joined_by(r, sep) == joined_by(ps, sep) + seq![sep] + c);
        assert(joined_by(l, sep) =~= joined_by(r, sep).push(b));
    }
}

proof fn lemma_joined_new_piece(ps: Seq<Seq<u8>>, c: Seq<u8>, sep: u8)
    ensures
        joined_by(ps.push(c).push(Seq::empty()), sep) == joined_by(ps.push(c), sep).push(sep),
{
    let l = ps.push(c).push(Seq::<u8>::empty());
    assert(l.drop_last() =~= ps.push(c));
    assert(joined_by(l, sep) =~= joined_by(ps.push(c), sep).push(sep));
}

/// The directories of a `PATH` value, in order: the pieces between its
/// colons, empty ones included.
pub fn path_from_env(path: Option<&[u8]>) -> (dirs: Vec<Vec<u8>>)
    ensures
        dirs@.len() >= 1,
        joined_by(bytes_view(dirs@), COLON) == path_value(path),
        forall|i: int| 0 <= i < dirs@.len() ==> free_of(#[trigger] dirs@[i]@, COLON),
{
    let mut dirs: Vec<Vec<u8>> = Vec::new();
    let mut cur: Vec<u8> = Vec::new();
    match path {
        None => {
            assert(bytes_view(dirs@).push(cur@) =~= seq![Seq::<u8>::empty()]);
        },
        Some(s) => {
            let mut i: usize = 0;
            assert(s@.take(0) =~= Seq::<u8>::empty());
            assert(bytes_view(dirs@).push(cur@) =~= seq![Seq::<u8>::empty()]);
            while i < s.len()
                invariant
                    0 <= i <= s.len(),
                    joined_by(bytes_view(dirs@).push(cur@), COLON) == s@.take(i as int),
                    free_of(cur@, COLON),
                    forall|k: int| 0 <= k < dirs@.len() ==> free_of(#[trigger] dirs@[k]@, COLON),
                decreases s.len() - i,
            {
                let ghost ps = bytes_view(dirs@);
                let ghost c = cur@;
                if s[i] == COLON {
                    dirs.push(cur);
                    cur = Vec::new();
                    proof {
                        lemma_joined_new_piece(ps, c, COLON);
                        assert(bytes_view(dirs@) =~= ps.push(c));
                        assert(bytes_view(dirs@).push(cur@) =~= ps.push(c).push(Seq::empty()));
                    }
                } else {
                    cur.push(s[i]);
                    proof {
                        lemma_joined_extend(ps, c, s@[i as int], COLON);
                        assert(cur@ =~= c.push(s@[i as int]));
                    }
                }
                assert(s@.take(i + 1) =~= s@.take(i as int).push(s@[i as int]));
                i += 1;
            }
            assert(s@.take(s@.len() as int) =~= s@);
        },
    }
    let ghost ps = bytes_view(dirs@);
    let ghost c = cur@;
    dirs.push(cur);
    assert(bytes_view(dirs@) =~= ps.push(c));
    dirs
}

/// Whether a file may be run: it exists, is no directory, and someone may
/// execute it.
pub open spec fn runnable(meta: Option<(bool, u32)>) -> bool {
    match meta {
        Some((is_dir, mode)) => !is_dir && mode & 0o111 != 0,
        None => false,
    }
}

/// Whether a file, known by whether it is a directory and its permission
/// bits, may be run.
pub fn is_valid_executable(meta: Option<(bool, u32)>) -> (b: bool)
    ensures
        b == runnable(meta),
{
    match meta {
        Some((is_dir, mode)) => !is_dir && mode & 0o111 != 0,
        None => false,
    }
}

/// Whether bytes hold a `/`: such a command names its file itself.
pub fn has_slash(cmd: &[u8]) -> (b: bool)
    ensures
        b == exists|i: int| 0 <= i < cmd@.len() && cmd@[i] == SLASH,
{
    let mut i: usize = 0;
    while i < cmd.len()
        invariant
            0 <= i <= cmd.len(),
            forall|k: int| 0 <= k < i ==> cmd@[k] != SLASH,
        decreases cmd.len() - i,
    {
        if cmd[i] == SLASH {
            return true;
        }
        i += 1;
    }
    false
}

fn same_bytes(a: &Vec<u8>, b: &[u8]) -> (r: bool)
    ensures
        r == (a@ == b@),
{
    if a.len() != b.len() {
        return false;
    }
    let mut i: usize = 0;
    while i < a.len()
        invariant
            0 <= i <= a.len(),
            a@.len() == b@.len(),
            forall|k: int| 0 <= k < i ==> a@[k] == b@[k],
        decreases a.len() - i,
    {
        if a[i] != b[i] {
            return false;
        }
        i += 1;
    }
    assert(a@ =~= b@);
    true
}

/// Whether entry `i` of a directory is the command: it bears its name and
/// may be run.
pub open spec fn entry_is(entries: Seq<(Vec<u8>, Option<(bool, u32)>)>, i: int, cmd: Seq<u8>) -> bool {
    entries[i].0@ == cmd && runnable(entries[i].1)
}

/// The first entry of a directory, each known by its name and what
/// `is_valid_executable` reads, that the command stands for.
pub fn find_executable(entries: &[(Vec<u8>, Option<(bool, u32)>)], cmd: &[u8]) -> (r: Option<usize>)
    ensures
        match r {
            Some(i) => i < entries@.len() && entry_is(entries@, i as int, cmd@) && forall|k: int|
                0 <= k < i ==> !entry_is(entries@, k, cmd@),
            None => forall|k: int| 0 <= k < entries@.len() ==> !entry_is(entries@, k, cmd@),
        },
{
    let mut i: usize = 0;
    while i < entries.len()
        invariant
            0 <= i <= entries.len(),
            forall|k: int| 0 <= k < i ==> !entry_is(entries@, k, cmd@),
        decreases entries.len() - i,
    {
        if same_bytes(&entries[i].0, cmd) && is_valid_executable(entries[i].1) {
            return Some(i);
        }
        i += 1;
    }
    None
}

} // verus!
