//! The decisions of the copy tool: its options from the command line, which
//! links it follows, what it does with each kind of file, and how it reads
//! a confirmation.
use vstd::prelude::*;
use crate::sizes::{trim, trimmed};
use crate::unicode::chars_of;

verus! {

/// Which symbolic links a copy follows.
#[derive(Debug, Copy, Clone, PartialEq, Eq, Structural)]
pub enum Follow {
    /// None: links are copied as links
    P,
    /// Those named on the command line
    H,
    /// All of them
    L,
}

/// The options of a copy.
#[derive(Debug, Copy, Clone, PartialEq, Eq, Structural)]
pub struct CopyOpts {
    pub archive: bool,
    pub force: bool,
    pub interactive: bool,
    pub preserve: bool,
    pub recursive: bool,
    pub follow: Follow,
}

/// The flags of the copy tool's command line.
#[derive(Debug, Copy, Clone, PartialEq, Eq, Structural)]
pub struct CopyFlags {
    pub archive: bool,
    pub force: bool,
    pub interactive: bool,
    pub preserve: bool,
    pub recursive: bool,
    pub follow_h: bool,
    pub follow_l: bool,
    pub follow_p: bool,
}

/// The options the flags give: `-a` implies `-r` and `-p`; `-L` wins over
/// `-H`, which wins over `-P`; without any of them a recursive copy follows
/// no link and another copy follows all.
pub open spec fn opts_of(f: CopyFlags) -> CopyOpts {
    let recursive = f.recursive || f.archive;
    CopyOpts {
        archive: f.archive,
        force: f.force,
        interactive: f.interactive,
        preserve: f.preserve || f.archive,
        recursive,
        follow: if f.follow_l {
            Follow::L
        } else if f.follow_h {
            Follow::H
        } else if f.follow_p || recursive {
            Follow::P
        } else {
            Follow::L
        },
    }
}

/// The options the flags of the command line give.
pub fn copy_opts(f: CopyFlags) -> (o: CopyOpts)
    ensures
        o == opts_of(f),
{
    let recursive = f.recursive || f.archive;
    let follow = if f.follow_l {
        Follow::L
    } else if f.follow_h {
        Follow::H
    } else if f.follow_p || recursive {
        Follow::P
    } else {
        Follow::L
    };
    CopyOpts {
        archive: f.archive,
        force: f.force,
        interactive: f.interactive,
        preserve: f.preserve || f.archive,
        recursive,
        follow,
    }
}

/// Whether the file at `depth` (0 for those named on the command line) is
/// looked at through a symbolic link, rather than as the link itself.
pub fn follows_links(follow: Follow, depth: usize) -> (b: bool)
    ensures
        b == (follow == Follow::L || (follow == Follow::H && depth == 0)),
{
    match follow {
        Follow::P => false,
        Follow::H => depth == 0,
        Follow::L => true,
    }
}

/// What a file to copy is.
#[derive(Debug, Copy, Clone, PartialEq, Eq, Structural)]
pub enum FileKind {
    Symlink,
    Directory,
    /// A block or character device, a socket, or a fifo
    Special,
    Regular,
}

/// What the copy does with a file.
#[derive(Debug, Copy, Clone, PartialEq, Eq, Structural)]
pub enum CopyPlan {
    /// Makes a link with the same target
    Link,
    /// Makes the directory and copies what it holds
    Directory,
    /// Refuses: the file is a directory and the copy is not recursive
    NotRecursive,
    /// Makes a node of the same kind
    Node,
    /// Copies the bytes
    Contents,
}

/// What the copy does with a file of that kind.
pub open spec fn plan_of(kind: FileKind, opts: CopyOpts) -> CopyPlan {
    match kind {
        FileKind::Symlink => CopyPlan::Link,
        FileKind::Directory => if opts.recursive {
            CopyPlan::Directory
        } else {
            CopyPlan::NotRecursive
        },
        FileKind::Special => if opts.archive {
            CopyPlan::Node
        } else {
            CopyPlan::Contents
        },
        FileKind::Regular => CopyPlan::Contents,
    }
}

/// What the copy does with a file of that kind.
pub fn copy_plan(kind: FileKind, opts: &CopyOpts) -> (p: CopyPlan)
    ensures
        p == plan_of(kind, *opts),
{
    match kind {
        FileKind::Symlink => CopyPlan::Link,
        FileKind::Directory => if opts.recursive {
            CopyPlan::Directory
        } else {
            CopyPlan::NotRecursive
        },
        FileKind::Special => if opts.archive {
            CopyPlan::Node
        } else {
            CopyPlan::Contents
        },
        FileKind::Regular => CopyPlan::Contents,
    }
}

/// Whether the copy keeps times and owners.
pub fn preserves_attributes(opts: &CopyOpts) -> (b: bool)
    ensures
        b == (opts.archive || opts.preserve),
{
    opts.archive || opts.preserve
}

/// The set-user-ID bit of a mode.
pub const S_ISUID: u32 = 0o4000;

/// The set-group-ID bit of a mode.
pub const S_ISGID: u32 = 0o2000;

/// A mode without its set-user-ID and set-group-ID bits, as set when the
/// owner could not be kept.
pub fn stripped_mode(mode: u32) -> (m: u32)
    ensures
        m == mode & !(S_ISUID | S_ISGID),
{
    mode & !(S_ISUID | S_ISGID)
}

/// Whether the sources are copied into the destination directory: unless
/// there is one source and the destination is no directory.
pub fn copies_into(sources: usize, dest_is_dir: bool) -> (b: bool)
    ensures
        b == !(sources == 1 && !dest_is_dir),
{
    !(sources == 1 && !dest_is_dir)
}

/// Whether two files, each known by its device and inode where it exists,
/// are the same file.
pub fn is_same_file(a: Option<(u64, u64)>, b: Option<(u64, u64)>) -> (r: bool)
    ensures
        r == (a is Some && b is Some && a == b),
{
    match (a, b) {
        (Some((da, ia)), Some((db, ib))) => da == db && ia == ib,
        _ => false,
    }
}

/// The answers that confirm, once trimmed.
pub open spec fn confirming(t: Seq<char>) -> bool {
    t == "y"@ || t == "Y"@ || t == "yes"@ || t == "Yes"@ || t == "YES"@
}

fn same_text(a: &Vec<char>, b: &str) -> (r: bool)
    ensures
        r == (a@ == b@),
{
    let bs = chars_of(b);
    if a.len() != bs.len() {
        return false;
    }
    let mut i: usize = 0;
    while i < a.len()
        invariant
            0 <= i <= a.len(),
            a@.len() == bs@.len(),
            bs@ == b@,
            forall|k: int| 0 <= k < i ==> a@[k] == bs@[k],
        decreases a.len() - i,
    {
        if a[i] != bs[i] {
            return false;
        }
        i += 1;
    }
    assert(a@ =~= bs@);
    true
}

/// Whether a line read as the answer to a question confirms it.
pub fn is_confirmation(line: &str) -> (b: bool)
    ensures
        b == confirming(trimmed(line@)),
{
    let t = trim(chars_of(line).as_slice());
    same_text(&t, "y") || same_text(&t, "Y") || same_text(&t, "yes") || same_text(&t, "Yes")
        || same_text(&t, "YES")
}

} // verus!
