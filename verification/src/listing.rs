//! What a directory listing shows of a file's mode: its kind, and the
//! permission string in the style of `ls -l`.
use vstd::prelude::*;
use crate::unicode::string_of;

verus! {

/// The kind of a file, from the type bits of its mode.
#[derive(Debug, Copy, Clone, PartialEq, Eq, Structural)]
pub enum FileKind {
    RegularFile,
    Directory,
    Symlink,
    Fifo,
    Socket,
    CharacterDevice,
    BlockDevice,
    Unknown,
}

/// The kind that the type bits (`S_IFMT`) of a mode name.
pub open spec fn kind_of_mode(mode: u32) -> FileKind {
    let t = mode & 0o170000;
    if t == 0o100000 {
        FileKind::RegularFile
    } else if t == 0o040000 {
        FileKind::Directory
    } else if t == 0o120000 {
        FileKind::Symlink
    } else if t == 0o010000 {
        FileKind::Fifo
    } else if t == 0o140000 {
        FileKind::Socket
    } else if t == 0o020000 {
        FileKind::CharacterDevice
    } else if t == 0o060000 {
        FileKind::BlockDevice
    } else {
        FileKind::Unknown
    }
}

/// The kind of a file with mode `mode`.
pub fn file_kind(mode: u32) -> (k: FileKind)
    ensures
        k == kind_of_mode(mode),
{
    let t = mode & 0o170000;
    if t == 0o100000 {
        FileKind::RegularFile
    } else if t == 0o040000 {
        FileKind::Directory
    } else if t == 0o120000 {
        FileKind::Symlink
    } else if t == 0o010000 {
        FileKind::Fifo
    } else if t == 0o140000 {
        FileKind::Socket
    } else if t == 0o020000 {
        FileKind::CharacterDevice
    } else if t == 0o060000 {
        FileKind::BlockDevice
    } else {
        FileKind::Unknown
    }
}

/// The short name of a kind of file.
pub fn filetype_to_str(f: &FileKind) -> (s: &'static str)
    ensures
        s@ == match *f {
            FileKind::RegularFile => "file"@,
            FileKind::Directory => "dir"@,
            FileKind::Symlink => "sym"@,
            FileKind::Fifo => "fifo"@,
            FileKind::Socket => "sock"@,
            FileKind::CharacterDevice => "char"@,
            FileKind::BlockDevice => "blck"@,
            FileKind::Unknown => "?"@,
        },
{
    match f {
        FileKind::RegularFile => "file",
        FileKind::Directory => "dir",
        FileKind::Symlink => "sym",
        FileKind::Fifo => "fifo",
        FileKind::Socket => "sock",
        FileKind::CharacterDevice => "char",
        FileKind::BlockDevice => "blck",
        FileKind::Unknown => "?",
    }
}

/// The mode of a file: its type and permission bits.
#[derive(Debug, Copy, Clone, PartialEq, Eq, Structural)]
pub struct Mode(pub u32);

/// The letter of a file type in a permission string.
pub open spec fn type_letter(m: u32) -> char {
    let t = m & 0o170000;
    if t == 0o100000 {
        '-'
    } else if t == 0o040000 {
        'd'
    } else if t == 0o120000 {
        'l'
    } else if t == 0o020000 {
        'c'
    } else if t == 0o060000 {
        'b'
    } else if t == 0o010000 {
        'p'
    } else if t == 0o140000 {
        's'
    } else {
        '?'
    }
}

/// `ch` where bit `mask` is set, else `-`.
pub open spec fn bit_letter(m: u32, mask: u32, ch: char) -> char {
    if m & mask != 0 {
        ch
    } else {
        '-'
    }
}

/// The execute letter of a class: `x` for execute, `set` (`s` or `t`)
/// with a special bit, in upper case where execute is missing.
pub open spec fn exec_letter(m: u32, special: u32, exec: u32, set: char, set_alone: char) -> char {
    if m & special != 0 && m & exec != 0 {
        set
    } else if m & special != 0 {
        set_alone
    } else if m & exec != 0 {
        'x'
    } else {
        '-'
    }
}

/// The permission string of a mode, as `ls -l` writes it.
pub open spec fn mode_string(m: u32) -> Seq<char> {
    seq![
        type_letter(m),
        bit_letter(m, 0o400, 'r'),
        bit_letter(m, 0o200, 'w'),
        exec_letter(m, 0o4000, 0o100, 's', 'S'),
        bit_letter(m, 0o040, 'r'),
        bit_letter(m, 0o020, 'w'),
        exec_letter(m, 0o2000, 0o010, 's', 'S'),
        bit_letter(m, 0o004, 'r'),
        bit_letter(m, 0o002, 'w'),
        exec_letter(m, 0o1000, 0o001, 't', 'T'),
    ]
}

fn bit(m: u32, mask: u32, ch: char) -> (c: char)
    ensures
        c == bit_letter(m, mask, ch),
{
    if m & mask != 0 {
        ch
    } else {
        '-'
    }
}

fn exec(m: u32, special: u32, x: u32, set: char, set_alone: char) -> (c: char)
    ensures
        c == exec_letter(m, special, x, set, set_alone),
{
    if m & special != 0 && m & x != 0 {
        set
    } else if m & special != 0 {
        set_alone
    } else if m & x != 0 {
        'x'
    } else {
        '-'
    }
}

impl Mode {
    /// The permission string, such as `drwxr-xr-x`.
    pub fn to_string(&self) -> (s: String)
        ensures
            s@ == mode_string(self.0),
    {
        let m = self.0;
        let t = m & 0o170000;
        let file_type = if t == 0o100000 {
            '-'
        } else if t == 0o040000 {
            'd'
        } else if t == 0o120000 {
            'l'
        } else if t == 0o020000 {
            'c'
        } else if t == 0o060000 {
            'b'
        } else if t == 0o010000 {
            'p'
        } else if t == 0o140000 {
            's'
        } else {
            '?'
        };
        let v = [
            file_type,
            bit(m, 0o400, 'r'),
            bit(m, 0o200, 'w'),
            exec(m, 0o4000, 0o100, 's', 'S'),
            bit(m, 0o040, 'r'),
            bit(m, 0o020, 'w'),
            exec(m, 0o2000, 0o010, 's', 'S'),
            bit(m, 0o004, 'r'),
            bit(m, 0o002, 'w'),
            exec(m, 0o1000, 0o001, 't', 'T'),
        ];
        proof {
            assert(v@ =~= mode_string(m));
        }
        string_of(&v)
    }
}

} // verus!
