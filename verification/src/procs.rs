//! Processes as `/proc/PID/stat` describes them: the state letters, the
//! fields that the process list shows, and the terminal's device numbers.
use vstd::prelude::*;
use crate::numbers::{parse_i32, parse_usize, parsed_int, IntErrorKind};
use crate::pieces::{first_sep, lemma_first_sep_range, split_on, split_pieces};
use crate::unicode::{chars_of, string_of};

verus! {

/// The scheduling state of a process.
#[derive(Debug, Copy, Clone, PartialEq, Eq, Structural)]
pub enum State {
    Running,
    Sleeping,
    /// Sleeping in an uninterruptible wait
    SleepingD,
    Zombie,
    Stopped,
    TracingStopped,
    IdleKernel,
}

/// The state that a state field of `/proc/PID/stat` names.
pub open spec fn state_of_field(f: Seq<char>) -> Option<State> {
    if f == seq!['R'] {
        Some(State::Running)
    } else if f == seq!['S'] {
        Some(State::Sleeping)
    } else if f == seq!['D'] {
        Some(State::SleepingD)
    } else if f == seq!['Z'] {
        Some(State::Zombie)
    } else if f == seq!['T'] {
        Some(State::Stopped)
    } else if f == seq!['t'] {
        Some(State::TracingStopped)
    } else if f == seq!['I'] {
        Some(State::IdleKernel)
    } else {
        None
    }
}

/// The letter of a state, as `/proc` writes it.
pub open spec fn state_letter(s: State) -> char {
    match s {
        State::Running => 'R',
        State::Sleeping => 'S',
        State::SleepingD => 'D',
        State::Zombie => 'Z',
        State::Stopped => 'T',
        State::TracingStopped => 't',
        State::IdleKernel => 'I',
    }
}

/// Reading a state field and writing the state back agree: the letter that
/// a state is written as reads back as that state, and a field that names
/// a state is that state's letter. So no two states share a letter.
pub proof fn law_state_letters_read_back(s: State, f: Seq<char>)
    ensures
        state_of_field(seq![state_letter(s)]) == Some(s),
        state_of_field(f) matches Some(t) ==> f == seq![state_letter(t)],
{
    let w = seq![state_letter(s)];
    assert forall|c: char, d: char| #![trigger seq![c], seq![d]] seq![c] == seq![d] ==> c == d by {
        if seq![c] == seq![d] {
            assert(seq![c][0] == seq![d][0]);
        }
    }
    assert(w[0] == state_letter(s));
    assert(seq!['R'][0] == 'R' && seq!['S'][0] == 'S' && seq!['D'][0] == 'D' && seq!['Z'][0] == 'Z'
        && seq!['T'][0] == 'T' && seq!['t'][0] == 't' && seq!['I'][0] == 'I');
    match s {
        State::Running => assert(w =~= seq!['R']),
        State::Sleeping => assert(w =~= seq!['S']),
        State::SleepingD => assert(w =~= seq!['D']),
        State::Zombie => assert(w =~= seq!['Z']),
        State::Stopped => assert(w =~= seq!['T']),
        State::TracingStopped => assert(w =~= seq!['t']),
        State::IdleKernel => assert(w =~= seq!['I']),
    }
}

impl State {
    /// The name of the state.
    pub fn to_str(&self) -> (s: &'static str)
        ensures
            s@ == match *self {
                State::Running => "Running"@,
                State::Sleeping => "Sleeping"@,
                State::SleepingD => "SleepingD"@,
                State::Zombie => "Zombie"@,
                State::Stopped => "Stopped"@,
                State::TracingStopped => "TracingStopped"@,
                State::IdleKernel => "IdleKernel"@,
            },
    {
        match self {
            State::Running => "Running",
            State::Sleeping => "Sleeping",
            State::SleepingD => "SleepingD",
            State::Zombie => "Zombie",
            State::Stopped => "Stopped",
            State::TracingStopped => "TracingStopped",
            State::IdleKernel => "IdleKernel",
        }
    }

    /// The letter of the state, as `/proc` writes it.
    pub fn to_string(&self) -> (s: String)
        ensures
            s@ == seq![state_letter(*self)],
    {
        let c = match self {
            State::Running => 'R',
            State::Sleeping => 'S',
            State::SleepingD => 'D',
            State::Zombie => 'Z',
            State::Stopped => 'T',
            State::TracingStopped => 't',
            State::IdleKernel => 'I',
        };
        let v = [c];
        proof {
            assert(v@ =~= seq![c]);
        }
        string_of(&v)
    }
}

/// A process, as the process list shows it.
#[derive(Debug)]
pub struct Process {
    pub pid: i32,
    /// The name of its program
    pub tcomm: String,
    pub state: State,
    pub ppid: i32,
    /// Time spent in user mode, in clock ticks
    pub utime: usize,
    /// Time spent in kernel mode, in clock ticks
    pub stime: usize,
    /// The controlling terminal, as a device number
    pub tty_nr: usize,
}

impl Process {
    /// The major and minor numbers of the controlling terminal: the major
    /// in bits 8 to 15 of the device number, the minor in bits 0 to 7 and
    /// from bit 20 on.
    pub fn majmin(&self) -> (r: (usize, usize))
        ensures
            r.0 == (self.tty_nr / 0x100) % 0x100,
            r.1 == self.tty_nr % 0x100 + (self.tty_nr / 0x100000) * 0x100,
    {
        let t = self.tty_nr;
        let maj = (t >> 8usize) & 0xffusize;
        let min = (t & 0xffusize) | ((t >> 12usize) & !0xffusize);
        assert(maj == (t / 0x100) % 0x100) by (bit_vector)
            requires
                maj == (t >> 8usize) & 0xffusize,
        ;
        assert(min == t % 0x100 + (t / 0x100000) * 0x100) by (bit_vector)
            requires
                min == (t & 0xffusize) | ((t >> 12usize) & !0xffusize),
        ;
        (maj, min)
    }
}

/// Why a stat file could not be read.
#[derive(Debug)]
pub enum StatError {
    /// The name of the program is not between brackets
    NoCommand,
    /// The state field is not a known state
    UnknownState(String),
    /// A number field is not a number
    BadNumber(IntErrorKind),
}

/// Where the name of the program ends: the first closing bracket.
pub open spec fn close_at(s: Seq<char>) -> int {
    first_sep(s, ')', 0)
}

/// Where the name of the program starts: the first opening bracket before
/// [`close_at`].
pub open spec fn open_at(s: Seq<char>) -> int {
    first_sep(s.take(close_at(s)), '(', 0)
}

/// The fields after the name of the program and the space after it.
pub open spec fn stat_fields(s: Seq<char>) -> Seq<Seq<char>> {
    split_pieces(s.skip(close_at(s) + 2), ' ')
}

/// Reading the stat file `s` would stop the program: the name of the
/// program is followed by no single-byte character, or too few fields
/// follow it.
pub open spec fn stat_panics(s: Seq<char>) -> bool {
    let close = close_at(s);
    let f = stat_fields(s);
    if close >= s.len() || open_at(s) >= close {
        false
    } else if close + 1 >= s.len() || s[close + 1] as u32 >= 0x80 {
        true
    } else if state_of_field(f[0]) is None {
        false
    } else if f.len() < 3 {
        true
    } else if parsed_int(f[2], i32::MIN as int, i32::MAX as int) is Err || parsed_int(
        f[2],
        0,
        usize::MAX as int,
    ) is Err {
        false
    } else if f.len() < 12 {
        true
    } else if parsed_int(f[11], 0, usize::MAX as int) is Err {
        false
    } else {
        f.len() < 13
    }
}

/// The first error, if any, in reading a number field.
pub open spec fn number_error(r: Result<int, IntErrorKind>) -> Option<IntErrorKind> {
    match r {
        Ok(_) => None,
        Err(e) => Some(e),
    }
}

/// What reading the stat file `s` of process `pid` gives, where it does not
/// stop the program: the error, or the process. Note that the parent and
/// the terminal are both read from the third field after the state.
pub open spec fn stat_result(pid: i32, s: Seq<char>, r: Result<Process, StatError>) -> bool {
    let close = close_at(s);
    let f = stat_fields(s);
    if close >= s.len() || open_at(s) >= close {
        r matches Err(StatError::NoCommand)
    } else if state_of_field(f[0]) is None {
        r matches Err(StatError::UnknownState(m)) && m@ == f[0]
    } else if parsed_int(f[2], i32::MIN as int, i32::MAX as int) is Err {
        r matches Err(StatError::BadNumber(e)) && Some(e) == number_error(
            parsed_int(f[2], i32::MIN as int, i32::MAX as int),
        )
    } else if parsed_int(f[2], 0, usize::MAX as int) is Err {
        r matches Err(StatError::BadNumber(e)) && Some(e) == number_error(
            parsed_int(f[2], 0, usize::MAX as int),
        )
    } else if parsed_int(f[11], 0, usize::MAX as int) is Err {
        r matches Err(StatError::BadNumber(e)) && Some(e) == number_error(
            parsed_int(f[11], 0, usize::MAX as int),
        )
    } else if parsed_int(f[12], 0, usize::MAX as int) is Err {
        r matches Err(StatError::BadNumber(e)) && Some(e) == number_error(
            parsed_int(f[12], 0, usize::MAX as int),
        )
    } else {
        &&& r matches Ok(p)
        &&& p.pid == pid
        &&& p.tcomm@ == s.subrange(open_at(s) + 1, close)
        &&& Some(p.state) == state_of_field(f[0])
        &&& parsed_int(f[2], i32::MIN as int, i32::MAX as int) == Ok::<int, IntErrorKind>(
            p.ppid as int,
        )
        &&& parsed_int(f[2], 0, usize::MAX as int) == Ok::<int, IntErrorKind>(p.tty_nr as int)
        &&& parsed_int(f[11], 0, usize::MAX as int) == Ok::<int, IntErrorKind>(p.utime as int)
        &&& parsed_int(f[12], 0, usize::MAX as int) == Ok::<int, IntErrorKind>(p.stime as int)
    }
}

fn first_char_at(cs: &[char], c: char, end: usize) -> (r: usize)
    requires
        end <= cs.len(),
    ensures
        r == first_sep(cs@.take(end as int), c, 0),
{
    let ghost t = cs@.take(end as int);
    let mut i: usize = 0;
    while i < end && cs[i] != c
        invariant
            0 <= i <= end <= cs.len(),
            t == cs@.take(end as int),
            first_sep(t, c, 0) == first_sep(t, c, i as int),
        decreases end - i,
    {
        proof {
            assert(t[i as int] == cs@[i as int]);
        }
        i += 1;
    }
    proof {
        if i < end {
            assert(t[i as int] == cs@[i as int]);
        }
    }
    i
}

fn field_state(f: &[char]) -> (r: Option<State>)
    ensures
        r == state_of_field(f@),
{
    if f.len() != 1 {
        return None;
    }
    let c = f[0];
    proof {
        assert(f@ =~= seq![c]);
    }
    if c == 'R' {
        Some(State::Running)
    } else if c == 'S' {
        Some(State::Sleeping)
    } else if c == 'D' {
        Some(State::SleepingD)
    } else if c == 'Z' {
        Some(State::Zombie)
    } else if c == 'T' {
        Some(State::Stopped)
    } else if c == 't' {
        Some(State::TracingStopped)
    } else if c == 'I' {
        Some(State::IdleKernel)
    } else {
        None
    }
}

fn copy_range(cs: &[char], from: usize, to: usize) -> (r: Vec<char>)
    requires
        from <= to <= cs.len(),
    ensures
        r@ == cs@.subrange(from as int, to as int),
{
    let mut out: Vec<char> = Vec::new();
    let mut i: usize = from;
    while i < to
        invariant
            from <= i <= to <= cs.len(),
            out@ == cs@.subrange(from as int, i as int),
        decreases to - i,
    {
        out.push(cs[i]);
        proof {
            assert(cs@.subrange(from as int, i + 1) =~= cs@.subrange(from as int, i as int).push(
                cs@[i as int],
            ));
        }
        i += 1;
    }
    out
}

/// Reads the stat file of process `pid`, on any contents: `None` where
/// the contents would stop the program (see [`stat_panics`]), else what
/// [`parse_stat`] gives.
pub fn try_parse_stat(pid: i32, contents: &str) -> (r: Option<Result<Process, StatError>>)
    ensures
        r is None <==> stat_panics(contents@),
        r matches Some(x) ==> stat_result(pid, contents@, x),
{
    let cs = chars_of(contents);
    let close = first_char_at(cs.as_slice(), ')', cs.len());
    proof {
        assert(cs@.take(cs@.len() as int) =~= cs@);
        lemma_first_sep_range(cs@, ')', 0);
    }
    if close >= cs.len() {
        return Some(Err(StatError::NoCommand));
    }
    let open = first_char_at(cs.as_slice(), '(', close);
    proof {
        lemma_first_sep_range(cs@.take(close as int), '(', 0);
    }
    if open >= close {
        return Some(Err(StatError::NoCommand));
    }
    if close + 1 >= cs.len() || cs[close + 1] as u32 >= 0x80 {
        return None;
    }
    let tcomm = string_of(copy_range(cs.as_slice(), open + 1, close).as_slice());
    let after = copy_range(cs.as_slice(), close + 2, cs.len());
    proof {
        assert(after@ =~= cs@.skip(close + 2));
    }
    let f = split_on(after.as_slice(), ' ');
    proof {
        assert(f@.len() >= 1) by {
            crate::pieces::lemma_split_pieces_nonempty(after@, ' ');
        }
    }
    let state = match field_state(f[0].as_slice()) {
        Some(st) => st,
        None => {
            return Some(Err(StatError::UnknownState(string_of(f[0].as_slice()))));
        },
    };
    if f.len() < 3 {
        return None;
    }
    let f2 = string_of(f[2].as_slice());
    let ppid = match parse_i32(f2.as_str()) {
        Ok(v) => v,
        Err(e) => {
            return Some(Err(StatError::BadNumber(e)));
        },
    };
    let tty_nr = match parse_usize(f2.as_str()) {
        Ok(v) => v,
        Err(e) => {
            return Some(Err(StatError::BadNumber(e)));
        },
    };
    if f.len() < 12 {
        return None;
    }
    let utime = match parse_usize(string_of(f[11].as_slice()).as_str()) {
        Ok(v) => v,
        Err(e) => {
            return Some(Err(StatError::BadNumber(e)));
        },
    };
    if f.len() < 13 {
        return None;
    }
    let stime = match parse_usize(string_of(f[12].as_slice()).as_str()) {
        Ok(v) => v,
        Err(e) => {
            return Some(Err(StatError::BadNumber(e)));
        },
    };
    Some(Ok(Process { pid, tcomm, state, ppid, utime, stime, tty_nr }))
}

/// Reads the stat file of process `pid`: the name of its program between
/// brackets, then its state and the number fields after it.
pub fn parse_stat(pid: i32, contents: &str) -> (r: Result<Process, StatError>)
    requires
        !stat_panics(contents@),
    ensures
        stat_result(pid, contents@, r),
{
    match try_parse_stat(pid, contents) {
        Some(r) => r,
        None => {
            proof {
                assert(false);
            }
            Err(StatError::NoCommand)
        },
    }
}

} // verus!
