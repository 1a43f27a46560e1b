//! How a child process ended: the reason read from its wait status, the
//! shell's own exit code for it, and the words the shell shows for it.
use vstd::prelude::*;
use crate::bolger::push_str;
use crate::sizes::{decimal_of, decimal_string};
use crate::unicode::{chars_of, string_of};

verus! {

/// A signal, by its number (Linux numbering).
#[derive(Debug, Copy, Clone, PartialEq, Eq, Structural)]
pub struct Signal(pub i32);

pub const SIGHUP: i32 = 1;
pub const SIGINT: i32 = 2;
pub const SIGQUIT: i32 = 3;
pub const SIGILL: i32 = 4;
pub const SIGTRAP: i32 = 5;
pub const SIGABRT: i32 = 6;
pub const SIGBUS: i32 = 7;
pub const SIGFPE: i32 = 8;
pub const SIGKILL: i32 = 9;
pub const SIGSEGV: i32 = 11;
pub const SIGPIPE: i32 = 13;
pub const SIGTERM: i32 = 15;

/// Why a child process is gone.
#[derive(Debug, Copy, Clone, PartialEq, Eq, Structural)]
pub enum ExitReason {
    /// It exited with this status.
    Normal(i32),
    /// A signal with a name ended it.
    Signal { signal: Signal, cored: bool },
    /// Something else ended it: a signal without a name, or nothing the
    /// status tells.
    Unknown { sigval: Option<i32>, cored: bool },
}

/// The reason a wait status gives, from what the status says: its raw
/// value, the signal that ended the process if one did, whether that
/// signal has a name, and the exit status if the process exited. The core
/// dump flag is bit `0x80` of the raw value; a signal takes precedence over
/// an exit status.
pub open spec fn reason_of(raw: i32, signal: Option<i32>, named: bool, exit: Option<i32>) -> ExitReason {
    let cored = raw & 0x80 != 0;
    match signal {
        Some(s) => if named {
            ExitReason::Signal { signal: Signal(s), cored }
        } else {
            ExitReason::Unknown { sigval: Some(s), cored }
        },
        None => match exit {
            Some(code) => ExitReason::Normal(code),
            None => ExitReason::Unknown { sigval: None, cored },
        },
    }
}

impl ExitReason {
    /// The reason a wait status gives; `signal` is the terminating signal
    /// when the status says the process was signalled.
    pub fn from_wait(raw: i32, signal: Option<i32>, named: bool, exit: Option<i32>) -> (r: ExitReason)
        ensures
            r == reason_of(raw, signal, named, exit),
    {
        let cored = raw & 0x80 != 0;
        match signal {
            Some(s) => if named {
                ExitReason::Signal { signal: Signal(s), cored }
            } else {
                ExitReason::Unknown { sigval: Some(s), cored }
            },
            None => match exit {
                Some(code) => ExitReason::Normal(code),
                None => ExitReason::Unknown { sigval: None, cored },
            },
        }
    }
}

/// The exit code the shell itself ends with after a child ended so: the
/// low byte of an exit status, 128 plus the number of a signal (at most
/// 255), and 1 otherwise.
pub open spec fn exit_code_of(reason: ExitReason) -> u8 {
    match reason {
        ExitReason::Normal(code) => (code & 0xff) as u8,
        ExitReason::Signal { signal, .. } => if 0 <= signal.0 <= 127 {
            (128 + signal.0) as u8
        } else {
            255
        },
        ExitReason::Unknown { .. } => 1,
    }
}

/// The exit code the shell ends with after a child ended for `reason`.
pub fn exit_code_from_reason(reason: &ExitReason) -> (code: u8)
    ensures
        code == exit_code_of(*reason),
{
    match reason {
        ExitReason::Normal(code) => (*code & 0xff) as u8,
        ExitReason::Signal { signal, .. } => {
            let signum = signal.0;
            if 0 <= signum && signum <= 127 {
                (128 + signum) as u8
            } else {
                255
            }
        },
        ExitReason::Unknown { .. } => 1,
    }
}

/// A child that exited with a status from 0 to 255 makes the shell exit
/// with that same status.
pub proof fn law_small_exit_status_is_kept(code: i32)
    requires
        0 <= code <= 255,
    ensures
        exit_code_of(ExitReason::Normal(code)) == code,
{
    assert((code & 0xff) == code) by (bit_vector)
        requires
            0 <= code <= 255,
    ;
}

/// The words for a signal.
pub open spec fn signal_words(n: i32) -> Seq<char> {
    if n == SIGABRT {
        "Aborted"@
    } else if n == SIGBUS {
        "Bus error"@
    } else if n == SIGFPE {
        "Floating-point exception"@
    } else if n == SIGHUP {
        "Hanged up"@
    } else if n == SIGILL {
        "Illegal instruction"@
    } else if n == SIGINT {
        "Interrupted"@
    } else if n == SIGKILL {
        "Murdered"@
    } else if n == SIGPIPE {
        "Broken pipe"@
    } else if n == SIGQUIT {
        "Quit"@
    } else if n == SIGSEGV {
        "Segmentation fault"@
    } else if n == SIGTERM {
        "Terminated"@
    } else if n == SIGTRAP {
        "Trapped"@
    } else {
        "Unknown"@
    }
}

/// The words the shell shows for a signal.
pub fn signal_to_string(signal: Signal) -> (s: &'static str)
    ensures
        s@ == signal_words(signal.0),
{
    let n = signal.0;
    if n == SIGABRT {
        "Aborted"
    } else if n == SIGBUS {
        "Bus error"
    } else if n == SIGFPE {
        "Floating-point exception"
    } else if n == SIGHUP {
        "Hanged up"
    } else if n == SIGILL {
        "Illegal instruction"
    } else if n == SIGINT {
        "Interrupted"
    } else if n == SIGKILL {
        "Murdered"
    } else if n == SIGPIPE {
        "Broken pipe"
    } else if n == SIGQUIT {
        "Quit"
    } else if n == SIGSEGV {
        "Segmentation fault"
    } else if n == SIGTERM {
        "Terminated"
    } else if n == SIGTRAP {
        "Trapped"
    } else {
        "Unknown"
    }
}

/// An integer in decimal, with a minus sign when negative.
pub open spec fn int_text(i: int) -> Seq<char> {
    if i < 0 {
        seq!['-'] + decimal_of((-i) as nat)
    } else {
        decimal_of(i as nat)
    }
}

fn int_string(i: i32) -> (s: String)
    ensures
        s@ == int_text(i as int),
{
    if i < 0 {
        let magnitude: i64 = -(i as i64);
        let digits = decimal_string(magnitude as u128);
        let mut out: Vec<char> = Vec::new();
        out.push('-');
        push_str(&mut out, digits.as_str());
        assert(out@ =~= int_text(i as int));
        string_of(out.as_slice())
    } else {
        decimal_string(i as u128)
    }
}

/// Whether the process left a core dump.
pub open spec fn cored_of(reason: Option<ExitReason>) -> bool {
    match reason {
        Some(ExitReason::Signal { cored, .. }) => cored,
        Some(ExitReason::Unknown { cored, .. }) => cored,
        _ => false,
    }
}

/// The status shown beside a command: `Running` while it runs, then its
/// exit status, the words for its signal, `Signal(n)` for a signal without
/// a name, or `Exited (unknown)`; followed by ` (cored)` when it left a
/// core dump.
pub open spec fn status_text(reason: Option<ExitReason>) -> Seq<char> {
    let words = match reason {
        None => "Running"@,
        Some(ExitReason::Normal(code)) => int_text(code as int),
        Some(ExitReason::Signal { signal, .. }) => signal_words(signal.0),
        Some(ExitReason::Unknown { sigval: Some(s), .. }) => "Signal("@ + int_text(s as int) + ")"@,
        Some(ExitReason::Unknown { sigval: None, .. }) => "Exited (unknown)"@,
    };
    if cored_of(reason) {
        words + " (cored)"@
    } else {
        words
    }
}

/// The status shown beside a command.
pub fn status_label(reason: Option<ExitReason>) -> (s: String)
    ensures
        s@ == status_text(reason),
{
    let mut out: Vec<char> = Vec::new();
    match reason {
        None => push_str(&mut out, "Running"),
        Some(ExitReason::Normal(code)) => {
            let t = int_string(code);
            push_str(&mut out, t.as_str());
        },
        Some(ExitReason::Signal { signal, .. }) => push_str(&mut out, signal_to_string(signal)),
        Some(ExitReason::Unknown { sigval: Some(s), .. }) => {
            push_str(&mut out, "Signal(");
            let t = int_string(s);
            push_str(&mut out, t.as_str());
            push_str(&mut out, ")");
        },
        Some(ExitReason::Unknown { sigval: None, .. }) => push_str(&mut out, "Exited (unknown)"),
    }
    let cored = match reason {
        Some(ExitReason::Signal { cored, .. }) => cored,
        Some(ExitReason::Unknown { cored, .. }) => cored,
        _ => false,
    };
    if cored {
        push_str(&mut out, " (cored)");
    }
    assert(out@ =~= status_text(reason));
    string_of(out.as_slice())
}

/// The notice printed when a child ends: nothing for an exit, the words for
/// its signal, `Signal(n)`, or `Exited (unknown)`; then ` (core dumped`
/// when it left a core dump, and a line break.
pub open spec fn exit_notice_text(reason: ExitReason) -> Seq<char> {
    let words = match reason {
        ExitReason::Normal(_) => Seq::empty(),
        ExitReason::Signal { signal, .. } => signal_words(signal.0),
        ExitReason::Unknown { sigval: Some(s), .. } => "Signal("@ + int_text(s as int) + ")"@,
        ExitReason::Unknown { sigval: None, .. } => "Exited (unknown)"@,
    };
    let core = if cored_of(Some(reason)) {
        " (core dumped"@
    } else {
        Seq::empty()
    };
    words + core + "\n"@
}

/// The notice printed when a child ends.
pub fn exit_notice(reason: ExitReason) -> (s: String)
    ensures
        s@ == exit_notice_text(reason),
{
    let mut out: Vec<char> = Vec::new();
    match reason {
        ExitReason::Normal(_) => {},
        ExitReason::Signal { signal, .. } => push_str(&mut out, signal_to_string(signal)),
        ExitReason::Unknown { sigval: Some(s), .. } => {
            push_str(&mut out, "Signal(");
            let t = int_string(s);
            push_str(&mut out, t.as_str());
            push_str(&mut out, ")");
        },
        ExitReason::Unknown { sigval: None, .. } => push_str(&mut out, "Exited (unknown)"),
    }
    match reason {
        ExitReason::Signal { cored: true, .. } | ExitReason::Unknown { cored: true, .. } => {
            push_str(&mut out, " (core dumped");
        },
        _ => {},
    }
    push_str(&mut out, "\n");
    assert(out@ =~= exit_notice_text(reason));
    string_of(out.as_slice())
}

} // verus!
