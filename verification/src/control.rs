//! The modal controller of the shell window: its mode and its walk through
//! the history of command lines.
use vstd::prelude::*;

verus! {

/// The input mode of the window.
#[derive(Copy, Clone, Debug, PartialEq, Eq, Hash, Structural)]
pub enum ControlMode {
    /// Keys move the cursor and walk the history
    Normal,
    /// Keys edit the command line
    Insert,
    /// Keys go to the running program
    Term,
}

/// The mode and, while walking the history, the entry shown.
#[derive(Copy, Clone, Debug, PartialEq, Eq, Hash, Structural)]
pub struct ControlState {
    pub mode: ControlMode,
    pub history_cursor: Option<usize>,
}

/// A request to the controller.
#[derive(Clone, Debug, PartialEq, Eq, Structural)]
pub enum ControlMessage {
    ChangeMode(ControlMode),
    HistoryUp,
    HistoryDown,
}

impl ControlState {
    /// The state of a new window: normal mode, not walking the history.
    pub fn new() -> (s: Self)
        ensures
            s.mode == ControlMode::Normal,
            s.history_cursor is None,
    {
        Self { mode: ControlMode::Normal, history_cursor: None }
    }
}

/// The history entry shown after a step up through `n` entries, or `None`
/// if the step changes nothing.
pub open spec fn step_up(cursor: Option<usize>, n: nat) -> Option<usize> {
    if n >= 1 {
        let hc = match cursor {
            Some(c) => c as int,
            None => n as int,
        };
        let hc = if hc >= 1 { hc - 1 } else { 0 };
        if Some(hc as usize) != cursor {
            Some(hc as usize)
        } else {
            None
        }
    } else {
        None
    }
}

/// The history position after a step down through `n` entries (`None` for
/// the fresh line), or `None` if the step changes nothing.
pub open spec fn step_down(cursor: Option<usize>, n: nat) -> Option<Option<usize>> {
    if n >= 1 {
        let hc = match cursor {
            Some(c) => c as int,
            None => n - 1,
        };
        let next: Option<usize> = if hc + 1 == n {
            None
        } else {
            Some((hc + 1) as usize)
        };
        if next != cursor {
            Some(next)
        } else {
            None
        }
    } else {
        None
    }
}

/// Applies a controller message to the state and to the command line
/// `input`, given the command lines run so far.
pub fn update(
    control: &mut ControlState,
    input: &mut String,
    history: &Vec<String>,
    message: ControlMessage,
)
    requires
        message == ControlMessage::HistoryUp ==> (old(control).history_cursor matches Some(c)
            ==> c <= history.len()),
        message == ControlMessage::HistoryDown && history.len() >= 1 ==> (old(
            control,
        ).history_cursor matches Some(c) ==> c < history.len()),
    ensures
        match message {
            ControlMessage::ChangeMode(m) => final(control).mode == m
                && final(control).history_cursor == old(control).history_cursor
                && final(input)@ == old(input)@,
            ControlMessage::HistoryUp => final(control).mode == old(control).mode && match step_up(
                old(control).history_cursor,
                history.len() as nat,
            ) {
                Some(h) => final(control).history_cursor == Some(h) && final(input)@
                    == history@[h as int]@,
                None => final(control).history_cursor == old(control).history_cursor
                    && final(input)@ == old(input)@,
            },
            ControlMessage::HistoryDown => final(control).mode == old(control).mode
                && match step_down(old(control).history_cursor, history.len() as nat) {
                Some(Some(h)) => final(control).history_cursor == Some(h) && final(input)@
                    == history@[h as int]@,
                Some(None) => final(control).history_cursor is None && final(input)@
                    == Seq::<char>::empty(),
                None => final(control).history_cursor == old(control).history_cursor
                    && final(input)@ == old(input)@,
            },
        },
        (old(control).history_cursor matches Some(c) ==> c < history.len())
            ==> (final(control).history_cursor matches Some(c) ==> c < history.len()),
{
    match message {
        ControlMessage::ChangeMode(s) => control.mode = s,
        ControlMessage::HistoryUp => {
            let n = history.len();
            if n >= 1 {
                let hc = match control.history_cursor {
                    Some(c) => c,
                    None => n,
                };
                let hc = if hc >= 1 { hc - 1 } else { 0 };
                if Some(hc) != control.history_cursor {
                    control.history_cursor = Some(hc);
                    *input = history[hc].clone();
                }
            }
        },
        ControlMessage::HistoryDown => {
            let n = history.len();
            if n >= 1 {
                let hc = match control.history_cursor {
                    Some(c) => c,
                    None => n - 1,
                };
                let next = if hc + 1 == n { None } else { Some(hc + 1) };
                if next != control.history_cursor {
                    control.history_cursor = next;
                    match next {
                        Some(h) => {
                            *input = history[h].clone();
                        },
                        None => {
                            *input = String::new();
                        },
                    }
                }
            }
        },
    }
}

/// Stepping down right after stepping up from the fresh line returns to the
/// fresh line: the cursor is cleared and the command line emptied.
pub proof fn law_up_then_down_returns_to_fresh_line(n: nat)
    requires
        n >= 1,
        n <= usize::MAX,
    ensures
        step_up(None, n) == Some((n - 1) as usize),
        step_down(Some((n - 1) as usize), n) == Some(None::<usize>),
{
}

/// Stepping up shows an earlier entry than the one shown, or the last entry
/// from the fresh line; at the first entry it changes nothing.
pub proof fn law_up_moves_back(cursor: Option<usize>, n: nat)
    requires
        n >= 1,
        n <= usize::MAX,
        cursor matches Some(c) ==> c < n,
    ensures
        match cursor {
            Some(c) => if c > 0 {
                step_up(cursor, n) == Some((c - 1) as usize)
            } else {
                step_up(cursor, n) is None
            },
            None => step_up(cursor, n) == Some((n - 1) as usize),
        },
{
}

} // verus!
