//! What the terminal view sends to the program behind it for a key press:
//! the escape sequence of a named key, or the text the key typed.
use vstd::prelude::*;
use vstd::string::StringSliceAdditionalSpecFns;

verus! {

/// The keys that the terminal view sends as escape sequences, and the rest.
#[derive(Debug, Copy, Clone, PartialEq, Eq, Structural)]
pub enum TtyKey {
    Enter,
    Tab,
    Backspace,
    Escape,
    ArrowUp,
    ArrowDown,
    ArrowRight,
    ArrowLeft,
    Home,
    End,
    Insert,
    Delete,
    PageUp,
    PageDown,
    F1,
    F2,
    F3,
    F4,
    F5,
    F6,
    F7,
    F8,
    F9,
    F10,
    F11,
    F12,
    /// Any other key
    Other,
}

/// The bytes a named key sends (an xterm-style escape sequence, or the
/// control character of Enter, Tab, Backspace and Escape).
pub open spec fn key_sequence(k: TtyKey) -> Option<Seq<u8>> {
    match k {
        TtyKey::Enter => Some(seq![0x0du8]),
        TtyKey::Tab => Some(seq![0x09u8]),
        TtyKey::Backspace => Some(seq![0x7fu8]),
        TtyKey::Escape => Some(seq![0x1bu8]),
        TtyKey::ArrowUp => Some(seq![0x1bu8, 0x5b, 0x41]),
        TtyKey::ArrowDown => Some(seq![0x1bu8, 0x5b, 0x42]),
        TtyKey::ArrowRight => Some(seq![0x1bu8, 0x5b, 0x43]),
        TtyKey::ArrowLeft => Some(seq![0x1bu8, 0x5b, 0x44]),
        TtyKey::Home => Some(seq![0x1bu8, 0x5b, 0x48]),
        TtyKey::End => Some(seq![0x1bu8, 0x5b, 0x46]),
        TtyKey::Insert => Some(seq![0x1bu8, 0x5b, 0x32, 0x7e]),
        TtyKey::Delete => Some(seq![0x1bu8, 0x5b, 0x33, 0x7e]),
        TtyKey::PageUp => Some(seq![0x1bu8, 0x5b, 0x35, 0x7e]),
        TtyKey::PageDown => Some(seq![0x1bu8, 0x5b, 0x36, 0x7e]),
        TtyKey::F1 => Some(seq![0x1bu8, 0x4f, 0x50]),
        TtyKey::F2 => Some(seq![0x1bu8, 0x4f, 0x51]),
        TtyKey::F3 => Some(seq![0x1bu8, 0x4f, 0x52]),
        TtyKey::F4 => Some(seq![0x1bu8, 0x4f, 0x53]),
        TtyKey::F5 => Some(seq![0x1bu8, 0x5b, 0x31, 0x35, 0x7e]),
        TtyKey::F6 => Some(seq![0x1bu8, 0x5b, 0x31, 0x37, 0x7e]),
        TtyKey::F7 => Some(seq![0x1bu8, 0x5b, 0x31, 0x38, 0x7e]),
        TtyKey::F8 => Some(seq![0x1bu8, 0x5b, 0x31, 0x39, 0x7e]),
        TtyKey::F9 => Some(seq![0x1bu8, 0x5b, 0x32, 0x30, 0x7e]),
        TtyKey::F10 => Some(seq![0x1bu8, 0x5b, 0x32, 0x31, 0x7e]),
        TtyKey::F11 => Some(seq![0x1bu8, 0x5b, 0x32, 0x33, 0x7e]),
        TtyKey::F12 => Some(seq![0x1bu8, 0x5b, 0x32, 0x34, 0x7e]),
        TtyKey::Other => None,
    }
}

/// The bytes of a named key.
pub fn key_bytes(k: TtyKey) -> (r: Option<Vec<u8>>)
    ensures
        match key_sequence(k) {
            Some(s) => r matches Some(v) && v@ == s,
            None => r is None,
        },
{
    let v: Vec<u8> = match k {
        TtyKey::Enter => vec![0x0d],
        TtyKey::Tab => vec![0x09],
        TtyKey::Backspace => vec![0x7f],
        TtyKey::Escape => vec![0x1b],
        TtyKey::ArrowUp => vec![0x1b, 0x5b, 0x41],
        TtyKey::ArrowDown => vec![0x1b, 0x5b, 0x42],
        TtyKey::ArrowRight => vec![0x1b, 0x5b, 0x43],
        TtyKey::ArrowLeft => vec![0x1b, 0x5b, 0x44],
        TtyKey::Home => vec![0x1b, 0x5b, 0x48],
        TtyKey::End => vec![0x1b, 0x5b, 0x46],
        TtyKey::Insert => vec![0x1b, 0x5b, 0x32, 0x7e],
        TtyKey::Delete => vec![0x1b, 0x5b, 0x33, 0x7e],
        TtyKey::PageUp => vec![0x1b, 0x5b, 0x35, 0x7e],
        TtyKey::PageDown => vec![0x1b, 0x5b, 0x36, 0x7e],
        TtyKey::F1 => vec![0x1b, 0x4f, 0x50],
        TtyKey::F2 => vec![0x1b, 0x4f, 0x51],
        TtyKey::F3 => vec![0x1b, 0x4f, 0x52],
        TtyKey::F4 => vec![0x1b, 0x4f, 0x53],
        TtyKey::F5 => vec![0x1b, 0x5b, 0x31, 0x35, 0x7e],
        TtyKey::F6 => vec![0x1b, 0x5b, 0x31, 0x37, 0x7e],
        TtyKey::F7 => vec![0x1b, 0x5b, 0x31, 0x38, 0x7e],
        TtyKey::F8 => vec![0x1b, 0x5b, 0x31, 0x39, 0x7e],
        TtyKey::F9 => vec![0x1b, 0x5b, 0x32, 0x30, 0x7e],
        TtyKey::F10 => vec![0x1b, 0x5b, 0x32, 0x31, 0x7e],
        TtyKey::F11 => vec![0x1b, 0x5b, 0x32, 0x33, 0x7e],
        TtyKey::F12 => vec![0x1b, 0x5b, 0x32, 0x34, 0x7e],
        TtyKey::Other => {
            return None;
        },
    };
    assert(v@ =~= key_sequence(k)->Some_0);
    Some(v)
}

/// What the view sends for a key press, while it takes input: the named
/// key's sequence, else the bytes of the text the key typed, if any.
pub open spec fn tty_bytes(take_input: bool, k: TtyKey, text: Option<Seq<u8>>) -> Option<Seq<u8>> {
    if !take_input {
        None
    } else {
        match key_sequence(k) {
            Some(s) => Some(s),
            None => text,
        }
    }
}

/// The bytes of an optional text.
pub open spec fn text_bytes(text: Option<&str>) -> Option<Seq<u8>> {
    match text {
        Some(t) => Some(t.spec_bytes()),
        None => None,
    }
}

/// What the view sends for a key press; `None` where it sends nothing and
/// lets the event go on.
pub fn tty_input(take_input: bool, key: TtyKey, text: Option<&str>) -> (r: Option<Vec<u8>>)
    ensures
        match tty_bytes(take_input, key, text_bytes(text)) {
            Some(s) => r matches Some(v) && v@ == s,
            None => r is None,
        },
{
    if !take_input {
        return None;
    }
    match key_bytes(key) {
        Some(v) => Some(v),
        None => match text {
            Some(t) => {
                let b = t.as_bytes();
                let mut v: Vec<u8> = Vec::new();
                let mut i: usize = 0;
                while i < b.len()
                    invariant
                        0 <= i <= b.len(),
                        v@ == b@.take(i as int),
                    decreases b.len() - i,
                {
                    v.push(b[i]);
                    assert(b@.take(i + 1) =~= b@.take(i as int).push(b@[i as int]));
                    i += 1;
                }
                assert(b@.take(b@.len() as int) =~= b@);
                Some(v)
            },
            None => None,
        },
    }
}

/// The control sequence introducer, `ESC [`, then a final letter.
pub open spec fn csi_letter(letter: char) -> Seq<u8> {
    seq![0x1bu8, '[' as u8, letter as u8]
}

/// `ESC [`, a number's digits, then `~`.
pub open spec fn csi_tilde(digits: Seq<char>) -> Seq<u8> {
    seq![0x1bu8, '[' as u8] + digits.map_values(|c: char| c as u8) + seq!['~' as u8]
}

/// While the view takes input, Enter sends a carriage return, Tab a tab,
/// Backspace DEL and Escape ESC; Insert, Delete, Page Up and Page Down
/// send `ESC [ 2 ~`, `ESC [ 3 ~`, `ESC [ 5 ~` and `ESC [ 6 ~`; any other
/// key sends the text it typed, if any.
pub proof fn law_editing_keys_send_their_codes(text: Option<Seq<u8>>)
    ensures
        tty_bytes(true, TtyKey::Enter, text) == Some(seq!['\r' as u8]),
        tty_bytes(true, TtyKey::Tab, text) == Some(seq!['\t' as u8]),
        tty_bytes(true, TtyKey::Backspace, text) == Some(seq![127u8]),
        tty_bytes(true, TtyKey::Escape, text) == Some(seq![27u8]),
        tty_bytes(true, TtyKey::Insert, text) == Some(csi_tilde(seq!['2'])),
        tty_bytes(true, TtyKey::Delete, text) == Some(csi_tilde(seq!['3'])),
        tty_bytes(true, TtyKey::PageUp, text) == Some(csi_tilde(seq!['5'])),
        tty_bytes(true, TtyKey::PageDown, text) == Some(csi_tilde(seq!['6'])),
        tty_bytes(true, TtyKey::Other, text) == text,
{
    assert(csi_tilde(seq!['2']) =~= seq![0x1bu8, 0x5b, 0x32, 0x7e]);
    assert(csi_tilde(seq!['3']) =~= seq![0x1bu8, 0x5b, 0x33, 0x7e]);
    assert(csi_tilde(seq!['5']) =~= seq![0x1bu8, 0x5b, 0x35, 0x7e]);
    assert(csi_tilde(seq!['6']) =~= seq![0x1bu8, 0x5b, 0x36, 0x7e]);
    assert(seq!['\r' as u8] =~= seq![0x0du8]);
    assert(seq!['\t' as u8] =~= seq![0x09u8]);
}

/// `ESC O` then a final letter.
pub open spec fn ss3_letter(letter: char) -> Seq<u8> {
    seq![0x1bu8, 'O' as u8, letter as u8]
}

/// While the view takes input, the function keys send their xterm
/// sequences: F1 to F4 `ESC O P` to `ESC O S`, and F5 to F12 `ESC [ n ~`
/// with n 15, 17, 18, 19, 20, 21, 23 and 24.
pub proof fn law_function_keys_send_xterm_sequences(text: Option<Seq<u8>>)
    ensures
        tty_bytes(true, TtyKey::F1, text) == Some(ss3_letter('P')),
        tty_bytes(true, TtyKey::F2, text) == Some(ss3_letter('Q')),
        tty_bytes(true, TtyKey::F3, text) == Some(ss3_letter('R')),
        tty_bytes(true, TtyKey::F4, text) == Some(ss3_letter('S')),
        tty_bytes(true, TtyKey::F5, text) == Some(csi_tilde(seq!['1', '5'])),
        tty_bytes(true, TtyKey::F6, text) == Some(csi_tilde(seq!['1', '7'])),
        tty_bytes(true, TtyKey::F7, text) == Some(csi_tilde(seq!['1', '8'])),
        tty_bytes(true, TtyKey::F8, text) == Some(csi_tilde(seq!['1', '9'])),
        tty_bytes(true, TtyKey::F9, text) == Some(csi_tilde(seq!['2', '0'])),
        tty_bytes(true, TtyKey::F10, text) == Some(csi_tilde(seq!['2', '1'])),
        tty_bytes(true, TtyKey::F11, text) == Some(csi_tilde(seq!['2', '3'])),
        tty_bytes(true, TtyKey::F12, text) == Some(csi_tilde(seq!['2', '4'])),
{
    assert(ss3_letter('P') =~= seq![0x1bu8, 0x4f, 0x50]);
    assert(ss3_letter('Q') =~= seq![0x1bu8, 0x4f, 0x51]);
    assert(ss3_letter('R') =~= seq![0x1bu8, 0x4f, 0x52]);
    assert(ss3_letter('S') =~= seq![0x1bu8, 0x4f, 0x53]);
    assert(csi_tilde(seq!['1', '5']) =~= seq![0x1bu8, 0x5b, 0x31, 0x35, 0x7e]);
    assert(csi_tilde(seq!['1', '7']) =~= seq![0x1bu8, 0x5b, 0x31, 0x37, 0x7e]);
    assert(csi_tilde(seq!['1', '8']) =~= seq![0x1bu8, 0x5b, 0x31, 0x38, 0x7e]);
    assert(csi_tilde(seq!['1', '9']) =~= seq![0x1bu8, 0x5b, 0x31, 0x39, 0x7e]);
    assert(csi_tilde(seq!['2', '0']) =~= seq![0x1bu8, 0x5b, 0x32, 0x30, 0x7e]);
    assert(csi_tilde(seq!['2', '1']) =~= seq![0x1bu8, 0x5b, 0x32, 0x31, 0x7e]);
    assert(csi_tilde(seq!['2', '3']) =~= seq![0x1bu8, 0x5b, 0x32, 0x33, 0x7e]);
    assert(csi_tilde(seq!['2', '4']) =~= seq![0x1bu8, 0x5b, 0x32, 0x34, 0x7e]);
}

/// While the view takes input, each cursor key sends its xterm sequence
/// whatever text came with it: up `ESC [ A`, down `ESC [ B`, right
/// `ESC [ C`, left `ESC [ D`; Home `ESC [ H` and End `ESC [ F`. Without
/// input taken, no key sends anything.
pub proof fn law_cursor_keys_send_xterm_sequences(take_input: bool, text: Option<Seq<u8>>, k: TtyKey)
    ensures
        tty_bytes(true, TtyKey::ArrowUp, text) == Some(csi_letter('A')),
        tty_bytes(true, TtyKey::ArrowDown, text) == Some(csi_letter('B')),
        tty_bytes(true, TtyKey::ArrowRight, text) == Some(csi_letter('C')),
        tty_bytes(true, TtyKey::ArrowLeft, text) == Some(csi_letter('D')),
        tty_bytes(true, TtyKey::Home, text) == Some(csi_letter('H')),
        tty_bytes(true, TtyKey::End, text) == Some(csi_letter('F')),
        tty_bytes(false, k, text) is None,
{
    assert(csi_letter('A') =~= seq![0x1bu8, 0x5b, 0x41]);
    assert(csi_letter('B') =~= seq![0x1bu8, 0x5b, 0x42]);
    assert(csi_letter('C') =~= seq![0x1bu8, 0x5b, 0x43]);
    assert(csi_letter('D') =~= seq![0x1bu8, 0x5b, 0x44]);
    assert(csi_letter('H') =~= seq![0x1bu8, 0x5b, 0x48]);
    assert(csi_letter('F') =~= seq![0x1bu8, 0x5b, 0x46]);
}

} // verus!
